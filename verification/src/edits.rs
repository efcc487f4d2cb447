//! The words one primitive edit away from a word: deletions, transpositions
//! of neighbours, substitutions and insertions over a fixed alphabet.

use crate::words::{
    chars_of, compare_words, insert_sorted, lemma_members_from, strictly_sorted, strings_of,
    words_in, Position,
};
use vstd::prelude::*;

verus! {

/// The alphabet that substitutions and insertions draw from: the 26 lowercase
/// Latin letters.
pub open spec fn is_letter(c: char) -> bool {
    'a' <= c <= 'z'
}

/// The letter number `k` of the alphabet, counted from 0.
pub open spec fn letter_at(k: int) -> char {
    (97 + k) as char
}

/// A primitive edit of a word. `at` is the position it works on; an insertion
/// puts its letter before the character at `at`, or at the end of the word.
pub enum Edit {
    Delete { at: int },
    Transpose { at: int },
    Substitute { at: int, letter: char },
    Insert { at: int, letter: char },
}

impl Edit {
    /// The position the edit works on.
    pub open spec fn position(self) -> int {
        match self {
            Edit::Delete { at } => at,
            Edit::Transpose { at } => at,
            Edit::Substitute { at, .. } => at,
            Edit::Insert { at, .. } => at,
        }
    }

    /// Whether the edit can be made on `word`: its position lies in the word
    /// (a transposition needs a right neighbour, an insertion may stand at the
    /// end) and its letter is of the alphabet.
    pub open spec fn applies_to(self, word: Seq<char>) -> bool {
        match self {
            Edit::Delete { at } => 0 <= at < word.len(),
            Edit::Transpose { at } => 0 <= at && at + 1 < word.len(),
            Edit::Substitute { at, letter } => 0 <= at < word.len() && is_letter(letter),
            Edit::Insert { at, letter } => 0 <= at <= word.len() && is_letter(letter),
        }
    }

    /// The word that the edit makes of `word`.
    pub open spec fn apply(self, word: Seq<char>) -> Seq<char> {
        match self {
            Edit::Delete { at } => word.remove(at),
            Edit::Transpose { at } => word.update(at, word[at + 1]).update(at + 1, word[at]),
            Edit::Substitute { at, letter } => word.update(at, letter),
            Edit::Insert { at, letter } => word.insert(at, letter),
        }
    }
}

/// The edit `e` can be made on `word` and gives `other`.
pub open spec fn edit_yields(e: Edit, word: Seq<char>, other: Seq<char>) -> bool {
    e.applies_to(word) && e.apply(word) == other
}

/// Some single edit turns `word` into `other`.
pub open spec fn one_edit(word: Seq<char>, other: Seq<char>) -> bool {
    exists|e: Edit| edit_yields(e, word, other)
}

/// The words at edit distance 1 from `word`: what one edit can make of it,
/// the word itself left out.
pub open spec fn edits1(word: Seq<char>) -> Set<Seq<char>> {
    Set::new(|other: Seq<char>| other != word && one_edit(word, other))
}

/// The words reached by an edit of a word at distance 1 from `word`.
pub open spec fn edits2(word: Seq<char>) -> Set<Seq<char>> {
    Set::new(
        |other: Seq<char>|
            exists|middle: Seq<char>| #[trigger]
                edits1(word).contains(middle) && edits1(middle).contains(other),
    )
}

/// `other` can be reached from `word` by at most `n` edits.
pub open spec fn within_edits(word: Seq<char>, other: Seq<char>, n: nat) -> bool
    decreases n,
{
    if n == 0 {
        other == word
    } else {
        within_edits(word, other, (n - 1) as nat) || exists|middle: Seq<char>|
            within_edits(word, middle, (n - 1) as nat) && #[trigger] one_edit(middle, other)
    }
}

/// The generated words are exactly those at edit distance 1: reachable by
/// one edit and not by none. So no word that needs two or more edits is among
/// them, and every word that one edit reaches is.
pub proof fn lemma_edits1_is_distance_one(word: Seq<char>, other: Seq<char>)
    ensures
        edits1(word).contains(other) <==> within_edits(word, other, 1) && !within_edits(
            word,
            other,
            0,
        ),
{
    reveal_with_fuel(within_edits, 2);
    if within_edits(word, other, 1) && other != word {
        let middle = choose|middle: Seq<char>|
            within_edits(word, middle, 0) && #[trigger] one_edit(middle, other);
        assert(middle == word);
    }
}

/// Every deletion, every transposition of two neighbours, every substitution
/// and every insertion of a letter gives a word at edit distance 1, unless it
/// gives the word back.
pub proof fn lemma_edits1_holds_every_edit(word: Seq<char>, at: int, letter: char)
    ensures
        0 <= at < word.len() && word.remove(at) != word ==> edits1(word).contains(word.remove(at)),
        0 <= at && at + 1 < word.len() && word.update(at, word[at + 1]).update(at + 1, word[at])
            != word ==> edits1(word).contains(
            word.update(at, word[at + 1]).update(at + 1, word[at]),
        ),
        0 <= at < word.len() && is_letter(letter) && word.update(at, letter) != word
            ==> edits1(word).contains(word.update(at, letter)),
        0 <= at <= word.len() && is_letter(letter) && word.insert(at, letter) != word
            ==> edits1(word).contains(word.insert(at, letter)),
{
    if 0 <= at < word.len() {
        assert(edit_yields(Edit::Delete { at }, word, word.remove(at)));
    }
    if 0 <= at && at + 1 < word.len() {
        assert(edit_yields(
            Edit::Transpose { at },
            word,
            word.update(at, word[at + 1]).update(at + 1, word[at]),
        ));
    }
    if 0 <= at < word.len() && is_letter(letter) {
        assert(edit_yields(Edit::Substitute { at, letter }, word, word.update(at, letter)));
    }
    if 0 <= at <= word.len() && is_letter(letter) {
        assert(edit_yields(Edit::Insert { at, letter }, word, word.insert(at, letter)));
    }
}

/// A word one edit away from a word of length `L` has length `L - 1`, `L` or
/// `L + 1`.
pub proof fn lemma_edit_changes_length_by_one(word: Seq<char>, other: Seq<char>)
    requires
        one_edit(word, other),
    ensures
        word.len() - 1 <= other.len() <= word.len() + 1,
{
}

/// Every word two edits away is reached by at most two edits.
pub proof fn lemma_edits2_within_two(word: Seq<char>, other: Seq<char>)
    requires
        edits2(word).contains(other),
    ensures
        within_edits(word, other, 2),
{
    reveal_with_fuel(within_edits, 3);
    let middle = choose|middle: Seq<char>| #[trigger]
        edits1(word).contains(middle) && edits1(middle).contains(other);
}

/// The substitutions at `at`, one for each letter in alphabet order.
pub open spec fn substitutions(word: Seq<char>, at: int) -> Seq<Seq<char>> {
    Seq::new(26, |k: int| word.update(at, letter_at(k)))
}

/// The insertions at `at`, one for each letter in alphabet order.
pub open spec fn insertions(word: Seq<char>, at: int) -> Seq<Seq<char>> {
    Seq::new(26, |k: int| word.insert(at, letter_at(k)))
}

/// The results of the edits at position `at`, in the order in which they are
/// generated: the deletion, the transposition, the substitutions, the
/// insertions; each kind only where it applies.
pub open spec fn edits_at(word: Seq<char>, at: int) -> Seq<Seq<char>> {
    let deletion = if at < word.len() {
        seq![word.remove(at)]
    } else {
        seq![]
    };
    let transposition = if at + 1 < word.len() {
        seq![word.update(at, word[at + 1]).update(at + 1, word[at])]
    } else {
        seq![]
    };
    let replaced = if at < word.len() {
        substitutions(word, at)
    } else {
        seq![]
    };
    deletion + transposition + replaced + insertions(word, at)
}

/// The results of the edits at the positions before `n`, position by position.
pub open spec fn edits_before(word: Seq<char>, n: int) -> Seq<Seq<char>>
    decreases n,
{
    if n <= 0 {
        seq![]
    } else {
        edits_before(word, n - 1) + edits_at(word, n - 1)
    }
}

/// The results of all edits of `word` in the order in which they are
/// generated: position by position, the end of the word being the last
/// position, where only insertions apply. Repetitions are kept.
pub open spec fn edits_in_order(word: Seq<char>) -> Seq<Seq<char>> {
    edits_before(word, word.len() as int + 1)
}

/// How many results the edits of a word of length `len` have, repetitions
/// counted: `len` deletions, `len - 1` transpositions, `26 len` substitutions
/// and `26 (len + 1)` insertions.
pub open spec fn raw_edit_count(len: nat) -> nat {
    if len == 0 {
        26
    } else {
        (54 * len + 25) as nat
    }
}

proof fn lemma_edits_before_len(word: Seq<char>, n: int)
    requires
        0 <= n <= word.len(),
    ensures
        edits_before(word, n).len() == if n == word.len() && n > 0 {
            54 * n - 1
        } else {
            54 * n
        },
    decreases n,
{
    if n > 0 {
        lemma_edits_before_len(word, n - 1);
    }
}

/// The list of all edit results has the length that the four kinds of edit
/// add up to, and its members are exactly what one edit makes of the word.
pub proof fn lemma_edits_in_order(word: Seq<char>)
    ensures
        edits_in_order(word).len() == raw_edit_count(word.len()),
        forall|other: Seq<char>| #[trigger]
            edits_in_order(word).contains(other) <==> one_edit(word, other),
{
    let n = word.len() as int;
    lemma_edits_before_len(word, n);
    assert forall|other: Seq<char>| #[trigger]
        edits_in_order(word).contains(other) <==> one_edit(word, other) by {
        lemma_edits_before(word, n + 1, other);
    }
}

proof fn lemma_edits_at(word: Seq<char>, at: int, other: Seq<char>)
    requires
        0 <= at <= word.len(),
    ensures
        edits_at(word, at).contains(other) <==> exists|e: Edit| #[trigger]
            edit_yields(e, word, other) && e.position() == at,
{
    let deletion = if at < word.len() {
        seq![word.remove(at)]
    } else {
        seq![]
    };
    let transposition = if at + 1 < word.len() {
        seq![word.update(at, word[at + 1]).update(at + 1, word[at])]
    } else {
        seq![]
    };
    let replaced = if at < word.len() {
        substitutions(word, at)
    } else {
        seq![]
    };
    let all = edits_at(word, at);
    let n1 = deletion.len() as int;
    let n2 = n1 + transposition.len();
    let n3 = n2 + replaced.len();
    if all.contains(other) {
        let k = choose|k: int| 0 <= k < all.len() && all[k] == other;
        let e = if k < n1 {
            Edit::Delete { at }
        } else if k < n2 {
            Edit::Transpose { at }
        } else if k < n3 {
            Edit::Substitute { at, letter: letter_at(k - n2) }
        } else {
            Edit::Insert { at, letter: letter_at(k - n3) }
        };
        assert(edit_yields(e, word, other) && e.position() == at);
    }
    if exists|e: Edit| #[trigger] edit_yields(e, word, other) && e.position() == at {
        let e = choose|e: Edit| #[trigger] edit_yields(e, word, other) && e.position() == at;
        match e {
            Edit::Delete { .. } => {
                assert(all[0] == other);
            },
            Edit::Transpose { .. } => {
                assert(all[n1] == other);
            },
            Edit::Substitute { letter, .. } => {
                assert(all[n2 + (letter as int - 97)] == other);
            },
            Edit::Insert { letter, .. } => {
                assert(all[n3 + (letter as int - 97)] == other);
            },
        }
    }
}

proof fn lemma_edits_before(word: Seq<char>, n: int, other: Seq<char>)
    requires
        0 <= n <= word.len() + 1,
    ensures
        edits_before(word, n).contains(other) <==> exists|e: Edit| #[trigger]
            edit_yields(e, word, other) && e.position() < n,
    decreases n,
{
    if n > 0 {
        let earlier = edits_before(word, n - 1);
        let here = edits_at(word, n - 1);
        lemma_edits_before(word, n - 1, other);
        lemma_edits_at(word, n - 1, other);
        if earlier.contains(other) {
            let k = choose|k: int| 0 <= k < earlier.len() && earlier[k] == other;
            assert((earlier + here)[k] == other);
        }
        if here.contains(other) {
            let k = choose|k: int| 0 <= k < here.len() && here[k] == other;
            assert((earlier + here)[earlier.len() + k] == other);
        }
    }
}

/// Appends `word[from..to]` to `out`.
fn append_range(out: &mut Vec<char>, word: &Vec<char>, from: usize, to: usize)
    requires
        from <= to <= word.len(),
    ensures
        final(out)@ == old(out)@ + word@.subrange(from as int, to as int),
{
    let mut i: usize = from;
    while i < to
        invariant
            from <= i <= to <= word.len(),
            out@ == old(out)@ + word@.subrange(from as int, i as int),
        decreases to - i,
    {
        out.push(word[i]);
        i += 1;
    }
}

/// `word` without the character at `at`.
fn deleted(word: &Vec<char>, at: usize) -> (out: Vec<char>)
    requires
        at < word.len(),
    ensures
        out@ == word@.remove(at as int),
{
    let mut out: Vec<char> = Vec::new();
    append_range(&mut out, word, 0, at);
    append_range(&mut out, word, at + 1, word.len());
    out
}

/// `word` with the characters at `at` and `at + 1` swapped.
fn transposed(word: &Vec<char>, at: usize) -> (out: Vec<char>)
    requires
        at + 1 < word.len(),
    ensures
        out@ == word@.update(at as int, word@[at + 1]).update(at + 1, word@[at as int]),
{
    let mut out: Vec<char> = Vec::new();
    append_range(&mut out, word, 0, at);
    out.push(word[at + 1]);
    out.push(word[at]);
    append_range(&mut out, word, at + 2, word.len());
    out
}

/// `word` with `letter` in place of the character at `at`.
fn substituted(word: &Vec<char>, at: usize, letter: char) -> (out: Vec<char>)
    requires
        at < word.len(),
    ensures
        out@ == word@.update(at as int, letter),
{
    let mut out: Vec<char> = Vec::new();
    append_range(&mut out, word, 0, at);
    out.push(letter);
    append_range(&mut out, word, at + 1, word.len());
    out
}

/// `word` with `letter` put in before position `at`.
fn inserted(word: &Vec<char>, at: usize, letter: char) -> (out: Vec<char>)
    requires
        at <= word.len(),
    ensures
        out@ == word@.insert(at as int, letter),
{
    let mut out: Vec<char> = Vec::new();
    append_range(&mut out, word, 0, at);
    out.push(letter);
    append_range(&mut out, word, at, word.len());
    out
}

proof fn lemma_words_in_push(list: Seq<Vec<char>>, word: Vec<char>)
    ensures
        words_in(list.push(word)) == words_in(list).push(word@),
{
}

/// Appends the 26 substitutions at `at` to `out`.
fn push_substitutions(out: &mut Vec<Vec<char>>, word: &Vec<char>, at: usize)
    requires
        at < word.len(),
    ensures
        words_in(final(out)@) == words_in(old(out)@) + substitutions(word@, at as int),
{
    let mut k: u8 = 0;
    while k < 26
        invariant
            k <= 26,
            at < word.len(),
            words_in(out@) == words_in(old(out)@) + substitutions(word@, at as int).take(k as int),
        decreases 26 - k,
    {
        let letter: char = (97u8 + k) as char;
        let ghost before = out@;
        out.push(substituted(word, at, letter));
        proof {
            lemma_words_in_push(before, out@.last());
        }
        k += 1;
    }
}

/// Appends the 26 insertions at `at` to `out`.
fn push_insertions(out: &mut Vec<Vec<char>>, word: &Vec<char>, at: usize)
    requires
        at <= word.len(),
    ensures
        words_in(final(out)@) == words_in(old(out)@) + insertions(word@, at as int),
{
    let mut k: u8 = 0;
    while k < 26
        invariant
            k <= 26,
            at <= word.len(),
            words_in(out@) == words_in(old(out)@) + insertions(word@, at as int).take(k as int),
        decreases 26 - k,
    {
        let letter: char = (97u8 + k) as char;
        let ghost before = out@;
        out.push(inserted(word, at, letter));
        proof {
            lemma_words_in_push(before, out@.last());
        }
        k += 1;
    }
}

/// Everything that one edit makes of `word`, in the order of generation and
/// with repetitions: for each position the deletion, the transposition with
/// the right neighbour, the 26 substitutions and the 26 insertions before it,
/// and last the 26 insertions at the end. `word` itself is among the results
/// where a substitution puts a letter in its own place.
pub fn raw_edits(word: &Vec<char>) -> (out: Vec<Vec<char>>)
    ensures
        words_in(out@) == edits_in_order(word@),
        out.len() == raw_edit_count(word@.len()),
        forall|other: Seq<char>| #[trigger]
            words_in(out@).contains(other) <==> one_edit(word@, other),
{
    let mut out: Vec<Vec<char>> = Vec::new();
    let n: usize = word.len();
    let mut at: usize = 0;
    while at < n
        invariant
            n == word.len(),
            at <= n,
            words_in(out@) == edits_before(word@, at as int),
        decreases n - at,
    {
        out.push(deleted(word, at));
        if at + 1 < n {
            out.push(transposed(word, at));
        }
        push_substitutions(&mut out, word, at);
        push_insertions(&mut out, word, at);
        at += 1;
    }
    push_insertions(&mut out, word, n);
    proof {
        lemma_edits_in_order(word@);
    }
    out
}

/// The words at edit distance 1 from `word`, in ascending order.
pub fn sorted_edits(word: &Vec<char>) -> (out: Vec<Vec<char>>)
    ensures
        strictly_sorted(words_in(out@)),
        words_in(out@).to_set() == edits1(word@),
{
    let mut raw = raw_edits(word);
    let ghost all = words_in(raw@);
    let mut out: Vec<Vec<char>> = Vec::new();
    while raw.len() > 0
        invariant
            raw.len() <= all.len(),
            words_in(raw@) == all.take(raw.len() as int),
            strictly_sorted(words_in(out@)),
            words_in(out@).to_set() == all.skip(raw.len() as int).to_set().remove(word@),
        decreases raw.len(),
    {
        let ghost n = raw.len() as int;
        assert(words_in(raw@)[n - 1] == all[n - 1]);
        let candidate = raw.pop().unwrap();
        proof {
            let longer = all.skip(n - 1);
            let shorter = all.skip(n);
            assert forall|w: Seq<char>| longer.contains(w) <==> w == all[n - 1]
                || shorter.contains(w) by {
                lemma_members_from(all, n, w);
            }
        }
        match compare_words(&candidate, word) {
            Position::Same => {},
            _ => insert_sorted(&mut out, candidate),
        }
    }
    out
}

/// The words at edit distance 1 from `word`: every result of deleting one
/// character, swapping two neighbours, replacing one character by a letter or
/// putting a letter in anywhere, `word` itself left out. They come in
/// ascending order, each once.
pub fn generate_corrections(word: &str) -> (out: Vec<String>)
    ensures
        strictly_sorted(out.deep_view()),
        out.deep_view().to_set() == edits1(word@),
{
    let chars = chars_of(word);
    let found = sorted_edits(&chars);
    strings_of(&found)
}

} // verus!
