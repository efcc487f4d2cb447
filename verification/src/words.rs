//! Words as sequences of characters: conversion between strings and character
//! vectors, and the lexicographic order that ranks and sorts them.

use vstd::prelude::*;

verus! {

/// Trusted: `String::push` of the standard library appends the one character
/// `ch` to the end of the string and changes nothing else.
pub assume_specification[ String::push ](s: &mut String, ch: char)
    ensures
        final(s)@ == old(s)@.push(ch),
;

/// The characters of `text`, in order.
pub fn chars_of(text: &str) -> (out: Vec<char>)
    ensures
        out@ == text@,
{
    let mut out: Vec<char> = Vec::new();
    for c in iter: text.chars()
        invariant
            iter.seq() == text@,
            out@ == text@.take(iter.index()),
    {
        out.push(c);
    }
    out
}

/// The string made of the characters `chars[from..to]`.
pub fn string_of_range(chars: &Vec<char>, from: usize, to: usize) -> (out: String)
    requires
        from <= to <= chars.len(),
    ensures
        out@ == chars@.subrange(from as int, to as int),
{
    let mut out = String::new();
    let mut i: usize = from;
    while i < to
        invariant
            from <= i <= to <= chars.len(),
            out@ == chars@.subrange(from as int, i as int),
        decreases to - i,
    {
        out.push(chars[i]);
        i += 1;
    }
    out
}

/// The string made of the characters of `chars`.
pub fn string_of(chars: &Vec<char>) -> (out: String)
    ensures
        out@ == chars@,
{
    string_of_range(chars, 0, chars.len())
}

/// The words that `list` holds, each as its sequence of characters.
pub open spec fn words_in(list: Seq<Vec<char>>) -> Seq<Seq<char>> {
    Seq::new(list.len(), |i: int| list[i]@)
}

/// One string for each character vector of `words`, in the same order.
pub fn strings_of(words: &Vec<Vec<char>>) -> (out: Vec<String>)
    ensures
        out.deep_view() == words_in(words@),
{
    let mut out: Vec<String> = Vec::new();
    let mut i: usize = 0;
    while i < words.len()
        invariant
            i <= words.len(),
            out.len() == i,
            forall|k: int| 0 <= k < i ==> out[k]@ == words[k]@,
        decreases words.len() - i,
    {
        out.push(string_of(&words[i]));
        i += 1;
    }
    out
}

/// `a` and `b` have the same first `k` characters.
pub open spec fn agree_before(a: Seq<char>, b: Seq<char>, k: int) -> bool {
    &&& 0 <= k <= a.len()
    &&& k <= b.len()
    &&& forall|j: int| 0 <= j < k ==> a[j] == b[j]
}

/// Position `k` shows that `a` comes before `b`: the two agree before `k`, and
/// there `a` either ends while `b` goes on, or holds the smaller character.
pub open spec fn precedes_at(a: Seq<char>, b: Seq<char>, k: int) -> bool {
    &&& agree_before(a, b, k)
    &&& k < b.len()
    &&& (k == a.len() || a[k] < b[k])
}

/// The strict lexicographic order on words, characters compared by code point.
/// This is the order of `str` and `String` in the standard library.
pub open spec fn lex_lt(a: Seq<char>, b: Seq<char>) -> bool {
    exists|k: int| precedes_at(a, b, k)
}

/// `a` is `b` or comes before it.
pub open spec fn lex_le(a: Seq<char>, b: Seq<char>) -> bool {
    a == b || lex_lt(a, b)
}

/// No word comes before itself.
pub proof fn lemma_lex_irreflexive(a: Seq<char>)
    ensures
        !lex_lt(a, a),
{
}

/// The order is transitive.
pub proof fn lemma_lex_transitive(a: Seq<char>, b: Seq<char>, c: Seq<char>)
    requires
        lex_lt(a, b),
        lex_lt(b, c),
    ensures
        lex_lt(a, c),
{
    let k1 = choose|k: int| precedes_at(a, b, k);
    let k2 = choose|k: int| precedes_at(b, c, k);
    let k = if k1 <= k2 { k1 } else { k2 };
    assert(precedes_at(a, c, k));
}

/// No two words come before each other.
pub proof fn lemma_lex_asymmetric(a: Seq<char>, b: Seq<char>)
    requires
        lex_lt(a, b),
    ensures
        !lex_lt(b, a),
{
}

proof fn lemma_lex_total_from(a: Seq<char>, b: Seq<char>, k: int)
    requires
        agree_before(a, b, k),
    ensures
        a == b || lex_lt(a, b) || lex_lt(b, a),
    decreases a.len() - k,
{
    if k == a.len() && k == b.len() {
        assert(a =~= b);
    } else if k == a.len() {
        assert(precedes_at(a, b, k));
    } else if k == b.len() {
        assert(precedes_at(b, a, k));
    } else if a[k] < b[k] {
        assert(precedes_at(a, b, k));
    } else if b[k] < a[k] {
        assert(precedes_at(b, a, k));
    } else {
        lemma_lex_total_from(a, b, k + 1);
    }
}

/// Any two different words are ordered one way or the other.
pub proof fn lemma_lex_total(a: Seq<char>, b: Seq<char>)
    ensures
        a == b || lex_lt(a, b) || lex_lt(b, a),
{
    lemma_lex_total_from(a, b, 0);
}

/// How one word stands to another in the lexicographic order.
pub enum Position {
    Before,
    Same,
    After,
}

/// Where `a` stands relative to `b`.
pub open spec fn position_of(a: Seq<char>, b: Seq<char>) -> Position {
    if a == b {
        Position::Same
    } else if lex_lt(a, b) {
        Position::Before
    } else {
        Position::After
    }
}

/// Compares two words lexicographically.
pub fn compare_words(a: &Vec<char>, b: &Vec<char>) -> (out: Position)
    ensures
        out == position_of(a@, b@),
        out is After ==> lex_lt(b@, a@),
{
    let mut i: usize = 0;
    while i < a.len() && i < b.len()
        invariant
            agree_before(a@, b@, i as int),
        decreases a.len() - i,
    {
        if a[i] < b[i] {
            proof {
                assert(precedes_at(a@, b@, i as int));
            }
            return Position::Before;
        } else if b[i] < a[i] {
            proof {
                assert(precedes_at(b@, a@, i as int));
            }
            return Position::After;
        }
        i += 1;
    }
    if i < b.len() {
        proof {
            assert(precedes_at(a@, b@, i as int));
        }
        Position::Before
    } else if i < a.len() {
        proof {
            assert(precedes_at(b@, a@, i as int));
        }
        Position::After
    } else {
        assert(a@ =~= b@);
        Position::Same
    }
}

/// Each word comes before all the words after it: ascending, nothing twice.
pub open spec fn strictly_sorted(words: Seq<Seq<char>>) -> bool {
    forall|i: int, j: int|
        #![trigger words[i], words[j]]
        0 <= i < j < words.len() ==> lex_lt(words[i], words[j])
}

/// A strictly sorted sequence holds no word twice.
pub proof fn lemma_sorted_no_duplicates(words: Seq<Seq<char>>)
    requires
        strictly_sorted(words),
    ensures
        words.no_duplicates(),
{
}

/// Two strictly sorted sequences with the same members are the same sequence:
/// a set of words has one sorted listing.
pub proof fn lemma_sorted_listing_unique(a: Seq<Seq<char>>, b: Seq<Seq<char>>)
    requires
        strictly_sorted(a),
        strictly_sorted(b),
        a.to_set() == b.to_set(),
    ensures
        a == b,
    decreases a.len(),
{
    if a.len() == 0 {
        if b.len() > 0 {
            assert(b.to_set().contains(b[0]));
        }
    } else if b.len() == 0 {
        assert(a.to_set().contains(a[0]));
    } else {
        // The last word of each is its greatest member, so the two are equal.
        let x = a.last();
        let y = b.last();
        assert(a.to_set().contains(x));
        assert(b.to_set().contains(y));
        let a0 = a.drop_last();
        let b0 = b.drop_last();
        assert forall|w: Seq<char>| a0.to_set().contains(w) == b0.to_set().contains(w) by {
            if a0.contains(w) {
                assert(b.to_set().contains(w));
                let m = choose|m: int| 0 <= m < b.len() && b[m] == w;
                assert(b0[m] == w);
            }
            if b0.contains(w) {
                assert(a.to_set().contains(w));
                let m = choose|m: int| 0 <= m < a.len() && a[m] == w;
                assert(a0[m] == w);
            }
        }
        assert(a0.to_set() =~= b0.to_set());
        lemma_sorted_listing_unique(a0, b0);
        assert(a =~= a0.push(x));
    }
}

/// The members of a sequence from position `n - 1` on are the word at that
/// position and the members from `n` on.
pub proof fn lemma_members_from(words: Seq<Seq<char>>, n: int, word: Seq<char>)
    requires
        0 < n <= words.len(),
    ensures
        words.skip(n - 1).contains(word) <==> word == words[n - 1] || words.skip(n).contains(word),
{
    let longer = words.skip(n - 1);
    let shorter = words.skip(n);
    if longer.contains(word) {
        let k = choose|k: int| 0 <= k < longer.len() && longer[k] == word;
        if k > 0 {
            assert(shorter[k - 1] == word);
        }
    }
    if shorter.contains(word) {
        let k = choose|k: int| 0 <= k < shorter.len() && shorter[k] == word;
        assert(longer[k + 1] == word);
    }
    if word == words[n - 1] {
        assert(longer[0] == word);
    }
}

/// Puts `word` into the strictly sorted `words` at its place, unless it is
/// there already.
pub fn insert_sorted(words: &mut Vec<Vec<char>>, word: Vec<char>)
    requires
        strictly_sorted(words_in(old(words)@)),
    ensures
        strictly_sorted(words_in(final(words)@)),
        words_in(final(words)@).to_set() == words_in(old(words)@).to_set().insert(word@),
{
    let ghost before = words_in(words@);
    let mut lo: usize = 0;
    let mut hi: usize = words.len();
    while lo < hi
        invariant
            lo <= hi <= words.len(),
            words_in(words@) == before,
            strictly_sorted(before),
            forall|i: int| 0 <= i < lo ==> lex_lt(#[trigger] before[i], word@),
            forall|i: int| hi <= i < before.len() ==> lex_lt(word@, #[trigger] before[i]),
        decreases hi - lo,
    {
        let mid: usize = lo + (hi - lo) / 2;
        assert(before[mid as int] == words[mid as int]@);
        match compare_words(&words[mid], &word) {
            Position::Before => {
                proof {
                    assert forall|i: int| 0 <= i < mid + 1 implies lex_lt(
                        #[trigger] before[i],
                        word@,
                    ) by {
                        if i < mid {
                            lemma_lex_transitive(before[i], before[mid as int], word@);
                        }
                    }
                }
                lo = mid + 1;
            },
            Position::Same => {
                return ;
            },
            Position::After => {
                proof {
                    assert forall|i: int| mid <= i < before.len() implies lex_lt(
                        word@,
                        #[trigger] before[i],
                    ) by {
                        if mid < i {
                            lemma_lex_transitive(word@, before[mid as int], before[i]);
                        }
                    }
                }
                hi = mid;
            },
        }
    }
    let ghost added = word@;
    words.insert(lo, word);
    proof {
        let after = words_in(words@);
        assert(after =~= before.insert(lo as int, added));
        assert forall|w: Seq<char>| after.to_set().contains(w) == before.to_set().insert(
            added,
        ).contains(w) by {
            if before.contains(w) {
                let k = choose|k: int| 0 <= k < before.len() && before[k] == w;
                if k < lo {
                    assert(after[k] == w);
                } else {
                    assert(after[k + 1] == w);
                }
            }
            if w == added {
                assert(after[lo as int] == w);
            }
        }
    }
}

} // verus!
