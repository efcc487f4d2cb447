//! Picking the best candidate, and the correction of a word.

use crate::dictionary::{frequency, FrequencyDictionary};
use crate::edits::edits1;
use crate::resolver::{
    candidates, get_candidates, known, lemma_empty_dictionary_has_no_candidates,
    lemma_first_tier_shadows_second,
};
use crate::words::{
    chars_of, compare_words, lemma_lex_asymmetric, lemma_lex_irreflexive, lemma_lex_total,
    lemma_lex_transitive, lex_le, lex_lt, Position,
};
use vstd::prelude::*;

verus! {

/// `a` is ranked at least as high as `b`: it is more frequent, or as frequent
/// and not behind `b` in the lexicographic order.
pub open spec fn ranks_at_least(dict: Map<Seq<char>, u64>, a: Seq<char>, b: Seq<char>) -> bool {
    frequency(dict, a) > frequency(dict, b) || (frequency(dict, a) == frequency(dict, b) && lex_le(
        a,
        b,
    ))
}

/// `best` is the pick among `candidates`: a member ranked at least as high as
/// every member. It has the greatest count, and among those with the greatest
/// count it is the lexicographically smallest.
pub open spec fn is_best(
    dict: Map<Seq<char>, u64>,
    candidates: Set<Seq<char>>,
    best: Seq<char>,
) -> bool {
    &&& candidates.contains(best)
    &&& forall|other: Seq<char>| #[trigger]
        candidates.contains(other) ==> ranks_at_least(dict, best, other)
}

/// `out` is the correction of `word`: the best of its candidates, or `word`
/// itself where it is empty or has no candidate.
pub open spec fn is_correction(dict: Map<Seq<char>, u64>, word: Seq<char>, out: Seq<char>) -> bool {
    if word.len() == 0 || candidates(dict, word).is_empty() {
        out == word
    } else {
        is_best(dict, candidates(dict, word), out)
    }
}

/// The ranking is transitive.
pub proof fn lemma_ranking_transitive(
    dict: Map<Seq<char>, u64>,
    a: Seq<char>,
    b: Seq<char>,
    c: Seq<char>,
)
    requires
        ranks_at_least(dict, a, b),
        ranks_at_least(dict, b, c),
    ensures
        ranks_at_least(dict, a, c),
{
    if lex_lt(a, b) && lex_lt(b, c) {
        lemma_lex_transitive(a, b, c);
    }
}

/// A set of candidates has at most one best member.
pub proof fn lemma_best_is_unique(
    dict: Map<Seq<char>, u64>,
    candidates: Set<Seq<char>>,
    a: Seq<char>,
    b: Seq<char>,
)
    requires
        is_best(dict, candidates, a),
        is_best(dict, candidates, b),
    ensures
        a == b,
{
    assert(ranks_at_least(dict, a, b));
    assert(ranks_at_least(dict, b, a));
    if lex_lt(a, b) {
        lemma_lex_asymmetric(a, b);
    }
}

/// The best candidate is at least as frequent as every candidate, and no
/// candidate as frequent as it comes before it in the lexicographic order.
pub proof fn lemma_best_is_most_frequent_then_smallest(
    dict: Map<Seq<char>, u64>,
    candidates: Set<Seq<char>>,
    best: Seq<char>,
    other: Seq<char>,
)
    requires
        is_best(dict, candidates, best),
        candidates.contains(other),
    ensures
        frequency(dict, other) <= frequency(dict, best),
        frequency(dict, other) == frequency(dict, best) ==> !lex_lt(other, best),
{
    assert(ranks_at_least(dict, best, other));
    if lex_lt(other, best) {
        lemma_lex_asymmetric(other, best);
        lemma_lex_irreflexive(best);
    }
}

/// A word has one correction.
pub proof fn lemma_correction_is_unique(
    dict: Map<Seq<char>, u64>,
    word: Seq<char>,
    a: Seq<char>,
    b: Seq<char>,
)
    requires
        is_correction(dict, word, a),
        is_correction(dict, word, b),
    ensures
        a == b,
{
    if !(word.len() == 0 || candidates(dict, word).is_empty()) {
        lemma_best_is_unique(dict, candidates(dict, word), a, b);
    }
}

/// A known word is its own correction: correcting a correct word changes
/// nothing.
pub proof fn lemma_known_word_is_unchanged(dict: Map<Seq<char>, u64>, word: Seq<char>, out: Seq<char>)
    requires
        dict.contains_key(word),
        is_correction(dict, word, out),
    ensures
        out == word,
{
    assert(candidates(dict, word) == set![word]);
    if word.len() > 0 {
        assert(candidates(dict, word).contains(word));
    }
}

/// A correction is either a known word or the query itself.
pub proof fn lemma_correction_is_known_or_unchanged(
    dict: Map<Seq<char>, u64>,
    word: Seq<char>,
    out: Seq<char>,
)
    requires
        is_correction(dict, word, out),
    ensures
        out == word || dict.contains_key(out),
{
}

/// Correcting is idempotent: the correction of a correction is that same
/// word.
pub proof fn lemma_correction_is_idempotent(
    dict: Map<Seq<char>, u64>,
    word: Seq<char>,
    once: Seq<char>,
    twice: Seq<char>,
)
    requires
        is_correction(dict, word, once),
        is_correction(dict, once, twice),
    ensures
        twice == once,
{
    lemma_correction_is_known_or_unchanged(dict, word, once);
    if dict.contains_key(once) {
        lemma_known_word_is_unchanged(dict, once, twice);
    } else {
        lemma_correction_is_unique(dict, word, once, twice);
    }
}

/// Where an unknown word has a known word one edit away, its correction is
/// one edit away too: a known word that only two edits reach is not chosen,
/// however frequent it is.
pub proof fn lemma_correction_prefers_first_tier(
    dict: Map<Seq<char>, u64>,
    word: Seq<char>,
    near: Seq<char>,
    out: Seq<char>,
)
    requires
        word.len() > 0,
        !dict.contains_key(word),
        edits1(word).contains(near),
        dict.contains_key(near),
        is_correction(dict, word, out),
    ensures
        edits1(word).contains(out),
        dict.contains_key(out),
{
    lemma_first_tier_shadows_second(dict, word, near);
    assert(known(dict, edits1(word)).contains(near));
    assert(candidates(dict, word).contains(near));
}

/// Against a dictionary without words every word is its own correction.
pub proof fn lemma_empty_dictionary_corrects_nothing(
    dict: Map<Seq<char>, u64>,
    word: Seq<char>,
    out: Seq<char>,
)
    requires
        dict.dom().is_empty(),
        is_correction(dict, word, out),
    ensures
        out == word,
{
    lemma_empty_dictionary_has_no_candidates(dict, word);
}

/// Whether `a` comes before `b` in the lexicographic order.
pub fn comes_before(a: &str, b: &str) -> (out: bool)
    ensures
        out == lex_lt(a@, b@),
{
    let left = chars_of(a);
    let right = chars_of(b);
    match compare_words(&left, &right) {
        Position::Before => true,
        _ => false,
    }
}

/// The best of `candidates`: the one with the greatest count in `freq_map`,
/// and of several with that count the lexicographically smallest. A word that
/// is no key counts as 0.
pub fn select_best(candidates: &Vec<String>, freq_map: &FrequencyDictionary) -> (out: String)
    requires
        candidates.len() > 0,
    ensures
        is_best(freq_map@, candidates.deep_view().to_set(), out@),
{
    let ghost dict = freq_map@;
    let ghost all = candidates.deep_view();
    let mut best: usize = 0;
    let mut best_count: u64 = freq_map.count(candidates[0].as_str());
    let mut i: usize = 1;
    while i < candidates.len()
        invariant
            0 <= best < i <= candidates.len(),
            all == candidates.deep_view(),
            dict == freq_map@,
            best_count == frequency(dict, all[best as int]),
            forall|j: int| 0 <= j < i ==> ranks_at_least(dict, all[best as int], #[trigger] all[j]),
        decreases candidates.len() - i,
    {
        let count: u64 = freq_map.count(candidates[i].as_str());
        if count > best_count || (count == best_count && comes_before(
            candidates[i].as_str(),
            candidates[best].as_str(),
        )) {
            proof {
                assert forall|j: int| 0 <= j < i + 1 implies ranks_at_least(
                    dict,
                    all[i as int],
                    #[trigger] all[j],
                ) by {
                    if j < i {
                        lemma_ranking_transitive(dict, all[i as int], all[best as int], all[j]);
                    }
                }
            }
            best = i;
            best_count = count;
        } else {
            proof {
                lemma_lex_total(all[best as int], all[i as int]);
            }
        }
        i += 1;
    }
    candidates[best].clone()
}

/// Corrects `word` against `freq_map`. A known word is returned as it is. An
/// unknown word becomes the best of its candidates: the most frequent one, of
/// several the lexicographically smallest. The empty word, and a word with no
/// known word within two edits, come back unchanged; a caller sees that
/// nothing was corrected by comparing the result with the query.
pub fn get_correction(word: String, freq_map: &FrequencyDictionary) -> (out: String)
    ensures
        is_correction(freq_map@, word@, out@),
{
    if word.as_str().is_empty() {
        return word;
    }
    let candidates = get_candidates(word.clone(), freq_map);
    if candidates.len() == 0 {
        word
    } else {
        select_best(&candidates, freq_map)
    }
}

} // verus!
