//! The known-word candidates of a query, found tier by tier: the word itself,
//! the words one edit away, the words two edits away.

use crate::dictionary::FrequencyDictionary;
use crate::edits::{
    edits1, edits2, lemma_edits1_is_distance_one, lemma_edits2_within_two, one_edit, raw_edits,
    sorted_edits, within_edits,
};
use crate::words::{
    chars_of, insert_sorted, lemma_members_from, lex_lt, strictly_sorted, string_of, strings_of,
    words_in,
};
use vstd::prelude::*;

verus! {

/// The test that picks the known words: the keys of `dict`.
pub open spec fn is_known(dict: Map<Seq<char>, u64>) -> spec_fn(Seq<char>) -> bool {
    |word: Seq<char>| dict.contains_key(word)
}

/// The words of `words` that are keys of `dict`.
pub open spec fn known(dict: Map<Seq<char>, u64>, words: Set<Seq<char>>) -> Set<Seq<char>> {
    words.intersect(dict.dom())
}

/// The candidate set of `word`. A known word is its own and only candidate.
/// Otherwise the known words one edit away are the candidates, if there are
/// any; only if there are none, the known words two edits away are.
pub open spec fn candidates(dict: Map<Seq<char>, u64>, word: Seq<char>) -> Set<Seq<char>> {
    if dict.contains_key(word) {
        set![word]
    } else if !known(dict, edits1(word)).is_empty() {
        known(dict, edits1(word))
    } else {
        known(dict, edits2(word))
    }
}

/// Every candidate is a known word.
pub proof fn lemma_candidates_are_known(
    dict: Map<Seq<char>, u64>,
    word: Seq<char>,
    candidate: Seq<char>,
)
    requires
        candidates(dict, word).contains(candidate),
    ensures
        dict.contains_key(candidate),
{
}

/// Every candidate is within two edits of the query.
pub proof fn lemma_candidates_are_within_two_edits(
    dict: Map<Seq<char>, u64>,
    word: Seq<char>,
    candidate: Seq<char>,
)
    requires
        candidates(dict, word).contains(candidate),
    ensures
        within_edits(word, candidate, 2),
{
    reveal_with_fuel(within_edits, 3);
    if !dict.contains_key(word) {
        if known(dict, edits1(word)).is_empty() {
            lemma_edits2_within_two(word, candidate);
        } else {
            lemma_edits1_is_distance_one(word, candidate);
        }
    }
}

/// A known word is never resolved to anything but itself, whatever else the
/// dictionary holds and however frequent it is.
pub proof fn lemma_known_word_is_its_only_candidate(dict: Map<Seq<char>, u64>, word: Seq<char>)
    requires
        dict.contains_key(word),
    ensures
        candidates(dict, word) == set![word],
{
}

/// Where an unknown word has a known word one edit away, its candidates are
/// exactly the known words one edit away: a word that only two edits reach is
/// no candidate, known or not.
pub proof fn lemma_first_tier_shadows_second(
    dict: Map<Seq<char>, u64>,
    word: Seq<char>,
    near: Seq<char>,
)
    requires
        !dict.contains_key(word),
        edits1(word).contains(near),
        dict.contains_key(near),
    ensures
        candidates(dict, word) == known(dict, edits1(word)),
        forall|other: Seq<char>|
            candidates(dict, word).contains(other) ==> #[trigger] edits1(word).contains(other),
{
    assert(known(dict, edits1(word)).contains(near));
}

/// Against a dictionary without words nothing has a candidate.
pub proof fn lemma_empty_dictionary_has_no_candidates(dict: Map<Seq<char>, u64>, word: Seq<char>)
    requires
        dict.dom().is_empty(),
    ensures
        candidates(dict, word).is_empty(),
{
}

proof fn lemma_filter_push(words: Seq<Seq<char>>, word: Seq<char>, keep: spec_fn(Seq<char>) -> bool)
    ensures
        words.push(word).filter(keep) == if keep(word) {
            words.filter(keep).push(word)
        } else {
            words.filter(keep)
        },
{
    reveal(Seq::filter);
    assert(words.push(word).drop_last() =~= words);
}

/// Filtering keeps exactly the members that pass the test.
pub proof fn lemma_filter_members(
    words: Seq<Seq<char>>,
    keep: spec_fn(Seq<char>) -> bool,
    word: Seq<char>,
)
    ensures
        words.filter(keep).contains(word) <==> words.contains(word) && keep(word),
    decreases words.len(),
{
    reveal(Seq::filter);
    if words.len() > 0 {
        lemma_filter_members(words.drop_last(), keep, word);
    }
}

/// Filtering a strictly sorted sequence leaves it strictly sorted.
pub proof fn lemma_filter_sorted(words: Seq<Seq<char>>, keep: spec_fn(Seq<char>) -> bool)
    requires
        strictly_sorted(words),
    ensures
        strictly_sorted(words.filter(keep)),
    decreases words.len(),
{
    reveal(Seq::filter);
    if words.len() > 0 {
        let front = words.drop_last();
        let last = words.last();
        lemma_filter_sorted(front, keep);
        let kept = front.filter(keep);
        if keep(last) {
            // Every word kept from the front is a word of the front, and so
            // comes before the last.
            assert forall|i: int, j: int| 0 <= i < j < kept.push(last).len() implies lex_lt(
                kept.push(last)[i],
                kept.push(last)[j],
            ) by {
                if j == kept.len() {
                    lemma_filter_members(front, keep, kept[i]);
                }
            }
        }
    }
}

/// The known words among `words`, in their order.
pub fn get_known(words: Vec<String>, freq_map: &FrequencyDictionary) -> (out: Vec<String>)
    ensures
        out.deep_view() == words.deep_view().filter(is_known(freq_map@)),
{
    let ghost all = words.deep_view();
    let ghost keep = is_known(freq_map@);
    let mut out: Vec<String> = Vec::new();
    let mut i: usize = 0;
    while i < words.len()
        invariant
            i <= words.len(),
            all == words.deep_view(),
            keep == is_known(freq_map@),
            out.deep_view() == all.take(i as int).filter(keep),
        decreases words.len() - i,
    {
        let ghost seen = all.take(i as int);
        proof {
            assert(all.take(i + 1) =~= seen.push(words[i as int]@));
            lemma_filter_push(seen, words[i as int]@, keep);
        }
        if freq_map.contains(words[i].as_str()) {
            out.push(words[i].clone());
        }
        i += 1;
    }
    assert(all.take(words.len() as int) =~= all);
    out
}

/// Some word among the first `n` of `middles` is one edit away from `other`.
spec fn reached_from(middles: Seq<Seq<char>>, n: int, other: Seq<char>) -> bool {
    exists|j: int| 0 <= j < n && #[trigger] one_edit(middles[j], other)
}

/// The known words one edit away from any of `middles`, in ascending order.
fn known_edits_of_all(middles: &Vec<Vec<char>>, freq_map: &FrequencyDictionary) -> (out: Vec<
    Vec<char>,
>)
    ensures
        strictly_sorted(words_in(out@)),
        forall|other: Seq<char>| #[trigger]
            words_in(out@).contains(other) <==> freq_map@.contains_key(other) && reached_from(
                words_in(middles@),
                middles.len() as int,
                other,
            ),
{
    let ghost all = words_in(middles@);
    let mut out: Vec<Vec<char>> = Vec::new();
    let mut i: usize = 0;
    while i < middles.len()
        invariant
            i <= middles.len(),
            all == words_in(middles@),
            strictly_sorted(words_in(out@)),
            forall|other: Seq<char>| #[trigger]
                words_in(out@).contains(other) <==> freq_map@.contains_key(other) && reached_from(
                    all,
                    i as int,
                    other,
                ),
        decreases middles.len() - i,
    {
        let ghost found = words_in(out@).to_set();
        let mut raw = raw_edits(&middles[i]);
        let ghost results = words_in(raw@);
        assert(all[i as int] == middles[i as int]@);
        while raw.len() > 0
            invariant
                raw.len() <= results.len(),
                words_in(raw@) == results.take(raw.len() as int),
                strictly_sorted(words_in(out@)),
                forall|other: Seq<char>| #[trigger]
                    words_in(out@).contains(other) <==> found.contains(other) || (
                    freq_map@.contains_key(other) && results.skip(raw.len() as int).contains(
                        other,
                    )),
            decreases raw.len(),
        {
            let ghost n = raw.len() as int;
            let ghost before = words_in(out@).to_set();
            assert(words_in(raw@)[n - 1] == results[n - 1]);
            let candidate = raw.pop().unwrap();
            proof {
                let longer = results.skip(n - 1);
                let shorter = results.skip(n);
                assert forall|w: Seq<char>| longer.contains(w) <==> w == results[n - 1]
                    || shorter.contains(w) by {
                    lemma_members_from(results, n, w);
                }
            }
            let text = string_of(&candidate);
            if freq_map.contains(text.as_str()) {
                insert_sorted(&mut out, candidate);
                assert forall|other: Seq<char>| #[trigger]
                    words_in(out@).contains(other) <==> before.contains(other) || other
                        == results[n - 1] by {
                    assert(words_in(out@).to_set().contains(other) == words_in(out@).contains(
                        other,
                    ));
                }
            }
        }
        proof {
            assert(results.skip(0) =~= results);
        }
        i += 1;
    }
    out
}

/// The candidates of `word`, in ascending order and each once. A known word
/// gives itself alone. An unknown word gives the known words one edit away;
/// if there are none, the known words that one edit makes of any word one edit
/// away, known or not. The result is empty where nothing known is in reach.
pub fn get_candidates(word: String, freq_map: &FrequencyDictionary) -> (out: Vec<String>)
    ensures
        strictly_sorted(out.deep_view()),
        out.deep_view().to_set() == candidates(freq_map@, word@),
{
    let ghost dict = freq_map@;
    let ghost query = word@;
    if freq_map.contains(word.as_str()) {
        let mut out: Vec<String> = Vec::new();
        out.push(word);
        proof {
            assert(out.deep_view() =~= seq![query]);
            assert(seq![query].to_set() =~= set![query]) by {
                assert(seq![query][0] == query);
            }
        }
        return out;
    }
    let chars = chars_of(word.as_str());
    let first_order = sorted_edits(&chars);
    let ghost near = words_in(first_order@);
    let known_first_order = get_known(strings_of(&first_order), freq_map);
    proof {
        lemma_filter_sorted(near, is_known(dict));
        assert forall|other: Seq<char>|
            known_first_order.deep_view().to_set().contains(other) == known(
                dict,
                edits1(query),
            ).contains(other) by {
            lemma_filter_members(near, is_known(dict), other);
        }
        assert(known_first_order.deep_view().to_set() =~= known(dict, edits1(query)));
    }
    if known_first_order.len() > 0 {
        proof {
            assert(known(dict, edits1(query)).contains(known_first_order.deep_view()[0]));
        }
        return known_first_order;
    }
    let second_order = known_edits_of_all(&first_order, freq_map);
    let out = strings_of(&second_order);
    proof {
        assert forall|other: Seq<char>|
            out.deep_view().to_set().contains(other) == known(dict, edits2(query)).contains(
                other,
            ) by {
            if dict.contains_key(other) && reached_from(near, first_order.len() as int, other) {
                // A word of the first order is not known here, so it differs
                // from `other`, which is.
                let j = choose|j: int|
                    0 <= j < first_order.len() && #[trigger] one_edit(near[j], other);
                assert(near.to_set().contains(near[j]));
                assert(!known(dict, edits1(query)).contains(near[j]));
            }
            if known(dict, edits2(query)).contains(other) {
                let middle = choose|middle: Seq<char>| #[trigger]
                    edits1(query).contains(middle) && edits1(middle).contains(other);
                assert(near.to_set().contains(middle));
            }
        }
    }
    out
}

} // verus!
