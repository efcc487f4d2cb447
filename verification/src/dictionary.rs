//! The frequency dictionary: how often each word occurs in a corpus.

use vstd::hash_map::StringHashMap;
use vstd::prelude::*;
use vstd::seq_lib::to_multiset_build;

verus! {

/// How often `word` is counted in `counts`; 0 for a word that is no key.
pub open spec fn frequency(counts: Map<Seq<char>, u64>, word: Seq<char>) -> nat {
    if counts.contains_key(word) {
        counts[word] as nat
    } else {
        0
    }
}

/// How many of `tokens` are exactly `word`.
pub open spec fn occurrences(tokens: Seq<Seq<char>>, word: Seq<char>) -> nat {
    tokens.to_multiset().count(word)
}

/// The table of a token stream: its keys are the tokens that occur, and each
/// is mapped to the number of its occurrences.
pub open spec fn frequency_map(tokens: Seq<Seq<char>>) -> Map<Seq<char>, u64> {
    Map::new(|word: Seq<char>| tokens.contains(word), |word: Seq<char>| occurrences(tokens, word) as u64)
}

/// A word occurs in a token stream at most as often as the stream is long.
pub proof fn lemma_occurrences_bounded(tokens: Seq<Seq<char>>, word: Seq<char>)
    ensures
        occurrences(tokens, word) <= tokens.len(),
        occurrences(tokens, word) >= 1 <==> tokens.contains(word),
{
    tokens.to_multiset_ensures();
}

/// One more token adds one to its own count and leaves the others as they are.
pub proof fn lemma_occurrences_push(tokens: Seq<Seq<char>>, token: Seq<char>, word: Seq<char>)
    ensures
        occurrences(tokens.push(token), word) == occurrences(tokens, word) + if word == token {
            1nat
        } else {
            0nat
        },
        tokens.push(token).contains(word) <==> tokens.contains(word) || word == token,
{
    to_multiset_build(tokens, token);
    lemma_occurrences_bounded(tokens, word);
    lemma_occurrences_bounded(tokens.push(token), word);
}

/// The table of a token stream that is not longer than a count can say holds
/// for every word exactly the number of its occurrences: at least 1 for a
/// token, 0 for any other word.
pub proof fn lemma_frequency_map_is_exact(tokens: Seq<Seq<char>>, word: Seq<char>)
    requires
        tokens.len() <= u64::MAX,
    ensures
        frequency(frequency_map(tokens), word) == occurrences(tokens, word),
        frequency_map(tokens).contains_key(word) <==> occurrences(tokens, word) >= 1,
{
    lemma_occurrences_bounded(tokens, word);
}

/// A frequency dictionary: each known word with the number of times it was
/// counted. A word that was never counted is absent; no word is present with
/// the count 0.
pub struct FrequencyDictionary {
    counts: StringHashMap<u64>,
}

impl View for FrequencyDictionary {
    type V = Map<Seq<char>, u64>;

    closed spec fn view(&self) -> Map<Seq<char>, u64> {
        self.counts@
    }
}

impl FrequencyDictionary {
    /// The invariant of the type: every key is counted at least once.
    #[verifier::type_invariant]
    spec fn counts_are_positive(&self) -> bool {
        forall|word: Seq<char>| #[trigger]
            self.counts@.contains_key(word) ==> self.counts@[word] >= 1
    }

    /// The dictionary without any word.
    pub fn new() -> (out: Self)
        ensures
            out@ == Map::<Seq<char>, u64>::empty(),
    {
        FrequencyDictionary { counts: StringHashMap::new() }
    }

    /// Sets the count of `word` to `count`. With the count 0 the word is
    /// taken out, since a word that does not occur is absent.
    pub fn insert(&mut self, word: String, count: u64)
        ensures
            final(self)@ == if count == 0 {
                old(self)@.remove(word@)
            } else {
                old(self)@.insert(word@, count)
            },
    {
        proof {
            use_type_invariant(&*self);
        }
        // The table is taken out while it changes and put back whole.
        let mut counts: StringHashMap<u64> = StringHashMap::new();
        core::mem::swap(&mut self.counts, &mut counts);
        if count == 0 {
            counts.remove(word.as_str());
        } else {
            counts.insert(word, count);
        }
        self.counts = counts;
    }

    /// Whether `word` is a known word.
    pub fn contains(&self, word: &str) -> (out: bool)
        ensures
            out == self@.contains_key(word@),
    {
        self.counts.contains_key(word)
    }

    /// The count of `word`: at least 1 for a known word, 0 for any other.
    pub fn count(&self, word: &str) -> (out: u64)
        ensures
            out == frequency(self@, word@),
            out >= 1 <==> self@.contains_key(word@),
    {
        proof {
            use_type_invariant(self);
        }
        match self.counts.get(word) {
            Some(count) => *count,
            None => 0,
        }
    }

    /// The number of known words.
    pub fn len(&self) -> (out: usize)
        ensures
            out == self@.len(),
    {
        self.counts.len()
    }

    /// Whether no word is known.
    pub fn is_empty(&self) -> (out: bool)
        ensures
            out == self@.is_empty(),
    {
        self.counts.is_empty()
    }
}

/// Builds the dictionary of a token stream: each token that occurs becomes a
/// key, mapped to the number of times that exact string occurs. No tokens give
/// the empty dictionary.
pub fn create_frequency_map(corpus: Vec<&str>) -> (out: FrequencyDictionary)
    ensures
        out@ == frequency_map(corpus.deep_view()),
        forall|word: Seq<char>|
            frequency(out@, word) == #[trigger] occurrences(corpus.deep_view(), word),
{
    let ghost tokens = corpus.deep_view();
    let mut out = FrequencyDictionary::new();
    let mut i: usize = 0;
    while i < corpus.len()
        invariant
            i <= corpus.len(),
            tokens == corpus.deep_view(),
            out@ == frequency_map(tokens.take(i as int)),
        decreases corpus.len() - i,
    {
        let token: &str = corpus[i];
        let ghost seen = tokens.take(i as int);
        let count: u64 = out.count(token);
        proof {
            lemma_occurrences_bounded(seen, token@);
            assert(tokens.take(i + 1) =~= seen.push(token@));
            assert forall|word: Seq<char>|
                occurrences(seen.push(token@), word) == occurrences(seen, word) + if word
                    == token@ {
                    1nat
                } else {
                    0nat
                } && (seen.push(token@).contains(word) <==> seen.contains(word) || word
                    == token@) by {
                lemma_occurrences_push(seen, token@, word);
            }
        }
        out.insert(token.to_owned(), count + 1);
        i += 1;
    }
    proof {
        assert(tokens.take(corpus.len() as int) =~= tokens);
        assert forall|word: Seq<char>|
            frequency(out@, word) == #[trigger] occurrences(tokens, word) by {
            lemma_frequency_map_is_exact(tokens, word);
        }
    }
    out
}

} // verus!
