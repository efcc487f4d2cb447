//! Spelling correction against a word-frequency dictionary.
//!
//! A dictionary maps each word of a corpus to the number of its occurrences.
//! A query that is a known word stays as it is. Any other query is compared
//! with the known words one edit away (a deletion, a swap of two neighbours, a
//! substitution or an insertion of a letter) and, only if there are none, with
//! the known words two edits away; the most frequent of them is the
//! correction, and of several equally frequent ones the lexicographically
//! smallest.

pub mod dictionary;
pub mod edits;
pub mod ranker;
pub mod resolver;
pub mod tokenizer;
pub mod words;

pub use dictionary::{create_frequency_map, FrequencyDictionary};
pub use edits::generate_corrections;
pub use ranker::{get_correction, select_best};
pub use resolver::{get_candidates, get_known};
pub use tokenizer::{count_words, get_dictionary, get_words, tokenize};
