use spellcheck::{
    create_frequency_map, get_candidates, get_correction, get_dictionary, get_known, select_best,
    FrequencyDictionary,
};

fn dictionary(entries: &[(&str, u64)]) -> FrequencyDictionary {
    let mut dict = FrequencyDictionary::new();
    for (word, count) in entries {
        dict.insert(String::from(*word), *count);
    }
    dict
}

fn strings(words: &[&str]) -> Vec<String> {
    words.iter().map(|w| String::from(*w)).collect()
}

#[test]
fn known_words_are_kept_in_order() {
    let dict = dictionary(&[("cat", 5), ("cot", 5), ("the", 9)]);
    assert_eq!(
        get_known(strings(&["the", "dog", "cot", "cat", "cot", ""]), &dict),
        vec!["the", "cot", "cat", "cot"]
    );
    let none: Vec<String> = Vec::new();
    assert_eq!(get_known(strings(&["dog", "cow"]), &dict), none);
    assert_eq!(get_known(Vec::new(), &dict), none);
    assert_eq!(get_known(strings(&["cat"]), &FrequencyDictionary::new()), none);
}

#[test]
fn a_known_word_is_its_only_candidate() {
    // "cat" is known; "cot", one edit away and far more frequent, is no candidate.
    let dict = dictionary(&[("cat", 1), ("cot", 1000), ("cut", 50)]);
    assert_eq!(get_candidates(String::from("cat"), &dict), vec!["cat"]);
    assert_eq!(get_candidates(String::from("cot"), &dict), vec!["cot"]);
}

#[test]
fn a_known_word_is_never_corrected() {
    let dict = dictionary(&[("cat", 1), ("cot", 1000), ("cut", 50)]);
    assert_eq!(get_correction(String::from("cat"), &dict), "cat");
    assert_eq!(get_correction(String::from("cot"), &dict), "cot");
    assert_eq!(get_correction(String::from("cut"), &dict), "cut");
}

#[test]
fn correcting_twice_changes_nothing_more() {
    let dict = dictionary(&[("spelling", 4), ("spilling", 9), ("apple", 1), ("cat", 5)]);
    for word in ["speling", "spelling", "spiling", "aple", "zzzzzz", "", "ct", "korrectud"] {
        let once = get_correction(String::from(word), &dict);
        let twice = get_correction(once.clone(), &dict);
        assert_eq!(once, twice, "{}", word);
    }
}

#[test]
fn candidates_one_edit_away() {
    let dict = dictionary(&[("cat", 5), ("cot", 5), ("cart", 2), ("dog", 7), ("act", 3)]);
    // one substitution, one substitution, one insertion; "act" needs two edits
    assert_eq!(get_candidates(String::from("cbt"), &dict), vec!["cat", "cot"]);
    // "ct": insertions give "cat", "cot", "act"
    assert_eq!(get_candidates(String::from("ct"), &dict), vec!["act", "cat", "cot"]);
    // "crat": the swap gives "cart", the deletion "cat"
    assert_eq!(get_candidates(String::from("crat"), &dict), vec!["cart", "cat"]);
}

#[test]
fn candidates_two_edits_away() {
    let dict = dictionary(&[("corrected", 3), ("corrects", 8), ("apple", 1)]);
    assert_eq!(
        get_candidates(String::from("korrectud"), &dict),
        vec!["corrected"]
    );
    // two deletions
    assert_eq!(get_candidates(String::from("appplee"), &dict), vec!["apple"]);
    // one word two edits away in several ways comes once
    assert_eq!(get_candidates(String::from("aple"), &dict), vec!["apple"]);
    assert_eq!(get_candidates(String::from("ale"), &dict), vec!["apple"]);
}

#[test]
fn candidates_come_sorted_and_once() {
    let dict = dictionary(&[
        ("bat", 1), ("cat", 1), ("eat", 1), ("fat", 1), ("at", 1), ("ant", 1), ("art", 1),
        ("a", 1), ("t", 1), ("ta", 1),
    ]);
    assert_eq!(
        get_candidates(String::from("xat"), &dict),
        vec!["at", "bat", "cat", "eat", "fat"]
    );
    assert_eq!(
        get_candidates(String::from("xxat"), &dict),
        vec!["at", "bat", "cat", "eat", "fat"]
    );
}

#[test]
fn no_candidates_where_nothing_known_is_in_reach() {
    let dict = dictionary(&[("apple", 1)]);
    let none: Vec<String> = Vec::new();
    assert_eq!(get_candidates(String::from("zzzzzzzzzz"), &dict), none);
    assert_eq!(get_candidates(String::from("app"), &dict), vec!["apple"]);
    assert_eq!(get_candidates(String::from("ap"), &dict), none);
}

#[test]
fn the_second_tier_is_not_asked_when_the_first_answers() {
    // "spelling" is one edit from "speling"; "spilling" is two edits away and
    // far more frequent. It must not be chosen, nor be a candidate.
    let dict = dictionary(&[("spelling", 1), ("spilling", 1000)]);
    assert_eq!(get_candidates(String::from("speling"), &dict), vec!["spelling"]);
    assert_eq!(get_correction(String::from("speling"), &dict), "spelling");
    // Without the first-tier word the second tier answers.
    let dict = dictionary(&[("spilling", 1000)]);
    assert_eq!(get_candidates(String::from("speling"), &dict), vec!["spilling"]);
    assert_eq!(get_correction(String::from("speling"), &dict), "spilling");
}

#[test]
fn the_most_frequent_candidate_wins() {
    let dict = dictionary(&[("free", 10), ("freed", 4)]);
    assert_eq!(get_candidates(String::from("freee"), &dict), vec!["free", "freed"]);
    assert_eq!(get_correction(String::from("freee"), &dict), "free");
    let dict = dictionary(&[("free", 4), ("freed", 10)]);
    assert_eq!(get_correction(String::from("freee"), &dict), "freed");
}

#[test]
fn equally_frequent_candidates_give_the_smaller_word() {
    let dict = dictionary(&[("cat", 5), ("cot", 5)]);
    for _ in 0..20 {
        assert_eq!(get_correction(String::from("cbt"), &dict), "cat");
    }
    // the same with the words put in the other way round
    let dict = dictionary(&[("cot", 5), ("cat", 5)]);
    assert_eq!(get_correction(String::from("cbt"), &dict), "cat");
    let dict = dictionary(&[("cot", 5), ("cat", 5), ("cut", 5), ("cit", 4), ("cet", 6)]);
    assert_eq!(get_correction(String::from("cbt"), &dict), "cet");
    let dict = dictionary(&[("cot", 5), ("cat", 5), ("cut", 5), ("cit", 4)]);
    assert_eq!(get_correction(String::from("cbt"), &dict), "cat");
}

#[test]
fn select_best_takes_any_order() {
    let dict = dictionary(&[("cat", 5), ("cot", 5), ("cut", 7), ("cab", 7), ("the", 1)]);
    assert_eq!(select_best(&strings(&["cot", "cat"]), &dict), "cat");
    assert_eq!(select_best(&strings(&["cat", "cot"]), &dict), "cat");
    assert_eq!(select_best(&strings(&["the", "cot", "cut", "cat", "cab"]), &dict), "cab");
    assert_eq!(select_best(&strings(&["cut", "cut", "cab", "cab"]), &dict), "cab");
    assert_eq!(select_best(&strings(&["the"]), &dict), "the");
    // a word that is no key counts as 0
    assert_eq!(select_best(&strings(&["dog", "the"]), &dict), "the");
    assert_eq!(select_best(&strings(&["dog", "bird"]), &dict), "bird");
}

#[test]
fn a_word_out_of_reach_comes_back_unchanged() {
    let dict = dictionary(&[("apple", 1)]);
    assert_eq!(
        get_correction(String::from("zzzzzzzzzz"), &dict),
        "zzzzzzzzzz"
    );
}

#[test]
fn the_empty_word_comes_back_unchanged() {
    // "a" is one insertion away from the empty word, and still no correction of it.
    let dict = dictionary(&[("a", 100), ("i", 50)]);
    assert_eq!(get_correction(String::new(), &dict), "");
    assert_eq!(get_correction(String::new(), &FrequencyDictionary::new()), "");
}

#[test]
fn an_empty_dictionary_corrects_nothing() {
    let dict = FrequencyDictionary::new();
    let none: Vec<String> = Vec::new();
    for word in ["speling", "a", "the", "zzzzzzzzzz"] {
        assert_eq!(get_candidates(String::from(word), &dict), none);
        assert_eq!(get_correction(String::from(word), &dict), word);
    }
    let dict = create_frequency_map(Vec::new());
    assert_eq!(get_correction(String::from("speling"), &dict), "speling");
}

#[test]
fn a_word_of_one_letter() {
    // The deletion gives the empty word, which is no key.
    let dict = dictionary(&[("a", 9), ("i", 5), ("an", 3)]);
    assert_eq!(get_candidates(String::from("x"), &dict), vec!["a", "i"]);
    assert_eq!(get_correction(String::from("x"), &dict), "a");
    assert_eq!(get_correction(String::from("n"), &dict), "a");
    let dict = dictionary(&[("an", 3)]);
    assert_eq!(get_correction(String::from("n"), &dict), "an");
}

#[test]
fn a_query_is_not_normalised() {
    // Lowercasing the query is the caller's part.
    let dict = dictionary(&[("the", 9)]);
    assert_eq!(get_correction(String::from("The"), &dict), "the");
    assert_eq!(get_correction(String::from("THE"), &dict), "THE");
    assert_eq!(get_correction(String::from("the\n"), &dict), "the");
}

#[test]
fn speling_is_corrected_from_a_corpus() {
    let corpus = "Spelling is hard. Good spelling takes practice;\n\
                  bad SPELLING takes none. Check your spelling, and the spilling!";
    let dict = get_dictionary(corpus);
    assert_eq!(dict.count("spelling"), 4);
    assert_eq!(get_correction(String::from("speling"), &dict), "spelling");
    assert_eq!(get_correction(String::from("spelling"), &dict), "spelling");
    assert_eq!(get_correction(String::from("practise"), &dict), "practice");
    assert_eq!(get_correction(String::from("hrad"), &dict), "hard");
    assert_eq!(get_correction(String::from("chekc"), &dict), "check");
}
