use spellcheck::{create_frequency_map, FrequencyDictionary};

#[test]
fn counts_equal_occurrences() {
    let dict = create_frequency_map(vec![
        "there", "were", "many", "many", "issues", "many", "there",
    ]);
    assert_eq!(dict.count("many"), 3);
    assert_eq!(dict.count("there"), 2);
    assert_eq!(dict.count("were"), 1);
    assert_eq!(dict.count("issues"), 1);
    assert_eq!(dict.count("none"), 0);
    assert_eq!(dict.len(), 4);
    assert!(dict.contains("many"));
    assert!(!dict.contains("man"));
    assert!(!dict.contains("Many"));
}

#[test]
fn no_tokens_give_the_empty_dictionary() {
    let dict = create_frequency_map(Vec::new());
    assert!(dict.is_empty());
    assert_eq!(dict.len(), 0);
    assert_eq!(dict.count("a"), 0);
    assert!(!dict.contains(""));
}

#[test]
fn new_dictionary_is_empty() {
    let dict = FrequencyDictionary::new();
    assert!(dict.is_empty());
    assert_eq!(dict.len(), 0);
    assert!(!dict.contains("free"));
    assert_eq!(dict.count("free"), 0);
}

#[test]
fn insert_sets_the_count() {
    let mut dict = FrequencyDictionary::new();
    dict.insert(String::from("free"), 10);
    dict.insert(String::from("freed"), 4);
    assert_eq!(dict.count("free"), 10);
    assert_eq!(dict.count("freed"), 4);
    assert_eq!(dict.len(), 2);
    assert!(!dict.is_empty());
    dict.insert(String::from("free"), 7);
    assert_eq!(dict.count("free"), 7);
    assert_eq!(dict.len(), 2);
}

#[test]
fn a_count_of_zero_means_absent() {
    let mut dict = FrequencyDictionary::new();
    dict.insert(String::from("free"), 10);
    dict.insert(String::from("free"), 0);
    assert!(!dict.contains("free"));
    assert_eq!(dict.count("free"), 0);
    assert!(dict.is_empty());
    dict.insert(String::from("freed"), 0);
    assert!(!dict.contains("freed"));
    assert_eq!(dict.len(), 0);
}

#[test]
fn tokens_are_counted_as_exact_strings() {
    let dict = create_frequency_map(vec!["a", "A", "a ", "a", ""]);
    assert_eq!(dict.count("a"), 2);
    assert_eq!(dict.count("A"), 1);
    assert_eq!(dict.count("a "), 1);
    assert_eq!(dict.count(""), 1);
    assert_eq!(dict.len(), 4);
}
