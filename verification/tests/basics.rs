use spellcheck::{
    create_frequency_map, generate_corrections, get_correction, get_words, FrequencyDictionary,
};

#[test]
fn test_get_words() {
    let text = vec!["the", "project", "gutenberg", "ebook"];
    let mut big_text = String::from("The Project Gutenberg EBook of The Adventures");
    big_text = big_text.to_lowercase();
    let words = get_words(&big_text);

    assert_eq!(text[..], words[0][..4]);
}

#[test]
fn test_vec_to_hash() {
    let vec = vec!["there", "were", "many", "many", "issues"];
    let hash = create_frequency_map(vec);

    assert_eq!(2 as u64, hash.count("many"));
}

#[test]
fn test_corrections() {
    let mut corr = vec![
        "he", "te", "th", "ahe", "tae", "tha", "bhe", "tbe", "thb", "che", "tce", "thc", "athe",
    ];
    corr.sort();
    println!("{:?}", generate_corrections("speling"));
    assert_eq!(
        corr[..3].to_vec(),
        generate_corrections("the")[..3].to_vec()
    );
}

#[test]
fn test_get_correction() {
    let mut freq_map = FrequencyDictionary::new();
    freq_map.insert(String::from("free"), 10);
    freq_map.insert(String::from("freed"), 4);

    assert_eq!(
        String::from("free"),
        get_correction(String::from("freee"), &freq_map)
    );
}
