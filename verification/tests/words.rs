use spellcheck::ranker::comes_before;
use spellcheck::words::{
    chars_of, compare_words, insert_sorted, string_of, string_of_range, strings_of, Position,
};

fn chars(text: &str) -> Vec<char> {
    text.chars().collect()
}

#[test]
fn chars_and_strings_convert_back_and_forth() {
    for text in ["", "a", "the", "naïve", "日本語", "a b\tc\n"] {
        assert_eq!(chars_of(text), chars(text));
        assert_eq!(string_of(&chars(text)), text);
    }
    assert_eq!(string_of_range(&chars("spelling"), 2, 5), "ell");
    assert_eq!(string_of_range(&chars("spelling"), 3, 3), "");
    assert_eq!(string_of_range(&chars("naïve"), 2, 4), "ïv");
    assert_eq!(
        strings_of(&vec![chars("cat"), chars(""), chars("cot")]),
        vec!["cat", "", "cot"]
    );
}

#[test]
fn words_compare_as_strings_do() {
    let samples = [
        "", "a", "aa", "ab", "b", "ba", "cat", "cot", "the", "them", "then", "z", "Z", "é", "éa",
        "zé", "日本", "日本語", "\u{10000}", "\u{ffff}", "a\u{7f}", "a\u{80}",
    ];
    for a in samples {
        for b in samples {
            let expected = a.cmp(b);
            let found = compare_words(&chars(a), &chars(b));
            match found {
                Position::Before => assert!(expected.is_lt(), "{:?} {:?}", a, b),
                Position::Same => assert!(expected.is_eq(), "{:?} {:?}", a, b),
                Position::After => assert!(expected.is_gt(), "{:?} {:?}", a, b),
            }
            assert_eq!(comes_before(a, b), a < b);
        }
    }
}

#[test]
fn a_prefix_comes_before_the_longer_word() {
    assert!(matches!(compare_words(&chars("the"), &chars("them")), Position::Before));
    assert!(matches!(compare_words(&chars("them"), &chars("the")), Position::After));
    assert!(matches!(compare_words(&chars(""), &chars("a")), Position::Before));
    assert!(matches!(compare_words(&chars(""), &chars("")), Position::Same));
}

#[test]
fn insert_sorted_keeps_order_and_drops_repeats() {
    let mut words: Vec<Vec<char>> = Vec::new();
    for word in ["cot", "cat", "the", "a", "cat", "", "cab", "the", "zebra", "a"] {
        insert_sorted(&mut words, chars(word));
    }
    assert_eq!(strings_of(&words), vec!["", "a", "cab", "cat", "cot", "the", "zebra"]);
}
