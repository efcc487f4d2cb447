//! From raw corpus text to tokens and to the frequency dictionary: lowercase,
//! blank out what is no letter, split into lines and words, count.

use crate::dictionary::{create_frequency_map, frequency_map, FrequencyDictionary};
use crate::words::{chars_of, string_of_range};
use regex::Regex;
use vstd::prelude::*;

verus! {

/// Whether `c` is white space: one of the code points with the Unicode
/// property `White_Space`, by which `str::split_whitespace` splits.
pub open spec fn is_whitespace(c: char) -> bool {
    ||| '\u{9}' <= c <= '\u{d}'
    ||| c == ' '
    ||| c == '\u{85}'
    ||| c == '\u{a0}'
    ||| c == '\u{1680}'
    ||| '\u{2000}' <= c <= '\u{200a}'
    ||| c == '\u{2028}'
    ||| c == '\u{2029}'
    ||| c == '\u{202f}'
    ||| c == '\u{205f}'
    ||| c == '\u{3000}'
}

/// Whether `c` is one of the 52 ASCII letters.
pub open spec fn is_ascii_letter(c: char) -> bool {
    'a' <= c <= 'z' || 'A' <= c <= 'Z'
}

/// `text` with a blank in place of every character that is no ASCII letter.
pub open spec fn blank_non_letters(text: Seq<char>) -> Seq<char> {
    Seq::new(
        text.len(),
        |i: int|
            if is_ascii_letter(text[i]) {
                text[i]
            } else {
                ' '
            },
    )
}

/// The number of characters of `text` before its first newline; the length
/// of `text` if it has none.
pub open spec fn line_length(text: Seq<char>) -> nat
    decreases text.len(),
{
    if text.len() == 0 || text[0] == '\n' {
        0
    } else {
        1 + line_length(text.drop_first())
    }
}

/// The number of characters of `text` before its first white space; the
/// length of `text` if it has none.
pub open spec fn word_length(text: Seq<char>) -> nat
    decreases text.len(),
{
    if text.len() == 0 || is_whitespace(text[0]) {
        0
    } else {
        1 + word_length(text.drop_first())
    }
}

/// `line` without the carriage return at its end, if it has one there.
pub open spec fn without_carriage_return(line: Seq<char>) -> Seq<char> {
    if line.len() > 0 && line.last() == '\r' {
        line.drop_last()
    } else {
        line
    }
}

/// The lines of `text`, as `str::lines` gives them. A newline ends a line, and
/// a carriage return just before that newline goes with it. What follows the
/// last newline is a line of its own unless it is empty; there a carriage
/// return at the end stays.
pub open spec fn lines(text: Seq<char>) -> Seq<Seq<char>>
    decreases text.len(),
{
    let n = line_length(text) as int;
    if text.len() == 0 {
        seq![]
    } else if n < text.len() {
        seq![without_carriage_return(text.take(n))] + lines(text.skip(n + 1))
    } else {
        seq![text]
    }
}

/// The words of `text`, as `str::split_whitespace` gives them: its maximal
/// runs of characters that are no white space, in order.
pub open spec fn split_whitespace(text: Seq<char>) -> Seq<Seq<char>>
    decreases text.len(),
{
    let n = word_length(text) as int;
    if text.len() == 0 {
        seq![]
    } else if n == 0 {
        split_whitespace(text.drop_first())
    } else if n < text.len() {
        seq![text.take(n)] + split_whitespace(text.skip(n))
    } else {
        seq![text]
    }
}

/// The words of each line of `text`.
pub open spec fn words_by_line(text: Seq<char>) -> Seq<Seq<Seq<char>>> {
    lines(text).map_values(|line: Seq<char>| split_whitespace(line))
}

/// The tokens of `text`: the words of its lines, one line after the other,
/// once every character that is no ASCII letter has become a blank.
pub open spec fn tokens_of(text: Seq<char>) -> Seq<Seq<char>> {
    words_by_line(blank_non_letters(text)).flatten()
}

/// The lowercase form of a text, as `str::to_lowercase` gives it.
pub uninterp spec fn lowercased(text: Seq<char>) -> Seq<char>;

/// Trusted: `str::to_lowercase` of the standard library. It maps each
/// character by the Unicode tables built into the library, so its result is a
/// function of the text alone, which `lowercased` names.
pub assume_specification[ str::to_lowercase ](text: &str) -> (out: String)
    ensures
        out@ == lowercased(text@),
;

/// Trusted: the error of the regex crate, carried through as it is.
#[verifier::external_type_specification]
#[verifier::external_body]
pub struct ExRegexError(regex::Error);

/// Trusted: compiles `pattern` with `Regex::new` of the regex crate and
/// replaces every match in `text` by `replacement` with `Regex::replace_all`.
/// The contract covers one pattern, the class `[[:^alpha:]]` of all characters
/// but the ASCII letters, with a single blank as replacement. That pattern is
/// valid, so compiling succeeds; each match is one character that is no ASCII
/// letter, the matches are all of those, and the blank holds no `$` that would
/// be expanded. So the result is `text` with each such character turned into a
/// blank.
#[verifier::external_body]
fn replace_all(pattern: &str, text: &str, replacement: &str) -> (out: Result<String, regex::Error>)
    requires
        pattern@ == "[[:^alpha:]]"@,
        replacement@ == " "@,
    ensures
        out is Ok,
        out matches Ok(replaced) ==> replaced@ == blank_non_letters(text@),
{
    match Regex::new(pattern) {
        Ok(re) => Ok(re.replace_all(text, replacement).into_owned()),
        Err(e) => Err(e),
    }
}

proof fn lemma_word_length(text: Seq<char>, n: int)
    requires
        0 <= n <= text.len(),
        forall|k: int| 0 <= k < n ==> !is_whitespace(#[trigger] text[k]),
        n == text.len() || is_whitespace(text[n]),
    ensures
        word_length(text) == n,
    decreases n,
{
    if n > 0 {
        lemma_word_length(text.drop_first(), n - 1);
    }
}

proof fn lemma_line_length(text: Seq<char>, n: int)
    requires
        0 <= n <= text.len(),
        forall|k: int| 0 <= k < n ==> #[trigger] text[k] != '\n',
        n == text.len() || text[n] == '\n',
    ensures
        line_length(text) == n,
    decreases n,
{
    if n > 0 {
        lemma_line_length(text.drop_first(), n - 1);
    }
}

/// A word runs to the end of the text or to a white space, and holds none.
pub proof fn lemma_word_length_bounds(text: Seq<char>)
    ensures
        word_length(text) <= text.len(),
        forall|k: int| 0 <= k < word_length(text) ==> !is_whitespace(#[trigger] text[k]),
        word_length(text) == text.len() || is_whitespace(text[word_length(text) as int]),
    decreases text.len(),
{
    if !(text.len() == 0 || is_whitespace(text[0])) {
        let rest = text.drop_first();
        lemma_word_length_bounds(rest);
        assert forall|k: int| 0 <= k < word_length(text) implies !is_whitespace(
            #[trigger] text[k],
        ) by {
            if k > 0 {
                assert(rest[k - 1] == text[k]);
            }
        }
    }
}

/// Every word that splitting gives is non-empty, holds no white space, and is
/// made of characters of the text.
pub proof fn lemma_split_words(text: Seq<char>, i: int)
    requires
        0 <= i < split_whitespace(text).len(),
    ensures
        split_whitespace(text)[i].len() > 0,
        forall|k: int|
            0 <= k < split_whitespace(text)[i].len() ==> !is_whitespace(
                #[trigger] split_whitespace(text)[i][k],
            ) && text.contains(split_whitespace(text)[i][k]),
    decreases text.len(),
{
    let n = word_length(text) as int;
    lemma_word_length_bounds(text);
    if text.len() == 0 {
    } else if n == 0 {
        let rest = text.drop_first();
        lemma_split_words(rest, i);
        let word = split_whitespace(rest)[i];
        assert forall|k: int| 0 <= k < word.len() implies text.contains(#[trigger] word[k]) by {
            let j = choose|j: int| 0 <= j < rest.len() && rest[j] == word[k];
            assert(text[j + 1] == word[k]);
        }
    } else if n < text.len() {
        if i == 0 {
            let word = text.take(n);
            assert forall|k: int| 0 <= k < word.len() implies text.contains(#[trigger] word[k]) by {
                assert(text[k] == word[k]);
            }
        } else {
            let rest = text.skip(n);
            lemma_split_words(rest, i - 1);
            let word = split_whitespace(rest)[i - 1];
            assert forall|k: int| 0 <= k < word.len() implies text.contains(#[trigger] word[k]) by {
                let j = choose|j: int| 0 <= j < rest.len() && rest[j] == word[k];
                assert(text[j + n] == word[k]);
            }
        }
    } else {
        assert forall|k: int| 0 <= k < text.len() implies text.contains(#[trigger] text[k]) by {}
    }
}

/// Every line is made of characters of the text.
pub proof fn lemma_lines_hold_text(text: Seq<char>, i: int, k: int)
    requires
        0 <= i < lines(text).len(),
        0 <= k < lines(text)[i].len(),
    ensures
        text.contains(lines(text)[i][k]),
    decreases text.len(),
{
    let n = line_length(text) as int;
    if text.len() == 0 {
    } else if n < text.len() {
        if i == 0 {
            assert(text[k] == lines(text)[i][k]);
        } else {
            let rest = text.skip(n + 1);
            lemma_lines_hold_text(rest, i - 1, k);
            let j = choose|j: int| 0 <= j < rest.len() && rest[j] == lines(rest)[i - 1][k];
            assert(text[j + n + 1] == lines(text)[i][k]);
        }
    } else {
        assert(text[k] == lines(text)[i][k]);
    }
}

proof fn lemma_flatten_member(lists: Seq<Seq<Seq<char>>>, i: int)
    requires
        0 <= i < lists.flatten().len(),
    ensures
        exists|a: int, b: int|
            0 <= a < lists.len() && 0 <= b < lists[a].len() && #[trigger] lists[a][b]
                == lists.flatten()[i],
    decreases lists.len(),
{
    if lists.len() > 0 {
        let first = lists.first();
        let rest = lists.drop_first();
        if i < first.len() {
            assert(lists[0][i] == lists.flatten()[i]);
        } else {
            lemma_flatten_member(rest, i - first.len());
            let (a, b) = choose|a: int, b: int|
                0 <= a < rest.len() && 0 <= b < rest[a].len() && #[trigger] rest[a][b]
                    == rest.flatten()[i - first.len()];
            assert(lists[a + 1][b] == lists.flatten()[i]);
        }
    }
}

/// Every token is a non-empty word of ASCII letters.
pub proof fn lemma_tokens_are_letters(text: Seq<char>, i: int)
    requires
        0 <= i < tokens_of(text).len(),
    ensures
        tokens_of(text)[i].len() > 0,
        forall|k: int| 0 <= k < tokens_of(text)[i].len() ==> is_ascii_letter(
            #[trigger] tokens_of(text)[i][k],
        ),
{
    let blanked = blank_non_letters(text);
    let lists = words_by_line(blanked);
    lemma_flatten_member(lists, i);
    let (a, b) = choose|a: int, b: int|
        0 <= a < lists.len() && 0 <= b < lists[a].len() && #[trigger] lists[a][b]
            == lists.flatten()[i];
    let line = lines(blanked)[a];
    let token = tokens_of(text)[i];
    lemma_split_words(line, b);
    assert forall|k: int| 0 <= k < token.len() implies is_ascii_letter(#[trigger] token[k]) by {
        let j = choose|j: int| 0 <= j < line.len() && line[j] == token[k];
        lemma_lines_hold_text(blanked, a, j);
    }
}

/// Whether `c` is white space.
pub fn char_is_whitespace(c: char) -> (out: bool)
    ensures
        out == is_whitespace(c),
{
    ('\u{9}' <= c && c <= '\u{d}') || c == ' ' || c == '\u{85}' || c == '\u{a0}' || c == '\u{1680}'
        || ('\u{2000}' <= c && c <= '\u{200a}') || c == '\u{2028}' || c == '\u{2029}' || c
        == '\u{202f}' || c == '\u{205f}' || c == '\u{3000}'
}

/// The words of `chars[from..to]`.
fn split_range(chars: &Vec<char>, from: usize, to: usize) -> (out: Vec<String>)
    requires
        from <= to <= chars.len(),
    ensures
        out.deep_view() == split_whitespace(chars@.subrange(from as int, to as int)),
{
    let ghost whole = chars@.subrange(from as int, to as int);
    let mut out: Vec<String> = Vec::new();
    let mut i: usize = from;
    while i < to
        invariant
            from <= i <= to <= chars.len(),
            whole == chars@.subrange(from as int, to as int),
            out.deep_view() + split_whitespace(chars@.subrange(i as int, to as int))
                == split_whitespace(whole),
        decreases to - i,
    {
        let ghost rest = chars@.subrange(i as int, to as int);
        if char_is_whitespace(chars[i]) {
            assert(rest.drop_first() =~= chars@.subrange(i + 1, to as int));
            i += 1;
        } else {
            let start: usize = i;
            let mut end: usize = i + 1;
            while end < to && !char_is_whitespace(chars[end])
                invariant
                    start < end <= to <= chars.len(),
                    forall|k: int| start <= k < end ==> !is_whitespace(#[trigger] chars@[k]),
                decreases to - end,
            {
                end += 1;
            }
            let word = string_of_range(chars, start, end);
            proof {
                lemma_word_length(rest, end - start);
                assert(rest.take(end - start) =~= chars@.subrange(start as int, end as int));
                assert(rest.skip(end - start) =~= chars@.subrange(end as int, to as int));
            }
            out.push(word);
            i = end;
        }
    }
    out
}

/// The words of `text`, line by line: one list for each line, which holds the
/// line's maximal runs of characters that are no white space. A line without
/// such a run gives an empty list.
pub fn get_words(text: &str) -> (out: Vec<Vec<String>>)
    ensures
        out.deep_view() == words_by_line(text@),
{
    let chars = chars_of(text);
    let n: usize = chars.len();
    let mut out: Vec<Vec<String>> = Vec::new();
    let ghost mut done: Seq<Seq<char>> = seq![];
    let mut start: usize = 0;
    assert(chars@.skip(0) =~= chars@);
    while start < n
        invariant
            start <= n,
            n == chars.len(),
            done + lines(chars@.skip(start as int)) == lines(chars@),
            out.deep_view() == done.map_values(|line: Seq<char>| split_whitespace(line)),
        decreases n - start,
    {
        let ghost rest = chars@.skip(start as int);
        let mut end: usize = start;
        while end < n && chars[end] != '\n'
            invariant
                start <= end <= n,
                n == chars.len(),
                forall|k: int| start <= k < end ==> #[trigger] chars@[k] != '\n',
            decreases n - end,
        {
            end += 1;
        }
        proof {
            lemma_line_length(rest, end - start);
        }
        let mut stop: usize = end;
        if end < n && stop > start && chars[stop - 1] == '\r' {
            stop = stop - 1;
        }
        let words = split_range(&chars, start, stop);
        let ghost line = chars@.subrange(start as int, stop as int);
        proof {
            if end < n {
                assert(rest.skip(end - start + 1) =~= chars@.skip(end + 1));
                assert(line =~= without_carriage_return(rest.take(end - start)));
            }
        }
        out.push(words);
        proof {
            assert(done.push(line).map_values(|line: Seq<char>| split_whitespace(line))
                =~= done.map_values(|line: Seq<char>| split_whitespace(line)).push(
                split_whitespace(line),
            ));
            done = done.push(line);
        }
        start = if end < n {
            end + 1
        } else {
            n
        };
    }
    out
}

/// `text` with a blank in place of every character that is no ASCII letter.
pub fn strip_non_letters(text: &str) -> (out: String)
    ensures
        out@ == blank_non_letters(text@),
{
    match replace_all("[[:^alpha:]]", text, " ") {
        Ok(replaced) => replaced,
        Err(_) => vstd::pervasive::unreached(),
    }
}

/// The tokens of `text`: every character that is no ASCII letter counts as a
/// blank, and the words between the blanks are the tokens, in order.
pub fn tokenize(text: &str) -> (out: Vec<String>)
    ensures
        out.deep_view() == tokens_of(text@),
{
    let stripped = strip_non_letters(text);
    let words = get_words(stripped.as_str());
    let ghost lists = words.deep_view();
    let mut out: Vec<String> = Vec::new();
    let mut i: usize = 0;
    while i < words.len()
        invariant
            i <= words.len(),
            lists == words.deep_view(),
            out.deep_view() == lists.take(i as int).flatten(),
        decreases words.len() - i,
    {
        let line: &Vec<String> = &words[i];
        let ghost before = out.deep_view();
        let mut k: usize = 0;
        while k < line.len()
            invariant
                k <= line.len(),
                out.deep_view() == before + line.deep_view().take(k as int),
            decreases line.len() - k,
        {
            let ghost earlier = out.deep_view();
            out.push(line[k].clone());
            assert(out.deep_view() =~= earlier.push(line[k as int]@));
            k += 1;
        }
        proof {
            lists.take(i as int).lemma_flatten_push(lists[i as int]);
            assert(lists.take(i + 1) =~= lists.take(i as int).push(lists[i as int]));
        }
        i += 1;
    }
    assert(lists.take(words.len() as int) =~= lists);
    out
}

/// Builds the frequency dictionary of a text as it stands, in whatever case
/// it is: every character that is no ASCII letter counts as a blank, and each
/// word between the blanks is counted.
pub fn count_words(text: &str) -> (out: FrequencyDictionary)
    ensures
        out@ == frequency_map(tokens_of(text@)),
{
    let tokens = tokenize(text);
    let mut all_words: Vec<&str> = Vec::new();
    let mut i: usize = 0;
    while i < tokens.len()
        invariant
            i <= tokens.len(),
            all_words.len() == i,
            forall|k: int| 0 <= k < i ==> all_words[k]@ == tokens[k]@,
        decreases tokens.len() - i,
    {
        all_words.push(tokens[i].as_str());
        i += 1;
    }
    assert(all_words.deep_view() =~= tokens.deep_view());
    create_frequency_map(all_words)
}

/// Builds the frequency dictionary of a corpus: the text is put in lowercase,
/// every character that is no ASCII letter becomes a blank, and each word
/// between the blanks is counted.
pub fn get_dictionary(text: &str) -> (out: FrequencyDictionary)
    ensures
        out@ == frequency_map(tokens_of(lowercased(text@))),
{
    let lowered = text.to_lowercase();
    count_words(lowered.as_str())
}

/// The keys of a dictionary built from a text are non-empty words of ASCII
/// letters. The empty word is never a key.
pub proof fn lemma_dictionary_keys_are_words(text: Seq<char>, key: Seq<char>)
    requires
        frequency_map(tokens_of(text)).contains_key(key),
    ensures
        key.len() > 0,
        forall|k: int| 0 <= k < key.len() ==> is_ascii_letter(#[trigger] key[k]),
{
    let tokens = tokens_of(text);
    let i = choose|i: int| 0 <= i < tokens.len() && tokens[i] == key;
    lemma_tokens_are_letters(text, i);
}

} // verus!
