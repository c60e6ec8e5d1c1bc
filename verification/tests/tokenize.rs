use lib_nltk::tokenize::api::{StringTokenizer, TokenizerI};
use lib_nltk::probability::Probability;
use lib_nltk::tokenize::legality_principle::LegalitySyllableTokenizer;
use lib_nltk::tokenize::simple::{CharTokenizer, LineTokenizer, SpaceTokenizer, TabTokenizer};
use lib_nltk::tokenize::util::{
    align_tokens, is_cjk, regexp_span_tokenize, spans_to_relative, string_span_tokenize,
    xml_escape, xml_unescape, TokenizeError,
};

#[test]
fn test_is_cjk() {
    assert!(!is_cjk(' '));
    assert!(is_cjk('\u{AC00}'));
    assert!(!is_cjk('\u{FE2F}'));
    assert!(is_cjk('\u{04CD3}'));
    assert!(!is_cjk('\u{0A880}'));
}

#[test]
fn test_align_tokens() {
    let sentence = "The plane, bound for St Petersburg, crashed in Egypt's Sinai desert just 23 minutes after take-off from Sharm el-Sheikh on Saturday.";
    let expected = vec![
        (0, 3),
        (4, 10),
        (11, 16),
        (17, 20),
        (21, 23),
        (24, 35),
        (36, 43),
        (44, 46),
        (47, 54),
        (55, 60),
        (61, 67),
        (68, 72),
        (73, 75),
        (76, 83),
        (84, 89),
        (90, 98),
        (99, 103),
        (104, 109),
        (110, 119),
        (120, 122),
        (123, 132),
    ];
    let result = align_tokens(sentence.split_whitespace().collect(), sentence).unwrap();
    assert_eq!(result, expected);
}

#[test]
fn test_regexp_span_tokenize() {
    let expected = vec![
        (0, 4),
        (5, 12),
        (13, 17),
        (18, 23),
        (24, 26),
        (27, 30),
        (31, 36),
        (38, 44),
        (45, 48),
        (49, 51),
        (52, 55),
        (56, 58),
        (59, 64),
        (66, 73),
    ];
    let sentence = "Good muffins cost $3.88\nin New York.  Please buy me two of them.\n\nThanks.";
    let result = regexp_span_tokenize(sentence, r"\s+").unwrap();
    assert_eq!(result, expected);
}

#[test]
fn regexp_span_tokenize_refuses_a_broken_pattern() {
    assert_eq!(
        regexp_span_tokenize("anything", r"(unclosed"),
        Err(TokenizeError::ParseError)
    );
}

#[test]
fn string_span_tokenize_splits_on_spaces() {
    let s = "Good muffins cost $3.88\nin New York.  Please buy me two of them.\n\nThanks.";
    let expected = vec![
        (0, 4),
        (5, 12),
        (13, 17),
        (18, 26),
        (27, 30),
        (31, 36),
        (37, 37),
        (38, 44),
        (45, 48),
        (49, 51),
        (52, 55),
        (56, 58),
        (59, 73),
    ];
    let result = string_span_tokenize(s, " ").unwrap();
    assert_eq!(result, expected);
}

#[test]
fn string_span_tokenize_refuses_an_empty_separator() {
    assert_eq!(
        string_span_tokenize("anything", ""),
        Err(TokenizeError::ParseError)
    );
}

#[test]
fn spans_to_relative_subtracts_previous_ends() {
    let sentence = "Good muffins cost $3.88\nin New York.  Please buy me two of them.\n\nThanks.";
    let expected = vec![
        (0, 4),
        (1, 7),
        (1, 4),
        (1, 5),
        (1, 2),
        (1, 3),
        (1, 5),
        (2, 6),
        (1, 3),
        (1, 2),
        (1, 3),
        (1, 2),
        (1, 5),
        (2, 7),
    ];
    let spans = regexp_span_tokenize(sentence, r"\s").unwrap();
    let result = spans_to_relative(&spans);
    assert_eq!(result, expected);
}

#[test]
fn xml_escape_rewrites_the_markup_characters() {
    let s = r#")| & < > ' " ] ["#;
    let expected = r")&#124; &amp; &lt; &gt; &apos; &quot; &#93; &#91;";
    assert_eq!(xml_escape(s), expected);
}

#[test]
fn xml_unescape_restores_the_markup_characters() {
    let s = r")&#124; &amp; &lt; &gt; &apos; &quot; &#93; &#91;";
    let expected = r#")| & < > ' " ] ["#;
    assert_eq!(xml_unescape(s), expected);
}

#[test]
fn space_tokenizer_splits_on_single_spaces() {
    let t = SpaceTokenizer;
    assert_eq!(t.delimiter(), " ");
    assert_eq!(t.tokenize("a b  c"), vec!["a", "b", "", "c"]);
    assert_eq!(
        t.span_tokenize("ab cd").unwrap(),
        vec![(0, 2), (3, 5)]
    );
}

#[test]
fn tab_tokenizer_splits_on_tabs() {
    let t = TabTokenizer;
    assert_eq!(t.delimiter(), "\t");
    assert_eq!(t.tokenize("a\tb\tc"), vec!["a", "b", "c"]);
    assert_eq!(t.tokenize("plain"), vec!["plain"]);
}

#[test]
fn char_tokenizer_splits_on_alphanumerics() {
    let t = CharTokenizer;
    assert_eq!(t.tokenize("a-b"), vec!["", "-", ""]);
    // spans cover the whole string, one grapheme cluster at a time
    assert_eq!(
        t.span_tokenize("héllo").unwrap(),
        vec![(0, 1), (1, 3), (3, 4), (4, 5), (5, 6)]
    );
}

#[test]
fn line_tokenizer_splits_into_lines() {
    let t = LineTokenizer;
    assert_eq!(t.tokenize("one\ntwo\r\nthree\n"), vec!["one", "two", "three"]);
    assert_eq!(
        t.span_tokenize("ab\ncde").unwrap(),
        vec![(0, 2), (2, 5)]
    );
}

#[test]
fn tokenize_sents_maps_over_sentences() {
    let t = SpaceTokenizer;
    let r = t.tokenize_sents(&vec!["a b", "c"]);
    assert_eq!(r, vec![vec!["a", "b"], vec!["c"]]);
}

#[test]
fn align_tokens_refuses_a_mismatch() {
    assert_eq!(
        align_tokens(vec!["Hello", "Mars"], "Hello World"),
        Err(TokenizeError::MismatchError)
    );
    let ok = align_tokens(vec!["Hello", "World"], "Hello World").unwrap();
    assert_eq!(ok, vec![(0, 5), (6, 11)]);
}

#[test]
fn tokenize_error_messages() {
    assert_eq!(TokenizeError::ParseError.message(), "Parsing Error");
    assert_eq!(
        TokenizeError::MismatchError.message(),
        "Mismatch Length Error"
    );
}

#[test]
fn onset_is_everything_before_the_first_vowel() {
    let t = LegalitySyllableTokenizer::new(&Vec::new(), None, None);
    assert_eq!(t.onset("dmit"), Some("dm".to_string()));
    assert_eq!(t.onset("strength"), Some("str".to_string()));
    // a word that starts with a vowel contributes nothing
    assert_eq!(t.onset("admit"), None);
    assert_eq!(t.onset(""), None);
    // a word without vowels is its own consonant cluster
    assert_eq!(t.onset("bcd"), Some("bcd".to_string()));
}

#[test]
fn find_legal_onsets_filters_by_frequency() {
    let words = vec![
        "dog".to_string(),
        "cat".to_string(),
        "dry".to_string(),
        "dream".to_string(),
        "apple".to_string(),
    ];
    // with the default threshold of one thousandth, every gathered onset
    // is legal; the counts are over the four onsets gathered
    let lax = LegalitySyllableTokenizer::new(&Vec::new(), None, None);
    let mut all = lax.find_legal_onsets(&words);
    all.sort();
    assert_eq!(
        all,
        vec![
            ("c".to_string(), 1),
            ("d".to_string(), 1),
            ("dr".to_string(), 2)
        ]
    );
    // with a threshold of one half, only the onset holding half the mass
    // stays
    let strict = LegalitySyllableTokenizer::new(
        &Vec::new(),
        None,
        Some(Probability { num: 1, den: 2 }),
    );
    assert_eq!(
        strict.find_legal_onsets(&words),
        vec![("dr".to_string(), 2)]
    );
}
