use wordpiece::normalize_nfc;
use wordpiece::pre_tokenize::bert::{is_punctuation, is_whitespace};
use wordpiece::pre_tokenize::{is_cjk_character, is_hiragana, is_katakana, pre_tokenize_bert, split_cjk};
use wordpiece::train::corpus::corpus_line_words;

fn strings(v: &[&str]) -> Vec<String> {
    v.iter().map(|s| s.to_string()).collect()
}

#[test]
fn bert_splits_whitespace_and_punctuation() {
    assert_eq!(pre_tokenize_bert("Hello, world!", false), strings(&["Hello", ",", "world", "!"]));
    assert_eq!(pre_tokenize_bert("  a\tb\n", false), strings(&["a", "b"]));
    assert_eq!(pre_tokenize_bert("", false), Vec::<String>::new());
    assert_eq!(pre_tokenize_bert("a..b", false), strings(&["a", ".", ".", "b"]));
}

#[test]
fn bert_lowercases() {
    assert_eq!(pre_tokenize_bert("Hello WORLD", true), strings(&["hello", "world"]));
    assert_eq!(pre_tokenize_bert("\u{C9}T\u{C9}", true), strings(&["\u{e9}t\u{e9}"]));
}

#[test]
fn punctuation_classes() {
    assert!(is_punctuation('!'));
    assert!(is_punctuation('~'));
    assert!(is_punctuation('\u{00BF}'));
    assert!(is_punctuation('\u{2014}'));
    assert!(is_punctuation('\u{3002}'));
    assert!(!is_punctuation('a'));
    assert!(!is_punctuation('0'));
    assert!(is_whitespace(' '));
    assert!(is_whitespace('\u{3000}'));
    assert!(!is_whitespace('x'));
}

#[test]
fn cjk_classes() {
    assert!(is_cjk_character('\u{4e2d}'));
    assert!(is_cjk_character('\u{20000}'));
    assert!(!is_cjk_character('a'));
    assert!(is_hiragana('\u{3042}'));
    assert!(!is_hiragana('\u{30A2}'));
    assert!(is_katakana('\u{30A2}'));
    assert!(is_katakana('\u{31F0}'));
    assert!(!is_katakana('\u{3042}'));
}

#[test]
fn split_cjk_isolates_ideographs() {
    assert_eq!(
        split_cjk(strings(&["ab\u{4e2d}\u{6587}cd", "x"])),
        strings(&["ab", "\u{4e2d}", "\u{6587}", "cd", "x"])
    );
    assert_eq!(split_cjk(Vec::new()), Vec::<String>::new());
}

#[test]
fn nfc_composes() {
    assert_eq!(normalize_nfc("e\u{301}"), "\u{e9}");
    assert_eq!(normalize_nfc("abc"), "abc");
}

#[test]
fn corpus_line() {
    assert_eq!(
        corpus_line_words("Hello, \u{4e2d}World", true),
        strings(&["hello", ",", "\u{4e2d}", "world"])
    );
}

#[test]
fn whitespace_set_matches_std() {
    let listed = |c: char| {
        ('\u{9}'..='\u{d}').contains(&c)
            || c == ' '
            || c == '\u{85}'
            || c == '\u{a0}'
            || c == '\u{1680}'
            || ('\u{2000}'..='\u{200a}').contains(&c)
            || c == '\u{2028}'
            || c == '\u{2029}'
            || c == '\u{202f}'
            || c == '\u{205f}'
            || c == '\u{3000}'
    };
    for code in 0u32..=0x10FFFF {
        if let Some(c) = char::from_u32(code) {
            assert_eq!(is_whitespace(c), listed(c), "U+{:04X}", code);
        }
    }
}

#[test]
fn normalize_nfc_forms_checked_by_the_normalization_crate() {
    let pairs = [
        ("abc", "abc"),
        ("\u{1e0b}\u{1c4}", "\u{1e0b}\u{1c4}"),
        ("\u{2026}", "\u{2026}"),
        ("\u{2126}", "\u{3a9}"),
        ("\u{1e0b}\u{323}", "\u{1e0d}\u{307}"),
        ("\u{1e0d}\u{307}", "\u{1e0d}\u{307}"),
        ("a\u{301}", "\u{e1}"),
        ("\u{301}a", "\u{301}a"),
        ("\u{d4db}", "\u{d4db}"),
        ("\u{ac1c}", "\u{ac1c}"),
        ("a\u{300}\u{305}\u{315}\u{5ae}b", "\u{e0}\u{5ae}\u{305}\u{315}b"),
    ];
    for (input, expected) in pairs {
        let once = normalize_nfc(input);
        assert_eq!(once, expected);
        assert_eq!(normalize_nfc(&once), once);
    }
}
