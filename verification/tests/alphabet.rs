use wordpiece::train::{extract_alphabet, WordCounts};
use wordpiece::SpecialTokens;

#[test]
fn test_extract_alphabet_simple() {
    let mut word_counts = WordCounts::new();
    word_counts.insert("hello".to_string(), 10);
    word_counts.insert("world".to_string(), 5);

    let alphabet = extract_alphabet(&word_counts, 100, &SpecialTokens::default());

    // Should contain all unique characters
    assert!(alphabet.contains(&'h'));
    assert!(alphabet.contains(&'e'));
    assert!(alphabet.contains(&'l'));
    assert!(alphabet.contains(&'o'));
    assert!(alphabet.contains(&'w'));
    assert!(alphabet.contains(&'r'));
    assert!(alphabet.contains(&'d'));
}

#[test]
fn test_extract_alphabet_respects_limit() {
    let mut word_counts = WordCounts::new();
    word_counts.insert("abcdefghij".to_string(), 1);

    let alphabet = extract_alphabet(&word_counts, 5, &SpecialTokens::default());

    // The limit applies to the total alphabet size; special token
    // characters come first.
    assert!(
        alphabet.len() <= 5
            && alphabet
                .into_iter()
                .all(|c| { "[PAD][UNK][CLS][SEP][MASK]".contains(c) })
    );
}

#[test]
fn test_extract_alphabet_includes_special_token_chars() {
    let word_counts = WordCounts::new(); // Empty corpus

    let alphabet = extract_alphabet(&word_counts, 100, &SpecialTokens::default());

    // Should include characters from special tokens
    assert!(alphabet.contains(&'['));
    assert!(alphabet.contains(&']'));
}

#[test]
fn test_extract_alphabet_frequency_order() {
    let mut word_counts = WordCounts::new();
    word_counts.insert("aaa".to_string(), 10); // 'a' appears 30 times
    word_counts.insert("bb".to_string(), 5); // 'b' appears 10 times

    let special = SpecialTokens {
        pad: String::new(),
        unk: String::new(),
        cls: String::new(),
        sep: String::new(),
        mask: String::new(),
    };

    let alphabet = extract_alphabet(&word_counts, 100, &special);

    // 'a' should come before 'b' due to higher frequency
    let pos_a = alphabet.iter().position(|&c| c == 'a');
    let pos_b = alphabet.iter().position(|&c| c == 'b');

    assert!(pos_a.unwrap() < pos_b.unwrap());
}

// ---- further cases ----

fn no_specials() -> SpecialTokens {
    SpecialTokens {
        pad: String::new(),
        unk: String::new(),
        cls: String::new(),
        sep: String::new(),
        mask: String::new(),
    }
}

#[test]
fn alphabet_exact_order_specials_first() {
    let mut word_counts = WordCounts::new();
    word_counts.insert("ab".to_string(), 1);
    word_counts.insert("b".to_string(), 3);
    let special = SpecialTokens {
        pad: "[P]".to_string(),
        unk: String::new(),
        cls: String::new(),
        sep: String::new(),
        mask: String::new(),
    };
    // specials '[', 'P', ']' first, then b (4) before a (1)
    assert_eq!(extract_alphabet(&word_counts, 10, &special), vec!['[', 'P', ']', 'b', 'a']);
    assert_eq!(extract_alphabet(&word_counts, 4, &special), vec!['[', 'P', ']', 'b']);
    assert_eq!(extract_alphabet(&word_counts, 0, &special), Vec::<char>::new());
}

#[test]
fn alphabet_ties_keep_first_appearance_order() {
    let mut word_counts = WordCounts::new();
    word_counts.insert("xyz".to_string(), 2);
    word_counts.insert("zy".to_string(), 1);
    // totals: x=2, y=3, z=3; y seen before z
    assert_eq!(extract_alphabet(&word_counts, 10, &no_specials()), vec!['y', 'z', 'x']);
}

#[test]
fn alphabet_special_chars_not_repeated() {
    let mut word_counts = WordCounts::new();
    word_counts.insert("[x]".to_string(), 5);
    let special = SpecialTokens {
        pad: "[A]".to_string(),
        unk: "[A]".to_string(),
        cls: String::new(),
        sep: String::new(),
        mask: String::new(),
    };
    assert_eq!(extract_alphabet(&word_counts, 10, &special), vec!['[', 'A', ']', 'x']);
}

#[test]
fn word_counts_insert_and_record() {
    let mut word_counts = WordCounts::new();
    assert!(word_counts.is_empty());
    assert_eq!(word_counts.insert("a".to_string(), 2), None);
    assert_eq!(word_counts.insert("a".to_string(), 7), Some(2));
    word_counts.record("a".to_string());
    word_counts.record("b".to_string());
    assert_eq!(word_counts.get("a"), Some(8));
    assert_eq!(word_counts.get("b"), Some(1));
    assert_eq!(word_counts.get("c"), None);
    assert_eq!(word_counts.len(), 2);
    let entries = word_counts.entries();
    assert_eq!(entries[0], ("a".to_string(), 8));
    assert_eq!(entries[1], ("b".to_string(), 1));
}

#[test]
fn word_counts_record_line() {
    let mut word_counts = WordCounts::new();
    assert!(word_counts.record_line("Hello, hello world!", true));
    assert_eq!(word_counts.get("hello"), Some(2));
    assert_eq!(word_counts.get("world"), Some(1));
    assert_eq!(word_counts.get(","), Some(1));
    assert_eq!(word_counts.get("!"), Some(1));
    assert!(word_counts.record_line("world \u{4e2d}\u{4e2d}", false));
    assert_eq!(word_counts.get("world"), Some(2));
    assert_eq!(word_counts.get("\u{4e2d}"), Some(2));
    assert_eq!(word_counts.len(), 5);
}

#[test]
fn word_counts_record_line_overflow_leaves_counts() {
    let mut word_counts = WordCounts::new();
    word_counts.insert("a".to_string(), usize::MAX - 1);
    assert!(!word_counts.record_line("a b a", false));
    assert_eq!(word_counts.get("a"), Some(usize::MAX - 1));
    assert_eq!(word_counts.get("b"), None);
    assert!(word_counts.record_line("a b", false));
    assert_eq!(word_counts.get("a"), Some(usize::MAX));
    assert!(!word_counts.words_fit(&vec!["a".to_string()]));
}
