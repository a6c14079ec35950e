use wordpiece::tokenize::Tokenizer;
use wordpiece::{normalize_nfc, SpecialTokens, TokenizerConfig, Vocab};

fn create_test_tokenizer() -> Tokenizer {
    let tokens = vec![
        "[PAD]".to_string(),
        "[UNK]".to_string(),
        "[CLS]".to_string(),
        "[SEP]".to_string(),
        "[MASK]".to_string(),
        "hello".to_string(),
        "world".to_string(),
        "##ing".to_string(),
    ];
    let vocab = Vocab::new(tokens, SpecialTokens::default());
    Tokenizer::new(vocab)
}

fn create_full_tokenizer() -> Tokenizer {
    let tokens = vec![
        "[PAD]".to_string(),
        "[UNK]".to_string(),
        "[CLS]".to_string(),
        "[SEP]".to_string(),
        "[MASK]".to_string(),
        "hello".to_string(),
        "world".to_string(),
        "play".to_string(),
        "##ing".to_string(),
        "un".to_string(),
        "##known".to_string(),
        ",".to_string(),
        "!".to_string(),
    ];
    let vocab = Vocab::new(tokens, SpecialTokens::default());
    Tokenizer::new(vocab)
}

#[test]
fn test_tokenizer_new() {
    let tokenizer = create_test_tokenizer();
    assert_eq!(tokenizer.vocab().len(), 8);
    assert_eq!(tokenizer.continuing_subword_prefix(), "##");
}

#[test]
fn test_tokenizer_with_config() {
    let tokens = vec!["[UNK]".to_string()];
    let vocab = Vocab::new(tokens, SpecialTokens::default());
    let config = TokenizerConfig {
        wrap_with_cls_sep: false,
        max_length: Some(512),
    };
    let tokenizer = Tokenizer::with_config(vocab, config);

    assert!(!tokenizer.config().wrap_with_cls_sep);
    assert_eq!(tokenizer.config().max_length.as_ref(), Some(&512));
}

#[test]
fn test_encode_simple() {
    let tokenizer = create_full_tokenizer();
    let ids = tokenizer.encode("hello world");

    // Should be: [CLS] hello world [SEP]
    assert_eq!(ids.len(), 4);
    assert_eq!(ids[0], tokenizer.vocab().cls_id().unwrap());
    assert_eq!(ids[1], tokenizer.vocab().get_id("hello").unwrap());
    assert_eq!(ids[2], tokenizer.vocab().get_id("world").unwrap());
    assert_eq!(ids[3], tokenizer.vocab().sep_id().unwrap());
}

#[test]
fn test_encode_with_subwords() {
    let tokenizer = create_full_tokenizer();
    let ids = tokenizer.encode("playing");

    // "playing" -> "play" + "##ing"
    assert!(ids.contains(&tokenizer.vocab().get_id("play").unwrap()));
    assert!(ids.contains(&tokenizer.vocab().get_id("##ing").unwrap()));
}

#[test]
fn test_encode_unknown() {
    let tokenizer = create_full_tokenizer();
    let ids = tokenizer.encode("xyz");

    // "xyz" not in vocab, each character produces [UNK]
    assert!(ids.contains(&tokenizer.vocab().unk_id().unwrap()));
}

#[test]
fn test_encode_no_special_tokens() {
    let tokens = vec![
        "[PAD]".to_string(),
        "[UNK]".to_string(),
        "[CLS]".to_string(),
        "[SEP]".to_string(),
        "hello".to_string(),
    ];
    let vocab = Vocab::new(tokens, SpecialTokens::default());
    let config = TokenizerConfig {
        wrap_with_cls_sep: false,
        max_length: None,
    };
    let tokenizer = Tokenizer::with_config(vocab, config);
    let ids = tokenizer.encode("hello");

    // No [CLS]/[SEP], just "hello"
    assert_eq!(ids.len(), 1);
    assert_eq!(ids[0], tokenizer.vocab().get_id("hello").unwrap());
}

#[test]
fn test_encode_truncation() {
    let tokenizer = create_full_tokenizer();
    let config = TokenizerConfig {
        wrap_with_cls_sep: true,
        max_length: Some(3),
    };
    let tokenizer = Tokenizer::with_config(tokenizer.vocab().clone(), config);
    let ids = tokenizer.encode("hello world");

    // Should be truncated to 3 tokens
    assert_eq!(ids.len(), 3);
}

#[test]
fn test_encode_to_tokens() {
    let tokenizer = create_full_tokenizer();
    let tokens = tokenizer.encode_to_tokens("hello");

    assert!(tokens.contains(&"[CLS]".to_string()));
    assert!(tokens.contains(&"hello".to_string()));
    assert!(tokens.contains(&"[SEP]".to_string()));
}

// ---- further cases ----

#[test]
fn encode_exact_ids_with_subwords_and_punctuation() {
    let tokenizer = create_full_tokenizer();
    // [CLS]=2 play=7 ##ing=8 ,=11 un=9 ##known=10 !=12 [SEP]=3
    assert_eq!(tokenizer.encode("playing, unknown!"), vec![2, 7, 8, 11, 9, 10, 12, 3]);
}

#[test]
fn encode_unknown_characters_each_give_unk() {
    let tokenizer = create_full_tokenizer();
    assert_eq!(tokenizer.encode("xyz"), vec![2, 1, 1, 1, 3]);
}

#[test]
fn encode_partial_match_then_unknown() {
    let tokenizer = create_full_tokenizer();
    // "plays": "play" matches, then "##s" is not in the vocabulary
    assert_eq!(tokenizer.encode("plays"), vec![2, 7, 1, 3]);
}

#[test]
fn encode_normalizes_to_nfc() {
    let tokens = vec!["[UNK]".to_string(), "caf\u{e9}".to_string()];
    let vocab = Vocab::new(tokens, SpecialTokens::default());
    let config = TokenizerConfig { wrap_with_cls_sep: false, max_length: None };
    let tokenizer = Tokenizer::with_config(vocab, config);
    // decomposed e + combining acute becomes the precomposed form
    assert_eq!(tokenizer.encode("cafe\u{301}"), vec![1]);
    assert_eq!(tokenizer.encode_normalized("cafe\u{301}"), vec![0, 0, 0, 0, 0]);
}

#[test]
fn encode_splits_cjk_characters() {
    let tokens = vec!["[UNK]".to_string(), "\u{4e2d}".to_string(), "\u{6587}".to_string()];
    let vocab = Vocab::new(tokens, SpecialTokens::default());
    let config = TokenizerConfig { wrap_with_cls_sep: false, max_length: None };
    let tokenizer = Tokenizer::with_config(vocab, config);
    assert_eq!(tokenizer.encode("\u{4e2d}\u{6587}"), vec![1, 2]);
}

#[test]
fn encode_empty_text() {
    let tokenizer = create_full_tokenizer();
    assert_eq!(tokenizer.encode(""), vec![2, 3]);
    assert_eq!(tokenizer.encode("   "), vec![2, 3]);
}

#[test]
fn encode_truncation_to_zero_and_beyond_length() {
    let tokenizer = create_full_tokenizer();
    let zero = Tokenizer::with_config(
        tokenizer.vocab().clone(),
        TokenizerConfig { wrap_with_cls_sep: true, max_length: Some(0) },
    );
    assert_eq!(zero.encode("hello"), Vec::<usize>::new());
    let long = Tokenizer::with_config(
        tokenizer.vocab().clone(),
        TokenizerConfig { wrap_with_cls_sep: true, max_length: Some(100) },
    );
    assert_eq!(long.encode("hello"), vec![2, 5, 3]);
}

#[test]
fn try_encode_without_unknown_token() {
    let tokens = vec!["hello".to_string()];
    let vocab = Vocab::new(tokens, SpecialTokens::default());
    let tokenizer = Tokenizer::new(vocab);
    assert_eq!(tokenizer.try_encode("hello"), None);
    assert_eq!(tokenizer.try_encode(" \t "), Some(vec![]));
    let full = create_full_tokenizer();
    assert_eq!(full.try_encode("hello"), Some(vec![2, 5, 3]));
}

#[test]
fn wrap_without_cls_or_sep_in_vocab() {
    let tokens = vec!["[UNK]".to_string(), "hello".to_string(), "[SEP]".to_string()];
    let vocab = Vocab::new(tokens, SpecialTokens::default());
    let tokenizer = Tokenizer::new(vocab);
    assert_eq!(tokenizer.encode("hello"), vec![1, 2]);
}

#[test]
fn custom_prefix() {
    let tokens = vec!["[UNK]".to_string(), "play".to_string(), "@@ing".to_string()];
    let vocab = Vocab::new(tokens, SpecialTokens::default());
    let config = TokenizerConfig { wrap_with_cls_sep: false, max_length: None };
    let mut tokenizer = Tokenizer::from(vocab, config, "@@");
    assert_eq!(tokenizer.get_continuing_subword_prefix(), "@@");
    assert_eq!(tokenizer.encode("playing"), vec![1, 2]);
    assert_eq!(tokenizer.decode(&[1, 2], false), "playing");
    tokenizer.set_continuing_subword_prefix("##");
    assert_eq!(tokenizer.continuing_subword_prefix(), "##");
    assert_eq!(tokenizer.encode("playing"), vec![1, 0, 0, 0]);
}

#[test]
fn decode_joins_words_and_subwords() {
    let tokenizer = create_full_tokenizer();
    assert_eq!(tokenizer.decode(&[2, 7, 8, 6, 3], true), "playing world");
    assert_eq!(tokenizer.decode(&[2, 7, 8, 6, 3], false), "[CLS] playing world [SEP]");
}

#[test]
fn decode_skips_unknown_ids() {
    let tokenizer = create_full_tokenizer();
    assert_eq!(tokenizer.decode(&[5, 99, 6], false), "hello world");
    assert_eq!(tokenizer.decode(&[], false), "");
}

#[test]
fn decode_leading_subword() {
    let tokenizer = create_full_tokenizer();
    assert_eq!(tokenizer.decode(&[8, 5], false), "ing hello");
}

#[test]
fn decode_roundtrip_of_encode() {
    let tokenizer = create_full_tokenizer();
    let ids = tokenizer.encode("hello playing world");
    assert_eq!(tokenizer.decode(&ids, true), "hello playing world");
}

#[test]
fn encode_to_tokens_exact() {
    let tokenizer = create_full_tokenizer();
    assert_eq!(
        tokenizer.encode_to_tokens("unknown"),
        vec!["[CLS]".to_string(), "un".to_string(), "##known".to_string(), "[SEP]".to_string()]
    );
}

#[test]
fn longest_piece_wins() {
    let tokens = vec![
        "[UNK]".to_string(),
        "a".to_string(),
        "ab".to_string(),
        "##c".to_string(),
        "##bc".to_string(),
    ];
    let vocab = Vocab::new(tokens, SpecialTokens::default());
    let config = TokenizerConfig { wrap_with_cls_sep: false, max_length: None };
    let tokenizer = Tokenizer::with_config(vocab, config);
    // "ab" is preferred over "a", leaving "##c"
    assert_eq!(tokenizer.encode("abc"), vec![2, 3]);
    assert_eq!(tokenizer.encode("abc abc"), vec![2, 3, 2, 3]);
}

#[test]
fn decode_of_encode_gives_plain_text_back() {
    let tokenizer = create_full_tokenizer();
    for text in ["hello", "hello world", "world hello un play", ""] {
        let ids = tokenizer.encode(text);
        assert_eq!(tokenizer.decode(&ids, true), text);
    }
}

#[test]
fn encode_after_normalize_gives_the_same_ids() {
    let tokens = vec!["[UNK]".to_string(), "caf\u{e9}".to_string(), "a".to_string()];
    let vocab = Vocab::new(tokens, SpecialTokens::default());
    let config = TokenizerConfig { wrap_with_cls_sep: false, max_length: None };
    let tokenizer = Tokenizer::with_config(vocab, config);
    for text in ["cafe\u{301}", "caf\u{e9} a\u{301}", "a b", ""] {
        let normalized = normalize_nfc(text);
        assert_eq!(tokenizer.encode(&normalized), tokenizer.encode(text));
    }
}

#[test]
fn decode_drops_ids_without_a_token() {
    let tokenizer = create_full_tokenizer();
    let with_invalid = [99, 2, 5, 1000, 8, 6, 3, 42];
    let valid_only = [2, 5, 8, 6, 3];
    assert_eq!(tokenizer.decode(&with_invalid, false), tokenizer.decode(&valid_only, false));
    assert_eq!(tokenizer.decode(&with_invalid, true), tokenizer.decode(&valid_only, true));
    assert_eq!(tokenizer.decode(&with_invalid, true), "helloing world");
}
