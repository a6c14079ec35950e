use wordpiece::io::{crc32, vocab_from_text, vocab_to_binary, vocab_to_text};
use wordpiece::error::io_message;
use wordpiece::{SpecialTokens, Vocab, WordPieceError};

fn create_test_vocab() -> Vocab {
    let tokens = vec![
        "[PAD]".to_string(),
        "[UNK]".to_string(),
        "[CLS]".to_string(),
        "[SEP]".to_string(),
        "hello".to_string(),
        "world".to_string(),
    ];
    Vocab::new(tokens, SpecialTokens::default())
}

#[test]
fn test_save_vocab_text() {
    let vocab = create_test_vocab();
    let text = vocab_to_text(&vocab);
    assert_eq!(
        text,
        "# WordPiece vocabulary\n# vocab_size: 6\n#\n[PAD]\n[UNK]\n[CLS]\n[SEP]\nhello\nworld\n"
    );
    assert!(text.contains("[PAD]"));
    assert!(text.contains("hello"));
    assert!(text.contains("world"));
}

#[test]
fn test_load_vocab_text() {
    let vocab = create_test_vocab();
    let text = vocab_to_text(&vocab);
    let loaded = vocab_from_text(&text, "vocab.txt", SpecialTokens::default()).unwrap();
    assert_eq!(loaded.len(), vocab.len());
    assert_eq!(loaded.get_id("[PAD]"), Some(0));
    assert_eq!(loaded.get_id("hello"), Some(4));
}

#[test]
fn test_roundtrip_text() {
    let vocab = create_test_vocab();
    let text = vocab_to_text(&vocab);
    let loaded = vocab_from_text(&text, "vocab.txt", SpecialTokens::default()).unwrap();
    for id in 0..vocab.len() {
        assert_eq!(vocab.get_token(id), loaded.get_token(id));
    }
}

#[test]
fn text_format_skips_comments_empty_lines_and_crlf() {
    let loaded =
        vocab_from_text("# c\r\n\r\na\r\n#b\n\nc\nlast", "v", SpecialTokens::default()).unwrap();
    assert_eq!(loaded.len(), 3);
    assert_eq!(loaded.get_token(0), Some("a"));
    assert_eq!(loaded.get_token(1), Some("c"));
    assert_eq!(loaded.get_token(2), Some("last"));
}

#[test]
fn text_format_empty_is_error() {
    match vocab_from_text("# only\n\n", "vocab.txt", SpecialTokens::default()) {
        Err(WordPieceError::InvalidVocabFile(msg)) => assert_eq!(msg, "vocab.txt is empty"),
        _ => panic!("expected an InvalidVocabFile error"),
    }
    assert!(vocab_from_text("", "x", SpecialTokens::default()).is_err());
}

#[test]
fn vocab_size_in_header_large() {
    let tokens: Vec<String> = (0..1234).map(|i| format!("t{}", i)).collect();
    let vocab = Vocab::new(tokens, SpecialTokens::default());
    let text = vocab_to_text(&vocab);
    assert!(text.starts_with("# WordPiece vocabulary\n# vocab_size: 1234\n#\nt0\nt1\n"));
}

#[test]
fn crc32_check_value() {
    assert_eq!(crc32(b"123456789"), 0xCBF4_3926);
    assert_eq!(crc32(b""), 0);
    assert_eq!(crc32(b"a"), 0xE8B7_BE43);
}

#[test]
fn binary_format_layout() {
    let vocab = Vocab::new(vec!["ab".to_string(), "\u{e9}".to_string()], SpecialTokens::default());
    let data = vocab_to_binary(&vocab);
    let mut expected: Vec<u8> = vec![b'W', b'P', b'V', b'C', 1];
    expected.extend_from_slice(&2u64.to_le_bytes());
    expected.extend_from_slice(&2u64.to_le_bytes());
    expected.extend_from_slice(b"ab");
    expected.extend_from_slice(&2u64.to_le_bytes());
    expected.extend_from_slice(&[0xC3, 0xA9]);
    let checksum = crc32(&expected);
    expected.extend_from_slice(&checksum.to_le_bytes());
    assert_eq!(data, expected);
}

#[test]
fn error_messages() {
    assert_eq!(
        WordPieceError::InvalidVocabFile("x is empty".to_string()).message(),
        "Invalid vocabulary file: x is empty"
    );
    assert_eq!(WordPieceError::InvalidConfig("bad".to_string()).message(), "Invalid configuration: bad");
    assert_eq!(WordPieceError::Encoding("e".to_string()).message(), "Encoding error: e");
    assert_eq!(WordPieceError::Training("t".to_string()).message(), "Training error: t");
    let io = WordPieceError::from(std::io::Error::new(std::io::ErrorKind::Other, "disk"));
    assert_eq!(io.message(), "I/O error: disk");
}

#[test]
fn io_message_prefixes_the_text() {
    assert_eq!(io_message("permission denied"), "I/O error: permission denied");
    assert_eq!(io_message(""), "I/O error: ");
}
