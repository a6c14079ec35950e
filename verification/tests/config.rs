use wordpiece::train::{TrainingConfig, WordPieceTrainer};
use wordpiece::{SpecialTokens, TokenizerConfig, Vocab};

#[test]
fn special_tokens_default_and_all() {
    let s = SpecialTokens::default();
    assert_eq!(s.all_tokens(), vec!["[PAD]", "[UNK]", "[CLS]", "[SEP]", "[MASK]"]);
}

#[test]
fn tokenizer_config_default() {
    let c = TokenizerConfig::default();
    assert!(c.wrap_with_cls_sep);
    assert_eq!(c.max_length, None);
}

#[test]
fn training_config_defaults_and_setters() {
    let c = TrainingConfig::new();
    assert_eq!(c.get_vocab_size(), 30_000);
    assert_eq!(c.get_min_frequency(), 2);
    assert_eq!(c.get_limit_alphabet(), 1_000);
    assert_eq!(c.get_continuing_subword_prefix(), "##");
    assert!(c.get_lowercase());
    let c = c
        .set_vocab_size(500)
        .set_min_frequency(3)
        .set_limit_alphabet(50)
        .set_continuing_subword_prefix("@@")
        .lowercase(false);
    assert_eq!(c.get_vocab_size(), 500);
    assert_eq!(c.get_min_frequency(), 3);
    assert_eq!(c.get_limit_alphabet(), 50);
    assert_eq!(c.get_continuing_subword_prefix(), "@@");
    assert!(!c.get_lowercase());
    let trainer = WordPieceTrainer::new(c);
    assert_eq!(trainer.config().get_vocab_size(), 500);
}

#[test]
fn vocab_lookups() {
    let v = Vocab::new(
        vec!["[PAD]".to_string(), "a".to_string(), "a".to_string(), "[MASK]".to_string()],
        SpecialTokens::default(),
    );
    assert_eq!(v.get_id("a"), Some(1));
    assert_eq!(v.get_id("b"), None);
    assert_eq!(v.get_token(2), Some("a"));
    assert_eq!(v.get_token(4), None);
    assert_eq!(v.pad_id(), Some(0));
    assert_eq!(v.mask_id(), Some(3));
    assert_eq!(v.unk_id(), None);
    assert_eq!(v.special_tokens(), &SpecialTokens::default());
    assert!(!v.is_empty());
}
