//! Configuration structures for the WordPiece tokenizer.

use vstd::prelude::*;

verus! {

/// The set of special tokens used by the tokenizer.
///
/// These tokens have reserved meanings and are typically placed
/// at the beginning of the vocabulary.
#[derive(Debug, Clone, PartialEq, Eq)]
pub struct SpecialTokens {
    /// Padding token (default: "[PAD]")
    pub pad: String,
    /// Unknown token for out-of-vocabulary words (default: "[UNK]")
    pub unk: String,
    /// Classification token, marks sequence start (default: "[CLS]")
    pub cls: String,
    /// Separator token, marks sequence boundary (default: "[SEP]")
    pub sep: String,
    /// Mask token for masked language modeling (default: "[MASK]")
    pub mask: String,
}

impl SpecialTokens {
    /// The five special tokens, in the order pad, unk, cls, sep, mask.
    pub open spec fn spec_all(&self) -> Seq<Seq<char>> {
        seq![self.pad@, self.unk@, self.cls@, self.sep@, self.mask@]
    }

    /// Returns all special tokens as a vector (pad, unk, cls, sep, mask).
    pub fn all_tokens(&self) -> (r: Vec<&str>)
        ensures
            r@.len() == 5,
            forall|i: int| 0 <= i < 5 ==> #[trigger] r@[i]@ == self.spec_all()[i],
    {
        let v = vec![self.pad.as_str(), self.unk.as_str(), self.cls.as_str(), self.sep.as_str(), self.mask.as_str()];
        v
    }
}

impl Default for SpecialTokens {
    /// The BERT-style special tokens.
    fn default() -> (r: Self)
        ensures
            r.pad@ == "[PAD]"@,
            r.unk@ == "[UNK]"@,
            r.cls@ == "[CLS]"@,
            r.sep@ == "[SEP]"@,
            r.mask@ == "[MASK]"@,
    {
        SpecialTokens {
            pad: String::from_str("[PAD]"),
            unk: String::from_str("[UNK]"),
            cls: String::from_str("[CLS]"),
            sep: String::from_str("[SEP]"),
            mask: String::from_str("[MASK]"),
        }
    }
}

/// Configuration for the tokenizer's encoding behavior.
#[derive(Debug, Clone, PartialEq, Eq)]
pub struct TokenizerConfig {
    /// Whether to add [CLS] at start and [SEP] at end (default: true)
    pub wrap_with_cls_sep: bool,
    /// Maximum sequence length to truncate; None means no limit (default: None)
    pub max_length: Option<usize>,
}

impl Default for TokenizerConfig {
    /// Wrapping on, no length limit.
    fn default() -> (r: Self)
        ensures
            r.wrap_with_cls_sep,
            r.max_length is None,
    {
        TokenizerConfig { wrap_with_cls_sep: true, max_length: None }
    }
}

} // verus!
