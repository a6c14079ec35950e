//! Training configuration for the WordPiece algorithm.

use vstd::prelude::*;
use crate::config::SpecialTokens;

verus! {

/// Configuration for WordPiece vocabulary training.
///
/// All parameters have sensible defaults compatible with BERT.
#[derive(Debug, Clone)]
pub struct TrainingConfig {
    /// Target vocabulary size (default: 30,000)
    vocab_size: usize,
    /// Minimum frequency for a token to be included (default: 2)
    min_frequency: usize,
    /// Maximum size of the initial character alphabet (default: 1,000)
    limit_alphabet: usize,
    /// Prefix for continuing subwords, e.g. "##" in "play" -> "play", "##ing" (default: "##")
    continuing_subword_prefix: String,
    /// Whether to lowercase text during training (default: true)
    lowercase: bool,
    /// Special tokens to include in vocabulary (default: BERT-style)
    special_tokens: SpecialTokens,
}

impl TrainingConfig {
    /// The target vocabulary size.
    pub closed spec fn spec_vocab_size(&self) -> usize {
        self.vocab_size
    }

    /// The minimum token frequency.
    pub closed spec fn spec_min_frequency(&self) -> usize {
        self.min_frequency
    }

    /// The maximum initial alphabet size.
    pub closed spec fn spec_limit_alphabet(&self) -> usize {
        self.limit_alphabet
    }

    /// The continuing subword prefix.
    pub closed spec fn spec_prefix(&self) -> Seq<char> {
        self.continuing_subword_prefix@
    }

    /// Whether text is lowercased.
    pub closed spec fn spec_lowercase(&self) -> bool {
        self.lowercase
    }

    /// The special tokens.
    pub closed spec fn spec_special_tokens(&self) -> SpecialTokens {
        self.special_tokens
    }

    /// The default settings: 30,000 tokens, frequency 2, alphabet 1,000,
    /// prefix "##", lowercasing, BERT special tokens.
    pub open spec fn is_default(&self) -> bool {
        &&& self.spec_vocab_size() == 30_000
        &&& self.spec_min_frequency() == 2
        &&& self.spec_limit_alphabet() == 1_000
        &&& self.spec_prefix() == "##"@
        &&& self.spec_lowercase()
        &&& self.spec_special_tokens().pad@ == "[PAD]"@
        &&& self.spec_special_tokens().unk@ == "[UNK]"@
        &&& self.spec_special_tokens().cls@ == "[CLS]"@
        &&& self.spec_special_tokens().sep@ == "[SEP]"@
        &&& self.spec_special_tokens().mask@ == "[MASK]"@
    }

    /// Creates a new TrainingConfig with default values.
    pub fn new() -> (r: Self)
        ensures
            r.is_default(),
    {
        TrainingConfig::default()
    }

    /// Sets the target vocabulary size (which must be greater than zero).
    pub fn set_vocab_size(self, size: usize) -> (r: Self)
        requires
            size > 0,
        ensures
            r.spec_vocab_size() == size,
            r.spec_min_frequency() == self.spec_min_frequency(),
            r.spec_limit_alphabet() == self.spec_limit_alphabet(),
            r.spec_prefix() == self.spec_prefix(),
            r.spec_lowercase() == self.spec_lowercase(),
            r.spec_special_tokens() == self.spec_special_tokens(),
    {
        let mut c = self;
        c.vocab_size = size;
        c
    }

    /// Gets the target vocabulary size.
    pub fn get_vocab_size(&self) -> (r: usize)
        ensures
            r == self.spec_vocab_size(),
    {
        self.vocab_size
    }

    /// Sets the minimum token frequency threshold (which must be greater than zero).
    pub fn set_min_frequency(self, freq: usize) -> (r: Self)
        requires
            freq > 0,
        ensures
            r.spec_vocab_size() == self.spec_vocab_size(),
            r.spec_min_frequency() == freq,
            r.spec_limit_alphabet() == self.spec_limit_alphabet(),
            r.spec_prefix() == self.spec_prefix(),
            r.spec_lowercase() == self.spec_lowercase(),
            r.spec_special_tokens() == self.spec_special_tokens(),
    {
        let mut c = self;
        c.min_frequency = freq;
        c
    }

    /// Gets the minimum token frequency threshold.
    pub fn get_min_frequency(&self) -> (r: usize)
        ensures
            r == self.spec_min_frequency(),
    {
        self.min_frequency
    }

    /// Sets the maximum initial alphabet size (which must be greater than zero).
    pub fn set_limit_alphabet(self, limit: usize) -> (r: Self)
        requires
            limit > 0,
        ensures
            r.spec_vocab_size() == self.spec_vocab_size(),
            r.spec_min_frequency() == self.spec_min_frequency(),
            r.spec_limit_alphabet() == limit,
            r.spec_prefix() == self.spec_prefix(),
            r.spec_lowercase() == self.spec_lowercase(),
            r.spec_special_tokens() == self.spec_special_tokens(),
    {
        let mut c = self;
        c.limit_alphabet = limit;
        c
    }

    /// Gets the maximum initial alphabet size.
    pub fn get_limit_alphabet(&self) -> (r: usize)
        ensures
            r == self.spec_limit_alphabet(),
    {
        self.limit_alphabet
    }

    /// Sets the continuing subword prefix.
    pub fn set_continuing_subword_prefix(self, prefix: &str) -> (r: Self)
        ensures
            r.spec_vocab_size() == self.spec_vocab_size(),
            r.spec_min_frequency() == self.spec_min_frequency(),
            r.spec_limit_alphabet() == self.spec_limit_alphabet(),
            r.spec_prefix() == prefix@,
            r.spec_lowercase() == self.spec_lowercase(),
            r.spec_special_tokens() == self.spec_special_tokens(),
    {
        let mut c = self;
        c.continuing_subword_prefix = String::from_str(prefix);
        c
    }

    /// Gets the continuing subword prefix.
    pub fn get_continuing_subword_prefix(&self) -> (r: &str)
        ensures
            r@ == self.spec_prefix(),
    {
        self.continuing_subword_prefix.as_str()
    }

    /// Sets whether to lowercase text.
    pub fn lowercase(self, lowercase: bool) -> (r: Self)
        ensures
            r.spec_vocab_size() == self.spec_vocab_size(),
            r.spec_min_frequency() == self.spec_min_frequency(),
            r.spec_limit_alphabet() == self.spec_limit_alphabet(),
            r.spec_prefix() == self.spec_prefix(),
            r.spec_lowercase() == lowercase,
            r.spec_special_tokens() == self.spec_special_tokens(),
    {
        let mut c = self;
        c.lowercase = lowercase;
        c
    }

    /// Gets whether to lowercase text.
    pub fn get_lowercase(&self) -> (r: bool)
        ensures
            r == self.spec_lowercase(),
    {
        self.lowercase
    }

    /// Gets the special tokens.
    pub fn special_tokens(&self) -> (r: &SpecialTokens)
        ensures
            *r == self.spec_special_tokens(),
    {
        &self.special_tokens
    }
}

impl Default for TrainingConfig {
    fn default() -> (r: Self)
        ensures
            r.is_default(),
    {
        TrainingConfig {
            vocab_size: 30_000,
            min_frequency: 2,
            limit_alphabet: 1_000,
            continuing_subword_prefix: String::from_str("##"),
            lowercase: true,
            special_tokens: SpecialTokens::default(),
        }
    }
}

} // verus!
