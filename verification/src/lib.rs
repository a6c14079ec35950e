//! WordPiece tokenizer library: vocabulary, pre-tokenization, greedy
//! longest-match subword encoding, decoding, alphabet extraction for
//! training, and the plain-text and binary vocabulary formats.

pub mod chars;
pub mod config;
pub mod error;
pub mod io;
pub mod normalize;
pub mod pre_tokenize;
pub mod tokenize;
pub mod train;
pub mod vocab;

pub use config::{SpecialTokens, TokenizerConfig};
pub use error::{Result, WordPieceError};
pub use normalize::normalize_nfc;
pub use tokenize::Tokenizer;
pub use vocab::Vocab;
