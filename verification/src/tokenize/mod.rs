//! WordPiece encoding and decoding.

pub mod tokenizer;

pub use tokenizer::Tokenizer;
