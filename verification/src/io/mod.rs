//! Vocabulary persistence formats: plain text and binary. The functions
//! here produce and read the file contents; files themselves are written
//! and read by the caller.

pub mod binary;
pub mod text;

pub use binary::{crc32, vocab_to_binary};
pub use text::{vocab_from_text, vocab_to_text};
