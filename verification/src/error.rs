//! Error types for the WordPiece tokenizer.

use vstd::prelude::*;

verus! {

#[verifier::external_type_specification]
#[verifier::external_body]
pub struct ExIoError(std::io::Error);

/// The main error type for WordPiece operations.
#[derive(Debug)]
pub enum WordPieceError {
    /// File I/O error
    Io(std::io::Error),
    /// Invalid or malformed vocabulary file
    InvalidVocabFile(String),
    /// Invalid configuration parameter
    InvalidConfig(String),
    /// Error during tokenization/encoding
    Encoding(String),
    /// Error during vocabulary training
    Training(String),
}

/// Result type of WordPiece operations.
pub type Result<T> = core::result::Result<T, WordPieceError>;

/// Calls `<std::io::Error as Display>::fmt` through `format!`. Nothing is
/// stated of the text: it depends on the operating system's messages.
#[verifier::external_body]
fn io_error_text(err: &std::io::Error) -> (r: String) {
    format!("{}", err)
}

/// The description of an I/O error whose own message is `text`.
pub fn io_message(text: &str) -> (r: String)
    ensures
        r@ == "I/O error: "@ + text@,
{
    String::from_str("I/O error: ").concat(text)
}

impl WordPieceError {
    /// The human-readable description of the error: a fixed text naming
    /// the kind of error, then its message.
    pub fn message(&self) -> (r: String)
        ensures
            self matches WordPieceError::Io(_) ==> "I/O error: "@.is_prefix_of(r@),
            self matches WordPieceError::InvalidVocabFile(m) ==> r@ == "Invalid vocabulary file: "@
                + m@,
            self matches WordPieceError::InvalidConfig(m) ==> r@ == "Invalid configuration: "@ + m@,
            self matches WordPieceError::Encoding(m) ==> r@ == "Encoding error: "@ + m@,
            self matches WordPieceError::Training(m) ==> r@ == "Training error: "@ + m@,
    {
        match self {
            WordPieceError::Io(err) => {
                let text = io_error_text(err);
                io_message(text.as_str())
            },
            WordPieceError::InvalidVocabFile(msg) => {
                String::from_str("Invalid vocabulary file: ").concat(msg.as_str())
            },
            WordPieceError::InvalidConfig(msg) => {
                String::from_str("Invalid configuration: ").concat(msg.as_str())
            },
            WordPieceError::Encoding(msg) => {
                String::from_str("Encoding error: ").concat(msg.as_str())
            },
            WordPieceError::Training(msg) => {
                String::from_str("Training error: ").concat(msg.as_str())
            },
        }
    }
}

impl From<std::io::Error> for WordPieceError {
    fn from(err: std::io::Error) -> (r: Self) {
        WordPieceError::Io(err)
    }
}

impl vstd::std_specs::convert::FromSpecImpl<std::io::Error> for WordPieceError {
    open spec fn obeys_from_spec() -> bool {
        true
    }

    open spec fn from_spec(v: std::io::Error) -> Self {
        WordPieceError::Io(v)
    }
}

} // verus!
