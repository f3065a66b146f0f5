//! The error that the front end reports, and the failures of the source
//! parser that it is made from.

use vstd::prelude::*;

verus! {

/// A failure, as the message to show.
#[derive(Debug, PartialEq, Eq)]
pub struct Error {
    pub message: String,
}

impl Error {
    /// The message, as the text to show.
    pub fn to_text(&self) -> (text: String)
        ensures
            text@ == self.message@,
    {
        self.message.clone()
    }
}

/// A failure of the lexer, between two byte offsets of the source.
#[derive(Debug, PartialEq, Eq)]
pub enum LexicalError {
    NumberParseError { start: usize, end: usize },
    InvalidToken { start: usize, end: usize },
    UnterminatedComment { start: usize, end: usize },
    UnterminatedString { start: usize, end: usize },
    UserError { start: usize, end: usize, message: String },
}

/// A failure of the source parser. Tokens are held as the text that shows them.
#[derive(Debug, PartialEq, Eq)]
pub enum SyntaxError {
    /// The lexer found what is no token at this byte offset.
    InvalidToken { location: usize },
    /// The source ended where one of `expected` had to follow.
    UnrecognizedEof { location: usize, expected: Vec<String> },
    /// A token stood where one of `expected` had to stand.
    UnrecognizedToken { start: usize, token: String, end: usize, expected: Vec<String> },
    /// A token stood behind the end of the program.
    ExtraToken { start: usize, token: String, end: usize },
    /// The lexer failed.
    User { error: LexicalError },
}

} // verus!
