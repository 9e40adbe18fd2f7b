//! Lexical analysis for the Huff language.
//!
//! A [`Lexer`] is built over a source text and pulled with [`Lexer::next`]; each pull
//! yields one token or one lexical error, and after the input is used up exactly one
//! end-of-file token, then nothing.

pub mod chars;
pub mod error;
pub mod grammar;
pub mod laws;
pub mod lexer;
pub mod span;
pub mod token;

pub use error::{LexicalError, LexicalErrorKind};
pub use lexer::Lexer;
pub use span::Span;
pub use token::{Token, TokenKind};
