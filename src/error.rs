//! Lexical errors: why tokenization could not go on at a span.
use vstd::prelude::*;

use crate::span::Span;

verus! {

/// The reasons for which tokenization can fail.
#[derive(Clone, Copy, Debug, PartialEq, Eq, Structural)]
pub enum LexicalErrorKind {
    /// The input ended inside a quoted literal.
    UnexpectedEof,
    /// A character that starts no token.
    InvalidCharacter(char),
}

/// A failure of tokenization and the span at which it was found.
#[derive(Clone, Copy, Debug, PartialEq, Eq, Structural)]
pub struct LexicalError {
    /// Why tokenization failed.
    pub kind: LexicalErrorKind,
    /// Where it failed.
    pub span: Span,
}

impl LexicalError {
    /// An error of the given kind at the given span.
    pub fn new(kind: LexicalErrorKind, span: Span) -> (r: LexicalError)
        ensures
            r.kind == kind,
            r.span == span,
    {
        LexicalError { kind, span }
    }
}

} // verus!
