//! Tokens: a kind and the span of source text that produced it.
use vstd::prelude::*;

use crate::span::Span;

verus! {

/// The closed set of lexical categories.
#[derive(Clone, Copy, Debug, PartialEq, Eq)]
pub enum TokenKind<'a> {
    /// `#define`
    Define,
    /// `#include`
    Include,
    /// `macro`
    Macro,
    /// `function`
    Function,
    /// `constant`
    Constant,
    /// `takes`
    Takes,
    /// `returns`
    Returns,
    /// `FREE_STORAGE_POINTER`, with its optional `()`
    FreeStoragePointer,
    /// A name, with its text
    Ident(&'a str),
    /// A quoted literal, with the text between the quotes
    Str(&'a str),
    /// A decimal literal, with its value
    Num(usize),
    /// A line or block comment, with its full text
    Comment(&'a str),
    /// A run of ASCII whitespace
    Whitespace,
    /// The end of the input
    Eof,
    /// `=`
    Assign,
    /// `(`
    OpenParen,
    /// `)`
    CloseParen,
    /// `[`
    OpenBracket,
    /// `]`
    CloseBracket,
    /// `{`
    OpenBrace,
    /// `}`
    CloseBrace,
    /// `+`
    Add,
    /// `-`
    Sub,
    /// `*`
    Mul,
    /// `/`
    Div,
    /// `,`
    Comma,
}

/// A classified lexical unit and the exact range of source that produced it.
#[derive(Clone, Copy, Debug, PartialEq, Eq)]
pub struct Token<'a> {
    /// What the unit is.
    pub kind: TokenKind<'a>,
    /// Where it stands in the source.
    pub span: Span,
}

impl<'a> Token<'a> {
    /// A token of the given kind over the given span.
    pub fn new(kind: TokenKind<'a>, span: Span) -> (r: Token<'a>)
        ensures
            r.kind == kind,
            r.span == span,
    {
        Token { kind, span }
    }
}

} // verus!
