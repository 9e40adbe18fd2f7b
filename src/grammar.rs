//! The lexical grammar as spec functions: which lexeme starts at each position of a
//! source text, and where it ends.
use vstd::prelude::*;

use crate::chars::{
    alphabetic, ascii_digit, ascii_whitespace, in_class, is_ascii_digit, is_ascii_whitespace,
    CharClass,
};

verus! {

/// What a lexeme is: the category of a token, or the reason for an error.
#[derive(Clone, Copy, Debug, PartialEq, Eq, Structural)]
pub enum Category {
    Define,
    Include,
    Macro,
    Function,
    Constant,
    Takes,
    Returns,
    FreeStoragePointer,
    Ident,
    Str,
    Num,
    Comment,
    Whitespace,
    Assign,
    OpenParen,
    CloseParen,
    OpenBracket,
    CloseBracket,
    OpenBrace,
    CloseBrace,
    Add,
    Sub,
    Mul,
    Div,
    Comma,
    /// A character that starts no token.
    InvalidCharacter,
    /// A quoted literal that the input ends inside.
    UnterminatedLiteral,
}

impl Category {
    /// Whether a lexeme of this category is an error rather than a token.
    pub open spec fn is_error(self) -> bool {
        self == Category::InvalidCharacter || self == Category::UnterminatedLiteral
    }
}

/// The end of the longest run of characters of class `k` that starts at `i`.
pub open spec fn run_end(src: Seq<char>, i: int, k: CharClass) -> int
    decreases src.len() - i,
{
    if 0 <= i < src.len() && in_class(k, src[i]) {
        run_end(src, i + 1, k)
    } else {
        i
    }
}

/// Whether the text `w` stands in `src` at offset `i`, wholly inside it.
pub open spec fn matches_at(src: Seq<char>, i: int, w: Seq<char>) -> bool {
    0 <= i && i + w.len() <= src.len() && src.subrange(i, i + w.len()) == w
}

/// Where a scan that starts at `e` and looks ahead for `w` stops: at the first position
/// from which `w` stands next, or at the end of the text if it never does.
pub open spec fn scan_to(src: Seq<char>, e: int, w: Seq<char>) -> int
    decreases src.len() - e,
{
    if e < 0 || e >= src.len() || matches_at(src, e, w) {
        e
    } else {
        scan_to(src, e + 1, w)
    }
}

/// Where a literal quoted by `q` whose body starts at `e` ends, just past its closing
/// quote; `None` when the input ends first. A backslash followed by a backslash or by
/// `q` escapes that character.
pub open spec fn quote_close(src: Seq<char>, q: char, e: int) -> Option<int>
    decreases src.len() - e,
{
    if e < 0 || e >= src.len() {
        None
    } else if src[e] == q {
        Some(e + 1)
    } else if src[e] == '\\' && e + 1 < src.len() && (src[e + 1] == '\\' || src[e + 1] == q) {
        quote_close(src, q, e + 2)
    } else {
        quote_close(src, q, e + 1)
    }
}

/// The lexeme that starts with `/`: a line comment, a block comment or a division.
pub open spec fn lex_slash(src: Seq<char>, s: int) -> (Category, int) {
    if s + 1 < src.len() && src[s + 1] == '/' {
        (Category::Comment, run_end(src, s + 2, CharClass::NotNewline))
    } else if s + 1 < src.len() && src[s + 1] == '*' {
        let e = scan_to(src, s + 2, "*/"@);
        (Category::Comment, if e < src.len() { e + 2 } else { e })
    } else {
        (Category::Div, s + 1)
    }
}

/// The lexeme that starts with `#`: a directive keyword, else an invalid character.
pub open spec fn lex_hash(src: Seq<char>, s: int) -> (Category, int) {
    if matches_at(src, s, "#define"@) {
        (Category::Define, run_end(src, s + 1, CharClass::Alphabetic))
    } else if matches_at(src, s, "#include"@) {
        (Category::Include, run_end(src, s + 1, CharClass::Alphabetic))
    } else {
        (Category::InvalidCharacter, s + 1)
    }
}

/// The first bare keyword, in order of priority, whose text stands at `s`.
pub open spec fn keyword_at(src: Seq<char>, s: int) -> Option<(Seq<char>, Category)> {
    if matches_at(src, s, "macro"@) {
        Some(("macro"@, Category::Macro))
    } else if matches_at(src, s, "function"@) {
        Some(("function"@, Category::Function))
    } else if matches_at(src, s, "constant"@) {
        Some(("constant"@, Category::Constant))
    } else if matches_at(src, s, "takes"@) {
        Some(("takes"@, Category::Takes))
    } else if matches_at(src, s, "returns"@) {
        Some(("returns"@, Category::Returns))
    } else {
        None
    }
}

/// Whether the word at `s` follows the keyword `function` and one more character.
pub open spec fn after_function(src: Seq<char>, s: int) -> bool {
    s >= 9 && src.subrange(s - 9, s - 1) == "function"@
}

/// Whether the keyword `key` at `s` is directly followed by `:`.
pub open spec fn before_colon(src: Seq<char>, s: int, key: Seq<char>) -> bool {
    s + key.len() < src.len() && src[s + key.len()] == ':'
}

/// The lexeme that starts with an alphabetic character: a bare keyword,
/// `FREE_STORAGE_POINTER` or an identifier.
pub open spec fn lex_word(src: Seq<char>, s: int) -> (Category, int) {
    let key = keyword_at(src, s);
    let e1 = if key is Some {
        run_end(src, s + 1, CharClass::Alphabetic)
    } else {
        s + 1
    };
    let kept = key is Some && !after_function(src, s) && !before_colon(src, s, (key->0).0);
    if matches_at(src, s, "FREE_STORAGE_POINTER"@) {
        let e2 = run_end(src, e1, CharClass::Name);
        let e3 = if e2 < src.len() && src[e2] == '(' {
            e2 + 1
        } else {
            e2
        };
        let e4 = if e3 < src.len() && src[e3] == ')' {
            e3 + 1
        } else {
            e3
        };
        (Category::FreeStoragePointer, e4)
    } else if kept {
        ((key->0).1, e1)
    } else {
        (Category::Ident, run_end(src, e1, CharClass::Word))
    }
}

/// The lexeme that starts with a quote: a string literal, or an error when the input
/// ends inside it.
pub open spec fn lex_quote(src: Seq<char>, s: int) -> (Category, int) {
    match quote_close(src, src[s], s + 1) {
        Some(e) => (Category::Str, e),
        None => (Category::UnterminatedLiteral, src.len() as int),
    }
}

/// The category of the single-character token `c`, if it is one.
pub open spec fn symbol(c: char) -> Option<Category> {
    if c == '=' {
        Some(Category::Assign)
    } else if c == '(' {
        Some(Category::OpenParen)
    } else if c == ')' {
        Some(Category::CloseParen)
    } else if c == '[' {
        Some(Category::OpenBracket)
    } else if c == ']' {
        Some(Category::CloseBracket)
    } else if c == '{' {
        Some(Category::OpenBrace)
    } else if c == '}' {
        Some(Category::CloseBrace)
    } else if c == '+' {
        Some(Category::Add)
    } else if c == '-' {
        Some(Category::Sub)
    } else if c == '*' {
        Some(Category::Mul)
    } else if c == ',' {
        Some(Category::Comma)
    } else {
        None
    }
}

/// How lexing goes on after the first character of a lexeme.
#[derive(Clone, Copy, Debug, PartialEq, Eq, Structural)]
pub enum Start {
    /// A comment or a division.
    Slash,
    /// A directive keyword, or an invalid `#`.
    Hash,
    /// A keyword, `FREE_STORAGE_POINTER` or an identifier.
    Word,
    /// A single-character token.
    Symbol,
    /// A decimal number.
    Digits,
    /// A run of whitespace.
    Space,
    /// A quoted literal.
    Quote,
    /// A character that starts no token.
    Invalid,
}

/// How lexing goes on after the first character `c`, where `alpha` tells whether `c`
/// is alphabetic. No character of `/#=()[]{}+-*,`, no ASCII digit or whitespace and
/// no quote is alphabetic, so `alpha` only decides among the other characters.
pub open spec fn start_of(c: char, alpha: bool) -> Start {
    if c == '/' {
        Start::Slash
    } else if c == '#' {
        Start::Hash
    } else if symbol(c) is Some {
        Start::Symbol
    } else if ascii_digit(c) {
        Start::Digits
    } else if ascii_whitespace(c) {
        Start::Space
    } else if c == '"' || c == '\'' {
        Start::Quote
    } else if alpha {
        Start::Word
    } else {
        Start::Invalid
    }
}

/// The lexeme that starts at offset `s` of `src`: its category and the offset just past it.
pub open spec fn lexeme(src: Seq<char>, s: int) -> (Category, int)
    recommends
        0 <= s < src.len(),
{
    let c = src[s];
    match start_of(c, alphabetic(c)) {
        Start::Slash => lex_slash(src, s),
        Start::Hash => lex_hash(src, s),
        Start::Word => lex_word(src, s),
        Start::Symbol => (symbol(c)->0, s + 1),
        Start::Digits => (Category::Num, run_end(src, s + 1, CharClass::Digit)),
        Start::Space => (Category::Whitespace, run_end(src, s + 1, CharClass::Space)),
        Start::Quote => lex_quote(src, s),
        Start::Invalid => (Category::InvalidCharacter, s + 1),
    }
}

/// How lexing goes on after the first character `c`, where `alpha` tells whether `c`
/// is alphabetic.
pub fn dispatch(c: char, alpha: bool) -> (r: Start)
    ensures
        r == start_of(c, alpha),
{
    if c == '/' {
        Start::Slash
    } else if c == '#' {
        Start::Hash
    } else if c == '=' || c == '(' || c == ')' || c == '[' || c == ']' || c == '{' || c == '}'
        || c == '+' || c == '-' || c == '*' || c == ',' {
        Start::Symbol
    } else if is_ascii_digit(c) {
        Start::Digits
    } else if is_ascii_whitespace(c) {
        Start::Space
    } else if c == '"' || c == '\'' {
        Start::Quote
    } else if alpha {
        Start::Word
    } else {
        Start::Invalid
    }
}

/// A run that stops at `e` ends at `e`.
pub proof fn lemma_run_end_at(src: Seq<char>, a: int, e: int, k: CharClass)
    requires
        0 <= a <= e <= src.len(),
        forall|i: int| a <= i < e ==> in_class(k, #[trigger] src[i]),
        e < src.len() ==> !in_class(k, src[e]),
    ensures
        run_end(src, a, k) == e,
    decreases e - a,
{
    if a < e {
        lemma_run_end_at(src, a + 1, e, k);
    }
}

/// Every character of a run belongs to its class, and the character after it does not.
pub proof fn run_end_all(src: Seq<char>, a: int, k: CharClass)
    requires
        0 <= a,
    ensures
        forall|i: int| a <= i < run_end(src, a, k) ==> in_class(k, #[trigger] src[i]),
        run_end(src, a, k) < src.len() ==> !in_class(k, src[run_end(src, a, k)]),
    decreases src.len() - a,
{
    if a < src.len() && in_class(k, src[a]) {
        run_end_all(src, a + 1, k);
    }
}

/// A run that starts inside the text ends inside it, no earlier than it starts.
pub proof fn lemma_run_end_bounds(src: Seq<char>, a: int, k: CharClass)
    requires
        0 <= a <= src.len(),
    ensures
        a <= run_end(src, a, k) <= src.len(),
    decreases src.len() - a,
{
    if a < src.len() && in_class(k, src[a]) {
        lemma_run_end_bounds(src, a + 1, k);
    }
}

/// A scan that starts inside the text stops inside it, no earlier than it starts, and
/// where it stops before the end, `w` stands next.
pub proof fn lemma_scan_to_bounds(src: Seq<char>, e: int, w: Seq<char>)
    requires
        0 <= e <= src.len(),
    ensures
        e <= scan_to(src, e, w) <= src.len(),
        scan_to(src, e, w) < src.len() ==> matches_at(src, scan_to(src, e, w), w),
    decreases src.len() - e,
{
    if e < src.len() && !matches_at(src, e, w) {
        lemma_scan_to_bounds(src, e + 1, w);
    }
}

/// A quoted literal that closes does so inside the text, after its body starts.
pub proof fn lemma_quote_close_bounds(src: Seq<char>, q: char, e: int)
    requires
        0 <= e,
    ensures
        quote_close(src, q, e) matches Some(c) ==> e < c <= src.len(),
    decreases src.len() - e,
{
    if 0 <= e < src.len() && src[e] != q {
        if src[e] == '\\' && e + 1 < src.len() && (src[e + 1] == '\\' || src[e + 1] == q) {
            lemma_quote_close_bounds(src, q, e + 2);
        } else {
            lemma_quote_close_bounds(src, q, e + 1);
        }
    }
}

/// Every lexeme holds at least one character and ends inside the text.
pub proof fn lemma_lexeme_bounds(src: Seq<char>, s: int)
    requires
        0 <= s < src.len(),
    ensures
        s < lexeme(src, s).1 <= src.len(),
{
    let c = src[s];
    lemma_run_end_bounds(src, s + 1, CharClass::Alphabetic);
    lemma_run_end_bounds(src, s + 1, CharClass::Digit);
    lemma_run_end_bounds(src, s + 1, CharClass::Space);
    if s + 2 <= src.len() {
        lemma_run_end_bounds(src, s + 2, CharClass::NotNewline);
        lemma_scan_to_bounds(src, s + 2, "*/"@);
        reveal_strlit("*/");
    }
    lemma_quote_close_bounds(src, c, s + 1);
    let key = keyword_at(src, s);
    let e1 = if key is Some {
        run_end(src, s + 1, CharClass::Alphabetic)
    } else {
        s + 1
    };
    lemma_run_end_bounds(src, e1, CharClass::Name);
    lemma_run_end_bounds(src, e1, CharClass::Word);
}

} // verus!
