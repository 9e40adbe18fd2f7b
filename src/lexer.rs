//! The lexer: a cursor over a source text that yields one token or error per pull.
use vstd::prelude::*;

use vstd::std_specs::iter::IteratorSpec;

use crate::chars::{
    ascii_digit, char_in_class, digits_value, in_class, is_alphabetic, is_ascii_digit, lemma_digits_value_prefix,
    lemma_digits_value_step, CharClass,
};
use crate::error::{LexicalError, LexicalErrorKind};
use crate::grammar::{
    dispatch, keyword_at, lemma_lexeme_bounds, lemma_run_end_at, lemma_run_end_bounds, lemma_scan_to_bounds, lex_hash,
    lex_quote, lex_slash, lex_word, lexeme, matches_at, quote_close, run_end, run_end_all, scan_to,
    symbol, Category, Start,
};
use crate::laws::{lemma_stream_reaches_end, lexemes};
use crate::span::Span;
use crate::token::{Token, TokenKind};

verus! {

/// A single-use cursor over a source text.
///
/// The read position is `span.end`; `span.start` is where the token being read began.
pub struct Lexer<'a> {
    /// The source text, one entry per character.
    pub chars: Vec<char>,
    /// The source text.
    pub source: &'a str,
    /// The span of the token being read, or of the last one read.
    pub span: Span,
    /// Whether the input has been used up.
    pub eof: bool,
    /// Whether the end-of-file token has been handed out.
    pub eof_returned: bool,
}

/// Whether `kind` is a token of category `cat` read from `src[s..e]`, carrying the text
/// or value that such a token carries.
pub open spec fn kind_fits(kind: TokenKind, cat: Category, src: Seq<char>, s: int, e: int) -> bool {
    match kind {
        TokenKind::Define => cat == Category::Define,
        TokenKind::Include => cat == Category::Include,
        TokenKind::Macro => cat == Category::Macro,
        TokenKind::Function => cat == Category::Function,
        TokenKind::Constant => cat == Category::Constant,
        TokenKind::Takes => cat == Category::Takes,
        TokenKind::Returns => cat == Category::Returns,
        TokenKind::FreeStoragePointer => cat == Category::FreeStoragePointer,
        TokenKind::Ident(t) => cat == Category::Ident && t@ == src.subrange(s, e),
        TokenKind::Str(t) => cat == Category::Str && t@ == src.subrange(s + 1, e - 1),
        TokenKind::Num(v) => cat == Category::Num && v == digits_value(src.subrange(s, e)),
        TokenKind::Comment(t) => cat == Category::Comment && t@ == src.subrange(s, e),
        TokenKind::Whitespace => cat == Category::Whitespace,
        TokenKind::Eof => false,
        TokenKind::Assign => cat == Category::Assign,
        TokenKind::OpenParen => cat == Category::OpenParen,
        TokenKind::CloseParen => cat == Category::CloseParen,
        TokenKind::OpenBracket => cat == Category::OpenBracket,
        TokenKind::CloseBracket => cat == Category::CloseBracket,
        TokenKind::OpenBrace => cat == Category::OpenBrace,
        TokenKind::CloseBrace => cat == Category::CloseBrace,
        TokenKind::Add => cat == Category::Add,
        TokenKind::Sub => cat == Category::Sub,
        TokenKind::Mul => cat == Category::Mul,
        TokenKind::Div => cat == Category::Div,
        TokenKind::Comma => cat == Category::Comma,
    }
}

/// The single-character token that `c` stands for; `c` must be one of `=()[]{}+-*,`.
pub fn symbol_kind<'b>(c: char) -> (r: TokenKind<'b>)
    requires
        symbol(c) is Some,
    ensures
        kind_fits(r, symbol(c)->0, Seq::empty(), 0, 0),
{
    match c {
        '=' => TokenKind::Assign,
        '(' => TokenKind::OpenParen,
        ')' => TokenKind::CloseParen,
        '[' => TokenKind::OpenBracket,
        ']' => TokenKind::CloseBracket,
        '{' => TokenKind::OpenBrace,
        '}' => TokenKind::CloseBrace,
        '+' => TokenKind::Add,
        '-' => TokenKind::Sub,
        '*' => TokenKind::Mul,
        _ => TokenKind::Comma,
    }
}

/// Whether a number that starts at `s`, if one does, has a value that fits in `usize`.
pub open spec fn number_fits(src: Seq<char>, s: int) -> bool {
    0 <= s < src.len() && ascii_digit(src[s]) ==> digits_value(
        src.subrange(s, run_end(src, s + 1, CharClass::Digit)),
    ) <= usize::MAX
}

/// The span that a pulled token or error covers.
pub open spec fn span_of(item: Result<Token, LexicalError>) -> Span {
    match item {
        Ok(t) => t.span,
        Err(e) => e.span,
    }
}

/// Whether a pulled item is the lexeme `l` of `src`: its span, whether it is an
/// error, and for a token its kind.
pub open spec fn item_fits(item: Result<Token, LexicalError>, l: (Category, int, int), src: Seq<char>) -> bool {
    &&& span_of(item).start == l.1
    &&& span_of(item).end == l.2
    &&& (item is Err <==> l.0.is_error())
    &&& item matches Ok(t) ==> kind_fits(t.kind, l.0, src, l.1, l.2)
}

/// What one pull does: from the state `old` it reaches `new` and yields `r`.
pub open spec fn pulled<'a>(
    old: Lexer<'a>,
    new: Lexer<'a>,
    r: Option<Result<Token<'a>, LexicalError>>,
) -> bool {
    &&& new.wf()
    &&& new.chars == old.chars
    &&& new.source == old.source
    &&& old.span.end == old.text().len() ==> {
        &&& new.span.start == old.span.end
        &&& new.span.end == old.span.end
        &&& new.eof
        &&& new.eof_returned
        &&& old.eof_returned ==> r is None && new == old
        &&& !old.eof_returned ==> r == Some(
            Ok::<Token<'a>, LexicalError>(Token { kind: TokenKind::Eof, span: new.span }),
        )
    }
    &&& old.span.end < old.text().len() ==> {
        let s = old.span.end as int;
        let (cat, e) = lexeme(old.text(), s);
        &&& new.span.start == s
        &&& new.span.end == e
        &&& new.eof_returned == old.eof_returned
        &&& cat == Category::InvalidCharacter ==> {
            &&& r == Some(
                Err::<Token<'a>, LexicalError>(
                    LexicalError {
                        kind: LexicalErrorKind::InvalidCharacter(old.text()[s]),
                        span: new.span,
                    },
                ),
            )
            &&& !new.eof
        }
        &&& cat == Category::UnterminatedLiteral ==> {
            &&& r == Some(
                Err::<Token<'a>, LexicalError>(
                    LexicalError { kind: LexicalErrorKind::UnexpectedEof, span: new.span },
                ),
            )
            &&& new.eof
        }
        &&& !cat.is_error() ==> {
            &&& r matches Some(Ok(t)) && t.span == new.span && kind_fits(
                t.kind,
                cat,
                old.text(),
                s,
                e,
            )
            &&& new.eof == (e == old.text().len())
        }
    }
}

/// Whether `new` differs from `old` in the end of its span alone.
spec fn only_end_moved(old: Lexer, new: Lexer) -> bool {
    &&& new.wf()
    &&& new.chars == old.chars
    &&& new.source == old.source
    &&& new.span.start == old.span.start
    &&& new.eof == old.eof
    &&& new.eof_returned == old.eof_returned
}

/// The state in which the first character of a token has just been consumed.
spec fn first_consumed(l: Lexer) -> bool {
    &&& l.wf()
    &&& l.span.end == l.span.start + 1
    &&& !l.eof
}

impl<'a> Lexer<'a> {
    /// The source text as characters.
    pub open spec fn text(&self) -> Seq<char> {
        self.source@
    }

    /// The cursor's invariant: the span lies inside the text, `eof` only at its end,
    /// and the end-of-file token only after `eof`, with the span left empty.
    pub open spec fn wf(&self) -> bool {
        &&& self.chars@ == self.source@
        &&& self.span.start <= self.span.end <= self.source@.len()
        &&& self.eof ==> self.span.end == self.source@.len()
        &&& self.eof_returned ==> self.eof && self.span.start == self.span.end
    }

    /// A lexer at the start of `source`.
    pub fn new(source: &'a str) -> (r: Lexer<'a>)
        ensures
            r.wf(),
            r.source == source,
            r.span.start == 0,
            r.span.end == 0,
            !r.eof,
            !r.eof_returned,
    {
        let mut chars: Vec<char> = Vec::new();
        let mut it = source.chars();
        assert(chars@ + it.remaining() =~= source@);
        loop
            invariant
                it.obeys_prophetic_iter_laws(),
                it.decrease() is Some,
                chars@ + it.remaining() == source@,
            ensures
                chars@ == source@,
            decreases it.decrease()->0,
        {
            match it.next() {
                Some(c) => {
                    let ghost prev = chars@;
                    chars.push(c);
                    assert(chars@ + it.remaining() =~= prev + (seq![c] + it.remaining()));
                },
                None => {
                    assert(chars@ =~= chars@ + it.remaining());
                    break;
                },
            }
        }
        Lexer { chars, source, span: Span { start: 0, end: 0 }, eof: false, eof_returned: false }
    }

    /// The span being read, or `Span::eof()` once the input is used up.
    pub fn current_span(&self) -> (r: Span)
        ensures
            r == (if self.eof { Span { start: 0, end: 0 } } else { self.span }),
    {
        if self.eof {
            Span::eof()
        } else {
            self.span
        }
    }

    /// The next character, without consuming it.
    pub fn peek(&mut self) -> (r: Option<char>)
        requires
            old(self).wf(),
        ensures
            *final(self) == *old(self),
            r == (if old(self).span.end < old(self).text().len() {
                Some(old(self).text()[old(self).span.end as int])
            } else {
                None
            }),
    {
        if self.span.end < self.chars.len() {
            Some(self.chars[self.span.end])
        } else {
            None
        }
    }

    /// The character `n` places after the next one, without consuming anything.
    pub fn nthpeek(&mut self, n: usize) -> (r: Option<char>)
        requires
            old(self).wf(),
        ensures
            *final(self) == *old(self),
            r == (if old(self).span.end + n < old(self).text().len() {
                Some(old(self).text()[old(self).span.end + n])
            } else {
                None
            }),
    {
        if n < self.chars.len() - self.span.end {
            Some(self.chars[self.span.end + n])
        } else {
            None
        }
    }

    /// The text of the current span widened by the next `n` characters, or the empty
    /// string where those run past the end of the input.
    pub fn peeknchars(&mut self, n: usize) -> (r: String)
        requires
            old(self).wf(),
        ensures
            *final(self) == *old(self),
            r@ == (if old(self).span.end + n <= old(self).text().len() {
                old(self).text().subrange(old(self).span.start as int, old(self).span.end + n)
            } else {
                Seq::empty()
            }),
    {
        if n > self.chars.len() - self.span.end {
            return String::new();
        }
        self.source.substring_char(self.span.start, self.span.end + n).to_owned()
    }

    /// The `n` characters that start at offset `from`.
    pub fn peekncharsfrom(&mut self, n: usize, from: usize) -> (r: String)
        requires
            old(self).wf(),
            from + n <= old(self).text().len(),
        ensures
            *final(self) == *old(self),
            r@ == old(self).text().subrange(from as int, from + n),
    {
        proof {
            assert(from + n <= self.chars.len());
        }
        self.source.substring_char(from, from + n).to_owned()
    }

    /// The `dist - 1` characters that end just before the one before the span's start,
    /// or the empty string where the span starts fewer than `dist` characters in.
    pub fn try_look_back(&mut self, dist: usize) -> (r: String)
        requires
            old(self).wf(),
            dist >= 1,
        ensures
            *final(self) == *old(self),
            r@ == (if old(self).span.start >= dist {
                old(self).text().subrange(old(self).span.start - dist, old(self).span.start - 1)
            } else {
                Seq::empty()
            }),
    {
        match self.span.start.checked_sub(dist) {
            Some(n) => self.peekncharsfrom(dist - 1, n),
            None => String::new(),
        }
    }

    /// The text that the current span covers.
    pub fn slice(&self) -> (r: &'a str)
        requires
            self.wf(),
        ensures
            r@ == self.text().subrange(self.span.start as int, self.span.end as int),
    {
        self.source.substring_char(self.span.start, self.span.end)
    }

    /// Consumes the next character, extending the span over it.
    pub fn consume(&mut self) -> (r: Option<char>)
        requires
            old(self).wf(),
        ensures
            final(self).wf(),
            final(self).chars == old(self).chars,
            final(self).source == old(self).source,
            final(self).span.start == old(self).span.start,
            final(self).eof == old(self).eof,
            final(self).eof_returned == old(self).eof_returned,
            old(self).span.end < old(self).text().len() ==> final(self).span.end == old(self).span.end + 1
                && r == Some(old(self).text()[old(self).span.end as int]),
            old(self).span.end >= old(self).text().len() ==> final(self).span.end == old(self).span.end
                && r is None,
    {
        if self.span.end < self.chars.len() {
            let c = self.chars[self.span.end];
            self.span.end = self.span.end + 1;
            Some(c)
        } else {
            None
        }
    }

    /// Consumes up to `count` characters, stopping at the end of the input.
    pub fn nconsume(&mut self, count: usize)
        requires
            old(self).wf(),
        ensures
            final(self).wf(),
            final(self).chars == old(self).chars,
            final(self).source == old(self).source,
            final(self).span.start == old(self).span.start,
            final(self).eof == old(self).eof,
            final(self).eof_returned == old(self).eof_returned,
            final(self).span.end == (if old(self).span.end + count <= old(self).text().len() {
                old(self).span.end + count
            } else {
                old(self).text().len() as int
            }),
    {
        let mut i: usize = 0;
        while i < count
            invariant
                self.wf(),
                i <= count,
                self.chars == old(self).chars,
                self.source == old(self).source,
                self.span.start == old(self).span.start,
                self.eof == old(self).eof,
                self.eof_returned == old(self).eof_returned,
                self.span.end == (if old(self).span.end + i <= old(self).text().len() {
                    old(self).span.end + i
                } else {
                    old(self).text().len() as int
                }),
            decreases count - i,
        {
            let _ = self.consume();
            i = i + 1;
        }
    }

    /// Whether the text `word` stands at offset `at`, wholly inside the input.
    fn matches_word(&self, at: usize, word: &str) -> (r: bool)
        requires
            self.wf(),
        ensures
            r == matches_at(self.text(), at as int, word@),
    {
        let wlen = word.unicode_len();
        if wlen > self.chars.len() || at > self.chars.len() - wlen {
            return false;
        }
        let mut j: usize = 0;
        while j < wlen
            invariant
                self.wf(),
                j <= wlen,
                wlen == word@.len(),
                at + wlen <= self.chars.len(),
                forall|k: int| 0 <= k < j ==> self.text()[at + k] == word@[k],
            decreases wlen - j,
        {
            if self.chars[at + j] != word.get_char(j) {
                assert(self.text().subrange(at as int, at + wlen)[j as int] != word@[j as int]);
                return false;
            }
            j = j + 1;
        }
        assert(self.text().subrange(at as int, at + wlen) =~= word@);
        true
    }

    /// Consumes characters until `word` comes next, leaving the read position just
    /// before it, or until the end of the input if `word` never comes.
    pub fn seq_consume(&mut self, word: &str)
        requires
            old(self).wf(),
        ensures
            final(self).wf(),
            final(self).chars == old(self).chars,
            final(self).source == old(self).source,
            final(self).span.start == old(self).span.start,
            final(self).eof == old(self).eof,
            final(self).eof_returned == old(self).eof_returned,
            final(self).span.end == scan_to(old(self).text(), old(self).span.end as int, word@),
    {
        while self.span.end < self.chars.len()
            invariant
                self.wf(),
                self.chars == old(self).chars,
                self.source == old(self).source,
                self.span.start == old(self).span.start,
                self.eof == old(self).eof,
                self.eof_returned == old(self).eof_returned,
                old(self).span.end <= self.span.end,
                scan_to(self.text(), old(self).span.end as int, word@) == scan_to(
                    self.text(),
                    self.span.end as int,
                    word@,
                ),
            ensures
                self.wf(),
                self.chars == old(self).chars,
                self.source == old(self).source,
                self.span.start == old(self).span.start,
                self.eof == old(self).eof,
                self.eof_returned == old(self).eof_returned,
                self.span.end == scan_to(self.text(), old(self).span.end as int, word@),
            decreases self.text().len() - self.span.end,
        {
            if self.matches_word(self.span.end, word) {
                break;
            }
            self.consume();
        }
    }

    /// Consumes characters while `f` holds of the next one.
    pub fn dyn_consume<F: Fn(&char) -> bool>(&mut self, f: F)
        requires
            old(self).wf(),
            forall|c: &char| #[trigger] f.requires((c,)),
        ensures
            final(self).wf(),
            final(self).chars == old(self).chars,
            final(self).source == old(self).source,
            final(self).span.start == old(self).span.start,
            final(self).eof == old(self).eof,
            final(self).eof_returned == old(self).eof_returned,
            old(self).span.end <= final(self).span.end,
            forall|i: int|
                old(self).span.end <= i < final(self).span.end ==> f.ensures(
                    (&old(self).text()[i],),
                    true,
                ),
            final(self).span.end < old(self).text().len() ==> f.ensures(
                (&old(self).text()[final(self).span.end as int],),
                false,
            ),
    {
        loop
            invariant
                self.wf(),
                self.chars == old(self).chars,
                self.source == old(self).source,
                self.span.start == old(self).span.start,
                self.eof == old(self).eof,
                self.eof_returned == old(self).eof_returned,
                old(self).span.end <= self.span.end,
                forall|c: &char| #[trigger] f.requires((c,)),
                forall|i: int|
                    old(self).span.end <= i < self.span.end ==> f.ensures((&self.text()[i],), true),
            ensures
                self.wf(),
                self.chars == old(self).chars,
                self.source == old(self).source,
                self.span.start == old(self).span.start,
                self.eof == old(self).eof,
                self.eof_returned == old(self).eof_returned,
                old(self).span.end <= self.span.end,
                forall|i: int|
                    old(self).span.end <= i < self.span.end ==> f.ensures((&self.text()[i],), true),
                self.span.end < self.text().len() ==> f.ensures(
                    (&self.text()[self.span.end as int],),
                    false,
                ),
            decreases self.text().len() - self.span.end,
        {
            match self.peek() {
                Some(c) => {
                    if f(&c) {
                        self.consume();
                    } else {
                        break;
                    }
                },
                None => {
                    break;
                },
            }
        }
    }

    /// Consumes the longest run of characters of class `k`.
    fn consume_class(&mut self, k: CharClass)
        requires
            old(self).wf(),
        ensures
            final(self).wf(),
            final(self).chars == old(self).chars,
            final(self).source == old(self).source,
            final(self).span.start == old(self).span.start,
            final(self).eof == old(self).eof,
            final(self).eof_returned == old(self).eof_returned,
            final(self).span.end == run_end(old(self).text(), old(self).span.end as int, k),
    {
        self.dyn_consume(|c: &char| -> (r: bool)
            ensures
                r == in_class(k, *c),
            { char_in_class(k, *c) });
        proof {
            lemma_run_end_at(self.text(), old(self).span.end as int, self.span.end as int, k);
        }
    }

    /// Collapses the span to the read position, to begin a new token.
    pub fn reset(&mut self)
        requires
            old(self).wf(),
        ensures
            final(self).wf(),
            *final(self) == (Lexer { span: Span { start: old(self).span.end, end: old(self).span.end }, ..*old(self) }),
    {
        self.span.start = self.span.end;
    }

    /// Reads the rest of a token that starts with `/`.
    fn lex_slash(&mut self) -> (r: TokenKind<'a>)
        requires
            first_consumed(*old(self)),
        ensures
            only_end_moved(*old(self), *final(self)),
            final(self).span.end == lex_slash(old(self).text(), old(self).span.start as int).1,
            kind_fits(
                r,
                lex_slash(old(self).text(), old(self).span.start as int).0,
                old(self).text(),
                old(self).span.start as int,
                final(self).span.end as int,
            ),
    {
        match self.peek() {
            Some('/') => {
                self.consume();
                self.consume_class(CharClass::NotNewline);
                TokenKind::Comment(self.slice())
            },
            Some('*') => {
                self.consume();
                self.seq_consume("*/");
                proof {
                    lemma_scan_to_bounds(self.text(), old(self).span.start + 2, "*/"@);
                    reveal_strlit("*/");
                }
                // The scan stops before the closing marker, which belongs to the comment.
                if self.span.end < self.chars.len() {
                    self.nconsume(2);
                }
                TokenKind::Comment(self.slice())
            },
            _ => TokenKind::Div,
        }
    }

    /// Reads the rest of a directive keyword that starts with `#`; `None` where none stands.
    fn lex_hash(&mut self) -> (r: Option<TokenKind<'a>>)
        requires
            first_consumed(*old(self)),
        ensures
            only_end_moved(*old(self), *final(self)),
            ({
                let (cat, e) = lex_hash(old(self).text(), old(self).span.start as int);
                &&& final(self).span.end == e
                &&& cat == Category::InvalidCharacter ==> r is None
                &&& cat != Category::InvalidCharacter ==> (r matches Some(k) && kind_fits(
                    k,
                    cat,
                    old(self).text(),
                    old(self).span.start as int,
                    e,
                ))
            }),
    {
        if self.matches_word(self.span.start, "#define") {
            self.consume_class(CharClass::Alphabetic);
            Some(TokenKind::Define)
        } else if self.matches_word(self.span.start, "#include") {
            self.consume_class(CharClass::Alphabetic);
            Some(TokenKind::Include)
        } else {
            None
        }
    }

    /// The first bare keyword, in order of priority, whose text stands at the span's
    /// start, with the length of that text.
    fn keyword_here(&self) -> (r: Option<(usize, TokenKind<'a>)>)
        requires
            self.wf(),
        ensures
            match keyword_at(self.text(), self.span.start as int) {
                None => r is None,
                Some((w, cat)) => r matches Some((len, k)) && len == w.len() && kind_fits(
                    k,
                    cat,
                    self.text(),
                    0,
                    0,
                ),
            },
    {
        let at = self.span.start;
        if self.matches_word(at, "macro") {
            Some(("macro".unicode_len(), TokenKind::Macro))
        } else if self.matches_word(at, "function") {
            Some(("function".unicode_len(), TokenKind::Function))
        } else if self.matches_word(at, "constant") {
            Some(("constant".unicode_len(), TokenKind::Constant))
        } else if self.matches_word(at, "takes") {
            Some(("takes".unicode_len(), TokenKind::Takes))
        } else if self.matches_word(at, "returns") {
            Some(("returns".unicode_len(), TokenKind::Returns))
        } else {
            None
        }
    }

    /// Reads the rest of a word: a bare keyword, `FREE_STORAGE_POINTER` or an identifier.
    fn lex_word(&mut self) -> (r: TokenKind<'a>)
        requires
            first_consumed(*old(self)),
        ensures
            only_end_moved(*old(self), *final(self)),
            final(self).span.end == lex_word(old(self).text(), old(self).span.start as int).1,
            kind_fits(
                r,
                lex_word(old(self).text(), old(self).span.start as int).0,
                old(self).text(),
                old(self).span.start as int,
                final(self).span.end as int,
            ),
    {
        let start = self.span.start;
        let mut found: Option<TokenKind<'a>> = None;
        let mut key_len: usize = 0;
        match self.keyword_here() {
            Some((len, kind)) => {
                self.consume_class(CharClass::Alphabetic);
                found = Some(kind);
                key_len = len;
            },
            None => {},
        }
        // A word right after `function` and one separator names the function; a keyword
        // directly followed by `:` is a label.
        proof {
            reveal_strlit("function");
        }
        let after_function = start >= 9 && self.matches_word(start - 9, "function");
        let before_colon = found.is_some() && key_len < self.chars.len() - start
            && self.chars[start + key_len] == ':';
        if after_function || before_colon {
            found = None;
        }
        if self.matches_word(start, "FREE_STORAGE_POINTER") {
            self.consume_class(CharClass::Name);
            if let Some('(') = self.peek() {
                self.consume();
            }
            if let Some(')') = self.peek() {
                self.consume();
            }
            found = Some(TokenKind::FreeStoragePointer);
        }
        match found {
            Some(kind) => kind,
            None => {
                self.consume_class(CharClass::Word);
                TokenKind::Ident(self.slice())
            },
        }
    }

    /// Reads the rest of a decimal number and computes its value.
    fn lex_number(&mut self) -> (r: TokenKind<'a>)
        requires
            first_consumed(*old(self)),
            digits_value(
                old(self).text().subrange(
                    old(self).span.start as int,
                    run_end(old(self).text(), old(self).span.end as int, CharClass::Digit),
                ),
            ) <= usize::MAX,
            ascii_digit(old(self).text()[old(self).span.start as int]),
        ensures
            only_end_moved(*old(self), *final(self)),
            final(self).span.end == run_end(
                old(self).text(),
                old(self).span.end as int,
                CharClass::Digit,
            ),
            r == TokenKind::Num(
                digits_value(
                    old(self).text().subrange(
                        old(self).span.start as int,
                        final(self).span.end as int,
                    ),
                ) as usize,
            ),
    {
        self.consume_class(CharClass::Digit);
        let start = self.span.start;
        let end = self.span.end;
        let ghost digits = self.text().subrange(start as int, end as int);
        proof {
            lemma_run_end_bounds(self.text(), old(self).span.end as int, CharClass::Digit);
            run_end_all(self.text(), old(self).span.end as int, CharClass::Digit);
        }
        let mut value: usize = 0;
        let mut i: usize = start;
        while i < end
            invariant
                self.wf(),
                start <= i <= end <= self.text().len(),
                digits == self.text().subrange(start as int, end as int),
                digits_value(digits) <= usize::MAX,
                forall|k: int| start <= k < end ==> ascii_digit(#[trigger] self.text()[k]),
                value == digits_value(digits.subrange(0, i - start)),
            decreases end - i,
        {
            proof {
                lemma_digits_value_step(digits, i - start);
                lemma_digits_value_prefix(digits, i - start + 1, digits.len() as int);
                assert(digits.subrange(0, digits.len() as int) =~= digits);
            }
            let d = (self.chars[i] as u32 - '0' as u32) as usize;
            value = value * 10 + d;
            i = i + 1;
        }
        assert(digits.subrange(0, end - start) =~= digits);
        TokenKind::Num(value)
    }

    /// Reads the rest of a literal quoted by `q`, keeping escapes as they stand; `None`
    /// where the input ends first.
    fn lex_quote(&mut self, q: char) -> (r: Option<TokenKind<'a>>)
        requires
            first_consumed(*old(self)),
            old(self).text()[old(self).span.start as int] == q,
        ensures
            only_end_moved(*old(self), *final(self)),
            ({
                let (cat, e) = lex_quote(old(self).text(), old(self).span.start as int);
                &&& final(self).span.end == e
                &&& cat == Category::UnterminatedLiteral ==> r is None
                &&& cat != Category::UnterminatedLiteral ==> (r matches Some(k) && kind_fits(
                    k,
                    cat,
                    old(self).text(),
                    old(self).span.start as int,
                    e,
                ))
            }),
    {
        let start = self.span.start;
        loop
            invariant
                only_end_moved(*old(self), *self),
                start == self.span.start,
                start < self.span.end,
                self.text()[start as int] == q,
                quote_close(self.text(), q, start + 1) == quote_close(
                    self.text(),
                    q,
                    self.span.end as int,
                ),
            decreases self.text().len() - self.span.end,
        {
            match self.peek() {
                Some(c) => {
                    if c == q {
                        assert(quote_close(self.text(), q, self.span.end as int) == Some(
                            self.span.end + 1,
                        ));
                        self.consume();
                        return Some(TokenKind::Str(
                            self.source.substring_char(start + 1, self.span.end - 1),
                        ));
                    }
                    if c == '\\' {
                        match self.nthpeek(1) {
                            Some(d) => {
                                if d == '\\' || d == q {
                                    self.consume();
                                }
                            },
                            None => {},
                        }
                    }
                },
                None => {
                    assert(quote_close(self.text(), q, self.span.end as int) is None);
                    return None;
                },
            }
            self.consume();
        }
    }

    /// Produces the next token or error; after the input is used up, the end-of-file
    /// token once, then `None` for good.
    ///
    /// An invalid character is reported and skipped. Running out of input inside a
    /// quoted literal is reported once, and then the end-of-file token follows.
    pub fn next(&mut self) -> (r: Option<Result<Token<'a>, LexicalError>>)
        requires
            old(self).wf(),
            number_fits(old(self).text(), old(self).span.end as int),
        ensures
            pulled(*old(self), *final(self), r),
    {
        self.reset();
        if let Some(ch) = self.consume() {
            proof {
                lemma_lexeme_bounds(self.text(), self.span.start as int);
            }
            let kind = match dispatch(ch, is_alphabetic(ch)) {
                Start::Slash => self.lex_slash(),
                Start::Hash => match self.lex_hash() {
                    Some(kind) => kind,
                    None => {
                        return Some(
                            Err(
                                LexicalError::new(
                                    LexicalErrorKind::InvalidCharacter('#'),
                                    self.current_span(),
                                ),
                            ),
                        );
                    },
                },
                Start::Word => self.lex_word(),
                Start::Symbol => symbol_kind(ch),
                Start::Digits => self.lex_number(),
                Start::Space => {
                    self.consume_class(CharClass::Space);
                    TokenKind::Whitespace
                },
                Start::Quote => match self.lex_quote(ch) {
                    Some(kind) => kind,
                    None => {
                        self.eof = true;
                        return Some(
                            Err(LexicalError::new(LexicalErrorKind::UnexpectedEof, self.span)),
                        );
                    },
                },
                Start::Invalid => {
                    return Some(
                        Err(LexicalError::new(LexicalErrorKind::InvalidCharacter(ch), self.span)),
                    );
                },
            };
            if self.peek().is_none() {
                self.eof = true;
            }
            return Some(Ok(Token { kind, span: self.span }));
        }
        self.eof = true;
        if !self.eof_returned {
            self.eof_returned = true;
            return Some(Ok(Token { kind: TokenKind::Eof, span: self.span }));
        }
        None
    }

    /// Whether the decimal number that starts at the read position, if one does, has a
    /// value that fits in `usize`.
    fn number_fits_here(&self) -> (r: bool)
        requires
            self.wf(),
        ensures
            r == number_fits(self.text(), self.span.end as int),
    {
        let s = self.span.end;
        let len = self.chars.len();
        if s >= len || !is_ascii_digit(self.chars[s]) {
            return true;
        }
        let ghost src = self.text();
        let ghost e = run_end(src, s + 1, CharClass::Digit);
        proof {
            lemma_run_end_bounds(src, s + 1, CharClass::Digit);
            run_end_all(src, s + 1, CharClass::Digit);
        }
        let mut value: usize = 0;
        let mut i: usize = s;
        while i < len && is_ascii_digit(self.chars[i])
            invariant
                self.wf(),
                src == self.text(),
                s == self.span.end,
                len == src.len(),
                s < len,
                ascii_digit(src[s as int]),
                s <= i <= e <= len,
                e == run_end(src, s + 1, CharClass::Digit),
                forall|k: int| s + 1 <= k < e ==> ascii_digit(#[trigger] src[k]),
                e < len ==> !ascii_digit(src[e]),
                i < len && ascii_digit(src[i as int]) ==> i < e,
                value == digits_value(src.subrange(s as int, i as int)),
            decreases len - i,
        {
            assert(src.subrange(s as int, i + 1).drop_last() =~= src.subrange(s as int, i as int));
            let d = (self.chars[i] as u32 - '0' as u32) as usize;
            let next = match value.checked_mul(10) {
                Some(m) => m.checked_add(d),
                None => None,
            };
            match next {
                Some(v) => {
                    value = v;
                },
                None => {
                    proof {
                        assert(i < e);
                        assert(digits_value(src.subrange(s as int, i + 1)) == value * 10 + d);
                        assert(digits_value(src.subrange(s as int, i + 1)) > usize::MAX);
                        let whole = src.subrange(s as int, e);
                        assert(whole.subrange(0, i + 1 - s) =~= src.subrange(s as int, i + 1));
                        assert(whole.subrange(0, e - s) =~= whole);
                        lemma_digits_value_prefix(whole, i + 1 - s, e - s);
                    }
                    return false;
                },
            }
            i = i + 1;
            proof {
                if i < len && ascii_digit(src[i as int]) && i >= e {
                    assert(i == e);
                }
            }
        }
        proof {
            if i < e {
                assert(ascii_digit(src[i as int]));
            }
        }
        true
    }

    /// Pulls like `next`, unless a decimal number starts at the read position whose
    /// value does not fit in `usize`: then `None`, and the lexer is left as it was.
    pub fn try_next(&mut self) -> (r: Option<Option<Result<Token<'a>, LexicalError>>>)
        requires
            old(self).wf(),
        ensures
            r is None <==> !number_fits(old(self).text(), old(self).span.end as int),
            r is None ==> *final(self) == *old(self),
            r matches Some(item) ==> pulled(*old(self), *final(self), item),
    {
        if self.number_fits_here() {
            Some(self.next())
        } else {
            None
        }
    }

    /// Pulls until the lexer is used up, and hands back every token and error pulled,
    /// the end-of-file token last unless it was handed out before.
    pub fn tokenize(&mut self) -> (r: Vec<Result<Token<'a>, LexicalError>>)
        requires
            old(self).wf(),
            forall|i: int|
                0 <= i < lexemes(old(self).text(), old(self).span.end as int).len()
                    ==> number_fits(
                    old(self).text(),
                    (#[trigger] lexemes(old(self).text(), old(self).span.end as int)[i]).1,
                ),
        ensures
            final(self).wf(),
            final(self).source == old(self).source,
            final(self).eof_returned,
            ({
                let ls = lexemes(old(self).text(), old(self).span.end as int);
                let n = old(self).text().len();
                &&& r.len() == ls.len() + (if old(self).eof_returned { 0int } else { 1int })
                &&& forall|i: int| 0 <= i < ls.len() ==> item_fits(#[trigger] r@[i], ls[i], old(self).text())
                &&& !old(self).eof_returned ==> r@.last() == Ok::<Token<'a>, LexicalError>(
                    Token { kind: TokenKind::Eof, span: Span { start: n as usize, end: n as usize } },
                )
            }),
    {
        let ghost src = self.text();
        let ghost ls = lexemes(src, self.span.end as int);
        let ghost first = self.span.end as int;
        let mut out: Vec<Result<Token<'a>, LexicalError>> = Vec::new();
        proof {
            lemma_stream_reaches_end(src, first);
        }
        loop
            invariant
                self.wf(),
                self.source == old(self).source,
                src == self.text(),
                ls == lexemes(src, first),
                first <= self.span.end,
                out.len() <= ls.len() + 1,
                out.len() <= ls.len() ==> lexemes(src, self.span.end as int) == ls.subrange(
                    out.len() as int,
                    ls.len() as int,
                ),
                out.len() == ls.len() + 1 ==> self.eof_returned && !old(self).eof_returned,
                forall|i: int| 0 <= i < out.len() && i < ls.len() ==> item_fits(#[trigger] out@[i], ls[i], src),
                old(self).eof_returned ==> self.eof_returned,
                self.eof_returned && !old(self).eof_returned ==> out.len() == ls.len() + 1
                    && out@.last() == Ok::<Token<'a>, LexicalError>(
                    Token { kind: TokenKind::Eof, span: Span { start: src.len() as usize, end: src.len() as usize } },
                ),
                !self.eof_returned || old(self).eof_returned ==> out.len() <= ls.len(),
                forall|i: int|
                    0 <= i < ls.len() ==> number_fits(src, (#[trigger] ls[i]).1),
            ensures
                self.wf(),
                self.source == old(self).source,
                self.eof_returned,
                out.len() == ls.len() + (if old(self).eof_returned { 0int } else { 1int }),
                forall|i: int| 0 <= i < ls.len() ==> item_fits(#[trigger] out@[i], ls[i], src),
                !old(self).eof_returned ==> out@.last() == Ok::<Token<'a>, LexicalError>(
                    Token { kind: TokenKind::Eof, span: Span { start: src.len() as usize, end: src.len() as usize } },
                ),
            decreases src.len() - self.span.end + (if self.eof_returned { 0int } else { 1int }),
        {
            let ghost at = self.span.end as int;
            proof {
                if at < src.len() {
                    lemma_lexeme_bounds(src, at);
                    assert(lexemes(src, at) =~= seq![(lexeme(src, at).0, at, lexeme(src, at).1)] + lexemes(src, lexeme(src, at).1));
                    assert(out.len() <= ls.len());
                    assert(lexemes(src, at) == ls.subrange(out.len() as int, ls.len() as int));
                    assert(lexemes(src, lexeme(src, at).1) =~= lexemes(src, at).subrange(
                        1,
                        lexemes(src, at).len() as int,
                    ));
                    assert(ls[out.len() as int] == lexemes(src, at)[0]);
                    assert(lexemes(src, lexeme(src, at).1) =~= ls.subrange(out.len() + 1, ls.len() as int));
                }
            }
            let ghost before = out@;
            match self.next() {
                Some(item) => {
                    out.push(item);
                    assert forall|i: int| 0 <= i < out.len() - 1 && i < ls.len() implies item_fits(#[trigger] out@[i], ls[i], src) by {
                        assert(out@[i] == before[i]);
                    }
                },
                None => {
                    break;
                },
            }
        }
        out
    }
}

} // verus!
