//! What holds of the whole stream of lexemes that successive pulls produce.
use vstd::prelude::*;

use crate::error::{LexicalError, LexicalErrorKind};
use crate::lexer::{pulled, Lexer};
use crate::span::Span;
use crate::token::{Token, TokenKind};
use crate::grammar::{lemma_lexeme_bounds, lexeme, quote_close, Category};

verus! {

/// The lexemes that successive pulls produce from offset `s` until the input is used
/// up: each with its category, its start and its end.
pub open spec fn lexemes(src: Seq<char>, s: int) -> Seq<(Category, int, int)>
    decreases src.len() - s,
{
    if 0 <= s < src.len() {
        let e = lexeme(src, s).1;
        if s < e <= src.len() {
            seq![(lexeme(src, s).0, s, e)] + lexemes(src, e)
        } else {
            seq![(lexeme(src, s).0, s, e)]
        }
    } else {
        Seq::empty()
    }
}

/// The text that each lexeme covers.
pub open spec fn slices(src: Seq<char>, ls: Seq<(Category, int, int)>) -> Seq<Seq<char>> {
    ls.map_values(|l: (Category, int, int)| src.subrange(l.1, l.2))
}

/// The lexemes from `s` cover `src[s..]` in order, without gaps or overlaps.
proof fn lemma_cover_from(src: Seq<char>, s: int)
    requires
        0 <= s <= src.len(),
    ensures
        slices(src, lexemes(src, s)).flatten() == src.subrange(s, src.len() as int),
    decreases src.len() - s,
{
    if s < src.len() {
        lemma_lexeme_bounds(src, s);
        let e = lexeme(src, s).1;
        lemma_cover_from(src, e);
        let ls = lexemes(src, s);
        let sl = slices(src, ls);
        assert(sl.drop_first() =~= slices(src, lexemes(src, e)));
        assert(sl[0] == src.subrange(s, e));
        assert(src.subrange(s, src.len() as int) =~= src.subrange(s, e) + src.subrange(
            e,
            src.len() as int,
        ));
    } else {
        assert(slices(src, lexemes(src, s)) =~= Seq::<Seq<char>>::empty());
        assert(src.subrange(s, src.len() as int) =~= Seq::<char>::empty());
    }
}

/// Where no lexeme is an error, the texts of the tokens, in the order they come,
/// make up the source text exactly.
pub proof fn lemma_tokens_rebuild_source(src: Seq<char>)
    requires
        forall|i: int| 0 <= i < lexemes(src, 0).len() ==> !(#[trigger] lexemes(src, 0)[i]).0.is_error(),
    ensures
        slices(src, lexemes(src, 0)).flatten() == src,
{
    lemma_cover_from(src, 0);
    assert(src.subrange(0, src.len() as int) =~= src);
}

/// The pulls from `s` advance through the text: the first lexeme starts at `s`, each
/// holds at least one character and ends where the next starts, the last ends at the
/// end of the text, and there are no more of them than characters left. The pull after
/// the last one yields the end-of-file token.
pub proof fn lemma_stream_reaches_end(src: Seq<char>, s: int)
    requires
        0 <= s <= src.len(),
    ensures
        ({
            let ls = lexemes(src, s);
            &&& ls.len() <= src.len() - s
            &&& ls.len() > 0 ==> ls[0].1 == s && ls[ls.len() - 1].2 == src.len()
            &&& forall|i: int| 0 <= i < ls.len() ==> (#[trigger] ls[i]).1 < ls[i].2
            &&& forall|i: int| 0 <= i < ls.len() - 1 ==> (#[trigger] ls[i]).2 == ls[i + 1].1
        }),
    decreases src.len() - s,
{
    if s < src.len() {
        lemma_lexeme_bounds(src, s);
        let e = lexeme(src, s).1;
        lemma_stream_reaches_end(src, e);
        let ls = lexemes(src, s);
        let rest = lexemes(src, e);
        assert(ls =~= seq![(lexeme(src, s).0, s, e)] + rest);
        assert forall|i: int| 0 <= i < ls.len() - 1 implies (#[trigger] ls[i]).2 == ls[i + 1].1 by {
            if i > 0 {
                assert(ls[i] == rest[i - 1]);
                assert(ls[i + 1] == rest[i]);
            }
        }
        assert forall|i: int| 0 <= i < ls.len() implies (#[trigger] ls[i]).1 < ls[i].2 by {
            if i > 0 {
                assert(ls[i] == rest[i - 1]);
            }
        }
    }
}

/// A literal that the input ends inside is the last lexeme: it is reported once, and the
/// pull after it yields the end-of-file token.
pub proof fn lemma_unterminated_is_last(src: Seq<char>, s: int)
    requires
        0 <= s <= src.len(),
    ensures
        forall|i: int|
            0 <= i < lexemes(src, s).len() && (#[trigger] lexemes(src, s)[i]).0
                == Category::UnterminatedLiteral ==> i == lexemes(src, s).len() - 1
                && lexemes(src, s)[i].2 == src.len(),
    decreases src.len() - s,
{
    if s < src.len() {
        lemma_lexeme_bounds(src, s);
        let e = lexeme(src, s).1;
        lemma_unterminated_is_last(src, e);
        let ls = lexemes(src, s);
        let rest = lexemes(src, e);
        assert(ls =~= seq![(lexeme(src, s).0, s, e)] + rest);
        assert forall|i: int|
            0 <= i < ls.len() && (#[trigger] ls[i]).0 == Category::UnterminatedLiteral implies i
            == ls.len() - 1 && ls[i].2 == src.len() by {
            if i > 0 {
                assert(ls[i] == rest[i - 1]);
            } else {
                assert(e == src.len());
                assert(rest.len() == 0);
            }
        }
    }
}

/// A quote at `s` that no unescaped quote of the same kind closes makes the rest of
/// the text one unterminated literal: the only lexeme left, ending at the end of the
/// text, so that the pull after it yields the end-of-file token.
pub proof fn lemma_open_quote_is_last(src: Seq<char>, s: int)
    requires
        0 <= s < src.len(),
        src[s] == '"' || src[s] == '\'',
        quote_close(src, src[s], s + 1) is None,
    ensures
        lexeme(src, s) == (Category::UnterminatedLiteral, src.len() as int),
        lexemes(src, s) == seq![(Category::UnterminatedLiteral, s, src.len() as int)],
{
    assert(lexemes(src, src.len() as int) =~= Seq::<(Category, int, int)>::empty());
    assert(lexemes(src, s) =~= seq![(Category::UnterminatedLiteral, s, src.len() as int)]);
}

/// Three pulls from a read position where a quote opens a literal that never closes:
/// the first reports the unexpected end of input over the rest of the text, the second
/// yields the end-of-file token, and the third yields nothing.
pub proof fn lemma_pulls_after_open_quote<'a>(
    l0: Lexer<'a>,
    l1: Lexer<'a>,
    r1: Option<Result<Token<'a>, LexicalError>>,
    l2: Lexer<'a>,
    r2: Option<Result<Token<'a>, LexicalError>>,
    l3: Lexer<'a>,
    r3: Option<Result<Token<'a>, LexicalError>>,
)
    requires
        l0.wf(),
        l0.span.end < l0.text().len(),
        l0.text()[l0.span.end as int] == '"' || l0.text()[l0.span.end as int] == '\'',
        quote_close(l0.text(), l0.text()[l0.span.end as int], l0.span.end + 1) is None,
        pulled(l0, l1, r1),
        pulled(l1, l2, r2),
        pulled(l2, l3, r3),
    ensures
        r1 == Some(
            Err::<Token<'a>, LexicalError>(
                LexicalError {
                    kind: LexicalErrorKind::UnexpectedEof,
                    span: Span { start: l0.span.end, end: l0.text().len() as usize },
                },
            ),
        ),
        r2 == Some(
            Ok::<Token<'a>, LexicalError>(
                Token {
                    kind: TokenKind::Eof,
                    span: Span { start: l0.text().len() as usize, end: l0.text().len() as usize },
                },
            ),
        ),
        r3 is None,
        l3 == l2,
{
    lemma_open_quote_is_last(l0.text(), l0.span.end as int);
}

/// Once the end-of-file token has been handed out, every pull yields nothing and
/// leaves the lexer as it was.
pub proof fn lemma_exhausted_stays<'a>(
    l0: Lexer<'a>,
    l1: Lexer<'a>,
    r: Option<Result<Token<'a>, LexicalError>>,
)
    requires
        l0.wf(),
        l0.eof_returned,
        pulled(l0, l1, r),
    ensures
        r is None,
        l1 == l0,
{
}

} // verus!
