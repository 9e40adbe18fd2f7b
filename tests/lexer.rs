use huff_lexer::grammar::{dispatch, Start};
use huff_lexer::lexer::symbol_kind;
use huff_lexer::{LexicalError, LexicalErrorKind, Lexer, Span, Token, TokenKind};

fn pull_all(source: &str) -> Vec<Result<Token<'_>, LexicalError>> {
    let mut lexer = Lexer::new(source);
    let mut out = Vec::new();
    while let Some(item) = lexer.next() {
        out.push(item);
    }
    out
}

fn tok<'a>(kind: TokenKind<'a>, start: usize, end: usize) -> Result<Token<'a>, LexicalError> {
    Ok(Token::new(kind, Span::new(start..end)))
}

#[test]
fn define_macro_line() {
    let source = "#define macro HELLO_WORLD()";
    let mut lexer = Lexer::new(source);
    assert_eq!(lexer.source, source);
    let expected = [
        (TokenKind::Define, 0, 7),
        (TokenKind::Whitespace, 7, 8),
        (TokenKind::Macro, 8, 13),
        (TokenKind::Whitespace, 13, 14),
        (TokenKind::Ident("HELLO_WORLD"), 14, 25),
        (TokenKind::OpenParen, 25, 26),
        (TokenKind::CloseParen, 26, 27),
    ];
    for (kind, start, end) in expected {
        let t = lexer.next().unwrap().unwrap();
        assert_eq!(t, Token::new(kind, Span::new(start..end)));
        assert_eq!(lexer.span, Span::new(start..end));
    }
    assert_eq!(lexer.span.end, source.len());
    assert!(lexer.eof);
    assert_eq!(lexer.next(), Some(tok(TokenKind::Eof, 27, 27)));
    assert_eq!(lexer.next(), None);
}

#[test]
fn label_is_not_keyword() {
    let items = pull_all("takes:");
    assert_eq!(items[0], tok(TokenKind::Ident("takes"), 0, 5));
    assert_eq!(items[1], Err(LexicalError::new(LexicalErrorKind::InvalidCharacter(':'), Span::new(5..6))));
    assert_eq!(items[2], tok(TokenKind::Eof, 6, 6));
    assert_eq!(items.len(), 3);
}

#[test]
fn keyword_without_colon_stays_keyword() {
    let items = pull_all("takes (0)");
    assert_eq!(items[0], tok(TokenKind::Takes, 0, 5));
}

#[test]
fn line_comment_then_keyword() {
    let source = "// a comment\nmacro";
    let items = pull_all(source);
    assert_eq!(items[0], tok(TokenKind::Comment("// a comment"), 0, 12));
    assert_eq!(&source[0..12], "// a comment");
    assert_eq!(items[1], tok(TokenKind::Whitespace, 12, 13));
    assert_eq!(items[2], tok(TokenKind::Macro, 13, 18));
    assert_eq!(items[3], tok(TokenKind::Eof, 18, 18));
    assert_eq!(items.len(), 4);
}

#[test]
fn number_literal() {
    let items = pull_all("123");
    assert_eq!(items[0], tok(TokenKind::Num(123), 0, 3));
    assert_eq!(items[1], tok(TokenKind::Eof, 3, 3));
}

#[test]
fn bare_hash_is_invalid() {
    let mut lexer = Lexer::new("#foo");
    assert_eq!(
        lexer.next(),
        Some(Err(LexicalError::new(LexicalErrorKind::InvalidCharacter('#'), Span::new(0..1))))
    );
    // The character is skipped and lexing goes on.
    assert_eq!(lexer.next(), Some(tok(TokenKind::Ident("foo"), 1, 4)));
    assert_eq!(lexer.next(), Some(tok(TokenKind::Eof, 4, 4)));
    assert_eq!(lexer.next(), None);
}

#[test]
fn slices_rebuild_source() {
    let source = "#define macro MAIN() = takes(0) returns(1) {\n  // push\n  0x01 /* blk */ [X] + 2 - 3 * 4 / 5, \"s\" 'q'\n}";
    let mut rebuilt = String::new();
    let mut lexer = Lexer::new(source);
    while let Some(item) = lexer.next() {
        let t = item.unwrap();
        rebuilt.push_str(&source[t.span.start..t.span.end]);
    }
    assert_eq!(rebuilt, source);
}

#[test]
fn eof_exactly_once() {
    let mut lexer = Lexer::new("a");
    assert_eq!(lexer.next(), Some(tok(TokenKind::Ident("a"), 0, 1)));
    assert_eq!(lexer.next(), Some(tok(TokenKind::Eof, 1, 1)));
    assert_eq!(lexer.next(), None);
    assert_eq!(lexer.next(), None);
}

#[test]
fn empty_input_gives_eof_only() {
    let items = pull_all("");
    assert_eq!(items, vec![tok(TokenKind::Eof, 0, 0)]);
}

#[test]
fn unterminated_string_then_eof() {
    let mut lexer = Lexer::new("a \"abc");
    assert_eq!(lexer.next(), Some(tok(TokenKind::Ident("a"), 0, 1)));
    assert_eq!(lexer.next(), Some(tok(TokenKind::Whitespace, 1, 2)));
    assert_eq!(
        lexer.next(),
        Some(Err(LexicalError::new(LexicalErrorKind::UnexpectedEof, Span::new(2..6))))
    );
    assert!(lexer.eof);
    assert_eq!(lexer.next(), Some(tok(TokenKind::Eof, 6, 6)));
    assert_eq!(lexer.next(), None);
}

#[test]
fn unterminated_single_quote() {
    let items = pull_all("'x\\'");
    assert_eq!(items[0], Err(LexicalError::new(LexicalErrorKind::UnexpectedEof, Span::new(0..4))));
    assert_eq!(items[1], tok(TokenKind::Eof, 4, 4));
    assert_eq!(items.len(), 2);
}

#[test]
fn strings_keep_escapes() {
    let items = pull_all("\"a\\\"b\" 'c\\\\'");
    assert_eq!(items[0], tok(TokenKind::Str("a\\\"b"), 0, 6));
    assert_eq!(items[1], tok(TokenKind::Whitespace, 6, 7));
    assert_eq!(items[2], tok(TokenKind::Str("c\\\\"), 7, 12));
}

#[test]
fn block_comment() {
    let items = pull_all("/* x */+");
    assert_eq!(items[0], tok(TokenKind::Comment("/* x */"), 0, 7));
    assert_eq!(items[1], tok(TokenKind::Add, 7, 8));
}

#[test]
fn unclosed_block_comment_runs_to_end() {
    let items = pull_all("/* x");
    assert_eq!(items[0], tok(TokenKind::Comment("/* x"), 0, 4));
    assert_eq!(items[1], tok(TokenKind::Eof, 4, 4));
}

#[test]
fn division() {
    let items = pull_all("4/2");
    assert_eq!(items[1], tok(TokenKind::Div, 1, 2));
    assert_eq!(items[2], tok(TokenKind::Num(2), 2, 3));
}

#[test]
fn punctuation() {
    let kinds: Vec<TokenKind> = pull_all("=()[]{}+-*,")
        .into_iter()
        .map(|r| r.unwrap().kind)
        .collect();
    assert_eq!(
        kinds,
        vec![
            TokenKind::Assign,
            TokenKind::OpenParen,
            TokenKind::CloseParen,
            TokenKind::OpenBracket,
            TokenKind::CloseBracket,
            TokenKind::OpenBrace,
            TokenKind::CloseBrace,
            TokenKind::Add,
            TokenKind::Sub,
            TokenKind::Mul,
            TokenKind::Comma,
            TokenKind::Eof,
        ]
    );
}

#[test]
fn include_directive() {
    let items = pull_all("#include \"a.huff\"");
    assert_eq!(items[0], tok(TokenKind::Include, 0, 8));
    assert_eq!(items[2], tok(TokenKind::Str("a.huff"), 9, 17));
}

#[test]
fn all_bare_keywords() {
    let kinds: Vec<TokenKind> = pull_all("macro constant takes returns function")
        .into_iter()
        .map(|r| r.unwrap().kind)
        .filter(|k| *k != TokenKind::Whitespace)
        .collect();
    assert_eq!(
        kinds,
        vec![
            TokenKind::Macro,
            TokenKind::Constant,
            TokenKind::Takes,
            TokenKind::Returns,
            TokenKind::Function,
            TokenKind::Eof,
        ]
    );
}

#[test]
fn name_after_function_keyword_is_identifier() {
    let items = pull_all("function macro");
    assert_eq!(items[0], tok(TokenKind::Function, 0, 8));
    assert_eq!(items[2], tok(TokenKind::Ident("macro"), 9, 14));
}

#[test]
fn free_storage_pointer_with_parens() {
    let items = pull_all("FREE_STORAGE_POINTER() x");
    assert_eq!(items[0], tok(TokenKind::FreeStoragePointer, 0, 22));
    assert_eq!(items[2], tok(TokenKind::Ident("x"), 23, 24));
}

#[test]
fn free_storage_pointer_bare() {
    let items = pull_all("FREE_STORAGE_POINTER");
    assert_eq!(items[0], tok(TokenKind::FreeStoragePointer, 0, 20));
}

#[test]
fn identifier_with_digits_and_underscores() {
    let items = pull_all("abc_12 x");
    assert_eq!(items[0], tok(TokenKind::Ident("abc_12"), 0, 6));
}

#[test]
fn whitespace_run_is_one_token() {
    let items = pull_all(" \t\n\r x");
    assert_eq!(items[0], tok(TokenKind::Whitespace, 0, 5));
}

#[test]
fn invalid_character_is_reported_and_skipped() {
    let items = pull_all("a;b");
    assert_eq!(items[1], Err(LexicalError::new(LexicalErrorKind::InvalidCharacter(';'), Span::new(1..2))));
    assert_eq!(items[2], tok(TokenKind::Ident("b"), 2, 3));
}

#[test]
fn large_number_value() {
    let items = pull_all("18446744073709551615");
    assert_eq!(items[0], tok(TokenKind::Num(usize::MAX), 0, 20));
}

#[test]
fn cursor_peeks() {
    let mut lexer = Lexer::new("macro X");
    assert_eq!(lexer.peek(), Some('m'));
    assert_eq!(lexer.nthpeek(2), Some('c'));
    assert_eq!(lexer.nthpeek(7), None);
    assert_eq!(lexer.peeknchars(5), "macro");
    assert_eq!(lexer.peeknchars(8), "");
    assert_eq!(lexer.peekncharsfrom(1, 6), "X");
    assert_eq!(lexer.consume(), Some('m'));
    assert_eq!(lexer.peeknchars(4), "macro");
    assert_eq!(lexer.slice(), "m");
    lexer.nconsume(3);
    assert_eq!(lexer.span, Span::new(0..4));
    lexer.nconsume(10);
    assert_eq!(lexer.span, Span::new(0..7));
    assert_eq!(lexer.consume(), None);
    lexer.reset();
    assert_eq!(lexer.span, Span::new(7..7));
}

#[test]
fn look_back() {
    let mut lexer = Lexer::new("function f");
    lexer.nconsume(9);
    lexer.reset();
    assert_eq!(lexer.try_look_back(9), "function");
    assert_eq!(lexer.try_look_back(10), "");
}

#[test]
fn consume_helpers() {
    let mut lexer = Lexer::new("aaab--*/x");
    lexer.dyn_consume(|c| *c == 'a');
    assert_eq!(lexer.span, Span::new(0..3));
    lexer.reset();
    lexer.seq_consume("*/");
    assert_eq!(lexer.span, Span::new(3..6));
    lexer.seq_consume("zz");
    assert_eq!(lexer.span.end, 9);
}

#[test]
fn current_span_after_eof() {
    let mut lexer = Lexer::new("x");
    assert_eq!(lexer.current_span(), Span::new(0..0));
    lexer.next();
    assert!(lexer.eof);
    assert_eq!(lexer.current_span(), Span::eof());
}

#[test]
fn dispatch_on_first_character() {
    assert_eq!(dispatch('/', false), Start::Slash);
    assert_eq!(dispatch('#', false), Start::Hash);
    assert_eq!(dispatch('m', true), Start::Word);
    assert_eq!(dispatch('=', false), Start::Symbol);
    assert_eq!(dispatch('9', false), Start::Digits);
    assert_eq!(dispatch('\n', false), Start::Space);
    assert_eq!(dispatch('"', false), Start::Quote);
    assert_eq!(dispatch('\'', false), Start::Quote);
    assert_eq!(dispatch('@', false), Start::Invalid);
}

#[test]
fn symbols_map_to_kinds() {
    assert_eq!(symbol_kind('='), TokenKind::Assign);
    assert_eq!(symbol_kind('}'), TokenKind::CloseBrace);
    assert_eq!(symbol_kind(','), TokenKind::Comma);
}

#[test]
fn offsets_count_characters() {
    let items = pull_all("é x");
    assert_eq!(items[0], tok(TokenKind::Ident("é"), 0, 1));
    assert_eq!(items[2], tok(TokenKind::Ident("x"), 2, 3));
    assert_eq!(items[3], tok(TokenKind::Eof, 3, 3));
}

#[test]
fn keyword_prefix_takes_whole_word() {
    let items = pull_all("macros");
    assert_eq!(items[0], tok(TokenKind::Macro, 0, 6));
}

#[test]
fn tokenize_collects_stream() {
    let mut lexer = Lexer::new("x 1");
    let items = lexer.tokenize();
    assert_eq!(
        items,
        vec![
            tok(TokenKind::Ident("x"), 0, 1),
            tok(TokenKind::Whitespace, 1, 2),
            tok(TokenKind::Num(1), 2, 3),
            tok(TokenKind::Eof, 3, 3),
        ]
    );
    assert!(lexer.eof_returned);
    assert_eq!(lexer.tokenize(), vec![]);
}

#[test]
fn tokenize_reports_errors_in_place() {
    let mut lexer = Lexer::new("#x \"y");
    let items = lexer.tokenize();
    assert_eq!(items[0], Err(LexicalError::new(LexicalErrorKind::InvalidCharacter('#'), Span::new(0..1))));
    assert_eq!(items[1], tok(TokenKind::Ident("x"), 1, 2));
    assert_eq!(items[2], tok(TokenKind::Whitespace, 2, 3));
    assert_eq!(items[3], Err(LexicalError::new(LexicalErrorKind::UnexpectedEof, Span::new(3..5))));
    assert_eq!(items[4], tok(TokenKind::Eof, 5, 5));
    assert_eq!(items.len(), 5);
}

#[test]
fn seq_consume_stops_before_marker() {
    let mut lexer = Lexer::new("xab");
    lexer.consume();
    lexer.seq_consume("ab");
    assert_eq!(lexer.span, Span::new(0..1));
}

#[test]
fn seq_consume_ignores_marker_behind() {
    let mut lexer = Lexer::new("abx");
    lexer.nconsume(2);
    lexer.seq_consume("ab");
    assert_eq!(lexer.span, Span::new(0..3));
}

#[test]
fn block_comment_does_not_close_on_its_opening() {
    let items = pull_all("/*/ x */+");
    assert_eq!(items[0], tok(TokenKind::Comment("/*/ x */"), 0, 8));
    assert_eq!(items[1], tok(TokenKind::Add, 8, 9));
}

#[test]
fn try_next_refuses_oversized_number() {
    let mut lexer = Lexer::new("18446744073709551616 1");
    assert_eq!(lexer.try_next(), None);
    assert_eq!(lexer.span, Span::new(0..0));
    assert!(!lexer.eof);
    let mut fine = Lexer::new("12");
    assert_eq!(fine.try_next(), Some(Some(tok(TokenKind::Num(12), 0, 2))));
    assert_eq!(fine.try_next(), Some(Some(tok(TokenKind::Eof, 2, 2))));
    assert_eq!(fine.try_next(), Some(None));
}
