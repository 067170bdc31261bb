use lexer::{Delim, LexerError, LitKind, Spacing, Span, Str, Token, TokenStream};

fn tokens(src: &str) -> TokenStream {
    match TokenStream::parse(src) {
        Ok(ts) => ts,
        Err(e) => panic!("scan of {:?} failed: {:?}", src, e),
    }
}

fn error(src: &str) -> LexerError {
    match TokenStream::parse(src) {
        Ok(ts) => panic!("scan of {:?} gave {:?}", src, ts),
        Err(e) => e,
    }
}

fn span(start: usize, end: usize) -> Span {
    Span::new(start, end)
}

#[test]
fn mismatched_closer_is_reported() {
    assert_eq!(
        error("(]"),
        LexerError::UnmatchedDelimiter { start: span(0, 0), end: span(1, 1), expected: Delim::Parenthesis }
    );
}

#[test]
fn unclosed_delimiter_points_at_end_of_input() {
    assert_eq!(
        error("("),
        LexerError::UnmatchedDelimiter { start: span(0, 0), end: span(1, 1), expected: Delim::Parenthesis }
    );
    assert_eq!(
        error("a { [b] "),
        LexerError::UnmatchedDelimiter { start: span(2, 2), end: span(8, 8), expected: Delim::Brace }
    );
}

#[test]
fn closer_at_top_level_is_unmatched() {
    assert_eq!(
        error("a)"),
        LexerError::UnmatchedDelimiter { start: span(0, 0), end: span(1, 1), expected: Delim::Invis }
    );
}

#[test]
fn raw_string_keeps_its_delimiters() {
    let ts = tokens("r#\"a\"b\"#");
    assert_eq!(ts.tokens.len(), 1);
    let lit = ts.tokens[0].as_lit().unwrap();
    assert_eq!(lit.kind(), LitKind::Str);
    assert_eq!(lit.value().value(), "r#\"a\"b\"#");
    assert_eq!(lit.value().span, span(0, 7));
    assert_eq!(lit.span(), span(0, 7));
    let prefix = lit.prefix().unwrap();
    assert_eq!(prefix.value(), "r");
    assert_eq!(prefix.span, span(0, 0));
    assert!(lit.suffix().is_none());
}

#[test]
fn raw_string_with_suffix_and_more_hashes() {
    let ts = tokens("r##\"a\"#b\"##x y");
    assert_eq!(ts.tokens.len(), 2);
    let lit = ts.tokens[0].as_lit().unwrap();
    assert_eq!(lit.value().value(), "r##\"a\"#b\"##");
    assert_eq!(lit.suffix().unwrap().value(), "x");
    assert_eq!(lit.span(), span(0, 11));
    assert_eq!(ts.tokens[1].as_ident().unwrap().value().value(), "y");
}

#[test]
fn raw_identifier() {
    let ts = tokens("r#match");
    assert_eq!(ts.tokens.len(), 1);
    let lit = ts.tokens[0].as_lit().unwrap();
    assert_eq!(lit.kind(), LitKind::Str);
    assert_eq!(lit.value().value(), "r#match");
    assert!(lit.prefix().is_none());
    assert!(lit.suffix().is_none());
}

#[test]
fn unterminated_raw_string_is_eof() {
    assert_eq!(error("r#\"abc\""), LexerError::UnexpectedEof(span(7, 7)));
    assert_eq!(error("r##"), LexerError::UnexpectedEof(span(3, 3)));
}

#[test]
fn hash_after_prefix_needs_string_or_ident() {
    assert_eq!(error("x#;"), LexerError::UnknownToken(span(0, 2)));
}

#[test]
fn int_with_suffix() {
    let ts = tokens("1u32");
    assert_eq!(ts.tokens.len(), 1);
    let lit = ts.tokens[0].as_lit().unwrap();
    assert_eq!(lit.kind(), LitKind::Int);
    assert_eq!(lit.value().value(), "1");
    assert_eq!(lit.suffix().unwrap().value(), "u32");
    assert_eq!(lit.suffix().unwrap().span, span(1, 3));
    assert!(lit.prefix().is_none());
    assert_eq!(lit.span(), span(0, 3));
}

#[test]
fn prefixed_string() {
    let ts = tokens("b\"x\"");
    assert_eq!(ts.tokens.len(), 1);
    let lit = ts.tokens[0].as_lit().unwrap();
    assert_eq!(lit.kind(), LitKind::Str);
    assert_eq!(lit.prefix().unwrap().value(), "b");
    assert_eq!(lit.value().value(), "x");
    assert_eq!(lit.value().span, span(2, 2));
    assert_eq!(lit.span(), span(0, 3));
}

#[test]
fn char_literal_and_empty_string() {
    let ts = tokens("'a' \"\"s");
    assert_eq!(ts.tokens.len(), 2);
    let c = ts.tokens[0].as_lit().unwrap();
    assert_eq!(c.kind(), LitKind::Char);
    assert_eq!(c.value().value(), "a");
    let e = ts.tokens[1].as_lit().unwrap();
    assert_eq!(e.kind(), LitKind::Str);
    assert_eq!(e.value().value(), "");
    assert_eq!(e.suffix().unwrap().value(), "s");
    assert_eq!(e.span(), span(4, 6));
}

#[test]
fn escaped_quote_does_not_close() {
    let ts = tokens("\"a\\\"b\"");
    assert_eq!(ts.tokens.len(), 1);
    assert_eq!(ts.tokens[0].as_lit().unwrap().value().value(), "a\\\"b");
}

#[test]
fn unterminated_string_is_eof() {
    assert_eq!(error("\"abc"), LexerError::UnexpectedEof(span(4, 4)));
}

#[test]
fn escaped_quote_outside_a_literal_is_unknown() {
    assert_eq!(error("\\\""), LexerError::UnknownChar(span(1, 1)));
}

#[test]
fn arrow_is_two_puncts() {
    let ts = tokens("->");
    assert_eq!(ts.tokens.len(), 2);
    let first = ts.tokens[0].as_punct().unwrap();
    let second = ts.tokens[1].as_punct().unwrap();
    assert_eq!(first.spacing(), Spacing::Together);
    assert_eq!(first.value().value(), "-");
    assert_eq!(second.spacing(), Spacing::Alone);
    assert_eq!(second.value().value(), ">");
    assert_eq!(second.span(), span(1, 1));
}

#[test]
fn punct_before_space_is_alone() {
    let ts = tokens("= =");
    assert_eq!(ts.tokens[0].as_punct().unwrap().spacing(), Spacing::Alone);
    assert_eq!(ts.tokens[1].as_punct().unwrap().spacing(), Spacing::Alone);
}

#[test]
fn unknown_character() {
    assert_eq!(error("§"), LexerError::UnknownChar(span(0, 0)));
    assert_eq!(error("a §"), LexerError::UnknownChar(span(2, 2)));
}

#[test]
fn identifiers_and_ints() {
    let ts = tokens("foo_1 _x 12_3 z");
    assert_eq!(ts.tokens.len(), 4);
    assert_eq!(ts.tokens[0].as_ident().unwrap().value().value(), "foo_1");
    assert_eq!(ts.tokens[0].span(), span(0, 4));
    assert_eq!(ts.tokens[1].as_ident().unwrap().value().value(), "_x");
    let int = ts.tokens[2].as_lit().unwrap();
    assert_eq!(int.kind(), LitKind::Int);
    assert_eq!(int.value().value(), "12_3");
    assert!(int.suffix().is_none());
    assert_eq!(ts.tokens[3].as_ident().unwrap().span(), span(14, 14));
}

#[test]
fn blocks_nest_as_brackets() {
    let ts = tokens("(a [b] {c}) x");
    assert_eq!(ts.tokens.len(), 2);
    let outer = ts.tokens[0].as_block().unwrap();
    assert_eq!(outer.delim(), Delim::Parenthesis);
    assert_eq!(outer.span(), span(0, 10));
    let inner = &outer.tokens().tokens;
    assert_eq!(inner.len(), 3);
    assert!(inner[0].is_ident());
    let bracket = inner[1].as_block().unwrap();
    assert_eq!(bracket.delim(), Delim::Bracket);
    assert_eq!(bracket.span(), span(3, 5));
    assert_eq!(bracket.tokens().tokens.len(), 1);
    let brace = inner[2].as_block().unwrap();
    assert_eq!(brace.delim(), Delim::Brace);
    assert_eq!(brace.span(), span(7, 9));
    assert!(ts.tokens[1].is_ident());
}

#[test]
fn empty_input_gives_no_tokens() {
    assert_eq!(tokens("").tokens.len(), 0);
    assert_eq!(tokens(" \t\r\n").tokens.len(), 0);
}

#[test]
fn cursor_walks_the_stream() {
    let ts = tokens("a + 1");
    let mut cur = ts.cursor();
    assert!(!cur.is_empty());
    assert!(cur.current().unwrap().is_ident());
    assert!(cur.peek().unwrap().is_punct());
    assert!(cur.peek_n(2).unwrap().is_lit());
    assert!(cur.peek_n(3).is_none());
    assert!(cur.next().unwrap().is_ident());
    assert!(cur.current().unwrap().is_punct());
    assert!(cur.next().unwrap().is_punct());
    assert!(cur.next().unwrap().is_lit());
    assert!(cur.is_empty());
    assert!(cur.next().is_none());
    assert!(cur.current().is_none());
    assert!(cur.peek_n(usize::MAX).is_none());
}

#[test]
fn token_kind_tests() {
    let ts = tokens("x");
    let t: &Token = &ts.tokens[0];
    assert!(t.is_ident());
    assert!(!t.is_lit());
    assert!(!t.is_punct());
    assert!(!t.is_block());
    assert!(t.as_lit().is_none());
    assert!(t.as_punct().is_none());
    assert!(t.as_block().is_none());
}

#[test]
fn span_operations() {
    let a = span(2, 5);
    assert_eq!(a.start(), 2);
    assert_eq!(a.end(), 5);
    assert_eq!(a.len(), 3);
    assert_eq!(a.join(span(4, 9)), span(2, 9));
    assert_eq!(a.join(span(0, 3)), span(0, 5));
    assert_eq!(a.join_option(None), a);
    assert_eq!(a.join_option(Some(span(7, 8))), span(2, 8));
}

#[test]
fn str_slices_by_span() {
    let s = Str::new(span(1, 3), "abcde");
    assert_eq!(s.value(), "bcd");
    assert_eq!(s.span, span(1, 3));
}

#[test]
fn error_spans() {
    assert_eq!(LexerError::UnknownChar(span(3, 3)).span(), span(3, 3));
    let e = LexerError::UnmatchedDelimiter { start: span(1, 1), end: span(6, 6), expected: Delim::Brace };
    assert_eq!(e.span(), span(1, 6));
}

#[test]
fn delim_from_char() {
    assert_eq!(Delim::from('('), Delim::Parenthesis);
    assert_eq!(Delim::from(']'), Delim::Bracket);
    assert_eq!(Delim::from('{'), Delim::Brace);
    assert_eq!(Delim::from('x'), Delim::Invis);
}

#[test]
fn it_works() {
    let ts = tokens("Test => \"ab + c*\"");
    assert_eq!(ts.tokens.len(), 4);
    assert_eq!(ts.tokens[0].as_ident().unwrap().value().value(), "Test");
    assert_eq!(ts.tokens[1].as_punct().unwrap().spacing(), Spacing::Together);
    assert_eq!(ts.tokens[2].as_punct().unwrap().spacing(), Spacing::Alone);
    let pattern = ts.tokens[3].as_lit().unwrap();
    assert_eq!(pattern.kind(), LitKind::Str);
    assert_eq!(pattern.value().value(), "ab + c*");
    let input = tokens("ccc");
    assert_eq!(input.tokens.len(), 1);
    assert_eq!(input.tokens[0].as_ident().unwrap().value().value(), "ccc");
}

#[test]
fn delim_from_str() {
    assert_eq!(Delim::from(")"), Delim::Parenthesis);
    assert_eq!(Delim::from("["), Delim::Bracket);
    assert_eq!(Delim::from("}"), Delim::Brace);
    assert_eq!(Delim::from("()"), Delim::Invis);
    assert_eq!(Delim::from(""), Delim::Invis);
}

fn slice(src: &str, sp: Span) -> String {
    src.chars().skip(sp.start()).take(sp.end() + 1 - sp.start()).collect()
}

fn assert_texts(src: &str, ts: &TokenStream, seen: &mut usize) {
    for t in &ts.tokens {
        match t {
            Token::Lit(l) => {
                assert_eq!(l.value().value(), slice(src, l.value().span));
                if let Some(p) = l.prefix() {
                    assert_eq!(p.value(), slice(src, p.span));
                }
                if let Some(s) = l.suffix() {
                    assert_eq!(s.value(), slice(src, s.span));
                }
                assert_eq!(slice(src, l.span()).len(), l.span().len() + 1);
            }
            Token::Punct(p) => assert_eq!(p.value().value(), slice(src, p.span())),
            Token::Ident(i) => assert_eq!(i.value().value(), slice(src, i.span())),
            Token::Block(b) => assert_texts(src, b.tokens(), seen),
        }
        *seen += 1;
    }
}

#[test]
fn every_text_is_the_slice_under_its_span() {
    let src = "fn f(x: u8) -> [i32; 2] { r#\"q\"#s + b'c' * 0x_1f; a::b }";
    let ts = tokens(src);
    let mut seen = 0;
    assert_texts(src, &ts, &mut seen);
    assert!(seen > 20);
}

#[test]
fn offsets_are_bytes() {
    assert_eq!(error("\"é\"§"), LexerError::UnknownChar(span(4, 4)));
    let src = "\"é\" xé";
    assert_eq!(error(src), LexerError::UnknownChar(span(6, 6)));
    let ts = tokens("\"é\" x");
    let lit = ts.tokens[0].as_lit().unwrap();
    assert_eq!(lit.value().value(), "é");
    assert_eq!(lit.value().span, span(1, 1));
    assert_eq!(lit.span(), span(0, 3));
    assert_eq!(ts.tokens[1].span(), span(5, 5));
    assert_eq!(error("(\"ü\""), LexerError::UnmatchedDelimiter { start: span(0, 0), end: span(5, 5), expected: Delim::Parenthesis });
}

#[test]
fn str_slices_bytes() {
    let s = Str::new(span(1, 2), "aéb");
    assert_eq!(s.value(), "é");
    let t = Str::new(span(0, 3), "aéb");
    assert_eq!(t.value(), "aéb");
}

#[test]
fn balanced_plain_text_scans() {
    let ts = tokens("f(a, [b {c}] ) -> {[()]} 1u8");
    assert_eq!(ts.tokens.len(), 6);
    let inner = ts.tokens[4].as_block().unwrap();
    assert_eq!(inner.span(), span(18, 23));
    let bracket = inner.tokens().tokens[0].as_block().unwrap();
    assert_eq!(bracket.delim(), Delim::Bracket);
    assert_eq!(bracket.span(), span(19, 22));
}
