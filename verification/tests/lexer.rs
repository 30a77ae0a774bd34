use ruta::lexer::error::{LexErrorKind, Near};
use ruta::lexer::Lexer;
use ruta::line_index::LineIndex;
use ruta::token::{FloatValue, Span, TokenKind};

fn kinds(source: &[u8]) -> Vec<TokenKind<'_>> {
    let mut lexer = Lexer::new(source);
    let mut out = Vec::new();
    loop {
        let token = lexer.next_token().expect("a valid chunk");
        if token.kind == TokenKind::Eof {
            return out;
        }
        out.push(token.kind);
    }
}

#[test]
fn a_local_statement_lexes_to_its_tokens() {
    assert_eq!(
        kinds(b"local x = 1"),
        vec![
            TokenKind::Local,
            TokenKind::Name(b"x"),
            TokenKind::Byte(b'='),
            TokenKind::Int(1),
        ]
    );
}

#[test]
fn spans_cover_the_token_text() {
    let mut lexer = Lexer::new(b"  foo ..");
    let name = lexer.next_token().unwrap();
    assert_eq!(name.span, Span::new(2, 5));
    let concat = lexer.next_token().unwrap();
    assert_eq!(concat.kind, TokenKind::Concat);
    assert_eq!(concat.span, Span::new(6, 8));
}

#[test]
fn the_end_keeps_answering_eof() {
    let mut lexer = Lexer::new(b"x");
    assert_eq!(lexer.next_token().unwrap().kind, TokenKind::Name(b"x"));
    for _ in 0..3 {
        let token = lexer.next_token().unwrap();
        assert_eq!(token.kind, TokenKind::Eof);
        assert_eq!(token.span, Span::new(1, 1));
    }
}

#[test]
fn comments_and_line_breaks_are_skipped() {
    assert_eq!(
        kinds(b"-- a comment\r\n--[[ long\ncomment ]] return"),
        vec![TokenKind::Return]
    );
}

#[test]
fn keywords_are_not_names_but_global_is() {
    assert_eq!(
        kinds(b"while global"),
        vec![TokenKind::While, TokenKind::Name(b"global")]
    );
}

#[test]
fn escapes_are_decoded_in_short_strings() {
    assert_eq!(
        kinds(b"'a\\65\\x42\\u{48}\\n'"),
        vec![TokenKind::Str(b"aAB\x48\n".to_vec())]
    );
}

#[test]
fn a_long_string_drops_its_first_line_break() {
    assert_eq!(
        kinds(b"[==[\nhello]]\n]==]"),
        vec![TokenKind::Str(b"hello]]\n".to_vec())]
    );
}

#[test]
fn integers_that_overflow_become_floats_and_hex_integers_wrap() {
    assert_eq!(
        kinds(b"9223372036854775807 9223372036854775808 0xffffffffffffffff"),
        vec![
            TokenKind::Int(i64::MAX),
            TokenKind::Float(FloatValue::Decimal(b"9223372036854775808")),
            TokenKind::Int(-1),
        ]
    );
}

#[test]
fn a_hexadecimal_float_is_rounded_to_its_bits() {
    assert_eq!(
        kinds(b"0x1p4 0x.8"),
        vec![
            TokenKind::Float(FloatValue::Bits(16.0f64.to_bits())),
            TokenKind::Float(FloatValue::Bits(0.5f64.to_bits())),
        ]
    );
}

#[test]
fn a_decimal_float_keeps_its_text() {
    assert_eq!(
        kinds(b"3.25e2"),
        vec![TokenKind::Float(FloatValue::Decimal(b"3.25e2"))]
    );
}

#[test]
fn a_malformed_number_is_refused_with_what_was_read() {
    let mut lexer = Lexer::new(b"3x");
    let error = lexer.next_token().unwrap_err();
    assert_eq!(error.kind, LexErrorKind::MalformedNumber);
    assert_eq!(error.near, Near::Buffer(b"3x".to_vec()));
}

#[test]
fn an_unfinished_string_reports_at_the_end() {
    let source = b"x = \"abc";
    let mut lexer = Lexer::new(source);
    lexer.next_token().unwrap();
    lexer.next_token().unwrap();
    let error = lexer.next_token().unwrap_err();
    assert_eq!(error.kind, LexErrorKind::UnfinishedString);
    assert_eq!(error.near, Near::Eof);
    let lines = LineIndex::new(source);
    assert_eq!(error.message(&lines), b"unfinished string near <eof>".to_vec());
}

#[test]
fn an_unfinished_long_string_names_the_line_it_opened_on() {
    let source = b"\n\nx = [[abc\n";
    let mut lexer = Lexer::new(source);
    lexer.next_token().unwrap();
    lexer.next_token().unwrap();
    let error = lexer.next_token().unwrap_err();
    assert_eq!(error.kind, LexErrorKind::UnfinishedLongString { open_at: 6 });
    let lines = LineIndex::new(source);
    assert_eq!(error.line(&lines), 4);
    assert_eq!(
        error.message(&lines),
        b"unfinished long string (starting at line 3) near <eof>".to_vec()
    );
}

#[test]
fn an_invalid_escape_shows_the_decoded_prefix() {
    let source = b"\"\\65\\q\"";
    let mut lexer = Lexer::new(source);
    let error = lexer.next_token().unwrap_err();
    assert_eq!(error.kind, LexErrorKind::InvalidEscapeSequence);
    assert_eq!(error.near, Near::Buffer(b"\"A\\q".to_vec()));
    let lines = LineIndex::new(source);
    assert_eq!(
        error.message(&lines),
        b"invalid escape sequence near '\"A\\q'".to_vec()
    );
}

#[test]
fn a_decimal_escape_above_255_is_too_large() {
    let mut lexer = Lexer::new(b"'\\256'");
    let error = lexer.next_token().unwrap_err();
    assert_eq!(error.kind, LexErrorKind::DecimalEscapeTooLarge);
}

#[test]
fn a_utf8_escape_needs_its_braces() {
    let mut lexer = Lexer::new(b"'\\u48'");
    assert_eq!(
        lexer.next_token().unwrap_err().kind,
        LexErrorKind::MissingOpenBrace
    );
    let mut lexer = Lexer::new(b"'\\u{48'");
    assert_eq!(
        lexer.next_token().unwrap_err().kind,
        LexErrorKind::MissingCloseBrace
    );
    let mut lexer = Lexer::new(b"'\\u{80000000}'");
    assert_eq!(
        lexer.next_token().unwrap_err().kind,
        LexErrorKind::Utf8ValueTooLarge
    );
}

#[test]
fn a_hex_escape_needs_two_digits() {
    let mut lexer = Lexer::new(b"'\\x4g'");
    assert_eq!(
        lexer.next_token().unwrap_err().kind,
        LexErrorKind::HexadecimalDigitExpected
    );
}

#[test]
fn a_bracket_with_equals_but_no_second_bracket_is_invalid() {
    let mut lexer = Lexer::new(b"[==x");
    assert_eq!(
        lexer.next_token().unwrap_err().kind,
        LexErrorKind::InvalidLongStringDelimiter
    );
}

#[test]
fn an_unfinished_long_comment_is_refused() {
    let mut lexer = Lexer::new(b"--[[ never closed");
    assert_eq!(
        lexer.next_token().unwrap_err().kind,
        LexErrorKind::UnfinishedLongComment { open_at: 2 }
    );
}

#[test]
fn line_of_counts_every_kind_of_line_break() {
    let lines = LineIndex::new(b"a\nb\r\nc\n\rd\n\ne");
    assert_eq!(lines.line_of(0), 1);
    assert_eq!(lines.line_of(2), 2);
    assert_eq!(lines.line_of(5), 3);
    assert_eq!(lines.line_of(8), 4);
    assert_eq!(lines.line_of(11), 6);
}
