use ruta::ast::{BinOp, UnOp};
use ruta::error::{Error, ErrorKind, Near};
use ruta::lexer::error::{LexError, LexErrorKind};
use ruta::line_index::LineIndex;
use ruta::near::{near, newline_len, string_near};
use ruta::operator::{binary_op, binary_priority, unary_op, UNARY_PRIORITY};
use ruta::token::{FloatValue, TokenKind};

fn message(kind: ErrorKind, at: u32, near: Near, source: &[u8]) -> String {
    let lines = LineIndex::new(source);
    let error = Error { kind, at, near };
    String::from_utf8(error.message(&lines)).unwrap()
}

#[test]
fn a_plain_error_has_its_fixed_text() {
    assert_eq!(
        message(ErrorKind::BreakOutsideLoop, 0, Near::Absent, b"break"),
        "break outside loop"
    );
    assert_eq!(
        message(ErrorKind::UnexpectedSymbol, 0, Near::Buffer(b")".to_vec()), b")"),
        "unexpected symbol near ')'"
    );
    assert_eq!(
        message(ErrorKind::SyntaxError, 0, Near::Eof, b""),
        "syntax error near <eof>"
    );
}

#[test]
fn an_expected_token_names_it() {
    assert_eq!(
        message(ErrorKind::Expected(b"'='".to_vec()), 0, Near::Eof, b"x"),
        "'=' expected near <eof>"
    );
}

#[test]
fn a_missing_closer_names_the_opener_only_on_another_line() {
    let source = b"f(\n\n";
    let same = ErrorKind::ExpectedToClose {
        expected: b"')'".to_vec(),
        open: b"'('".to_vec(),
        open_at: 1,
    };
    assert_eq!(message(same.clone(), 2, Near::Eof, source), "')' expected near <eof>");
    assert_eq!(
        message(same, 4, Near::Eof, source),
        "')' expected (to close '(' at line 1) near <eof>"
    );
}

#[test]
fn errors_about_names_quote_them() {
    let source = b"local x <const> = 1\nx = 2\ngoto done";
    assert_eq!(
        message(ErrorKind::ConstAssignment(b"x".to_vec()), 20, Near::Absent, source),
        "attempt to assign to const variable 'x'"
    );
    assert_eq!(
        message(ErrorKind::VariableNotDeclared(b"y".to_vec()), 0, Near::Absent, source),
        "variable 'y' not declared"
    );
    assert_eq!(
        message(ErrorKind::EnvIsGlobal(b"z".to_vec()), 0, Near::Absent, source),
        "_ENV is global when accessing variable 'z'"
    );
    assert_eq!(
        message(ErrorKind::UnknownAttribute(b"frozen".to_vec()), 0, Near::Absent, source),
        "unknown attribute 'frozen'"
    );
}

#[test]
fn errors_about_labels_name_their_lines() {
    let source = b"::a::\n::a::\ngoto b";
    assert_eq!(
        message(
            ErrorKind::LabelAlreadyDefined { name: b"a".to_vec(), first_at: 0 },
            6,
            Near::Absent,
            source
        ),
        "label 'a' already defined on line 1"
    );
    assert_eq!(
        message(
            ErrorKind::NoVisibleLabel { name: b"b".to_vec(), goto_at: 12 },
            18,
            Near::Absent,
            source
        ),
        "no visible label 'b' for <goto> at line 3"
    );
    assert_eq!(
        message(
            ErrorKind::JumpIntoScope { label: b"a".to_vec(), goto_at: 12, variable: b"v".to_vec() },
            18,
            Near::Absent,
            source
        ),
        "<goto a> at line 3 jumps into the scope of 'v'"
    );
}

#[test]
fn a_name_that_is_not_utf8_is_shown_with_replacement() {
    assert_eq!(
        message(ErrorKind::VariableNotDeclared(vec![0xff]), 0, Near::Absent, b""),
        "variable '\u{fffd}' not declared"
    );
}

#[test]
fn every_other_fixed_text() {
    let cases = [
        (ErrorKind::MultipleToBeClosed, "multiple to-be-closed variables in local list"),
        (ErrorKind::EqualsOrInExpected, "'=' or 'in' expected"),
        (ErrorKind::NameOrDotsExpected, "<name> or '...' expected"),
        (ErrorKind::FunctionArgumentsExpected, "function arguments expected"),
        (ErrorKind::VarargsOutsideVarargFunction, "cannot use '...' outside a vararg function"),
        (ErrorKind::GlobalToBeClosed, "global variables cannot be to-be-closed"),
        (ErrorKind::MissingOpenBrace, "missing '{'"),
        (ErrorKind::MissingCloseBrace, "missing '}'"),
    ];
    for (kind, text) in cases {
        assert_eq!(message(kind, 0, Near::Absent, b""), text);
    }
}

#[test]
fn a_lexical_error_reads_the_same_as_a_syntax_error() {
    let source = b"\n[[x";
    let lines = LineIndex::new(source);
    let lexical = LexError {
        kind: LexErrorKind::UnfinishedLongString { open_at: 1 },
        at: 4,
        near: Near::Eof,
    };
    let syntax = Error::from_lex(lexical.clone());
    assert_eq!(syntax.kind, ErrorKind::UnfinishedLongString { open_at: 1 });
    assert_eq!(syntax.message(&lines), lexical.message(&lines));
    assert_eq!(
        syntax.message(&lines),
        b"unfinished long string (starting at line 2) near <eof>".to_vec()
    );
    assert_eq!(syntax.line(&lines), 2);
}

#[test]
fn tokens_are_described_the_way_messages_name_them() {
    assert_eq!(TokenKind::Name(b"x").describe(), b"<name>".to_vec());
    assert_eq!(TokenKind::Int(3).describe(), b"<integer>".to_vec());
    assert_eq!(TokenKind::Float(FloatValue::Bits(0)).describe(), b"<number>".to_vec());
    assert_eq!(TokenKind::Str(vec![]).describe(), b"<string>".to_vec());
    assert_eq!(TokenKind::Eof.describe(), b"<eof>".to_vec());
    assert_eq!(TokenKind::End.describe(), b"'end'".to_vec());
    assert_eq!(TokenKind::Concat.describe(), b"'..'".to_vec());
    assert_eq!(TokenKind::Byte(b'=').describe(), b"'='".to_vec());
    assert_eq!(TokenKind::Byte(7).describe(), b"'<\\7>'".to_vec());
}

#[test]
fn a_symbol_is_what_a_near_clause_quotes() {
    assert_eq!(TokenKind::Byte(b'+').symbol(), b"+".to_vec());
    assert_eq!(TokenKind::Byte(200).symbol(), b"<\\200>".to_vec());
    assert_eq!(TokenKind::DbColon.symbol(), b"::".to_vec());
    assert_eq!(TokenKind::Ne.symbol(), b"~=".to_vec());
}

#[test]
fn operators_are_read_from_their_tokens() {
    assert_eq!(unary_op(&TokenKind::Byte(b'-')), Some(UnOp::Neg));
    assert_eq!(unary_op(&TokenKind::Not), Some(UnOp::Not));
    assert_eq!(unary_op(&TokenKind::Byte(b'#')), Some(UnOp::Len));
    assert_eq!(unary_op(&TokenKind::Byte(b'~')), Some(UnOp::BNot));
    assert_eq!(unary_op(&TokenKind::Byte(b'+')), None);
    assert_eq!(binary_op(&TokenKind::Byte(b'-')), Some(BinOp::Sub));
    assert_eq!(binary_op(&TokenKind::Byte(b'~')), Some(BinOp::BXor));
    assert_eq!(binary_op(&TokenKind::IDiv), Some(BinOp::IDiv));
    assert_eq!(binary_op(&TokenKind::Shr), Some(BinOp::Shr));
    assert_eq!(binary_op(&TokenKind::Not), None);
}

#[test]
fn concatenation_and_power_bind_to_the_right() {
    assert_eq!(binary_priority(BinOp::Concat), (9, 8));
    assert_eq!(binary_priority(BinOp::Pow), (14, 13));
    assert_eq!(binary_priority(BinOp::Add), (10, 10));
    assert_eq!(binary_priority(BinOp::Or), (1, 1));
    assert!(UNARY_PRIORITY < binary_priority(BinOp::Pow).0);
    assert!(UNARY_PRIORITY > binary_priority(BinOp::Mul).0);
}

#[test]
fn a_near_clause_names_the_token() {
    assert_eq!(near(&TokenKind::Eof, b""), Near::Eof);
    assert_eq!(near(&TokenKind::Byte(0), b"\0"), Near::Absent);
    assert_eq!(near(&TokenKind::Int(10), b"0xA"), Near::Buffer(b"0xA".to_vec()));
    assert_eq!(near(&TokenKind::Le, b"<="), Near::Buffer(b"<=".to_vec()));
    assert_eq!(
        near(&TokenKind::Str(b"A".to_vec()), b"'\\65'"),
        Near::Buffer(b"'A'".to_vec())
    );
}

#[test]
fn a_long_string_is_shown_without_its_first_line_break() {
    assert_eq!(string_near(b"[==[\r\nab]==]", b"ab"), b"[==[ab]==]".to_vec());
    assert_eq!(string_near(b"[[x]]", b"x"), b"[[x]]".to_vec());
    assert_eq!(newline_len(b"\n\rx"), 2);
    assert_eq!(newline_len(b"\n\nx"), 1);
    assert_eq!(newline_len(b"x"), 0);
}
