//! What the compiler refuses, and how it says so.
use vstd::prelude::*;
use vstd::string::{StrSliceExecFns, StringSliceAdditionalSpecFns};

pub use crate::lexer::error::Near;
use crate::lexer::error::{lex_text, near_clause, LexError, LexErrorKind};
use crate::line_index::{count_at_or_before, LineIndex};
use crate::text::{decimal_text, lossy, push_decimal, utf8_lossy};

verus! {

/// What the compiler refuses a chunk for: the lexical and syntactic rules, and the semantic
/// ones the parser decides. The reference reports all of them with one status, so they share
/// one type here.
///
/// It deliberately has no `Display`. Rendering a message needs the source's line index -
/// `unfinished long string (starting at line 3)` carries a line number inside its own text.
#[derive(Debug, Clone, PartialEq, Eq)]
pub struct Error {
    pub kind: ErrorKind,
    /// Byte offset the error is reported at.
    pub at: u32,
    pub near: Near,
}

#[derive(Debug, Clone, PartialEq, Eq)]
pub enum ErrorKind {
    MalformedNumber,
    UnfinishedString,
    HexadecimalDigitExpected,
    MissingOpenBrace,
    Utf8ValueTooLarge,
    MissingCloseBrace,
    DecimalEscapeTooLarge,
    InvalidEscapeSequence,
    InvalidLongStringDelimiter,
    UnfinishedLongString { open_at: u32 },
    UnfinishedLongComment { open_at: u32 },
    UnknownAttribute(Vec<u8>),
    MultipleToBeClosed,
    /// `%s expected`, holding a token named the way an error message names it.
    Expected(Vec<u8>),
    ExpectedToClose { expected: Vec<u8>, open: Vec<u8>, open_at: u32 },
    EqualsOrInExpected,
    NameOrDotsExpected,
    FunctionArgumentsExpected,
    UnexpectedSymbol,
    VarargsOutsideVarargFunction,
    SyntaxError,
    BreakOutsideLoop,
    GlobalToBeClosed,
    /// The chunk nests deeper than the parser recurses.
    StackOverflow,
    ConstAssignment(Vec<u8>),
    VariableNotDeclared(Vec<u8>),
    EnvIsGlobal(Vec<u8>),
    LabelAlreadyDefined {
        name: Vec<u8>,
        /// The label that claimed the name, which the message names by line.
        first_at: u32,
    },
    NoVisibleLabel { name: Vec<u8>, goto_at: u32 },
    JumpIntoScope {
        label: Vec<u8>,
        goto_at: u32,
        /// The declaration the jump would skip.
        variable: Vec<u8>,
    },
}

/// The line of the source that `offset` falls on, given where the lines start.
pub open spec fn line_at(starts: Seq<int>, offset: u32) -> nat {
    count_at_or_before(starts, offset as int)
}

/// `prefix`, the name as the message shows it, then `suffix`.
pub open spec fn named(prefix: Seq<u8>, name: Seq<u8>, suffix: Seq<u8>) -> Seq<u8> {
    prefix + utf8_lossy(name) + suffix
}

/// What a refusal reported at `at` says, before its `near` clause. `starts` are where the
/// source's lines start.
pub open spec fn error_text(kind: ErrorKind, at: u32, starts: Seq<int>) -> Seq<u8> {
    match kind {
        ErrorKind::MalformedNumber => "malformed number".spec_bytes(),
        ErrorKind::UnfinishedString => "unfinished string".spec_bytes(),
        ErrorKind::HexadecimalDigitExpected => "hexadecimal digit expected".spec_bytes(),
        ErrorKind::MissingOpenBrace => "missing '{'".spec_bytes(),
        ErrorKind::Utf8ValueTooLarge => "UTF-8 value too large".spec_bytes(),
        ErrorKind::MissingCloseBrace => "missing '}'".spec_bytes(),
        ErrorKind::DecimalEscapeTooLarge => "decimal escape too large".spec_bytes(),
        ErrorKind::InvalidEscapeSequence => "invalid escape sequence".spec_bytes(),
        ErrorKind::InvalidLongStringDelimiter => "invalid long string delimiter".spec_bytes(),
        ErrorKind::MultipleToBeClosed => "multiple to-be-closed variables in local list".spec_bytes(),
        ErrorKind::EqualsOrInExpected => "'=' or 'in' expected".spec_bytes(),
        ErrorKind::NameOrDotsExpected => "<name> or '...' expected".spec_bytes(),
        ErrorKind::FunctionArgumentsExpected => "function arguments expected".spec_bytes(),
        ErrorKind::UnexpectedSymbol => "unexpected symbol".spec_bytes(),
        ErrorKind::VarargsOutsideVarargFunction => "cannot use '...' outside a vararg function".spec_bytes(),
        ErrorKind::SyntaxError => "syntax error".spec_bytes(),
        ErrorKind::BreakOutsideLoop => "break outside loop".spec_bytes(),
        ErrorKind::GlobalToBeClosed => "global variables cannot be to-be-closed".spec_bytes(),
        ErrorKind::StackOverflow => "C stack overflow".spec_bytes(),
        ErrorKind::UnfinishedLongString { open_at } => "unfinished long string (starting at line ".spec_bytes()
            + decimal_text(line_at(starts, open_at)) + ")".spec_bytes(),
        ErrorKind::UnfinishedLongComment { open_at } => "unfinished long comment (starting at line ".spec_bytes()
            + decimal_text(line_at(starts, open_at)) + ")".spec_bytes(),
        ErrorKind::UnknownAttribute(name) => named("unknown attribute '".spec_bytes(), name@, "'".spec_bytes()),
        ErrorKind::Expected(text) => text@ + " expected".spec_bytes(),
        ErrorKind::ExpectedToClose { expected, open, open_at } => if line_at(starts, open_at)
            == line_at(starts, at) {
            expected@ + " expected".spec_bytes()
        } else {
            expected@ + " expected (to close ".spec_bytes() + open@ + " at line ".spec_bytes()
                + decimal_text(line_at(starts, open_at)) + ")".spec_bytes()
        },
        ErrorKind::ConstAssignment(name) => named(
            "attempt to assign to const variable '".spec_bytes(),
            name@,
            "'".spec_bytes(),
        ),
        ErrorKind::VariableNotDeclared(name) => named("variable '".spec_bytes(), name@, "' not declared".spec_bytes()),
        ErrorKind::EnvIsGlobal(name) => named(
            "_ENV is global when accessing variable '".spec_bytes(),
            name@,
            "'".spec_bytes(),
        ),
        ErrorKind::LabelAlreadyDefined { name, first_at } => named(
            "label '".spec_bytes(),
            name@,
            "' already defined on line ".spec_bytes(),
        ) + decimal_text(line_at(starts, first_at)),
        ErrorKind::NoVisibleLabel { name, goto_at } => named(
            "no visible label '".spec_bytes(),
            name@,
            "' for <goto> at line ".spec_bytes(),
        ) + decimal_text(line_at(starts, goto_at)),
        ErrorKind::JumpIntoScope { label, goto_at, variable } => named(
            "<goto ".spec_bytes(),
            label@,
            "> at line ".spec_bytes(),
        ) + decimal_text(line_at(starts, goto_at)) + named(
            " jumps into the scope of '".spec_bytes(),
            variable@,
            "'".spec_bytes(),
        ),
    }
}

/// Appends `prefix`, the name as the message shows it, then `suffix`.
fn push_named(out: &mut Vec<u8>, prefix: &str, name: &[u8], suffix: &str)
    ensures
        final(out)@ == old(out)@ + named(prefix.spec_bytes(), name@, suffix.spec_bytes()),
{
    let head = prefix.as_bytes_vec();
    out.extend_from_slice(head.as_slice());
    let shown = lossy(name);
    out.extend_from_slice(shown.as_slice());
    let tail = suffix.as_bytes_vec();
    out.extend_from_slice(tail.as_slice());
}

impl Error {
    /// The line the error is reported on.
    pub fn line(&self, lines: &LineIndex) -> (line: u32)
        requires
            lines.wf(),
        ensures
            line == line_at(lines@, self.at),
    {
        lines.line_of(self.at)
    }

    /// The message, as the reference interpreter words it.
    pub fn message(&self, lines: &LineIndex) -> (out: Vec<u8>)
        requires
            lines.wf(),
        ensures
            out@ == error_text(self.kind, self.at, lines@) + near_clause(self.near@),
    {
        let mut out = self.text(lines);
        let ghost text = out@;

        match &self.near {
            Near::Absent => {
                proof {
                    assert(text + Seq::<u8>::empty() =~= text);
                }
            },
            Near::Eof => {
                let tail = " near <eof>".as_bytes_vec();
                out.extend_from_slice(tail.as_slice());
            },
            Near::Buffer(bytes) => {
                let open = " near '".as_bytes_vec();
                out.extend_from_slice(open.as_slice());
                out.extend_from_slice(bytes.as_slice());
                out.push(0x27);
                proof {
                    assert(out@ =~= text + (" near '".spec_bytes() + bytes@ + seq![0x27u8]));
                }
            },
        }

        out
    }

    fn text(&self, lines: &LineIndex) -> (out: Vec<u8>)
        requires
            lines.wf(),
        ensures
            out@ == error_text(self.kind, self.at, lines@),
    {
        match &self.kind {
            ErrorKind::MalformedNumber => "malformed number".as_bytes_vec(),
            ErrorKind::UnfinishedString => "unfinished string".as_bytes_vec(),
            ErrorKind::HexadecimalDigitExpected => "hexadecimal digit expected".as_bytes_vec(),
            ErrorKind::MissingOpenBrace => "missing '{'".as_bytes_vec(),
            ErrorKind::Utf8ValueTooLarge => "UTF-8 value too large".as_bytes_vec(),
            ErrorKind::MissingCloseBrace => "missing '}'".as_bytes_vec(),
            ErrorKind::DecimalEscapeTooLarge => "decimal escape too large".as_bytes_vec(),
            ErrorKind::InvalidEscapeSequence => "invalid escape sequence".as_bytes_vec(),
            ErrorKind::InvalidLongStringDelimiter => "invalid long string delimiter".as_bytes_vec(),
            ErrorKind::MultipleToBeClosed => "multiple to-be-closed variables in local list".as_bytes_vec(),
            ErrorKind::EqualsOrInExpected => "'=' or 'in' expected".as_bytes_vec(),
            ErrorKind::NameOrDotsExpected => "<name> or '...' expected".as_bytes_vec(),
            ErrorKind::FunctionArgumentsExpected => "function arguments expected".as_bytes_vec(),
            ErrorKind::UnexpectedSymbol => "unexpected symbol".as_bytes_vec(),
            ErrorKind::VarargsOutsideVarargFunction => "cannot use '...' outside a vararg function".as_bytes_vec(),
            ErrorKind::SyntaxError => "syntax error".as_bytes_vec(),
            ErrorKind::BreakOutsideLoop => "break outside loop".as_bytes_vec(),
            ErrorKind::GlobalToBeClosed => "global variables cannot be to-be-closed".as_bytes_vec(),
            ErrorKind::StackOverflow => "C stack overflow".as_bytes_vec(),
            ErrorKind::UnfinishedLongString { open_at } => {
                let mut out = "unfinished long string (starting at line ".as_bytes_vec();
                push_decimal(&mut out, lines.line_of(*open_at) as u64);
                let close = ")".as_bytes_vec();
                out.extend_from_slice(close.as_slice());
                out
            },
            ErrorKind::UnfinishedLongComment { open_at } => {
                let mut out = "unfinished long comment (starting at line ".as_bytes_vec();
                push_decimal(&mut out, lines.line_of(*open_at) as u64);
                let close = ")".as_bytes_vec();
                out.extend_from_slice(close.as_slice());
                out
            },
            ErrorKind::UnknownAttribute(name) => {
                let mut out = Vec::new();
                push_named(&mut out, "unknown attribute '", name.as_slice(), "'");
                out
            },
            ErrorKind::Expected(text) => {
                let mut out = text.clone();
                let tail = " expected".as_bytes_vec();
                out.extend_from_slice(tail.as_slice());
                out
            },
            ErrorKind::ExpectedToClose { expected, open, open_at } => {
                let open_line = lines.line_of(*open_at);
                let mut out = expected.clone();
                if open_line == lines.line_of(self.at) {
                    let tail = " expected".as_bytes_vec();
                    out.extend_from_slice(tail.as_slice());
                } else {
                    let middle = " expected (to close ".as_bytes_vec();
                    out.extend_from_slice(middle.as_slice());
                    out.extend_from_slice(open.as_slice());
                    let at_line = " at line ".as_bytes_vec();
                    out.extend_from_slice(at_line.as_slice());
                    push_decimal(&mut out, open_line as u64);
                    let close = ")".as_bytes_vec();
                    out.extend_from_slice(close.as_slice());
                }
                out
            },
            ErrorKind::ConstAssignment(name) => {
                let mut out = Vec::new();
                push_named(&mut out, "attempt to assign to const variable '", name.as_slice(), "'");
                out
            },
            ErrorKind::VariableNotDeclared(name) => {
                let mut out = Vec::new();
                push_named(&mut out, "variable '", name.as_slice(), "' not declared");
                out
            },
            ErrorKind::EnvIsGlobal(name) => {
                let mut out = Vec::new();
                push_named(&mut out, "_ENV is global when accessing variable '", name.as_slice(), "'");
                out
            },
            ErrorKind::LabelAlreadyDefined { name, first_at } => {
                let mut out = Vec::new();
                push_named(&mut out, "label '", name.as_slice(), "' already defined on line ");
                push_decimal(&mut out, lines.line_of(*first_at) as u64);
                out
            },
            ErrorKind::NoVisibleLabel { name, goto_at } => {
                let mut out = Vec::new();
                push_named(&mut out, "no visible label '", name.as_slice(), "' for <goto> at line ");
                push_decimal(&mut out, lines.line_of(*goto_at) as u64);
                out
            },
            ErrorKind::JumpIntoScope { label, goto_at, variable } => {
                let mut out = Vec::new();
                push_named(&mut out, "<goto ", label.as_slice(), "> at line ");
                push_decimal(&mut out, lines.line_of(*goto_at) as u64);
                push_named(&mut out, " jumps into the scope of '", variable.as_slice(), "'");
                out
            },
        }
    }
}


/// The syntax error a lexical one is reported as.
pub open spec fn from_lex_kind(kind: LexErrorKind) -> ErrorKind {
    match kind {
        LexErrorKind::MalformedNumber => ErrorKind::MalformedNumber,
        LexErrorKind::UnfinishedString => ErrorKind::UnfinishedString,
        LexErrorKind::HexadecimalDigitExpected => ErrorKind::HexadecimalDigitExpected,
        LexErrorKind::MissingOpenBrace => ErrorKind::MissingOpenBrace,
        LexErrorKind::Utf8ValueTooLarge => ErrorKind::Utf8ValueTooLarge,
        LexErrorKind::MissingCloseBrace => ErrorKind::MissingCloseBrace,
        LexErrorKind::DecimalEscapeTooLarge => ErrorKind::DecimalEscapeTooLarge,
        LexErrorKind::InvalidEscapeSequence => ErrorKind::InvalidEscapeSequence,
        LexErrorKind::InvalidLongStringDelimiter => ErrorKind::InvalidLongStringDelimiter,
        LexErrorKind::UnfinishedLongString { open_at } => ErrorKind::UnfinishedLongString { open_at },
        LexErrorKind::UnfinishedLongComment { open_at } => ErrorKind::UnfinishedLongComment { open_at },
    }
}

impl Error {
    /// A lexical error, reported the way the parser reports everything it refuses.
    pub fn from_lex(error: LexError) -> (out: Error)
        ensures
            out.kind == from_lex_kind(error.kind),
            out.at == error.at,
            out.near == error.near,
    {
        let kind = match error.kind {
            LexErrorKind::MalformedNumber => ErrorKind::MalformedNumber,
            LexErrorKind::UnfinishedString => ErrorKind::UnfinishedString,
            LexErrorKind::HexadecimalDigitExpected => ErrorKind::HexadecimalDigitExpected,
            LexErrorKind::MissingOpenBrace => ErrorKind::MissingOpenBrace,
            LexErrorKind::Utf8ValueTooLarge => ErrorKind::Utf8ValueTooLarge,
            LexErrorKind::MissingCloseBrace => ErrorKind::MissingCloseBrace,
            LexErrorKind::DecimalEscapeTooLarge => ErrorKind::DecimalEscapeTooLarge,
            LexErrorKind::InvalidEscapeSequence => ErrorKind::InvalidEscapeSequence,
            LexErrorKind::InvalidLongStringDelimiter => ErrorKind::InvalidLongStringDelimiter,
            LexErrorKind::UnfinishedLongString { open_at } => ErrorKind::UnfinishedLongString { open_at },
            LexErrorKind::UnfinishedLongComment { open_at } => ErrorKind::UnfinishedLongComment { open_at },
        };
        Error { kind, at: error.at, near: error.near }
    }
}

/// A lexical error reads the same once it is reported as a syntax error: the text the lexer
/// gives it is the text the parser gives it, wherever it was reported.
pub proof fn lemma_lexical_text_is_kept(kind: LexErrorKind, at: u32, starts: Seq<int>)
    ensures
        error_text(from_lex_kind(kind), at, starts) == lex_text(kind, starts),
{
}
} // verus!
