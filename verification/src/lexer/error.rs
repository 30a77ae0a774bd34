//! What the lexer refuses, and how it says so.
use vstd::prelude::*;
use vstd::string::{StrSliceExecFns, StringSliceAdditionalSpecFns};

use crate::line_index::{LineIndex, count_at_or_before};
use crate::text::{decimal_text, push_decimal};

verus! {

/// Why the lexer stopped.
#[derive(Debug, Clone, Copy, PartialEq, Eq)]
pub enum LexErrorKind {
    MalformedNumber,
    UnfinishedString,
    HexadecimalDigitExpected,
    MissingOpenBrace,
    Utf8ValueTooLarge,
    MissingCloseBrace,
    DecimalEscapeTooLarge,
    InvalidEscapeSequence,
    InvalidLongStringDelimiter,
    UnfinishedLongString { open_at: u32 },
    UnfinishedLongComment { open_at: u32 },
}

/// What the `near` clause of a message shows.
#[derive(Debug, Clone, PartialEq, Eq)]
pub enum Near {
    Eof,
    /// The partial token read so far. Short strings decode their escapes in place,
    /// so `"\65\q` reports `"A\q`.
    Buffer(Vec<u8>),
    Absent,
}

/// A `near` clause, with the buffer seen as a sequence of bytes.
pub enum NearView {
    Eof,
    Buffer(Seq<u8>),
    Absent,
}

impl View for Near {
    type V = NearView;

    open spec fn view(&self) -> NearView {
        match self {
            Near::Eof => NearView::Eof,
            Near::Buffer(bytes) => NearView::Buffer(bytes@),
            Near::Absent => NearView::Absent,
        }
    }
}

#[derive(Debug, Clone, PartialEq, Eq)]
pub struct LexError {
    pub kind: LexErrorKind,
    /// Byte offset the error is reported at.
    pub at: u32,
    pub near: Near,
}

/// What a refusal says, with the offset as a number rather than a `u32`.
pub struct LexFault {
    pub kind: LexErrorKind,
    pub at: int,
    pub near: NearView,
}

/// The `near` clause a message ends with.
pub open spec fn near_clause(near: NearView) -> Seq<u8> {
    match near {
        NearView::Absent => Seq::empty(),
        NearView::Eof => " near <eof>".spec_bytes(),
        NearView::Buffer(bytes) => " near '".spec_bytes() + bytes + seq![0x27u8],
    }
}

/// What a refusal says, before its `near` clause. `starts` are where the source's lines start.
pub open spec fn lex_text(kind: LexErrorKind, starts: Seq<int>) -> Seq<u8> {
    match kind {
        LexErrorKind::MalformedNumber => "malformed number".spec_bytes(),
        LexErrorKind::UnfinishedString => "unfinished string".spec_bytes(),
        LexErrorKind::HexadecimalDigitExpected => "hexadecimal digit expected".spec_bytes(),
        LexErrorKind::MissingOpenBrace => "missing '{'".spec_bytes(),
        LexErrorKind::Utf8ValueTooLarge => "UTF-8 value too large".spec_bytes(),
        LexErrorKind::MissingCloseBrace => "missing '}'".spec_bytes(),
        LexErrorKind::DecimalEscapeTooLarge => "decimal escape too large".spec_bytes(),
        LexErrorKind::InvalidEscapeSequence => "invalid escape sequence".spec_bytes(),
        LexErrorKind::InvalidLongStringDelimiter => "invalid long string delimiter".spec_bytes(),
        LexErrorKind::UnfinishedLongString { open_at } => "unfinished long string (starting at line ".spec_bytes()
            + decimal_text(count_at_or_before(starts, open_at as int)) + ")".spec_bytes(),
        LexErrorKind::UnfinishedLongComment { open_at } => "unfinished long comment (starting at line ".spec_bytes()
            + decimal_text(count_at_or_before(starts, open_at as int)) + ")".spec_bytes(),
    }
}

impl LexError {
    /// The line the error is reported on.
    pub fn line(&self, lines: &LineIndex) -> (line: u32)
        requires
            lines.wf(),
        ensures
            line == count_at_or_before(lines@, self.at as int),
    {
        lines.line_of(self.at)
    }

    /// The message, as the reference interpreter words it.
    pub fn message(&self, lines: &LineIndex) -> (out: Vec<u8>)
        requires
            lines.wf(),
        ensures
            out@ == lex_text(self.kind, lines@) + near_clause(self.near@),
    {
        let mut out = self.text(lines);
        let ghost text = out@;

        match &self.near {
            Near::Absent => {
                proof {
                    assert(text + Seq::<u8>::empty() =~= text);
                }
            },
            Near::Eof => {
                let tail = " near <eof>".as_bytes_vec();
                out.extend_from_slice(tail.as_slice());
            },
            Near::Buffer(bytes) => {
                let open = " near '".as_bytes_vec();
                out.extend_from_slice(open.as_slice());
                out.extend_from_slice(bytes.as_slice());
                out.push(0x27);
                proof {
                    assert(out@ =~= text + (" near '".spec_bytes() + bytes@ + seq![0x27u8]));
                }
            },
        }

        out
    }

    fn text(&self, lines: &LineIndex) -> (out: Vec<u8>)
        requires
            lines.wf(),
        ensures
            out@ == lex_text(self.kind, lines@),
    {
        match self.kind {
            LexErrorKind::MalformedNumber => "malformed number".as_bytes_vec(),
            LexErrorKind::UnfinishedString => "unfinished string".as_bytes_vec(),
            LexErrorKind::HexadecimalDigitExpected => "hexadecimal digit expected".as_bytes_vec(),
            LexErrorKind::MissingOpenBrace => "missing '{'".as_bytes_vec(),
            LexErrorKind::Utf8ValueTooLarge => "UTF-8 value too large".as_bytes_vec(),
            LexErrorKind::MissingCloseBrace => "missing '}'".as_bytes_vec(),
            LexErrorKind::DecimalEscapeTooLarge => "decimal escape too large".as_bytes_vec(),
            LexErrorKind::InvalidEscapeSequence => "invalid escape sequence".as_bytes_vec(),
            LexErrorKind::InvalidLongStringDelimiter => "invalid long string delimiter".as_bytes_vec(),
            LexErrorKind::UnfinishedLongString { open_at } => {
                let mut out = "unfinished long string (starting at line ".as_bytes_vec();
                push_decimal(&mut out, lines.line_of(open_at) as u64);
                let close = ")".as_bytes_vec();
                out.extend_from_slice(close.as_slice());
                out
            },
            LexErrorKind::UnfinishedLongComment { open_at } => {
                let mut out = "unfinished long comment (starting at line ".as_bytes_vec();
                push_decimal(&mut out, lines.line_of(open_at) as u64);
                let close = ")".as_bytes_vec();
                out.extend_from_slice(close.as_slice());
                out
            },
        }
    }
}

impl LexError {
    /// Whether this error is the refusal `fault` describes.
    pub open spec fn is(&self, fault: LexFault) -> bool {
        &&& self.kind == fault.kind
        &&& self.at as int == fault.at
        &&& self.near@ == fault.near
    }
}

} // verus!
