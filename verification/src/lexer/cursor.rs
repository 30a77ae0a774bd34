//! The cursor: the bytes the lexer is walking, and the primitives the scanners share.
use vstd::prelude::*;

use crate::token::{Span, Token, TokenKind};

use super::bytes::is_line_break;
use super::error::{LexError, LexErrorKind, Near, NearView};
use super::grammar::break_end;

verus! {

/// The longest source the lexer takes: offsets travel as `u32`, and the scale of a
/// hexadecimal numeral, which can move by four per digit, as an `i32`.
pub const MAX_SOURCE: usize = 0x1000_0000;

#[derive(Debug)]
pub struct Lexer<'a> {
    pub(crate) source: &'a [u8],
    pub(crate) pos: usize,
    /// The token being read: a string's value, and what an error's `near` shows.
    pub(crate) buf: Vec<u8>,
}

impl<'a> Lexer<'a> {
    /// The source being read.
    pub open(crate) spec fn text(&self) -> Seq<u8> {
        self.source@
    }

    /// The offset the next token is looked for at.
    pub open(crate) spec fn at(&self) -> int {
        self.pos as int
    }

    pub(crate) open spec fn buffer(&self) -> Seq<u8> {
        self.buf@
    }

    pub open(crate) spec fn wf(&self) -> bool {
        &&& self.source@.len() < MAX_SOURCE
        &&& self.pos <= self.source@.len()
    }

    pub fn new(source: &'a [u8]) -> (lexer: Self)
        requires
            source@.len() < MAX_SOURCE,
        ensures
            lexer.wf(),
            lexer.text() == source@,
            lexer.at() == 0,
    {
        Lexer { source, pos: 0, buf: Vec::new() }
    }

    pub(crate) fn peek(&self) -> (r: Option<u8>)
        requires
            self.wf(),
        ensures
            self.at() < self.text().len() ==> r == Some(self.text()[self.at()]),
            self.at() >= self.text().len() ==> r is None,
    {
        if self.pos < self.source.len() {
            Some(self.source[self.pos])
        } else {
            None
        }
    }

    /// The byte at `at`, if there is one.
    pub(crate) fn byte_at(&self, at: usize) -> (r: Option<u8>)
        ensures
            at < self.text().len() ==> r == Some(self.text()[at as int]),
            at >= self.text().len() ==> r is None,
    {
        if at < self.source.len() {
            Some(self.source[at])
        } else {
            None
        }
    }

    pub(crate) fn eat(&mut self, byte: u8) -> (eaten: bool)
        requires
            old(self).wf(),
        ensures
            final(self).wf(),
            final(self).text() == old(self).text(),
            final(self).buffer() == old(self).buffer(),
            eaten == (old(self).at() < old(self).text().len() && old(self).text()[old(self).at()]
                == byte),
            final(self).at() == old(self).at() + if eaten {
                1int
            } else {
                0int
            },
    {
        if self.peek() == Some(byte) {
            self.pos += 1;
            true
        } else {
            false
        }
    }

    /// `\r\n` and `\n\r` are one break, `\n\n` is two.
    pub(crate) fn newline(&mut self)
        requires
            old(self).wf(),
            old(self).at() < old(self).text().len(),
            is_line_break(old(self).text()[old(self).at()]),
        ensures
            final(self).wf(),
            final(self).text() == old(self).text(),
            final(self).buffer() == old(self).buffer(),
            final(self).at() == break_end(old(self).text(), old(self).at()),
    {
        let first = self.source[self.pos];
        self.pos += 1;

        match self.peek() {
            Some(byte) => if (byte == 0x0a || byte == 0x0d) && byte != first {
                self.pos += 1;
            },
            None => {},
        }
    }

    pub(crate) fn advance(&mut self)
        requires
            old(self).wf(),
            old(self).at() < old(self).text().len(),
        ensures
            final(self).wf(),
            final(self).text() == old(self).text(),
            final(self).buffer() == old(self).buffer(),
            final(self).at() == old(self).at() + 1,
    {
        self.pos += 1;
    }

    pub(crate) fn token(&self, kind: TokenKind<'a>, start: usize) -> (token: Token<'a>)
        ensures
            token.kind == kind,
            token.span == (Span { start: start as u32, end: self.at() as u32 }),
    {
        Token { kind, span: Span::new(start as u32, self.pos as u32) }
    }

    pub(crate) fn save_and_next(&mut self)
        requires
            old(self).wf(),
            old(self).at() < old(self).text().len(),
        ensures
            final(self).wf(),
            final(self).text() == old(self).text(),
            final(self).buffer() == old(self).buffer().push(old(self).text()[old(self).at()]),
            final(self).at() == old(self).at() + 1,
    {
        let byte = self.source[self.pos];
        self.buf.push(byte);
        self.pos += 1;
    }

    pub(crate) fn clear_buffer(&mut self)
        ensures
            final(self).text() == old(self).text(),
            final(self).at() == old(self).at(),
            final(self).wf() == old(self).wf(),
            final(self).buffer() == Seq::<u8>::empty(),
    {
        self.buf.clear();
    }

    pub(crate) fn eof_error(&self, kind: LexErrorKind) -> (error: LexError)
        ensures
            error.kind == kind,
            error.at == self.pos as u32,
            error.near@ == NearView::Eof,
    {
        LexError { kind, at: self.pos as u32, near: Near::Eof }
    }

    pub(crate) fn buffered(&self, kind: LexErrorKind) -> (error: LexError)
        ensures
            error.kind == kind,
            error.at == self.pos as u32,
            error.near@ == NearView::Buffer(self.buffer()),
    {
        LexError { kind, at: self.pos as u32, near: Near::Buffer(self.buf.clone()) }
    }

    /// The offending byte joins the buffer so that `near` shows it.
    pub(crate) fn escape_error(&mut self, kind: LexErrorKind) -> (error: LexError)
        requires
            old(self).wf(),
        ensures
            final(self).wf(),
            final(self).text() == old(self).text(),
            error.kind == kind,
            error.at == old(self).at() as u32,
            error.near@ == NearView::Buffer(
                old(self).buffer() + old(self).text().subrange(
                    old(self).at(),
                    if old(self).at() < old(self).text().len() {
                        old(self).at() + 1
                    } else {
                        old(self).at()
                    },
                ),
            ),
    {
        let at = self.pos as u32;
        if self.pos < self.source.len() {
            self.save_and_next();
        }
        assert(self.buf@ =~= old(self).buffer() + old(self).text().subrange(
            old(self).at(),
            if old(self).at() < old(self).text().len() {
                old(self).at() + 1
            } else {
                old(self).at()
            },
        ));
        LexError { kind, at, near: Near::Buffer(self.buf.clone()) }
    }

    /// `[=` with no second bracket.
    pub(crate) fn delimiter_error(&self, start: usize) -> (error: LexError)
        requires
            self.wf(),
            start <= self.at(),
        ensures
            error.kind == LexErrorKind::InvalidLongStringDelimiter,
            error.at == self.pos as u32,
            error.near@ == NearView::Buffer(self.text().subrange(start as int, self.at())),
    {
        let bytes = vstd::slice::slice_to_vec(&self.source[start..self.pos]);
        LexError {
            kind: LexErrorKind::InvalidLongStringDelimiter,
            at: self.pos as u32,
            near: Near::Buffer(bytes),
        }
    }
}

} // verus!
