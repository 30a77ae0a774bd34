//! How the parser reports what it refuses, and how a message names the token it is about.
use vstd::prelude::*;

use super::chunk::Parser;
use crate::error::{Error, ErrorKind, Near};
use crate::near::{near, near_of};

verus! {

impl<'a> Parser<'a> {
    /// A syntax error: reported at the end of the current token, near it.
    pub(crate) fn syntax(&self, kind: ErrorKind) -> (e: Error)
        requires
            self.inv(),
        ensures
            e.kind == kind,
            e.at == self.current.span.end,
            e.near@ == near_of(
                self.current.kind,
                self.source@.subrange(self.current.span.start as int, self.current.span.end as int),
            ),
    {
        Error { kind, at: self.current.span.end, near: self.near() }
    }

    /// A semantic error: no `near` clause, and the line is the one the last consumed token
    /// ended on rather than the line the parser has reached.
    pub(crate) fn semantic(&self, kind: ErrorKind) -> (e: Error)
        ensures
            e.kind == kind,
            e.at == self.last_end,
            e.near == Near::Absent,
    {
        Error { kind, at: self.last_end, near: Near::Absent }
    }

    /// What the `near` clause shows of the current token.
    fn near(&self) -> (shown: Near)
        requires
            self.inv(),
        ensures
            shown@ == near_of(
                self.current.kind,
                self.source@.subrange(self.current.span.start as int, self.current.span.end as int),
            ),
    {
        let text = vstd::slice::slice_subrange(
            self.source,
            self.current.span.start as usize,
            self.current.span.end as usize,
        );
        near(&self.current.kind, text)
    }
}

} // verus!
