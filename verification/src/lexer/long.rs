//! Long brackets: `[[...]]` strings and `--[[...]]` comments.
use vstd::prelude::*;

use super::Lexer;
use super::bytes::{EQUALS, LBRACKET, LF, RBRACKET, is_line_break};
use super::error::{LexError, LexErrorKind, LexFault, NearView};
use super::grammar::{
    LongScan,
    bracket_level,
    break_end,
    comment_end,
    equals_run,
    lemma_equals_run_bound,
    line_end,
    long_open,
    long_prepend,
    long_scan,
};

verus! {

/// Which long-bracket form is being read.
#[derive(Debug, Clone, Copy)]
pub(crate) enum LongForm {
    String,
    Comment,
}

/// The refusal for a long bracket that never closes.
pub(crate) open spec fn unclosed_fault(form: LongForm, open_at: int, len: int) -> LexFault {
    LexFault {
        kind: match form {
            LongForm::String => LexErrorKind::UnfinishedLongString { open_at: open_at as u32 },
            LongForm::Comment => LexErrorKind::UnfinishedLongComment { open_at: open_at as u32 },
        },
        at: len,
        near: NearView::Eof,
    }
}

proof fn lemma_long_prepend_twice(a: Seq<u8>, b: Seq<u8>, rest: LongScan)
    ensures
        long_prepend(a, long_prepend(b, rest)) == long_prepend(a + b, rest),
{
    match rest {
        LongScan::Closed { content, end } => {
            assert(a + (b + content) =~= (a + b) + content);
        },
        LongScan::Unclosed => {},
    }
}

proof fn lemma_line_end_bound(s: Seq<u8>, p: int)
    requires
        0 <= p <= s.len(),
    ensures
        p <= line_end(s, p) <= s.len(),
    decreases s.len() - p,
{
    if p < s.len() && !is_line_break(s[p]) {
        lemma_line_end_bound(s, p + 1);
    }
}

impl<'a> Lexer<'a> {
    /// Consumes a `[` or `]` and the run of `=` after it, and reports the level:
    /// `count + 2` for a complete delimiter, 1 for a lone bracket, 0 for `[=` with no second bracket.
    pub(crate) fn long_bracket_level(&mut self) -> (level: usize)
        requires
            old(self).wf(),
            old(self).at() < old(self).text().len(),
        ensures
            final(self).wf(),
            final(self).text() == old(self).text(),
            final(self).buffer() == old(self).buffer(),
            (level as int, final(self).at()) == bracket_level(old(self).text(), old(self).at()),
    {
        let ghost s = self.text();
        let ghost p = self.at();
        let opener = self.source[self.pos];
        self.advance();

        let mut count: usize = 0;
        proof {
            lemma_equals_run_bound(s, p + 1);
        }
        while self.peek() == Some(EQUALS)
            invariant
                self.wf(),
                self.text() == s,
                self.buffer() == old(self).buffer(),
                p < s.len(),
                opener == s[p],
                self.at() == p + 1 + count,
                equals_run(s, p + 1) == count + equals_run(s, self.at()),
                self.at() + equals_run(s, self.at()) <= s.len(),
            decreases s.len() - self.at(),
        {
            self.advance();
            count += 1;
        }

        if self.peek() == Some(opener) {
            count + 2
        } else if count == 0 {
            1
        } else {
            0
        }
    }

    /// A comment, long or short. The `--` is already consumed.
    pub(crate) fn skip_comment(&mut self) -> (r: Result<(), LexError>)
        requires
            old(self).wf(),
        ensures
            final(self).wf(),
            final(self).text() == old(self).text(),
            match comment_end(old(self).text(), old(self).at()) {
                Ok(end) => r is Ok && final(self).at() == end && end >= old(self).at(),
                Err(fault) => r matches Err(e) && e.is(fault),
            },
    {
        let ghost s = self.text();
        if self.peek() == Some(LBRACKET) {
            let open_at = self.pos;
            let level = self.long_bracket_level();
            if level >= 2 {
                return self.read_long_bracket(level, open_at, LongForm::Comment);
            }
            // A lone '[' or '[=' with no second bracket: an ordinary comment after all,
            // and the bytes just consumed belong to it.

        }
        let ghost from = self.at();
        proof {
            lemma_line_end_bound(s, from);
        }
        while self.peek().is_some() && !(self.peek() == Some(LF) || self.peek() == Some(0x0d))
            invariant
                self.wf(),
                self.text() == s,
                from <= self.at() <= line_end(s, from),
                line_end(s, self.at()) == line_end(s, from),
            decreases s.len() - self.at(),
        {
            self.advance();
            proof {
                lemma_line_end_bound(s, self.at());
            }
        }
        Ok(())
    }

    /// The body between `[[` and `]]`, at whatever level. Fills the buffer with the content.
    /// The cursor is on the opener's second bracket.
    pub(crate) fn read_long_bracket(&mut self, level: usize, open_at: usize, form: LongForm) -> (r:
        Result<(), LexError>)
        requires
            old(self).wf(),
            old(self).at() < old(self).text().len(),
            level >= 2,
        ensures
            final(self).wf(),
            final(self).text() == old(self).text(),
            match long_scan(old(self).text(), long_open(old(self).text(), old(self).at()), level as int) {
                LongScan::Closed { content, end } => r is Ok && final(self).buffer() == content
                    && final(self).at() == end && end > old(self).at(),
                LongScan::Unclosed => r matches Err(e) && e.is(
                    unclosed_fault(form, open_at as int, old(self).text().len() as int),
                ),
            },
    {
        let ghost s = self.text();
        let ghost target = long_scan(s, long_open(s, self.at()), level as int);
        self.clear_buffer();
        self.advance();  // the second bracket

        match self.peek() {
            Some(byte) => if byte == LF || byte == 0x0d {
                self.newline();
            },
            None => {},
        }
        assert(long_prepend(self.buffer(), long_scan(s, self.at(), level as int)) == target) by {
            assert(Seq::<u8>::empty() + Seq::<u8>::empty() =~= Seq::<u8>::empty());
            match long_scan(s, self.at(), level as int) {
                LongScan::Closed { content, end } => {
                    assert(Seq::<u8>::empty() + content =~= content);
                },
                LongScan::Unclosed => {},
            }
        }

        loop
            invariant
                self.wf(),
                self.text() == s,
                s == old(self).text(),
                target == long_scan(s, long_open(s, old(self).at()), level as int),
                self.at() > old(self).at(),
                level >= 2,
                long_prepend(self.buffer(), long_scan(s, self.at(), level as int)) == target,
            decreases s.len() - self.at(),
        {
            match self.peek() {
                None => {
                    let kind = match form {
                        LongForm::String => LexErrorKind::UnfinishedLongString {
                            open_at: open_at as u32,
                        },
                        LongForm::Comment => LexErrorKind::UnfinishedLongComment {
                            open_at: open_at as u32,
                        },
                    };
                    return Err(self.eof_error(kind));
                },
                // A closing run that does not match this level is content,
                // and the scan has already stepped over it.
                Some(byte) => {
                    let ghost p = self.at();
                    if byte == RBRACKET {
                        let at = self.pos;
                        if self.long_bracket_level() == level {
                            self.advance();
                            proof {
                                assert(self.buffer() + Seq::<u8>::empty() =~= self.buffer());
                            }
                            return Ok(());
                        }
                        let ghost q = self.at();
                        proof {
                            lemma_equals_run_bound(s, p + 1);
                        }
                        let ghost before = self.buffer();
                        let source = self.source;
                        self.buf.extend_from_slice(&source[at..self.pos]);
                        proof {
                            lemma_long_prepend_twice(
                                before,
                                s.subrange(p, q),
                                long_scan(s, q, level as int),
                            );
                            assert(self.buffer() == before + s.subrange(p, q));
                            assert(long_scan(s, p, level as int) == long_prepend(s.subrange(p, q), long_scan(s, q, level as int)));
                        }
                    } else if byte == LF || byte == 0x0d {
                        let ghost before = self.buffer();
                        self.buf.push(LF);
                        self.newline();
                        proof {
                            lemma_long_prepend_twice(
                                before,
                                seq![LF],
                                long_scan(s, self.at(), level as int),
                            );
                            assert(before.push(LF) =~= before + seq![LF]);
                        }
                    } else {
                        let ghost before = self.buffer();
                        self.save_and_next();
                        proof {
                            lemma_long_prepend_twice(
                                before,
                                seq![byte],
                                long_scan(s, self.at(), level as int),
                            );
                            assert(before.push(byte) =~= before + seq![byte]);
                        }
                    }
                },
            }
        }
    }
}

} // verus!
