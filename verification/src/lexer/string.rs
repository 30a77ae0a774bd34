//! Short strings and their escapes.
use vstd::prelude::*;

use crate::token::{Token, TokenKind};

use super::Lexer;
use super::bytes::{
    BACKSLASH, DQUOTE, LBRACE, LF, QUOTE, RBRACE, TAB, VTAB, CR, ZERO, hex_digit_value, is_blank,
    is_digit, is_hex_digit, is_line_break,
};
use super::error::{LexError, LexErrorKind, LexFault, NearView};
use super::grammar::{
    Escape, Lexeme, StrScan, break_end, decimal_escape_len, digits_value, escape, min,
    simple_escape_of, str_prepend, str_scan, utf8_bytes, utf8_digits, z_skip,
};

verus! {

/// The bytes an escape's refusal shows after the string read so far: the escape itself,
/// up to and including the offending byte.
pub open spec fn escape_tail(s: Seq<u8>, e: int, at: int) -> Seq<u8> {
    s.subrange(e, min(at + 1, s.len() as int))
}

proof fn lemma_str_prepend_twice(a: Seq<u8>, b: Seq<u8>, rest: StrScan)
    ensures
        str_prepend(a, str_prepend(b, rest)) == str_prepend(a + b, rest),
{
    match rest {
        StrScan::Closed { value, end } => {
            assert(a + (b + value) =~= (a + b) + value);
        },
        StrScan::Broken { kind, at, near } => {
            match near {
                Some(tail) => {
                    assert(a + (b + tail) =~= (a + b) + tail);
                },
                None => {},
            }
        },
    }
}

proof fn lemma_utf8_digits_bound(s: Seq<u8>, i: int, value: int)
    requires
        0 <= i <= s.len(),
        0 <= value <= 0x7fffffff,
    ensures
        match utf8_digits(s, i, value) {
            Ok((j, v)) => i <= j <= s.len() && 0 <= v <= 0x7fffffff,
            Err(at) => i <= at < s.len(),
        },
    decreases s.len() - i,
{
    if i < s.len() && is_hex_digit(s[i]) && value <= 0x7ffffff {
        lemma_utf8_digits_bound(s, i + 1, value * 16 + hex_digit_value(s[i]));
    }
}

proof fn lemma_z_skip_bound(s: Seq<u8>, i: int)
    requires
        0 <= i <= s.len(),
    ensures
        i <= z_skip(s, i) <= s.len(),
    decreases s.len() - i,
{
    if i < s.len() && is_line_break(s[i]) {
        lemma_z_skip_bound(s, break_end(s, i));
    } else if i < s.len() && is_blank(s[i]) {
        lemma_z_skip_bound(s, i + 1);
    }
}

impl<'a> Lexer<'a> {
    /// The buffer doubles as the string's value and as the text `near` shows on error, so an
    /// escape is decoded in place: `"\65\q"` reports `near '"A\q'`, not `near '"\65\q'`.
    pub(crate) fn read_string(&mut self, delimiter: u8, start: usize) -> (r: Result<
        Token<'a>,
        LexError,
    >)
        requires
            old(self).wf(),
            old(self).at() == start < old(self).text().len(),
            old(self).text()[start as int] == delimiter,
        ensures
            final(self).wf(),
            final(self).text() == old(self).text(),
            match str_scan(old(self).text(), start + 1, delimiter) {
                StrScan::Closed { value, end } => r matches Ok(token) && token.kind.is(
                    Lexeme::Str(value),
                ) && token.span.start == start as u32 && token.span.end == end as u32
                    && final(self).at() == end,
                StrScan::Broken { kind, at, near } => r matches Err(e) && e.is(
                    LexFault {
                        kind,
                        at,
                        near: match near {
                            Some(tail) => NearView::Buffer(seq![delimiter] + tail),
                            None => NearView::Eof,
                        },
                    },
                ),
            },
    {
        let ghost s = self.text();
        let ghost target = str_scan(s, start + 1, delimiter);
        self.clear_buffer();
        self.save_and_next();  // keep the delimiter, for error messages

        proof {
            assert(Seq::<u8>::empty().push(delimiter) =~= seq![delimiter]);
            assert(seq![delimiter].drop_first() =~= Seq::<u8>::empty());
            match str_scan(s, start + 1, delimiter) {
                StrScan::Closed { value, end } => {
                    assert(Seq::<u8>::empty() + value =~= value);
                },
                StrScan::Broken { near, .. } => {
                    match near {
                        Some(tail) => {
                            assert(Seq::<u8>::empty() + tail =~= tail);
                        },
                        None => {},
                    }
                },
            }
        }

        loop
            invariant
                self.wf(),
                self.text() == s,
                s == old(self).text(),
                target == str_scan(s, start + 1, delimiter),
                self.buffer().len() >= 1,
                self.buffer()[0] == delimiter,
                str_prepend(self.buffer().drop_first(), str_scan(s, self.at(), delimiter))
                    == target,
            ensures
                self.wf(),
                self.text() == s,
                self.at() < s.len(),
                s[self.at()] == delimiter,
                self.buffer().len() >= 1,
                self.buffer()[0] == delimiter,
                str_prepend(self.buffer().drop_first(), str_scan(s, self.at(), delimiter))
                    == target,
            decreases s.len() - self.at(),
        {
            let ghost before = self.buffer();
            let ghost p = self.at();
            assert(before =~= seq![delimiter] + before.drop_first());
            match self.peek() {
                None => {
                    return Err(self.eof_error(LexErrorKind::UnfinishedString));
                },
                Some(byte) => {
                    if byte == delimiter {
                        break ;
                    } else if byte == LF || byte == CR {
                        proof {
                            assert(before.drop_first() + Seq::<u8>::empty() =~= before.drop_first());
                        }
                        return Err(self.buffered(LexErrorKind::UnfinishedString));
                    } else if byte == BACKSLASH {
                        match self.read_escape() {
                            Ok(()) => {
                                proof {
                                    let bytes = escape(s, p)->Decoded_bytes;
                                    lemma_str_prepend_twice(
                                        before.drop_first(),
                                        bytes,
                                        str_scan(s, self.at(), delimiter),
                                    );
                                    assert(self.buffer().drop_first() =~= before.drop_first()
                                        + bytes);
                                }
                            },
                            Err(e) => {
                                proof {
                                    let at = escape(s, p)->Refused_at;
                                    assert(before + escape_tail(s, p, at) =~= seq![delimiter] + (
                                    before.drop_first() + escape_tail(s, p, at)));
                                }
                                return Err(e);
                            },
                        }
                    } else {
                        self.save_and_next();
                        proof {
                            lemma_str_prepend_twice(
                                before.drop_first(),
                                seq![byte],
                                str_scan(s, self.at(), delimiter),
                            );
                            assert(self.buffer().drop_first() =~= before.drop_first() + seq![
                                byte,
                            ]);
                        }
                    }
                },
            }
        }

        let ghost value = self.buffer().drop_first();
        self.save_and_next();  // skip the delimiter
        let n = self.buf.len();
        let value_bytes = vstd::slice::slice_to_vec(
            vstd::slice::slice_subrange(self.buf.as_slice(), 1, n - 1),
        );
        proof {
            assert(value_bytes@ =~= value);
            assert(value + Seq::<u8>::empty() =~= value);
        }
        Ok(self.token(TokenKind::Str(value_bytes), start))
    }

    /// What one `\...` sequence stands for. The cursor is on the `\`.
    pub(crate) fn read_escape(&mut self) -> (r: Result<(), LexError>)
        requires
            old(self).wf(),
            old(self).at() < old(self).text().len(),
            old(self).text()[old(self).at()] == BACKSLASH,
        ensures
            final(self).wf(),
            final(self).text() == old(self).text(),
            match escape(old(self).text(), old(self).at()) {
                Escape::Decoded { bytes, end } => r is Ok && final(self).buffer() == old(
                    self,
                ).buffer() + bytes && final(self).at() == end && end > old(self).at(),
                Escape::Refused { kind, at } => r matches Err(e) && e.is(
                    LexFault {
                        kind,
                        at,
                        near: NearView::Buffer(
                            old(self).buffer() + escape_tail(old(self).text(), old(self).at(), at),
                        ),
                    },
                ),
            },
    {
        let ghost s = self.text();
        let ghost e = self.at();
        let ghost base = self.buffer();
        self.save_and_next();  // keep the `\`, for error messages

        match self.peek() {
            // The string loop raises `unfinished string` on its next turn.
            None => {
                proof {
                    assert(base.push(BACKSLASH) =~= base + seq![BACKSLASH]);
                }
                Ok(())
            },
            Some(byte) => {
                if byte == 0x78 {
                    let decoded = match self.read_hex_escape() {
                        Ok(decoded) => decoded,
                        Err(err) => {
                            proof {
                                let at = escape(s, e)->Refused_at;
                                assert(base.push(BACKSLASH) + s.subrange(e + 1, min(at + 1, s.len() as int))
                                    =~= base + s.subrange(e, min(at + 1, s.len() as int)));
                            }
                            return Err(err);
                        },
                    };
                    self.put_decoded(decoded);
                    proof {
                        assert(self.buffer() =~= base + seq![decoded]);
                    }
                    Ok(())
                } else if byte == 0x75 {
                    proof {
                        if e + 3 < s.len() && is_hex_digit(s[e + 3]) {
                            lemma_utf8_digits_bound(s, e + 4, hex_digit_value(s[e + 3]) as int);
                        }
                    }
                    let value = match self.read_utf8_escape() {
                        Ok(value) => value,
                        Err(err) => {
                            proof {
                                let at = escape(s, e)->Refused_at;
                                assert(base.push(BACKSLASH) + s.subrange(e + 1, min(at + 1, s.len() as int))
                                    =~= base + s.subrange(e, min(at + 1, s.len() as int)));
                            }
                            return Err(err);
                        },
                    };
                    self.utf8_encode(value);
                    Ok(())
                } else if byte == 0x7a {
                    // `\z` drops itself and the run of whitespace after it, line breaks included.
                    self.buf.pop();
                    self.advance();
                    let ghost from = self.at();
                    proof {
                        lemma_z_skip_bound(s, from);
                        assert(self.buffer() =~= base + Seq::<u8>::empty());
                    }
                    while self.peek().is_some()
                        invariant
                            self.wf(),
                            self.text() == s,
                            self.buffer() == base + Seq::<u8>::empty(),
                            from <= self.at() <= z_skip(s, from),
                            z_skip(s, self.at()) == z_skip(s, from),
                            e < from,
                        ensures
                            self.wf(),
                            self.text() == s,
                            self.buffer() == base + Seq::<u8>::empty(),
                            self.at() == z_skip(s, from),
                            e < from,
                        decreases s.len() - self.at(),
                    {
                        let byte = self.source[self.pos];
                        if byte == LF || byte == CR {
                            self.newline();
                        } else if byte == 0x20 || byte == TAB || byte == VTAB || byte == 0x0c {
                            self.advance();
                        } else {
                            break ;
                        }
                        proof {
                            lemma_z_skip_bound(s, self.at());
                        }
                    }
                    Ok(())
                } else if byte == LF || byte == CR {
                    // A `\` before a real line break stands for one '\n', however the break is spelled.
                    self.newline();
                    self.put_decoded(LF);
                    proof {
                        assert(self.buffer() =~= base + seq![LF]);
                    }
                    Ok(())
                } else if 0x30 <= byte && byte <= 0x39 {
                    let decoded = match self.read_decimal_escape() {
                        Ok(decoded) => decoded,
                        Err(err) => {
                            proof {
                                let at = escape(s, e)->Refused_at;
                                assert(base.push(BACKSLASH) + s.subrange(e + 1, min(at + 1, s.len() as int))
                                    =~= base + s.subrange(e, min(at + 1, s.len() as int)));
                            }
                            return Err(err);
                        },
                    };
                    self.put_decoded(decoded);
                    proof {
                        assert(self.buffer() =~= base + seq![decoded]);
                    }
                    Ok(())
                } else {
                    match simple_escape(byte) {
                        Some(decoded) => {
                            self.advance();
                            self.put_decoded(decoded);
                            proof {
                                assert(self.buffer() =~= base + seq![decoded]);
                            }
                            Ok(())
                        },
                        None => {
                            let ghost before = self.buffer();
                            let err = self.escape_error(LexErrorKind::InvalidEscapeSequence);
                            proof {
                                assert(before + s.subrange(e + 1, e + 2) =~= base
                                    + escape_tail(s, e, e + 1));
                            }
                            Err(err)
                        },
                    }
                }
            },
        }
    }

    /// The `\` that opened the escape becomes the byte the escape stood for.
    pub(crate) fn put_decoded(&mut self, byte: u8)
        requires
            old(self).buffer().len() > 0,
        ensures
            final(self).text() == old(self).text(),
            final(self).at() == old(self).at(),
            final(self).wf() == old(self).wf(),
            final(self).buffer() == old(self).buffer().drop_last().push(byte),
    {
        self.buf.pop();
        self.buf.push(byte);
    }

    /// Saves the byte under the cursor and looks at the next one, which must be a hex digit.
    pub(crate) fn hex_digit(&mut self) -> (r: Result<u32, LexError>)
        requires
            old(self).wf(),
            old(self).at() < old(self).text().len(),
        ensures
            final(self).wf(),
            final(self).text() == old(self).text(),
            ({
                let s = old(self).text();
                let p = old(self).at();
                if p + 1 < s.len() && is_hex_digit(s[p + 1]) {
                    r == Ok::<u32, LexError>(hex_digit_value(s[p + 1])) && final(self).at() == p
                        + 1 && final(self).buffer() == old(self).buffer().push(s[p])
                } else {
                    r matches Err(e) && e.is(
                        LexFault {
                            kind: LexErrorKind::HexadecimalDigitExpected,
                            at: p + 1,
                            near: NearView::Buffer(
                                old(self).buffer() + s.subrange(p, min(p + 2, s.len() as int)),
                            ),
                        },
                    )
                }
            }),
    {
        let ghost s = self.text();
        let ghost p = self.at();
        let ghost base = self.buffer();
        self.save_and_next();

        match self.peek() {
            Some(byte) => if 0x30 <= byte && byte <= 0x39 || 0x41 <= byte && byte <= 0x46 || 0x61
                <= byte && byte <= 0x66 {
                return Ok(super::bytes::hex_value(byte));
            },
            None => {},
        }
        let err = self.escape_error(LexErrorKind::HexadecimalDigitExpected);
        proof {
            assert(base.push(s[p]) + s.subrange(
                p + 1,
                if p + 1 < s.len() {
                    p + 2
                } else {
                    p + 1
                },
            ) =~= base + s.subrange(p, min(p + 2, s.len() as int)));
        }
        Err(err)
    }

    /// `\xNN`. Both digits sit in the buffer while they are read, so a bad one shows up in `near`.
    /// The cursor is on the `x`, and the `\` is the last byte of the buffer.
    pub(crate) fn read_hex_escape(&mut self) -> (r: Result<u8, LexError>)
        requires
            old(self).wf(),
            old(self).at() < old(self).text().len(),
            old(self).buffer().len() > 0,
        ensures
            final(self).wf(),
            final(self).text() == old(self).text(),
            ({
                let s = old(self).text();
                let p = old(self).at();
                if !(p + 1 < s.len() && is_hex_digit(s[p + 1])) {
                    r matches Err(e) && e.is(
                        LexFault {
                            kind: LexErrorKind::HexadecimalDigitExpected,
                            at: p + 1,
                            near: NearView::Buffer(
                                old(self).buffer() + s.subrange(p, min(p + 2, s.len() as int)),
                            ),
                        },
                    )
                } else if !(p + 2 < s.len() && is_hex_digit(s[p + 2])) {
                    r matches Err(e) && e.is(
                        LexFault {
                            kind: LexErrorKind::HexadecimalDigitExpected,
                            at: p + 2,
                            near: NearView::Buffer(
                                old(self).buffer() + s.subrange(p, min(p + 3, s.len() as int)),
                            ),
                        },
                    )
                } else {
                    r == Ok::<u8, LexError>(
                        (hex_digit_value(s[p + 1]) * 16 + hex_digit_value(s[p + 2])) as u8,
                    ) && final(self).at() == p + 3 && final(self).buffer() == old(self).buffer()
                }
            }),
    {
        let ghost s = self.text();
        let ghost p = self.at();
        let ghost base = self.buffer();
        let high = match self.hex_digit() {
            Ok(high) => high,
            Err(e) => return Err(e),
        };
        let ghost mid = self.buffer();
        let low = match self.hex_digit() {
            Ok(low) => low,
            Err(e) => {
                proof {
                    assert(mid + s.subrange(p + 1, min(p + 3, s.len() as int)) =~= base
                        + s.subrange(p, min(p + 3, s.len() as int)));
                }
                return Err(e);
            },
        };
        proof {
            assert(high << 4 == high * 16) by (bit_vector)
                requires
                    high < 16,
            ;
        }
        let value = (high << 4) + low;

        self.advance();
        let n = self.buf.len();
        self.buf.truncate(n - 2);
        proof {
            assert(self.buffer() =~= base);
        }

        Ok(value as u8)
    }

    /// `\u{XXX}`. The cursor is on the `u`, and the `\` is the last byte of the buffer.
    pub(crate) fn read_utf8_escape(&mut self) -> (r: Result<u32, LexError>)
        requires
            old(self).wf(),
            old(self).at() < old(self).text().len(),
            old(self).buffer().len() > 0,
        ensures
            final(self).wf(),
            final(self).text() == old(self).text(),
            ({
                let s = old(self).text();
                let p = old(self).at();
                if !(p + 1 < s.len() && s[p + 1] == LBRACE) {
                    r matches Err(e) && e.is(
                        LexFault {
                            kind: LexErrorKind::MissingOpenBrace,
                            at: p + 1,
                            near: NearView::Buffer(old(self).buffer() + s.subrange(p, min(p + 1 + 1, s.len() as int))),
                        },
                    )
                } else if !(p + 2 < s.len() && is_hex_digit(s[p + 2])) {
                    r matches Err(e) && e.is(
                        LexFault {
                            kind: LexErrorKind::HexadecimalDigitExpected,
                            at: p + 2,
                            near: NearView::Buffer(old(self).buffer() + s.subrange(p, min(p + 2 + 1, s.len() as int))),
                        },
                    )
                } else {
                    match utf8_digits(s, p + 3, hex_digit_value(s[p + 2]) as int) {
                        Err(at) => r matches Err(e) && e.is(
                            LexFault {
                                kind: LexErrorKind::Utf8ValueTooLarge,
                                at,
                                near: NearView::Buffer(old(self).buffer() + s.subrange(p, min(at + 1, s.len() as int))),
                            },
                        ),
                        Ok((i, value)) => if i < s.len() && s[i] == RBRACE {
                            r == Ok::<u32, LexError>(value as u32) && value <= 0x7fffffff
                                && final(self).at() == i + 1 && final(self).buffer() == old(
                                self,
                            ).buffer().drop_last()
                        } else {
                            r matches Err(e) && e.is(
                                LexFault {
                                    kind: LexErrorKind::MissingCloseBrace,
                                    at: i,
                                    near: NearView::Buffer(old(self).buffer() + s.subrange(p, min(i + 1, s.len() as int))),
                                },
                            )
                        },
                    }
                }
            }),
    {
        let ghost s = self.text();
        let ghost p = self.at();
        let ghost base = self.buffer();
        let mut saved: usize = 4;  // '\', 'u', '{' and the first digit
        self.save_and_next();  // skip 'u'

        if self.peek() != Some(LBRACE) {
            let ghost before = self.buffer();
            let err = self.escape_error(LexErrorKind::MissingOpenBrace);
            proof {
                assert(before + s.subrange(
                    p + 1,
                    if p + 1 < s.len() {
                        p + 2
                    } else {
                        p + 1
                    },
                ) =~= base + s.subrange(p, min(p + 2, s.len() as int)));
            }
            return Err(err);
        }
        let ghost before_brace = self.buffer();
        let mut value = match self.hex_digit() {
            Ok(value) => value,
            Err(e) => {
                proof {
                    assert(before_brace + s.subrange(p + 1, min(p + 3, s.len() as int)) =~= base
                        + s.subrange(p, min(p + 3, s.len() as int)));
                }
                return Err(e);
            },
        };
        let ghost target = utf8_digits(s, p + 3, hex_digit_value(s[p + 2]) as int);
        proof {
            assert(self.buffer() =~= base + s.subrange(p, p + 2));
        }
        loop
            invariant_except_break
                p + 2 <= self.at() < s.len(),
                is_hex_digit(s[self.at()]),
                self.buffer() == base + s.subrange(p, self.at()),
                saved == self.at() + 2 - p,
                utf8_digits(s, self.at() + 1, value as int) == target,
            invariant
                self.wf(),
                self.text() == s,
                s == old(self).text(),
                p == old(self).at(),
                base == old(self).buffer(),
                base.len() > 0,
                p + 2 < s.len(),
                s[p + 1] == LBRACE,
                is_hex_digit(s[p + 2]),
                value <= 0x7fffffff,
                target == utf8_digits(s, p + 3, hex_digit_value(s[p + 2]) as int),
            ensures
                p + 3 <= self.at() <= s.len(),
                !(self.at() < s.len() && is_hex_digit(s[self.at()])),
                self.buffer() == base + s.subrange(p, self.at()),
                saved == self.at() + 1 - p,
                target == Ok::<(int, int), int>((self.at(), value as int)),
            decreases s.len() - self.at(),
        {
            let ghost c = self.at();
            self.save_and_next();
            proof {
                assert(self.buffer() =~= base + s.subrange(p, c + 1));
            }
            let digit = match self.peek() {
                Some(byte) => if 0x30 <= byte && byte <= 0x39 || 0x41 <= byte && byte <= 0x46 || 0x61
                    <= byte && byte <= 0x66 {
                    byte
                } else {
                    break ;
                },
                None => break ,
            };

            saved += 1;
            if value > 0x7ffffff {
                let ghost before = self.buffer();
                let err = self.escape_error(LexErrorKind::Utf8ValueTooLarge);
                proof {
                    assert(before + s.subrange(c + 1, c + 2) =~= base + s.subrange(
                        p,
                        min(c + 2, s.len() as int),
                    ));
                    assert(target == Err::<(int, int), int>(c + 1));
                    assert(err.near@ == NearView::Buffer(base + s.subrange(p, min(c + 2, s.len() as int))));
                    assert(err.at as int == c + 1);
                    assert(err.kind == LexErrorKind::Utf8ValueTooLarge);
                }
                return Err(err);
            }
            let d = super::bytes::hex_value(digit);
            proof {
                assert(value << 4 == value * 16) by (bit_vector)
                    requires
                        value <= 0x7ffffff,
                ;
            }
            value = (value << 4) + d;
        }

        if self.peek() != Some(RBRACE) {
            let ghost before = self.buffer();
            let ghost i = self.at();
            let err = self.escape_error(LexErrorKind::MissingCloseBrace);
            proof {
                assert(before + s.subrange(
                    i,
                    if i < s.len() {
                        i + 1
                    } else {
                        i
                    },
                ) =~= base + s.subrange(p, min(i + 1, s.len() as int)));
            }
            return Err(err);
        }

        self.advance();  // skip '}'
        let n = self.buf.len();
        self.buf.truncate(n - saved);
        proof {
            assert(self.buffer() =~= base.drop_last());
        }

        Ok(value)
    }

    /// `\ddd`: one to three decimal digits. The cursor is on the first digit, and the `\` is the
    /// last byte of the buffer.
    pub(crate) fn read_decimal_escape(&mut self) -> (r: Result<u8, LexError>)
        requires
            old(self).wf(),
            old(self).at() < old(self).text().len(),
            is_digit(old(self).text()[old(self).at()]),
        ensures
            final(self).wf(),
            final(self).text() == old(self).text(),
            ({
                let s = old(self).text();
                let p = old(self).at();
                let n = decimal_escape_len(s, p);
                let value = digits_value(s.subrange(p, p + n));
                if value > 255 {
                    r matches Err(e) && e.is(
                        LexFault {
                            kind: LexErrorKind::DecimalEscapeTooLarge,
                            at: p + n,
                            near: NearView::Buffer(
                                old(self).buffer() + s.subrange(p, min(p + n + 1, s.len() as int)),
                            ),
                        },
                    )
                } else {
                    r == Ok::<u8, LexError>(value as u8) && final(self).at() == p + n
                        && final(self).buffer() == old(self).buffer()
                }
            }),
    {
        let ghost s = self.text();
        let ghost p = self.at();
        let ghost base = self.buffer();
        let ghost n = decimal_escape_len(s, p);
        let mut value: u32 = 0;
        let mut digits: usize = 0;

        while digits < 3
            invariant
                self.wf(),
                self.text() == s,
                p == old(self).at(),
                s == old(self).text(),
                base == old(self).buffer(),
                n == decimal_escape_len(s, p),
                p < s.len(),
                is_digit(s[p]),
                digits <= n,
                self.at() == p + digits,
                self.buffer() == base + s.subrange(p, p + digits),
                value == digits_value(s.subrange(p, p + digits)),
                value < 1000,
                digits == 0 ==> value == 0,
                digits <= 1 ==> value < 10,
                digits <= 2 ==> value < 100,
                digits < 3 ==> digits < n || !(p + digits < s.len() && is_digit(s[p + digits])),
            ensures
                digits == n,
                self.at() == p + digits,
                self.buffer() == base + s.subrange(p, p + digits),
                value == digits_value(s.subrange(p, p + digits)),
                value < 1000,
            decreases 3 - digits,
        {
            let digit = match self.peek() {
                Some(byte) => if 0x30 <= byte && byte <= 0x39 {
                    byte
                } else {
                    break ;
                },
                None => break ,
            };

            proof {
                assert(s.subrange(p, p + digits + 1).drop_last() =~= s.subrange(p, p + digits));
            }
            value = 10 * value + (digit - ZERO) as u32;
            self.save_and_next();
            digits += 1;
            proof {
                assert(self.buffer() =~= base + s.subrange(p, p + digits));
            }
        }
        assert(digits == n);

        if value > 255 {
            let ghost before = self.buffer();
            let err = self.escape_error(LexErrorKind::DecimalEscapeTooLarge);
            proof {
                assert(before + s.subrange(
                    p + n,
                    if p + n < s.len() {
                        p + n + 1
                    } else {
                        p + n
                    },
                ) =~= base + s.subrange(p, min(p + n + 1, s.len() as int)));
            }
            return Err(err);
        }
        let len = self.buf.len();
        self.buf.truncate(len - digits);
        proof {
            assert(self.buffer() =~= base);
        }

        Ok(value as u8)
    }

    /// Appends the bytes of a `\u{...}` value.
    /// Lua's `\u` reaches 0x7FFFFFFF, past Unicode,
    /// so this runs to six bytes rather than the four UTF-8 proper allows.
    pub(crate) fn utf8_encode(&mut self, value: u32)
        requires
            value <= 0x7fffffff,
        ensures
            final(self).text() == old(self).text(),
            final(self).at() == old(self).at(),
            final(self).wf() == old(self).wf(),
            final(self).buffer() == old(self).buffer() + utf8_bytes(value),
    {
        utf8_encode(&mut self.buf, value);
    }
}

/// The one-letter escapes.
pub fn simple_escape(byte: u8) -> (r: Option<u8>)
    ensures
        r == simple_escape_of(byte),
{
    if byte == 0x61 {
        Some(0x07)
    } else if byte == 0x62 {
        Some(0x08)
    } else if byte == 0x66 {
        Some(0x0c)
    } else if byte == 0x6e {
        Some(LF)
    } else if byte == 0x72 {
        Some(CR)
    } else if byte == 0x74 {
        Some(TAB)
    } else if byte == 0x76 {
        Some(VTAB)
    } else if byte == BACKSLASH || byte == DQUOTE || byte == QUOTE {
        Some(byte)
    } else {
        None
    }
}

/// Whether the continuation bytes the encoder collected are those of `value`, lowest first.
spec fn continuation_ok(cont: Seq<u8>, value: u32) -> bool {
    forall|j: int| 0 <= j < cont.len() ==> #[trigger] cont[j] == (0x80 | ((value >> (6 * j) as u32)
        & 0x3f)) as u8
}

/// The least value that needs more than `n` continuation bytes.
spec fn past_continuations(n: int) -> u32 {
    if n <= 0 {
        0x80
    } else if n == 1 {
        0x800
    } else if n == 2 {
        0x10000
    } else if n == 3 {
        0x200000
    } else if n == 4 {
        0x4000000
    } else {
        0x80000000
    }
}

/// One round of the encoder: with `k` continuation bytes written, `rest` and `first_fits` are
/// what they were shifted to, and the next round is taken exactly when `value` needs more.
proof fn lemma_utf8_round(value: u32, k: int)
    requires
        0 <= k < 5,
        value <= 0x7fffffff,
    ensures
        (value >> (6 * k) as u32) >> 6 == value >> (6 * (k + 1)) as u32,
        (0x3fu32 >> k as u32) >> 1 == 0x3fu32 >> (k + 1) as u32,
        (value >> (6 * (k + 1)) as u32 > 0x3fu32 >> (k + 1) as u32) == (value >= past_continuations(
            k + 1,
        )),
        ((value >> (6 * k) as u32) & 0x3f) == ((value >> (6 * k) as u32) & 0x3f) as u8,
{
    if k == 0 {
        assert((value >> 0u32) >> 6 == value >> 6u32) by (bit_vector);
        assert((0x3fu32 >> 0u32) >> 1 == 0x3fu32 >> 1u32) by (bit_vector);
        assert((value >> 6u32 > 0x3fu32 >> 1u32) == (value >= 0x800)) by (bit_vector);
        assert(((value >> 0u32) & 0x3f) == ((value >> 0u32) & 0x3f) as u8) by (bit_vector);
    } else if k == 1 {
        assert((value >> 6u32) >> 6 == value >> 12u32) by (bit_vector);
        assert((0x3fu32 >> 1u32) >> 1 == 0x3fu32 >> 2u32) by (bit_vector);
        assert((value >> 12u32 > 0x3fu32 >> 2u32) == (value >= 0x10000)) by (bit_vector);
        assert(((value >> 6u32) & 0x3f) == ((value >> 6u32) & 0x3f) as u8) by (bit_vector);
    } else if k == 2 {
        assert((value >> 12u32) >> 6 == value >> 18u32) by (bit_vector);
        assert((0x3fu32 >> 2u32) >> 1 == 0x3fu32 >> 3u32) by (bit_vector);
        assert((value >> 18u32 > 0x3fu32 >> 3u32) == (value >= 0x200000)) by (bit_vector);
        assert(((value >> 12u32) & 0x3f) == ((value >> 12u32) & 0x3f) as u8) by (bit_vector);
    } else if k == 3 {
        assert((value >> 18u32) >> 6 == value >> 24u32) by (bit_vector);
        assert((0x3fu32 >> 3u32) >> 1 == 0x3fu32 >> 4u32) by (bit_vector);
        assert((value >> 24u32 > 0x3fu32 >> 4u32) == (value >= 0x4000000)) by (bit_vector);
        assert(((value >> 18u32) & 0x3f) == ((value >> 18u32) & 0x3f) as u8) by (bit_vector);
    } else {
        assert((value >> 24u32) >> 6 == value >> 30u32) by (bit_vector);
        assert((0x3fu32 >> 4u32) >> 1 == 0x3fu32 >> 5u32) by (bit_vector);
        assert((value >> 30u32 > 0x3fu32 >> 5u32) == (value >= 0x80000000)) by (bit_vector)
            requires
                value <= 0x7fffffff,
        ;
        assert(((value >> 24u32) & 0x3f) == ((value >> 24u32) & 0x3f) as u8) by (bit_vector);
    }
}

/// Lua's `\u` reaches 0x7FFFFFFF, past Unicode,
/// so this runs to six bytes rather than the four UTF-8 proper allows.
pub fn utf8_encode(out: &mut Vec<u8>, value: u32)
    requires
        value <= 0x7fffffff,
    ensures
        final(out)@ == old(out)@ + utf8_bytes(value),
{
    if value < 0x80 {
        out.push(value as u8);
        proof {
            assert(old(out)@.push(value as u8) =~= old(out)@ + utf8_bytes(value));
        }
        return ;
    }
    let mut continuation: Vec<u8> = Vec::new();
    let mut rest = value;
    let mut first_fits: u32 = 0x3f;
    proof {
        assert(value >> 0u32 == value) by (bit_vector);
        assert(0x3fu32 >> 0u32 == 0x3fu32) by (bit_vector);
    }

    loop
        invariant_except_break
            continuation.len() < 5,
            value >= past_continuations(continuation.len() as int),
        invariant
            0x80 <= value <= 0x7fffffff,
            continuation.len() <= 5,
            rest == value >> (6 * continuation.len()) as u32,
            first_fits == 0x3fu32 >> continuation.len() as u32,
            continuation_ok(continuation@, value),
        ensures
            1 <= continuation.len() <= 5,
            value >= past_continuations(continuation.len() - 1),
            value < past_continuations(continuation.len() as int),
        decreases 5 - continuation.len(),
    {
        let ghost k = continuation.len() as int;
        proof {
            lemma_utf8_round(value, k);
        }
        let byte = (0x80 | (rest & 0x3f) as u8) as u8;
        proof {
            let sh = (6 * k) as u32;
            assert(byte == (0x80 | ((value >> sh) & 0x3f)) as u8) by (bit_vector)
                requires
                    byte == (0x80 | (rest & 0x3f) as u8) as u8,
                    rest == value >> sh,
            ;
        }
        continuation.push(byte);
        rest = rest >> 6;
        first_fits = first_fits >> 1;
        proof {
            assert forall|j: int| 0 <= j < continuation@.len() implies #[trigger] continuation@[j]
                == (0x80 | ((value >> (6 * j) as u32) & 0x3f)) as u8 by {
                if j < k {
                } else {
                    assert(j == k);
                }
            }
        }
        if rest <= first_fits {
            break ;
        }
    }

    let ghost k = continuation.len() as int;
    let lead = ((!first_fits << 1) | rest) as u8;
    let ghost before = out@;
    out.push(lead);
    let mut i = continuation.len();
    while i > 0
        invariant
            i <= continuation.len(),
            out@ == before.push(lead) + continuation@.subrange(i as int, continuation.len() as int).reverse(),
        decreases i,
    {
        i -= 1;
        out.push(continuation[i]);
        proof {
            assert(continuation@.subrange(i as int, continuation.len() as int).reverse() =~=
            continuation@.subrange(i + 1, continuation.len() as int).reverse().push(continuation@[i as int]));
        }
    }
    proof {
        lemma_utf8_encoding(value, k, lead, continuation@);
        assert(before.push(lead) + continuation@.subrange(0, k).reverse() =~= before + utf8_bytes(value));
    }
}

proof fn lemma_utf8_encoding(value: u32, k: int, lead: u8, cont: Seq<u8>)
    requires
        1 <= k <= 5,
        0x80 <= value <= 0x7fffffff,
        value >= past_continuations(k - 1),
        value < past_continuations(k),
        cont.len() == k,
        continuation_ok(cont, value),
        lead == ((!(0x3fu32 >> k as u32) << 1) | (value >> (6 * k) as u32)) as u8,
    ensures
        seq![lead] + cont.reverse() == utf8_bytes(value),
{
    assert(cont[0] == (0x80 | ((value >> (6 * 0int) as u32) & 0x3f)) as u8);
    assert(value >> 0u32 == value) by (bit_vector);
    if k == 1 {
        assert(lead == (0xc0 | (value >> 6)) as u8) by (bit_vector)
            requires
                lead == ((!(0x3fu32 >> 1u32) << 1) | (value >> 6u32)) as u8,
        ;
        assert(seq![lead] + cont.reverse() =~= utf8_bytes(value));
    } else if k == 2 {
        assert(cont[1] == (0x80 | ((value >> (6 * 1int) as u32) & 0x3f)) as u8);
        assert(lead == (0xe0 | (value >> 12)) as u8) by (bit_vector)
            requires
                lead == ((!(0x3fu32 >> 2u32) << 1) | (value >> 12u32)) as u8,
        ;
        assert(seq![lead] + cont.reverse() =~= utf8_bytes(value));
    } else if k == 3 {
        assert(cont[1] == (0x80 | ((value >> (6 * 1int) as u32) & 0x3f)) as u8);
        assert(cont[2] == (0x80 | ((value >> (6 * 2int) as u32) & 0x3f)) as u8);
        assert(lead == (0xf0 | (value >> 18)) as u8) by (bit_vector)
            requires
                lead == ((!(0x3fu32 >> 3u32) << 1) | (value >> 18u32)) as u8,
        ;
        assert(seq![lead] + cont.reverse() =~= utf8_bytes(value));
    } else if k == 4 {
        assert(cont[1] == (0x80 | ((value >> (6 * 1int) as u32) & 0x3f)) as u8);
        assert(cont[2] == (0x80 | ((value >> (6 * 2int) as u32) & 0x3f)) as u8);
        assert(cont[3] == (0x80 | ((value >> (6 * 3int) as u32) & 0x3f)) as u8);
        assert(lead == (0xf8 | (value >> 24)) as u8) by (bit_vector)
            requires
                lead == ((!(0x3fu32 >> 4u32) << 1) | (value >> 24u32)) as u8,
        ;
        assert(seq![lead] + cont.reverse() =~= utf8_bytes(value));
    } else {
        assert(cont[1] == (0x80 | ((value >> (6 * 1int) as u32) & 0x3f)) as u8);
        assert(cont[2] == (0x80 | ((value >> (6 * 2int) as u32) & 0x3f)) as u8);
        assert(cont[3] == (0x80 | ((value >> (6 * 3int) as u32) & 0x3f)) as u8);
        assert(cont[4] == (0x80 | ((value >> (6 * 4int) as u32) & 0x3f)) as u8);
        assert(lead == (0xfc | (value >> 30)) as u8) by (bit_vector)
            requires
                lead == ((!(0x3fu32 >> 5u32) << 1) | (value >> 30u32)) as u8,
        ;
        assert(seq![lead] + cont.reverse() =~= utf8_bytes(value));
    }
}

} // verus!
