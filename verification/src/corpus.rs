//! The parse corpus: the framing of a capture file, and which of its chunks are worth keeping.
//!
//! A capture file is a run of frames, each the chunk's length in decimal, a line break, and
//! the chunk's bytes.
use vstd::prelude::*;

use crate::text::same_bytes;

verus! {

/// Chunks longer than this are left out.
pub const MAX_CHUNK: usize = 4096;
/// No more than this many chunks are kept from one capture file.
pub const MAX_PER_SOURCE: usize = 100;

/// Why a capture file could not be read to its end.
#[derive(Debug, Clone, Copy, PartialEq, Eq, Structural)]
pub enum Framing {
    /// A frame's length is not a decimal number that fits a `usize`.
    Malformed,
    /// A frame promises more bytes than the file has left.
    Truncated,
}

/// The value of a run of decimal digits.
pub open spec fn digits_value(digits: Seq<u8>) -> nat
    decreases digits.len(),
{
    if digits.len() == 0 {
        0
    } else {
        digits_value(digits.drop_last()) * 10 + (digits.last() - 0x30) as nat
    }
}

/// The digits of an unsigned numeral: all of it but one leading `+`.
pub open spec fn unsigned_digits(text: Seq<u8>) -> Seq<u8> {
    if text.len() > 0 && text[0] == 0x2b {
        text.drop_first()
    } else {
        text
    }
}

/// The contents of each vector, in order.
pub open spec fn views(v: Seq<Vec<u8>>) -> Seq<Seq<u8>> {
    v.map_values(|x: Vec<u8>| x@)
}

/// What `usize::from_str` reads: one optional `+`, then at least one decimal digit, and a
/// value that fits.
pub open spec fn usize_of(text: Seq<u8>) -> Option<nat> {
    let digits = unsigned_digits(text);
    if digits.len() > 0 && (forall|i: int| 0 <= i < digits.len() ==> 0x30 <= #[trigger] digits[i] <= 0x39)
        && digits_value(digits) <= usize::MAX {
        Some(digits_value(digits))
    } else {
        None
    }
}

/// Where the first `\n` of `bytes` is, if there is one.
pub open spec fn newline_in(bytes: Seq<u8>) -> Option<int> {
    if exists|i: int| 0 <= i < bytes.len() && bytes[i] == 0x0a {
        Some(choose|i: int| 0 <= i < bytes.len() && bytes[i] == 0x0a && forall|j: int| 0 <= j < i ==> bytes[j] != 0x0a)
    } else {
        None
    }
}

/// A chunk is left out when it is too long, is bytecode (it starts with ESC), holds the byte
/// that would truncate it on some platforms, or was kept already.
pub open spec fn left_out(chunk: Seq<u8>, seen: Seq<Seq<u8>>) -> bool {
    ||| chunk.len() > MAX_CHUNK
    ||| (chunk.len() > 0 && chunk[0] == 0x1b)
    ||| chunk.contains(0x1a)
    ||| seen.contains(chunk)
}

/// The chunks kept from `rest`, given those `seen` before and how many of this file's were
/// `kept` already, and the framing error that stopped the reading, if one did.
#[verifier::opaque]
pub open spec fn selected(rest: Seq<u8>, seen: Seq<Seq<u8>>, kept: nat) -> (Seq<Seq<u8>>, Option<Framing>)
    decreases rest.len(),
{
    if kept >= MAX_PER_SOURCE {
        (Seq::empty(), None)
    } else {
        match newline_in(rest) {
            None => (Seq::empty(), None),
            Some(newline) => match usize_of(rest.subrange(0, newline)) {
                None => (Seq::empty(), Some(Framing::Malformed)),
                Some(len) => {
                    let body = rest.subrange(newline + 1, rest.len() as int);
                    if body.len() < len {
                        (Seq::empty(), Some(Framing::Truncated))
                    } else {
                        let chunk = body.subrange(0, len as int);
                        let after = body.subrange(len as int, body.len() as int);
                        if 0 <= newline < rest.len() {
                            if left_out(chunk, seen) {
                                selected(after, seen, kept)
                            } else {
                                let more = selected(after, seen.push(chunk), kept + 1);
                                (seq![chunk] + more.0, more.1)
                            }
                        } else {
                            (Seq::empty(), None)
                        }
                    }
                },
            },
        }
    }
}

/// One frame read from `rest`: its chunk, and what follows it.
proof fn lemma_selected_frame(rest: Seq<u8>, seen: Seq<Seq<u8>>, kept: nat, newline: int, len: nat)
    requires
        kept < MAX_PER_SOURCE,
        0 <= newline < rest.len(),
        newline_in(rest) == Some(newline),
        usize_of(rest.subrange(0, newline)) == Some(len),
        rest.len() - (newline + 1) >= len,
    ensures
        ({
            let chunk = rest.subrange(newline + 1, newline + 1 + len);
            let after = rest.subrange(newline + 1 + len, rest.len() as int);
            selected(rest, seen, kept) == if left_out(chunk, seen) {
                selected(after, seen, kept)
            } else {
                let more = selected(after, seen.push(chunk), kept + 1);
                (seq![chunk] + more.0, more.1)
            }
        }),
{
    reveal(selected);
    let body = rest.subrange(newline + 1, rest.len() as int);
    assert(body.subrange(0, len as int) =~= rest.subrange(newline + 1, newline + 1 + len));
    assert(body.subrange(len as int, body.len() as int) =~= rest.subrange(newline + 1 + len, rest.len() as int));
}

/// What `usize::from_str` reads from `text`.
pub fn parse_usize(text: &[u8]) -> (value: Option<usize>)
    ensures
        match value {
            Some(v) => usize_of(text@) == Some(v as nat),
            None => usize_of(text@) is None,
        },
{
    let first: usize = if text.len() > 0 && text[0] == 0x2b { 1 } else { 0 };
    let ghost digits = unsigned_digits(text@);
    proof {
        assert(digits =~= text@.subrange(first as int, text@.len() as int));
    }
    if first == text.len() {
        return None;
    }
    let mut value: usize = 0;
    let mut i = first;
    proof {
        assert(text@.subrange(first as int, first as int) =~= Seq::<u8>::empty());
    }
    while i < text.len()
        invariant
            first <= i <= text@.len(),
            first == (if text@.len() > 0 && text@[0] == 0x2b { 1int } else { 0int }),
            digits == unsigned_digits(text@),
            digits == text@.subrange(first as int, text@.len() as int),
            forall|k: int| first <= k < i ==> 0x30 <= #[trigger] text@[k] <= 0x39,
            value == digits_value(text@.subrange(first as int, i as int)),
        decreases text@.len() - i,
    {
        let byte = text[i];
        if byte < 0x30 || byte > 0x39 {
            proof {
                assert(digits[i - first] == byte);
                assert(!(0x30 <= digits[i - first] <= 0x39));
            }
            return None;
        }
        let digit = (byte - 0x30) as usize;
        proof {
            assert(text@.subrange(first as int, i + 1).drop_last() =~= text@.subrange(first as int, i as int));
            assert(digits_value(text@.subrange(first as int, i + 1)) == value * 10 + digit);
        }
        match value.checked_mul(10) {
            Some(tens) => match tens.checked_add(digit) {
                Some(next) => {
                    value = next;
                },
                None => {
                    proof {
                        lemma_overflow(text@, first as int, i as int);
                    }
                    return None;
                },
            },
            None => {
                proof {
                    lemma_overflow(text@, first as int, i as int);
                }
                return None;
            },
        }
        i += 1;
    }
    proof {
        assert(text@.subrange(first as int, i as int) =~= digits);
        assert forall|k: int| 0 <= k < digits.len() implies 0x30 <= #[trigger] digits[k] <= 0x39 by {
            assert(digits[k] == text@[first + k]);
        }
    }
    Some(value)
}

/// Once the digits read so far are worth more than a `usize` holds, the text reads as nothing.
proof fn lemma_overflow(text: Seq<u8>, first: int, i: int)
    requires
        0 <= first <= i < text.len(),
        first == (if text.len() > 0 && text[0] == 0x2b { 1int } else { 0int }),
        forall|k: int| first <= k <= i ==> 0x30 <= #[trigger] text[k] <= 0x39,
        digits_value(text.subrange(first, i + 1)) > usize::MAX,
    ensures
        usize_of(text) is None,
{
    let digits = text.subrange(first, text.len() as int);
    assert(unsigned_digits(text) =~= digits);
    if forall|k: int| 0 <= k < digits.len() ==> 0x30 <= #[trigger] digits[k] <= 0x39 {
        lemma_digits_grow(digits, i - first + 1);
        assert(digits.subrange(0, i - first + 1) =~= text.subrange(first, i + 1));
    }
}

/// A longer run of digits is worth at least as much as any of its prefixes.
proof fn lemma_digits_grow(digits: Seq<u8>, n: int)
    requires
        0 <= n <= digits.len(),
        forall|i: int| 0 <= i < digits.len() ==> 0x30 <= #[trigger] digits[i] <= 0x39,
    ensures
        digits_value(digits.subrange(0, n)) <= digits_value(digits),
    decreases digits.len() - n,
{
    if n < digits.len() {
        lemma_digits_grow(digits, n + 1);
        assert(digits.subrange(0, n + 1).drop_last() =~= digits.subrange(0, n));
    } else {
        assert(digits.subrange(0, n) =~= digits);
    }
}

/// Whether `needle` is one of `seen`.
fn seen_before(seen: &Vec<Vec<u8>>, needle: &[u8]) -> (found: bool)
    ensures
        found == views(seen@).contains(needle@),
{
    let ghost view = views(seen@);
    let mut i: usize = 0;
    while i < seen.len()
        invariant
            i <= seen@.len(),
            view == views(seen@),
            forall|k: int| 0 <= k < i ==> view[k] != needle@,
        decreases seen@.len() - i,
    {
        if same_bytes(seen[i].as_slice(), needle) {
            proof {
                assert(view[i as int] == needle@);
            }
            return true;
        }
        i += 1;
    }
    false
}

/// Whether `byte` occurs in `bytes`.
fn holds_byte(bytes: &[u8], byte: u8) -> (found: bool)
    ensures
        found == bytes@.contains(byte),
{
    let mut i: usize = 0;
    while i < bytes.len()
        invariant
            i <= bytes@.len(),
            forall|k: int| 0 <= k < i ==> bytes@[k] != byte,
        decreases bytes@.len() - i,
    {
        if bytes[i] == byte {
            proof {
                assert(bytes@[i as int] == byte);
            }
            return true;
        }
        i += 1;
    }
    false
}

/// What reading on from one frame gives, given its chunk and what follows it.
pub open spec fn after_frame(chunk: Seq<u8>, after: Seq<u8>, seen: Seq<Seq<u8>>, kept: nat) -> (Seq<Seq<u8>>, Option<Framing>) {
    if left_out(chunk, seen) {
        selected(after, seen, kept)
    } else {
        let more = selected(after, seen.push(chunk), kept + 1);
        (seq![chunk] + more.0, more.1)
    }
}

/// The frame at `pos`: where its chunk starts and how long it is, or nothing when no line
/// break is left, or the framing error.
#[verifier::spinoff_prover]
#[verifier::rlimit(30)]
fn read_frame(data: &[u8], pos: usize) -> (frame: Result<Option<(usize, usize)>, Framing>)
    requires
        pos <= data@.len(),
    ensures
        ({
            let rest = data@.subrange(pos as int, data@.len() as int);
            match frame {
                Ok(None) => forall|seen: Seq<Seq<u8>>, kept: nat|
                    kept < MAX_PER_SOURCE ==> #[trigger] selected(rest, seen, kept) == (Seq::<Seq<u8>>::empty(), None::<Framing>),
                Err(e) => forall|seen: Seq<Seq<u8>>, kept: nat|
                    kept < MAX_PER_SOURCE ==> #[trigger] selected(rest, seen, kept) == (Seq::<Seq<u8>>::empty(), Some(e)),
                Ok(Some((start, len))) => {
                    &&& pos < start
                    &&& start + len <= data@.len()
                    &&& forall|seen: Seq<Seq<u8>>, kept: nat|
                        kept < MAX_PER_SOURCE ==> #[trigger] selected(rest, seen, kept) == after_frame(
                            data@.subrange(start as int, start + len),
                            data@.subrange(start + len, data@.len() as int),
                            seen,
                            kept,
                        )
                },
            }
        }),
{
    reveal(selected);
    let ghost rest = data@.subrange(pos as int, data@.len() as int);
    let mut newline = pos;
    while newline < data.len() && data[newline] != 0x0a
        invariant
            pos <= newline <= data@.len(),
            forall|k: int| pos <= k < newline ==> data@[k] != 0x0a,
        decreases data@.len() - newline,
    {
        newline += 1;
    }
    if newline == data.len() {
        proof {
            assert forall|i: int| 0 <= i < rest.len() implies rest[i] != 0x0a by {
                assert(rest[i] == data@[pos + i]);
            }
            assert(newline_in(rest) is None);
        }
        return Ok(None);
    }
    let ghost nl = newline - pos;
    proof {
        assert(rest[nl] == 0x0a);
        assert forall|j: int| 0 <= j < nl implies rest[j] != 0x0a by {
            assert(rest[j] == data@[pos + j]);
        }
        let c = choose|i: int| 0 <= i < rest.len() && rest[i] == 0x0a && forall|j: int| 0 <= j < i ==> rest[j] != 0x0a;
        if c < nl {
            assert(rest[c] == 0x0a);
        } else if c > nl {
            assert(rest[nl] != 0x0a);
        }
        assert(newline_in(rest) == Some(nl));
        assert(rest.subrange(0, nl) =~= data@.subrange(pos as int, newline as int));
    }
    let len = match parse_usize(vstd::slice::slice_subrange(data, pos, newline)) {
        Some(len) => len,
        None => {
            return Err(Framing::Malformed);
        },
    };
    let start = newline + 1;
    if data.len() - start < len {
        proof {
            assert(rest.subrange(nl + 1, rest.len() as int).len() == data@.len() - start);
        }
        return Err(Framing::Truncated);
    }
    proof {
        assert forall|seen: Seq<Seq<u8>>, kept: nat| kept < MAX_PER_SOURCE implies #[trigger] selected(rest, seen, kept)
            == after_frame(
            data@.subrange(start as int, start + len),
            data@.subrange(start + len, data@.len() as int),
            seen,
            kept,
        ) by {
            lemma_selected_frame(rest, seen, kept, nl, len as nat);
            assert(rest.subrange(nl + 1, nl + 1 + len) =~= data@.subrange(start as int, start + len));
            assert(rest.subrange(nl + 1 + len, rest.len() as int) =~= data@.subrange(start + len, data@.len() as int));
        }
    }
    Ok(Some((start, len)))
}

/// The chunks of a capture file worth keeping, in order, each remembered in `seen`; and the
/// framing error that stopped the reading, if one did. The chunks before it are kept.
pub fn select_chunks(data: &[u8], seen: &mut Vec<Vec<u8>>) -> (result: (Vec<Vec<u8>>, Option<Framing>))
    ensures
        views(result.0@) == selected(data@, views(old(seen)@), 0).0,
        result.1 == selected(data@, views(old(seen)@), 0).1,
        views(final(seen)@) == views(old(seen)@) + views(result.0@),
{
    let ghost seen0 = views(old(seen)@);
    let ghost target = selected(data@, seen0, 0);
    let mut out: Vec<Vec<u8>> = Vec::new();
    let mut pos: usize = 0;
    proof {
        assert(data@.subrange(0, data@.len() as int) =~= data@);
        assert(views(out@) =~= Seq::<Seq<u8>>::empty());
        assert(seen0 + views(out@) =~= seen0);
    }
    loop
        invariant
            seen0 == views(old(seen)@),
            target == selected(data@, seen0, 0),
            pos <= data@.len(),
            out@.len() <= MAX_PER_SOURCE,
            views(seen@) == seen0 + views(out@),
            target.0 == views(out@) + selected(data@.subrange(pos as int, data@.len() as int), views(seen@), out@.len() as nat).0,
            target.1 == selected(data@.subrange(pos as int, data@.len() as int), views(seen@), out@.len() as nat).1,
        decreases data@.len() - pos,
    {
        let ghost rest = data@.subrange(pos as int, data@.len() as int);
        let ghost seen_now = views(seen@);
        let ghost outv = views(out@);
        if out.len() >= MAX_PER_SOURCE {
            proof {
                reveal(selected);
                assert(outv + Seq::<Seq<u8>>::empty() =~= outv);
            }
            return (out, None);
        }
        let frame = read_frame(data, pos);
        let (start, len) = match frame {
            Ok(Some(found)) => found,
            Ok(None) => {
                proof {
                    assert(selected(rest, seen_now, outv.len() as nat) == (Seq::<Seq<u8>>::empty(), None::<Framing>));
                    assert(outv + Seq::<Seq<u8>>::empty() =~= outv);
                }
                return (out, None);
            },
            Err(e) => {
                proof {
                    assert(selected(rest, seen_now, outv.len() as nat) == (Seq::<Seq<u8>>::empty(), Some(e)));
                    assert(outv + Seq::<Seq<u8>>::empty() =~= outv);
                }
                return (out, Some(e));
            },
        };
        proof {
            assert(frame == Ok::<Option<(usize, usize)>, Framing>(Some((start, len))));
            assert(start + len <= data@.len());
            assert(data@.len() == data.len());
        }
        let chunk = vstd::slice::slice_subrange(data, start, start + len);
        let next = start + len;
        proof {
            assert(selected(rest, seen_now, outv.len() as nat) == after_frame(chunk@, data@.subrange(next as int, data@.len() as int), seen_now, outv.len() as nat));
        }
        let skip = chunk.len() > MAX_CHUNK || (chunk.len() > 0 && chunk[0] == 0x1b) || holds_byte(chunk, 0x1a)
            || seen_before(seen, chunk);
        if !skip {
            let kept = vstd::slice::slice_to_vec(chunk);
            seen.push(vstd::slice::slice_to_vec(chunk));
            out.push(kept);
            proof {
                assert(views(seen@) =~= seen_now.push(chunk@));
                assert(views(out@) =~= outv.push(chunk@));
                assert(seen0 + outv.push(chunk@) =~= (seen0 + outv).push(chunk@));
                let more = selected(data@.subrange(next as int, data@.len() as int), seen_now.push(chunk@), (outv.len() + 1) as nat);
                assert(outv + (seq![chunk@] + more.0) =~= outv.push(chunk@) + more.0);
            }
        }
        pos = next;
    }
}

} // verus!
