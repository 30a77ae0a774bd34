//! How a syntax error's `near` clause names the token the parser stopped at.
use vstd::prelude::*;

use crate::lexer::bytes::{CR, DQUOTE, EQUALS, LF, QUOTE};
use crate::lexer::error::{Near, NearView};
use crate::token::{symbol_of, TokenKind};

verus! {

/// How many bytes the line break at the front of `bytes` takes: `\n\r` and `\r\n` are one.
pub open spec fn newline_len_of(bytes: Seq<u8>) -> int {
    if bytes.len() >= 2 && ((bytes[0] == LF && bytes[1] == CR) || (bytes[0] == CR && bytes[1] == LF)) {
        2
    } else if bytes.len() >= 1 && (bytes[0] == LF || bytes[0] == CR) {
        1
    } else {
        0
    }
}

/// How many `=` follow the first byte of `text`.
pub open spec fn equals_after_first(text: Seq<u8>) -> int
    decreases text.len(),
{
    if text.len() < 2 || text[1] != EQUALS {
        0
    } else {
        1 + equals_after_first(text.drop_first())
    }
}

/// What a string token shows in a `near` clause. A short string shows its delimiters around
/// the value, so the escapes it was written with are already resolved. A long bracket shows
/// its own text instead, minus the line break that follows the opening bracket and never
/// belonged to the value.
pub open spec fn string_near_of(text: Seq<u8>, value: Seq<u8>) -> Seq<u8> {
    let delimiter = text[0];
    if delimiter == DQUOTE || delimiter == QUOTE {
        seq![delimiter] + value + seq![delimiter]
    } else {
        let open = equals_after_first(text) + 2;
        text.subrange(0, open) + text.subrange(
            open + newline_len_of(text.subrange(open, text.len() as int)),
            text.len() as int,
        )
    }
}

/// The `near` clause for a token whose source text is `text`.
pub open spec fn near_of(kind: TokenKind, text: Seq<u8>) -> NearView {
    match kind {
        TokenKind::Eof => NearView::Eof,
        // A NUL byte token carries the same value as the marker for "no token at all".
        TokenKind::Byte(0) => NearView::Absent,
        TokenKind::Str(value) => NearView::Buffer(string_near_of(text, value@)),
        TokenKind::Name(_) | TokenKind::Int(_) | TokenKind::Float(_) => NearView::Buffer(text),
        _ => NearView::Buffer(symbol_of(kind)),
    }
}

/// A string token's text opens with a quote, or with a long bracket `[`, `=`s and `[`.
pub open spec fn is_string_text(text: Seq<u8>) -> bool {
    &&& text.len() >= 1
    &&& (text[0] == DQUOTE || text[0] == QUOTE || equals_after_first(text) + 2 <= text.len())
}

/// How many bytes the line break at the front of `bytes` takes, if there is one.
pub fn newline_len(bytes: &[u8]) -> (len: usize)
    ensures
        len == newline_len_of(bytes@),
{
    if bytes.len() >= 2 && ((bytes[0] == LF && bytes[1] == CR) || (bytes[0] == CR && bytes[1] == LF)) {
        2
    } else if bytes.len() >= 1 && (bytes[0] == LF || bytes[0] == CR) {
        1
    } else {
        0
    }
}

proof fn lemma_equals_bound(text: Seq<u8>)
    ensures
        0 <= equals_after_first(text),
        text.len() >= 1 ==> equals_after_first(text) <= text.len() - 1,
    decreases text.len(),
{
    if text.len() >= 2 && text[1] == EQUALS {
        lemma_equals_bound(text.drop_first());
    }
}

/// What a string token shows in a `near` clause; `text` is how the token was written.
pub fn string_near(text: &[u8], value: &[u8]) -> (shown: Vec<u8>)
    requires
        is_string_text(text@),
    ensures
        shown@ == string_near_of(text@, value@),
{
    let delimiter = text[0];

    if delimiter == DQUOTE || delimiter == QUOTE {
        let mut out = Vec::new();
        out.push(delimiter);
        out.extend_from_slice(value);
        out.push(delimiter);
        proof {
            assert(out@ =~= seq![delimiter] + value@ + seq![delimiter]);
        }
        return out;
    }
    let mut eqs: usize = 0;
    proof {
        assert(text@.subrange(0, text@.len() as int) =~= text@);
    }
    while 1 + eqs < text.len() && text[1 + eqs] == EQUALS
        invariant
            0 <= eqs,
            1 + eqs <= text@.len(),
            text@.len() == text.len(),
            equals_after_first(text@) == eqs + equals_after_first(text@.subrange(eqs as int, text@.len() as int)),
        decreases text@.len() - eqs,
    {
        proof {
            let rest = text@.subrange(eqs as int, text@.len() as int);
            assert(rest.drop_first() =~= text@.subrange(eqs + 1, text@.len() as int));
        }
        eqs += 1;
    }
    proof {
        let rest = text@.subrange(eqs as int, text@.len() as int);
        assert(equals_after_first(rest) == 0);
        lemma_equals_bound(text@);
    }
    let open = eqs + 2;
    let skip = newline_len(vstd::slice::slice_subrange(text, open, text.len()));
    let mut out = vstd::slice::slice_to_vec(vstd::slice::slice_subrange(text, 0, open));
    out.extend_from_slice(vstd::slice::slice_subrange(text, open + skip, text.len()));
    out
}

/// The `near` clause for a token whose source text is `text`.
pub fn near(kind: &TokenKind<'_>, text: &[u8]) -> (shown: Near)
    requires
        kind is Str ==> is_string_text(text@),
    ensures
        shown@ == near_of(*kind, text@),
{
    match kind {
        TokenKind::Eof => Near::Eof,
        TokenKind::Byte(0) => Near::Absent,
        TokenKind::Str(value) => Near::Buffer(string_near(text, value.as_slice())),
        TokenKind::Name(_) | TokenKind::Int(_) | TokenKind::Float(_) => Near::Buffer(
            vstd::slice::slice_to_vec(text),
        ),
        written => Near::Buffer(written.symbol()),
    }
}

} // verus!
