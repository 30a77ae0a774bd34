//! Where tokens lie: every token the lexer reads starts where the lexer stood or later, ends
//! inside the source, and takes at least one byte unless it is `<eof>`.
use vstd::prelude::*;

use crate::token::TokenKind;

use super::bytes::{is_line_break, name_part, name_start, BACKSLASH, EQUALS, LBRACKET, RBRACKET};
use crate::near::{equals_after_first, is_string_text};
use super::grammar::{
    bracket_level, comment_end, equals_run, escape, lemma_equals_run_bound, lex, line_end, long_open,
    long_scan, name_end, numeral_end, numeral_scan, str_scan, token_at, Escape, Lexed, Lexeme,
    LongScan, StrScan,
};

verus! {

proof fn lemma_line_end_within(s: Seq<u8>, p: int)
    requires
        0 <= p <= s.len(),
    ensures
        p <= line_end(s, p) <= s.len(),
    decreases s.len() - p,
{
    if p < s.len() && !is_line_break(s[p]) {
        lemma_line_end_within(s, p + 1);
    }
}

proof fn lemma_name_end_within(s: Seq<u8>, p: int)
    requires
        0 <= p <= s.len(),
    ensures
        p <= name_end(s, p) <= s.len(),
    decreases s.len() - p,
{
    if p < s.len() && name_part(s[p]) {
        lemma_name_end_within(s, p + 1);
    }
}

proof fn lemma_numeral_scan_within(s: Seq<u8>, i: int, hex: bool)
    requires
        0 <= i <= s.len(),
    ensures
        i <= numeral_scan(s, i, hex) <= s.len(),
    decreases s.len() - i,
{
    if i < s.len() {
        let b = s[i];
        if (hex && (b == 0x70 || b == 0x50)) || (!hex && (b == 0x65 || b == 0x45)) {
            let j = i + 1;
            let k = if j < s.len() && (s[j] == 0x2b || s[j] == 0x2d) {
                j + 1
            } else {
                j
            };
            lemma_numeral_scan_within(s, k, hex);
        } else if super::bytes::is_hex_digit(b) || b == 0x2e {
            lemma_numeral_scan_within(s, i + 1, hex);
        }
    }
}

proof fn lemma_numeral_end_within(s: Seq<u8>, p: int)
    requires
        0 <= p < s.len(),
    ensures
        p < numeral_end(s, p) <= s.len(),
{
    let hex = p + 1 < s.len() && s[p] == 0x30 && (s[p + 1] == 0x78 || s[p + 1] == 0x58);
    lemma_numeral_scan_within(
        s,
        if hex {
            p + 2
        } else {
            p + 1
        },
        hex,
    );
}

proof fn lemma_long_scan_within(s: Seq<u8>, p: int, level: int)
    requires
        0 <= p,
        level >= 2,
    ensures
        long_scan(s, p, level) matches LongScan::Closed { end, .. } ==> p < end <= s.len(),
    decreases s.len() - p,
{
    if p < s.len() {
        if s[p] == RBRACKET {
            let (found, q) = bracket_level(s, p);
            lemma_equals_run_bound(s, p + 1);
            if found != level {
                lemma_long_scan_within(s, q, level);
            }
        } else if is_line_break(s[p]) {
            lemma_long_scan_within(s, super::grammar::break_end(s, p), level);
        } else {
            lemma_long_scan_within(s, p + 1, level);
        }
    }
}

proof fn lemma_str_scan_within(s: Seq<u8>, p: int, delimiter: u8)
    requires
        0 <= p,
    ensures
        str_scan(s, p, delimiter) matches StrScan::Closed { end, .. } ==> p < end <= s.len(),
    decreases s.len() - p,
{
    if p < s.len() && s[p] != delimiter && !is_line_break(s[p]) {
        if s[p] == BACKSLASH {
            if let Escape::Decoded { end, .. } = escape(s, p) {
                if p < end <= s.len() {
                    lemma_str_scan_within(s, end, delimiter);
                }
            }
        } else {
            lemma_str_scan_within(s, p + 1, delimiter);
        }
    }
}

/// The token that starts at a byte of the source takes at least that byte and ends inside
/// the source.
proof fn lemma_token_at_within(s: Seq<u8>, p: int)
    requires
        0 <= p < s.len(),
    ensures
        token_at(s, p) matches Lexed::Token { start, end, .. } ==> start == p && p < end <= s.len(),
{
    reveal(token_at);
    let b = s[p];
    if b == LBRACKET {
        lemma_equals_run_bound(s, p + 1);
        let (level, q) = bracket_level(s, p);
        if level >= 2 {
            let o = long_open(s, q);
            lemma_long_scan_within(s, o, level);
        }
    } else if b == 0x22 || b == 0x27 {
        lemma_str_scan_within(s, p + 1, b);
    } else if b == 0x2e {
        if p + 1 < s.len() && super::bytes::is_digit(s[p + 1]) {
            lemma_numeral_end_within(s, p + 1);
        }
    } else if super::bytes::is_digit(b) {
        lemma_numeral_end_within(s, p);
    } else if name_start(b) {
        lemma_name_end_within(s, p + 1);
        assert(name_end(s, p) == name_end(s, p + 1));
    }
}

/// A token read from `q` starts at `q` or later, ends inside the source, and is at least one
/// byte long unless it is `<eof>`.
pub proof fn lemma_lex_span(s: Seq<u8>, q: int)
    requires
        0 <= q <= s.len(),
    ensures
        lex(s, q) matches Lexed::Token { lexeme, start, end } ==> q <= start <= end <= s.len() && (lexeme
            == Lexeme::Fixed(TokenKind::Eof) || start < end),
    decreases s.len() - q,
{
    if q < s.len() {
        let b = s[q];
        if is_line_break(b) {
            lemma_lex_span(s, super::grammar::break_end(s, q));
        } else if super::bytes::is_blank(b) {
            lemma_lex_span(s, q + 1);
        } else if b == 0x2d && q + 1 < s.len() && s[q + 1] == 0x2d {
            if let Ok(r) = comment_end(s, q + 2) {
                if q < r <= s.len() {
                    lemma_lex_span(s, r);
                }
            }
        } else {
            lemma_token_at_within(s, q);
        }
    }
}

proof fn lemma_equals_counted(s: Seq<u8>, p: int, end: int)
    requires
        0 <= p < end <= s.len(),
        p + 1 + equals_run(s, p + 1) < end,
        s[p + 1 + equals_run(s, p + 1)] != EQUALS,
    ensures
        equals_after_first(s.subrange(p, end)) == equals_run(s, p + 1),
    decreases equals_run(s, p + 1),
{
    let t = s.subrange(p, end);
    if s[p + 1] == EQUALS {
        assert(t.drop_first() =~= s.subrange(p + 1, end));
        lemma_equals_counted(s, p + 1, end);
    }
}

/// A string token is written with a quote, or with a long bracket.
pub proof fn lemma_lex_string_text(s: Seq<u8>, q: int)
    requires
        0 <= q <= s.len(),
    ensures
        lex(s, q) matches Lexed::Token { lexeme: Lexeme::Str(v), start, end } ==> is_string_text(s.subrange(start, end)),
        lex(s, q) matches Lexed::Token { lexeme: Lexeme::Fixed(kind), .. } ==> !(kind is Str),
    decreases s.len() - q,
{
    if q < s.len() {
        let b = s[q];
        if is_line_break(b) {
            lemma_lex_string_text(s, super::grammar::break_end(s, q));
        } else if super::bytes::is_blank(b) {
            lemma_lex_string_text(s, q + 1);
        } else if b == 0x2d && q + 1 < s.len() && s[q + 1] == 0x2d {
            if let Ok(r) = comment_end(s, q + 2) {
                if q < r <= s.len() {
                    lemma_lex_string_text(s, r);
                }
            }
        } else {
            lemma_token_at_within(s, q);
            reveal(token_at);
            if b == LBRACKET {
                lemma_equals_run_bound(s, q + 1);
                let (level, r) = bracket_level(s, q);
                if level >= 2 {
                    let o = long_open(s, r);
                    lemma_long_scan_within(s, o, level);
                    if let LongScan::Closed { end, .. } = long_scan(s, o, level) {
                        lemma_equals_counted(s, q, end);
                    }
                }
            } else if b == 0x2e {
            } else if super::bytes::is_digit(b) {
            } else if name_start(b) {
            }
        }
    }
}

} // verus!

verus! {

/// A token read from a byte of the source is never the end of input.
proof fn lemma_token_at_not_eof(s: Seq<u8>, p: int)
    requires
        0 <= p < s.len(),
    ensures
        !(token_at(s, p) matches Lexed::Token { lexeme: Lexeme::Fixed(TokenKind::Eof), .. }),
{
    reveal(token_at);
}

/// The end of input is sticky: where the lexer gives `<eof>`, it gives it again from the
/// end of that token, and so for ever after.
pub proof fn lemma_end_of_input_is_sticky(s: Seq<u8>, p: int)
    requires
        0 <= p,
        lex(s, p) matches Lexed::Token { lexeme: Lexeme::Fixed(TokenKind::Eof), .. },
    ensures
        lex(s, p) matches Lexed::Token { end, .. } && lex(s, end) == lex(s, p),
    decreases s.len() - p,
{
    if p < s.len() {
        let b = s[p];
        if is_line_break(b) {
            lemma_end_of_input_is_sticky(s, super::grammar::break_end(s, p));
        } else if super::bytes::is_blank(b) {
            lemma_end_of_input_is_sticky(s, p + 1);
        } else if b == 0x2d && p + 1 < s.len() && s[p + 1] == 0x2d {
            if let Ok(r) = comment_end(s, p + 2) {
                if p < r <= s.len() {
                    lemma_end_of_input_is_sticky(s, r);
                }
            }
        } else {
            lemma_token_at_not_eof(s, p);
        }
    }
}

/// Two successive tokens: the one read from where a token ends starts no earlier than that
/// end, and only the end of input has no bytes.
pub proof fn lemma_successive_tokens(s: Seq<u8>, q: int)
    requires
        0 <= q <= s.len(),
        lex(s, q) is Token,
    ensures
        lex(s, q) matches Lexed::Token { end, .. } && (lex(s, end) matches Lexed::Token { lexeme, start, end: next_end }
            ==> end <= start <= next_end <= s.len() && (lexeme == Lexeme::Fixed(TokenKind::Eof) || start < next_end)),
{
    lemma_lex_span(s, q);
    let end = lex(s, q)->Token_end;
    lemma_lex_span(s, end);
}

} // verus!
