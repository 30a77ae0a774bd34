//! The lexical grammar, as functions on the source bytes.
//!
//! Positions are `int`s into the source. Every function here is total; the exec scanners
//! are proved to agree with them.
use vstd::prelude::*;
use vstd::arithmetic::power2::pow2;

use crate::token::{FloatValue, TokenKind, keyword_of};

use super::bytes::{
    BACKSLASH, COLON, DOT, DQUOTE, EQUALS, GREATER, LBRACE, LBRACKET, LESS, LF, MINUS, PLUS, QUOTE,
    RBRACE, RBRACKET, SLASH, TILDE, CR, TAB, VTAB, ZERO, hex_digit_value, is_blank, is_digit,
    is_hex_digit, is_line_break, name_part, name_start,
};
use super::error::{LexErrorKind, LexFault, NearView};

verus! {

/// What a token turned out to be, with the borrowed and owned payloads seen as sequences.
pub enum Lexeme {
    Name(Seq<u8>),
    Str(Seq<u8>),
    /// A decimal float numeral, as written.
    Decimal(Seq<u8>),
    /// Everything that carries no bytes: the integers, hexadecimal floats, words and symbols.
    Fixed(TokenKind<'static>),
}

/// What the lexer makes of the source from one position.
pub enum Lexed {
    Token { lexeme: Lexeme, start: int, end: int },
    Fault(LexFault),
}

impl<'a> TokenKind<'a> {
    /// Whether this token kind is the one `lexeme` describes.
    pub open spec fn is(&self, lexeme: Lexeme) -> bool {
        match lexeme {
            Lexeme::Name(word) => self matches TokenKind::Name(name) && name@ == word,
            Lexeme::Str(value) => self matches TokenKind::Str(bytes) && bytes@ == value,
            Lexeme::Decimal(text) => self matches TokenKind::Float(FloatValue::Decimal(t)) && t@
                == text,
            Lexeme::Fixed(kind) => *self == kind,
        }
    }
}

/// Where a line break starting at `p` ends: `\r\n` and `\n\r` are one break, `\n\n` is two.
pub open spec fn break_end(s: Seq<u8>, p: int) -> int {
    if p + 1 < s.len() && is_line_break(s[p + 1]) && s[p + 1] != s[p] {
        p + 2
    } else {
        p + 1
    }
}

/// How many `=` follow from `i` on.
pub open spec fn equals_run(s: Seq<u8>, i: int) -> nat
    decreases s.len() - i,
{
    if 0 <= i < s.len() && s[i] == EQUALS {
        1 + equals_run(s, i + 1)
    } else {
        0
    }
}

pub proof fn lemma_equals_run_bound(s: Seq<u8>, i: int)
    requires
        0 <= i <= s.len(),
    ensures
        i + equals_run(s, i) <= s.len(),
    decreases s.len() - i,
{
    if i < s.len() && s[i] == EQUALS {
        lemma_equals_run_bound(s, i + 1);
    }
}

/// A `[` or `]` at `p` and the `=` after it: the level (`count + 2` for a complete
/// delimiter, 1 for a lone bracket, 0 for a run of `=` with no second bracket), and where
/// the scan stopped, which is on the second bracket when there is one.
pub open spec fn bracket_level(s: Seq<u8>, p: int) -> (int, int) {
    let count = equals_run(s, p + 1) as int;
    let q = p + 1 + count;
    if q < s.len() && s[q] == s[p] {
        (count + 2, q)
    } else if count == 0 {
        (1, q)
    } else {
        (0, q)
    }
}

/// How the body of a long bracket ends.
pub enum LongScan {
    /// The content, with every line break read as `\n`, and the offset just past the closer.
    Closed { content: Seq<u8>, end: int },
    Unclosed,
}

pub open spec fn long_prepend(bytes: Seq<u8>, rest: LongScan) -> LongScan {
    match rest {
        LongScan::Closed { content, end } => LongScan::Closed { content: bytes + content, end },
        LongScan::Unclosed => LongScan::Unclosed,
    }
}

/// The body of a long bracket of `level`, from `p`.
pub open spec fn long_scan(s: Seq<u8>, p: int, level: int) -> LongScan
    decreases s.len() - p,
{
    if p < 0 || p >= s.len() {
        LongScan::Unclosed
    } else if s[p] == RBRACKET {
        let (found, q) = bracket_level(s, p);
        if found == level {
            LongScan::Closed { content: Seq::empty(), end: q + 1 }
        } else {
            proof {
                lemma_equals_run_bound(s, p + 1);
            }
            long_prepend(s.subrange(p, q), long_scan(s, q, level))
        }
    } else if is_line_break(s[p]) {
        long_prepend(seq![LF], long_scan(s, break_end(s, p), level))
    } else {
        long_prepend(seq![s[p]], long_scan(s, p + 1, level))
    }
}

/// Where the body of a long bracket starts, given the offset of the opener's second bracket:
/// a line break right after the opener does not belong to the content.
pub open spec fn long_open(s: Seq<u8>, q: int) -> int {
    if q + 1 < s.len() && is_line_break(s[q + 1]) {
        break_end(s, q + 1)
    } else {
        q + 1
    }
}

/// The first line break at or after `p`, or the end.
pub open spec fn line_end(s: Seq<u8>, p: int) -> int
    decreases s.len() - p,
{
    if p < 0 || p >= s.len() || is_line_break(s[p]) {
        p
    } else {
        line_end(s, p + 1)
    }
}

/// Where a comment whose `--` ends at `q` ends, or why it never does.
pub open spec fn comment_end(s: Seq<u8>, q: int) -> Result<int, LexFault> {
    if q < s.len() && s[q] == LBRACKET {
        let (level, r) = bracket_level(s, q);
        if level >= 2 {
            match long_scan(s, long_open(s, r), level) {
                LongScan::Closed { end, .. } => Ok(end),
                LongScan::Unclosed => Err(
                    LexFault {
                        kind: LexErrorKind::UnfinishedLongComment { open_at: q as u32 },
                        at: s.len() as int,
                        near: NearView::Eof,
                    },
                ),
            }
        } else {
            Ok(line_end(s, r))
        }
    } else {
        Ok(line_end(s, q))
    }
}

/// Lua's `\u{...}` value as bytes: UTF-8 as first specified, up to six bytes and `0x7FFFFFFF`.
pub open spec fn utf8_bytes(v: u32) -> Seq<u8> {
    if v < 0x80 {
        seq![v as u8]
    } else if v < 0x800 {
        seq![(0xc0 | (v >> 6)) as u8, (0x80 | (v & 0x3f)) as u8]
    } else if v < 0x10000 {
        seq![(0xe0 | (v >> 12)) as u8, (0x80 | ((v >> 6) & 0x3f)) as u8, (0x80 | (v & 0x3f)) as u8]
    } else if v < 0x200000 {
        seq![
            (0xf0 | (v >> 18)) as u8,
            (0x80 | ((v >> 12) & 0x3f)) as u8,
            (0x80 | ((v >> 6) & 0x3f)) as u8,
            (0x80 | (v & 0x3f)) as u8,
        ]
    } else if v < 0x4000000 {
        seq![
            (0xf8 | (v >> 24)) as u8,
            (0x80 | ((v >> 18) & 0x3f)) as u8,
            (0x80 | ((v >> 12) & 0x3f)) as u8,
            (0x80 | ((v >> 6) & 0x3f)) as u8,
            (0x80 | (v & 0x3f)) as u8,
        ]
    } else {
        seq![
            (0xfc | (v >> 30)) as u8,
            (0x80 | ((v >> 24) & 0x3f)) as u8,
            (0x80 | ((v >> 18) & 0x3f)) as u8,
            (0x80 | ((v >> 12) & 0x3f)) as u8,
            (0x80 | ((v >> 6) & 0x3f)) as u8,
            (0x80 | (v & 0x3f)) as u8,
        ]
    }
}

/// The one-letter escapes.
pub open spec fn simple_escape_of(byte: u8) -> Option<u8> {
    if byte == 0x61 {
        Some(0x07u8)
    } else if byte == 0x62 {
        Some(0x08u8)
    } else if byte == 0x66 {
        Some(0x0cu8)
    } else if byte == 0x6e {
        Some(LF)
    } else if byte == 0x72 {
        Some(CR)
    } else if byte == 0x74 {
        Some(TAB)
    } else if byte == 0x76 {
        Some(VTAB)
    } else if byte == BACKSLASH || byte == DQUOTE || byte == QUOTE {
        Some(byte)
    } else {
        None
    }
}

/// The offset after the run of blanks and line breaks that `\z` drops.
pub open spec fn z_skip(s: Seq<u8>, i: int) -> int
    decreases s.len() - i,
{
    if 0 <= i < s.len() && is_line_break(s[i]) {
        z_skip(s, break_end(s, i))
    } else if 0 <= i < s.len() && is_blank(s[i]) {
        z_skip(s, i + 1)
    } else {
        i
    }
}

/// The digits of a `\u{...}` escape from `i`, on top of `value`: where they stop and what
/// they are worth, or the offset of the digit that would push the value past `0x7FFFFFFF`.
pub open spec fn utf8_digits(s: Seq<u8>, i: int, value: int) -> Result<(int, int), int>
    decreases s.len() - i,
{
    if 0 <= i < s.len() && is_hex_digit(s[i]) {
        if value > 0x7ffffff {
            Err(i)
        } else {
            utf8_digits(s, i + 1, value * 16 + hex_digit_value(s[i]))
        }
    } else {
        Ok((i, value))
    }
}

/// What one escape sequence does.
pub enum Escape {
    /// The bytes it stands for, and the offset after it.
    Decoded { bytes: Seq<u8>, end: int },
    /// Why it is refused, and at which offset. The message's `near` shows the string up to
    /// the escape, and then the escape's own bytes up to and including that offset.
    Refused { kind: LexErrorKind, at: int },
}

/// How many decimal digits a `\ddd` escape starting at `p` takes: one to three.
pub open spec fn decimal_escape_len(s: Seq<u8>, p: int) -> int {
    if !(p + 1 < s.len() && is_digit(s[p + 1])) {
        1
    } else if !(p + 2 < s.len() && is_digit(s[p + 2])) {
        2
    } else {
        3
    }
}

/// The escape whose `\` is at `e`.
pub open spec fn escape(s: Seq<u8>, e: int) -> Escape {
    let p = e + 1;
    if p >= s.len() {
        // Nothing follows: the `\` stays, and the string is unfinished.
        Escape::Decoded { bytes: seq![BACKSLASH], end: p }
    } else if s[p] == 0x78 {
        if !(p + 1 < s.len() && is_hex_digit(s[p + 1])) {
            Escape::Refused { kind: LexErrorKind::HexadecimalDigitExpected, at: p + 1 }
        } else if !(p + 2 < s.len() && is_hex_digit(s[p + 2])) {
            Escape::Refused { kind: LexErrorKind::HexadecimalDigitExpected, at: p + 2 }
        } else {
            Escape::Decoded {
                bytes: seq![(hex_digit_value(s[p + 1]) * 16 + hex_digit_value(s[p + 2])) as u8],
                end: p + 3,
            }
        }
    } else if s[p] == 0x75 {
        if !(p + 1 < s.len() && s[p + 1] == LBRACE) {
            Escape::Refused { kind: LexErrorKind::MissingOpenBrace, at: p + 1 }
        } else if !(p + 2 < s.len() && is_hex_digit(s[p + 2])) {
            Escape::Refused { kind: LexErrorKind::HexadecimalDigitExpected, at: p + 2 }
        } else {
            match utf8_digits(s, p + 3, hex_digit_value(s[p + 2]) as int) {
                Err(at) => Escape::Refused { kind: LexErrorKind::Utf8ValueTooLarge, at },
                Ok((i, value)) => if i < s.len() && s[i] == RBRACE {
                    Escape::Decoded { bytes: utf8_bytes(value as u32), end: i + 1 }
                } else {
                    Escape::Refused { kind: LexErrorKind::MissingCloseBrace, at: i }
                },
            }
        }
    } else if s[p] == 0x7a {
        Escape::Decoded { bytes: Seq::empty(), end: z_skip(s, p + 1) }
    } else if is_line_break(s[p]) {
        Escape::Decoded { bytes: seq![LF], end: break_end(s, p) }
    } else if is_digit(s[p]) {
        let n = decimal_escape_len(s, p);
        let value = digits_value(s.subrange(p, p + n));
        if value > 255 {
            Escape::Refused { kind: LexErrorKind::DecimalEscapeTooLarge, at: p + n }
        } else {
            Escape::Decoded { bytes: seq![value as u8], end: p + n }
        }
    } else {
        match simple_escape_of(s[p]) {
            Some(byte) => Escape::Decoded { bytes: seq![byte], end: p + 1 },
            None => Escape::Refused { kind: LexErrorKind::InvalidEscapeSequence, at: p },
        }
    }
}

/// How the rest of a short string reads.
pub enum StrScan {
    /// The value, and the offset after the closing delimiter.
    Closed { value: Seq<u8>, end: int },
    /// Why it is refused, where, and what `near` shows after the opening delimiter
    /// (`None` for the end of the source).
    Broken { kind: LexErrorKind, at: int, near: Option<Seq<u8>> },
}

pub open spec fn str_prepend(bytes: Seq<u8>, rest: StrScan) -> StrScan {
    match rest {
        StrScan::Closed { value, end } => StrScan::Closed { value: bytes + value, end },
        StrScan::Broken { kind, at, near } => StrScan::Broken {
            kind,
            at,
            near: match near {
                Some(tail) => Some(bytes + tail),
                None => None,
            },
        },
    }
}

pub open spec fn min(a: int, b: int) -> int {
    if a <= b {
        a
    } else {
        b
    }
}

/// The rest of a short string closed by `delimiter`, from `p`.
pub open spec fn str_scan(s: Seq<u8>, p: int, delimiter: u8) -> StrScan
    decreases s.len() - p,
{
    if p < 0 || p >= s.len() {
        StrScan::Broken { kind: LexErrorKind::UnfinishedString, at: s.len() as int, near: None }
    } else if s[p] == delimiter {
        StrScan::Closed { value: Seq::empty(), end: p + 1 }
    } else if is_line_break(s[p]) {
        StrScan::Broken { kind: LexErrorKind::UnfinishedString, at: p, near: Some(Seq::empty()) }
    } else if s[p] == BACKSLASH {
        match escape(s, p) {
            Escape::Refused { kind, at } => StrScan::Broken {
                kind,
                at,
                near: Some(s.subrange(p, min(at + 1, s.len() as int))),
            },
            Escape::Decoded { bytes, end } => if p < end <= s.len() {
                str_prepend(bytes, str_scan(s, end, delimiter))
            } else {
                StrScan::Closed { value: Seq::empty(), end: p + 1 }
            },
        }
    } else {
        str_prepend(seq![s[p]], str_scan(s, p + 1, delimiter))
    }
}

/// Where the greedy scan of a numeral's body stops.
pub open spec fn numeral_scan(s: Seq<u8>, i: int, hex: bool) -> int
    decreases s.len() - i,
{
    if 0 <= i < s.len() {
        let b = s[i];
        if (hex && (b == 0x70 || b == 0x50)) || (!hex && (b == 0x65 || b == 0x45)) {
            let j = i + 1;
            let k = if j < s.len() && (s[j] == PLUS || s[j] == MINUS) {
                j + 1
            } else {
                j
            };
            numeral_scan(s, k, hex)
        } else if is_hex_digit(b) || b == DOT {
            numeral_scan(s, i + 1, hex)
        } else {
            i
        }
    } else {
        i
    }
}

/// Where a numeral whose scan begins at `p` ends: a `0x` prefix, the greedy body, and one
/// letter stuck to it, which makes the numeral malformed rather than two tokens.
pub open spec fn numeral_end(s: Seq<u8>, p: int) -> int {
    let hex = p + 1 < s.len() && s[p] == ZERO && (s[p + 1] == 0x78 || s[p + 1] == 0x58);
    let q = numeral_scan(
        s,
        if hex {
            p + 2
        } else {
            p + 1
        },
        hex,
    );
    if 0 <= q < s.len() && name_start(s[q]) {
        q + 1
    } else {
        q
    }
}

/// The number decimal digits spell out.
pub open spec fn digits_value(t: Seq<u8>) -> nat
    decreases t.len(),
{
    if t.len() == 0 {
        0
    } else {
        digits_value(t.drop_last()) * 10 + (t.last() - ZERO) as nat
    }
}

/// The number hexadecimal digits spell out.
pub open spec fn hex_digits_value(t: Seq<u8>) -> nat
    decreases t.len(),
{
    if t.len() == 0 {
        0
    } else {
        hex_digits_value(t.drop_last()) * 16 + hex_digit_value(t.last()) as nat
    }
}

pub open spec fn all_digits(t: Seq<u8>) -> bool {
    forall|i: int| 0 <= i < t.len() ==> is_digit(#[trigger] t[i])
}

pub open spec fn all_hex_digits(t: Seq<u8>) -> bool {
    forall|i: int| 0 <= i < t.len() ==> is_hex_digit(#[trigger] t[i])
}

/// How many decimal digits follow from `i` on.
pub open spec fn digit_run(t: Seq<u8>, i: int) -> nat
    decreases t.len() - i,
{
    if 0 <= i < t.len() && is_digit(t[i]) {
        1 + digit_run(t, i + 1)
    } else {
        0
    }
}

/// The grammar `f64::from_str` documents, for text that starts with a digit or a `.`:
/// `(Digit+ | Digit+ '.' Digit* | Digit* '.' Digit+) Exp?`, `Exp ::= [eE] [+-]? Digit+`.
pub open spec fn float_syntax(t: Seq<u8>) -> bool {
    let a = digit_run(t, 0) as int;
    let dotted = a < t.len() && t[a] == DOT;
    let b = if dotted {
        digit_run(t, a + 1) as int
    } else {
        0
    };
    let i = if dotted {
        a + 1 + b
    } else {
        a
    };
    &&& a + b > 0
    &&& (i == t.len() || exponent_syntax(t, i))
}

/// `[eE] [+-]? Digit+` from `i` to the end.
pub open spec fn exponent_syntax(t: Seq<u8>, i: int) -> bool {
    let j = if i + 1 < t.len() && (t[i + 1] == PLUS || t[i + 1] == MINUS) {
        i + 2
    } else {
        i + 1
    };
    &&& 0 <= i < t.len()
    &&& (t[i] == 0x65 || t[i] == 0x45)
    &&& j < t.len()
    &&& j + digit_run(t, j) == t.len()
}

/// A decimal numeral: an integer unless a `.` or an exponent says otherwise, and a float
/// when the digits will not fit an `i64`.
pub open spec fn decimal_meaning(t: Seq<u8>) -> Option<Lexeme> {
    if t.len() > 0 && all_digits(t) && digits_value(t) <= i64::MAX {
        Some(Lexeme::Fixed(TokenKind::Int(digits_value(t) as i64)))
    } else if float_syntax(t) {
        Some(Lexeme::Decimal(t))
    } else {
        None
    }
}

/// The state of the walk over a hexadecimal float's digits.
pub struct HexDigits {
    pub mantissa: u64,
    pub scale: int,
    pub sticky: bool,
    pub digits: int,
    pub fraction: bool,
}

/// The digits and the point of a hexadecimal float from `i`: a second point refuses the
/// numeral; otherwise the walk stops at the first other byte.
pub open spec fn hex_digits(t: Seq<u8>, i: int, st: HexDigits) -> Option<(HexDigits, int)>
    decreases t.len() - i,
{
    if i < 0 || i >= t.len() {
        Some((st, i))
    } else if t[i] == DOT {
        if st.fraction {
            None
        } else {
            hex_digits(t, i + 1, HexDigits { fraction: true, ..st })
        }
    } else if is_hex_digit(t[i]) {
        let next = if st.mantissa <= 0x0fff_ffff_ffff_ffff {
            HexDigits {
                mantissa: (st.mantissa * 16 + hex_digit_value(t[i])) as u64,
                scale: if st.fraction {
                    st.scale - 4
                } else {
                    st.scale
                },
                digits: st.digits + 1,
                ..st
            }
        } else {
            // Out of room: the digit only moves the point, and a nonzero one is remembered.
            HexDigits {
                sticky: st.sticky || t[i] != ZERO,
                scale: if !st.fraction {
                    st.scale + 4
                } else {
                    st.scale
                },
                digits: st.digits + 1,
                ..st
            }
        };
        hex_digits(t, i + 1, next)
    } else {
        Some((st, i))
    }
}

/// The `p` exponent: a sign, then digits, capped at `2^20`.
pub open spec fn binary_exponent_of(t: Seq<u8>) -> Option<int> {
    let negative = t.len() > 1 && t[1] == MINUS;
    let at: int = if t.len() > 1 && (t[1] == PLUS || t[1] == MINUS) {
        2
    } else {
        1
    };
    if !(t.len() > 0 && (t[0] == 0x70 || t[0] == 0x50)) {
        None
    } else if at == t.len() || !all_digits(t.subrange(at, t.len() as int)) {
        None
    } else {
        let value = min(digits_value(t.subrange(at, t.len() as int)) as int, 0x100000);
        Some(
            if negative {
                -value
            } else {
                value
            },
        )
    }
}

/// The number of significant bits of `m`.
pub open spec fn bit_len(m: nat) -> nat
    decreases m,
{
    if m == 0 {
        0
    } else {
        1 + bit_len(m / 2)
    }
}

/// Dropping `count` low bits of `value`: what is left, the top bit dropped, which decides the
/// rounding, and whether any bit below that one was set, which breaks a tie.
pub open spec fn drop_low(value: nat, count: nat) -> (nat, bool, bool) {
    (
        value / pow2(count),
        count >= 1 && (value / pow2((count - 1) as nat)) % 2 == 1,
        count >= 2 && value % pow2((count - 1) as nat) != 0,
    )
}

/// The bits of positive infinity.
pub open spec fn infinity_bits() -> u64 {
    0x7ff0_0000_0000_0000
}

/// `mantissa * 2^scale` as the bits of the nearest binary64 value, ties to even; `sticky`
/// says whether something nonzero was already dropped below the mantissa.
pub open spec fn scaled_bits(mantissa: nat, scale: int, sticky: bool) -> u64 {
    if mantissa == 0 {
        0
    } else {
        let bits = bit_len(mantissa) as int;
        // Exactly 53 significant bits, the most a binary64 carries.
        let (m1, e1, round1, sticky1) = if bits > 53 {
            let (v, dropped, lost) = drop_low(mantissa, (bits - 53) as nat);
            (v, scale + bits - 53, dropped, sticky || lost)
        } else {
            (mantissa * pow2((53 - bits) as nat), scale - (53 - bits), false, sticky)
        };
        // Below the smallest normal the exponent cannot fall any further, so precision goes.
        let (m2, e2, round2, sticky2) = if e1 < -1074 {
            let (v, dropped, lost) = drop_low(m1, (-1074 - e1) as nat);
            (v, -1074, dropped, sticky1 || round1 || lost)
        } else {
            (m1, e1, round1, sticky1)
        };
        let (m3, e3) = if round2 && (sticky2 || m2 % 2 == 1) {
            if (m2 + 1) / pow2(53) != 0 {
                ((m2 + 1) / 2, e2 + 1)
            } else {
                (m2 + 1, e2)
            }
        } else {
            (m2, e2)
        };
        if m3 == 0 {
            0
        } else if bit_len(m3) == 53 {
            let field = e3 + 52 + 1023;
            if field >= 0x7ff {
                infinity_bits()
            } else {
                (field * pow2(52) + m3 % pow2(52)) as u64
            }
        } else {
            // Subnormal: the bit pattern is the mantissa as it stands.
            m3 as u64
        }
    }
}

/// Everything after the `0x` of a hexadecimal float.
pub open spec fn hex_float_bits(t: Seq<u8>) -> Option<u64> {
    match hex_digits(
        t,
        0,
        HexDigits { mantissa: 0, scale: 0, sticky: false, digits: 0, fraction: false },
    ) {
        None => None,
        Some((st, at)) => if st.digits == 0 {
            None
        } else if at < t.len() {
            match binary_exponent_of(t.subrange(at, t.len() as int)) {
                None => None,
                Some(e) => if i32::MIN <= st.scale + e <= i32::MAX {
                    Some(scaled_bits(st.mantissa as nat, st.scale + e, st.sticky))
                } else {
                    None
                },
            }
        } else {
            Some(scaled_bits(st.mantissa as nat, st.scale, st.sticky))
        },
    }
}

/// Everything after the `0x`: an integer, wrapping around, when it is all digits.
pub open spec fn hexadecimal_meaning(t: Seq<u8>) -> Option<Lexeme> {
    if t.len() == 0 {
        None
    } else if all_hex_digits(t) {
        Some(Lexeme::Fixed(TokenKind::Int((hex_digits_value(t) % pow2(64)) as u64 as i64)))
    } else {
        match hex_float_bits(t) {
            Some(bits) => Some(Lexeme::Fixed(TokenKind::Float(FloatValue::Bits(bits)))),
            None => None,
        }
    }
}

/// What the text of a numeral stands for, or `None` when it is not one after all.
pub open spec fn numeral_meaning(t: Seq<u8>) -> Option<Lexeme> {
    if t.len() >= 2 && t[0] == ZERO && (t[1] == 0x78 || t[1] == 0x58) {
        hexadecimal_meaning(t.subrange(2, t.len() as int))
    } else {
        decimal_meaning(t)
    }
}

/// The numeral that starts at `start` and whose scan begins at `p`.
pub open spec fn numeral(s: Seq<u8>, start: int, p: int) -> Lexed {
    let end = numeral_end(s, p);
    let text = s.subrange(start, end);
    match numeral_meaning(text) {
        Some(lexeme) => Lexed::Token { lexeme, start, end },
        None => Lexed::Fault(
            LexFault { kind: LexErrorKind::MalformedNumber, at: start, near: NearView::Buffer(text) },
        ),
    }
}

/// Where the name starting at `p` ends.
pub open spec fn name_end(s: Seq<u8>, p: int) -> int
    decreases s.len() - p,
{
    if 0 <= p < s.len() && name_part(s[p]) {
        name_end(s, p + 1)
    } else {
        p
    }
}

/// A symbol of one byte, or of two when the second is `second`.
pub open spec fn pair(
    s: Seq<u8>,
    p: int,
    second: u8,
    paired: TokenKind<'static>,
) -> Lexed {
    if p + 1 < s.len() && s[p + 1] == second {
        Lexed::Token { lexeme: Lexeme::Fixed(paired), start: p, end: p + 2 }
    } else {
        Lexed::Token { lexeme: Lexeme::Fixed(TokenKind::Byte(s[p])), start: p, end: p + 1 }
    }
}

pub open spec fn fixed(kind: TokenKind<'static>, start: int, end: int) -> Lexed {
    Lexed::Token { lexeme: Lexeme::Fixed(kind), start, end }
}

/// An operator or other symbol at `p`: one byte, or two where Lua pairs them.
pub open spec fn symbol(s: Seq<u8>, p: int) -> Lexed {
    let b = s[p];
    if b == EQUALS {
        pair(s, p, EQUALS, TokenKind::Eq)
    } else if b == LESS {
        if p + 1 < s.len() && s[p + 1] == EQUALS {
            fixed(TokenKind::Le, p, p + 2)
        } else {
            pair(s, p, LESS, TokenKind::Shl)
        }
    } else if b == GREATER {
        if p + 1 < s.len() && s[p + 1] == EQUALS {
            fixed(TokenKind::Ge, p, p + 2)
        } else {
            pair(s, p, GREATER, TokenKind::Shr)
        }
    } else if b == SLASH {
        pair(s, p, SLASH, TokenKind::IDiv)
    } else if b == TILDE {
        pair(s, p, EQUALS, TokenKind::Ne)
    } else if b == COLON {
        pair(s, p, COLON, TokenKind::DbColon)
    } else {
        fixed(TokenKind::Byte(b), p, p + 1)
    }
}

/// The long string whose opener starts at `p`, or the lone `[`.
pub open spec fn bracket(s: Seq<u8>, p: int) -> Lexed {
    let (level, q) = bracket_level(s, p);
    if level == 1 {
        fixed(TokenKind::Byte(LBRACKET), p, q)
    } else if level == 0 {
        Lexed::Fault(
            LexFault {
                kind: LexErrorKind::InvalidLongStringDelimiter,
                at: q,
                near: NearView::Buffer(s.subrange(p, q)),
            },
        )
    } else {
        match long_scan(s, long_open(s, q), level) {
            LongScan::Closed { content, end } => Lexed::Token {
                lexeme: Lexeme::Str(content),
                start: p,
                end,
            },
            LongScan::Unclosed => Lexed::Fault(
                LexFault {
                    kind: LexErrorKind::UnfinishedLongString { open_at: p as u32 },
                    at: s.len() as int,
                    near: NearView::Eof,
                },
            ),
        }
    }
}

/// The short string whose delimiter is at `p`.
pub open spec fn short_string(s: Seq<u8>, p: int) -> Lexed {
    match str_scan(s, p + 1, s[p]) {
        StrScan::Closed { value, end } => Lexed::Token { lexeme: Lexeme::Str(value), start: p, end },
        StrScan::Broken { kind, at, near } => Lexed::Fault(
            LexFault {
                kind,
                at,
                near: match near {
                    Some(tail) => NearView::Buffer(seq![s[p]] + tail),
                    None => NearView::Eof,
                },
            },
        ),
    }
}

/// What starts with a `.`: `...`, `..`, a numeral such as `.5`, or the `.` itself.
pub open spec fn dot(s: Seq<u8>, p: int) -> Lexed {
    if p + 1 < s.len() && s[p + 1] == DOT {
        if p + 2 < s.len() && s[p + 2] == DOT {
            fixed(TokenKind::Dots, p, p + 3)
        } else {
            fixed(TokenKind::Concat, p, p + 2)
        }
    } else if p + 1 < s.len() && is_digit(s[p + 1]) {
        numeral(s, p, p + 1)
    } else {
        fixed(TokenKind::Byte(DOT), p, p + 1)
    }
}

/// A name or a reserved word starting at `p`.
pub open spec fn word(s: Seq<u8>, p: int) -> Lexed {
    let end = name_end(s, p);
    let word = s.subrange(p, end);
    match keyword_of(word) {
        Some(kind) => fixed(kind, p, end),
        None => Lexed::Token { lexeme: Lexeme::Name(word), start: p, end },
    }
}

/// The token that starts at `p`, which is not a blank, a line break or a comment.
#[verifier::opaque]
pub open spec fn token_at(s: Seq<u8>, p: int) -> Lexed {
    let b = s[p];
    if b == LBRACKET {
        bracket(s, p)
    } else if b == DQUOTE || b == QUOTE {
        short_string(s, p)
    } else if b == DOT {
        dot(s, p)
    } else if is_digit(b) {
        numeral(s, p, p)
    } else if name_start(b) {
        word(s, p)
    } else {
        symbol(s, p)
    }
}

/// The next token from `p`, past blanks, line breaks and comments.
pub open spec fn lex(s: Seq<u8>, p: int) -> Lexed
    decreases s.len() - p,
{
    if p < 0 || p >= s.len() {
        fixed(TokenKind::Eof, p, p)
    } else {
        let b = s[p];
        if is_line_break(b) {
            lex(s, break_end(s, p))
        } else if is_blank(b) {
            lex(s, p + 1)
        } else if b == MINUS && p + 1 < s.len() && s[p + 1] == MINUS {
            match comment_end(s, p + 2) {
                Ok(q) => if p < q <= s.len() {
                    lex(s, q)
                } else {
                    fixed(TokenKind::Eof, p, p)
                },
                Err(fault) => Lexed::Fault(fault),
            }
        } else {
            token_at(s, p)
        }
    }
}


/// Once the source is used up, the lexer answers `<eof>`, empty and at the end, and it goes on
/// answering so however often it is asked, since that answer leaves it where it was.
pub proof fn lemma_end_of_source_is_eof(s: Seq<u8>)
    ensures
        lex(s, s.len() as int) == (Lexed::Token {
            lexeme: Lexeme::Fixed(TokenKind::Eof),
            start: s.len() as int,
            end: s.len() as int,
        }),
{
}
/// The one-letter escapes stand for the bytes the manual lists: `\\a` bell 0x07, `\\b`
/// backspace 0x08, `\\f` form feed 0x0c, `\\n` newline 0x0a, `\\r` carriage return 0x0d,
/// `\\t` horizontal tab 0x09, `\\v` vertical tab 0x0b; a backslash or a quote escapes itself.
/// Each takes the two bytes it is written with.
pub proof fn lemma_one_letter_escapes(s: Seq<u8>, e: int)
    requires
        0 <= e,
        e + 1 < s.len(),
    ensures
        s[e + 1] == 0x61u8 ==> escape(s, e) == (Escape::Decoded { bytes: seq![0x07u8], end: e + 2 }),
        s[e + 1] == 0x62u8 ==> escape(s, e) == (Escape::Decoded { bytes: seq![0x08u8], end: e + 2 }),
        s[e + 1] == 0x66u8 ==> escape(s, e) == (Escape::Decoded { bytes: seq![0x0cu8], end: e + 2 }),
        s[e + 1] == 0x6eu8 ==> escape(s, e) == (Escape::Decoded { bytes: seq![0x0au8], end: e + 2 }),
        s[e + 1] == 0x72u8 ==> escape(s, e) == (Escape::Decoded { bytes: seq![0x0du8], end: e + 2 }),
        s[e + 1] == 0x74u8 ==> escape(s, e) == (Escape::Decoded { bytes: seq![0x09u8], end: e + 2 }),
        s[e + 1] == 0x76u8 ==> escape(s, e) == (Escape::Decoded { bytes: seq![0x0bu8], end: e + 2 }),
        s[e + 1] == 0x5cu8 ==> escape(s, e) == (Escape::Decoded { bytes: seq![0x5cu8], end: e + 2 }),
        s[e + 1] == 0x22u8 ==> escape(s, e) == (Escape::Decoded { bytes: seq![0x22u8], end: e + 2 }),
        s[e + 1] == 0x27u8 ==> escape(s, e) == (Escape::Decoded { bytes: seq![0x27u8], end: e + 2 }),
{
}

} // verus!
