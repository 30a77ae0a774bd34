//! Numerals: what a scan takes in, and what the bytes turn out to be worth.
use vstd::prelude::*;
use vstd::arithmetic::power2::{
    lemma2_to64, lemma2_to64_rest, lemma_pow2_adds, lemma_pow2_pos, lemma_pow2_strictly_increases,
    lemma_pow2_unfold, pow2,
};
use vstd::bits::{lemma_u64_low_bits_mask_is_mod, lemma_u64_shl_is_mul, lemma_u64_shr_is_div, low_bits_mask};
use vstd::std_specs::bits::u64_leading_zeros;

use crate::token::{FloatValue, Token, TokenKind};

use super::Lexer;
use super::bytes::{
    DOT, MINUS, PLUS, ZERO, hex_digit_value, is_alpha, is_ascii_digit, is_ascii_hexdigit, is_digit,
    is_hex_digit, is_name_start, name_start,
};
use super::cursor::MAX_SOURCE;
use super::error::{LexError, LexErrorKind, LexFault, Near, NearView};
use super::grammar::{
    HexDigits, Lexed, all_digits, all_hex_digits, binary_exponent_of, bit_len, decimal_meaning,
    digit_run, digits_value, drop_low, exponent_syntax, float_syntax, hex_digits,
    hex_digits_value, hex_float_bits, hexadecimal_meaning, infinity_bits, min, numeral,
    numeral_end, numeral_meaning, numeral_scan, scaled_bits,
};

verus! {

/// Whether a token kind is what `meaning` says a numeral stands for.
pub open spec fn answers(r: Option<TokenKind>, meaning: Option<super::grammar::Lexeme>) -> bool {
    match meaning {
        Some(lexeme) => r matches Some(kind) && kind.is(lexeme),
        None => r is None,
    }
}

impl<'a> Lexer<'a> {
    /// A numeral. The scan is greedy and the conversion is the judge.
    /// `start` is where the numeral begins; the cursor is where its scan does, which is one
    /// byte further on for a numeral written with a leading `.`.
    pub(crate) fn read_numeral(&mut self, start: usize) -> (r: Result<Token<'a>, LexError>)
        requires
            old(self).wf(),
            start <= old(self).at() < old(self).text().len(),
        ensures
            final(self).wf(),
            final(self).text() == old(self).text(),
            match numeral(old(self).text(), start as int, old(self).at()) {
                Lexed::Token { lexeme, start: from, end } => r matches Ok(token) && token.kind.is(
                    lexeme,
                ) && token.span.start == from as u32 && token.span.end == end as u32
                    && final(self).at() == end,
                Lexed::Fault(fault) => r matches Err(e) && e.is(fault),
            },
    {
        let ghost s = self.text();
        let ghost p = self.at();
        let hexadecimal = self.peek() == Some(ZERO) && match self.byte_at(self.pos + 1) {
            Some(byte) => byte == 0x78 || byte == 0x58,
            None => false,
        };

        if hexadecimal {
            self.advance();
            self.advance();
        } else {
            self.advance();
        }
        let (first, second) = if hexadecimal {
            (0x70u8, 0x50u8)
        } else {
            (0x65u8, 0x45u8)
        };
        let ghost from = self.at();

        loop
            invariant
                self.wf(),
                self.text() == s,
                from <= self.at(),
                numeral_scan(s, self.at(), hexadecimal) == numeral_scan(s, from, hexadecimal),
                hexadecimal ==> first == 0x70 && second == 0x50,
                !hexadecimal ==> first == 0x65 && second == 0x45,
            ensures
                self.wf(),
                self.text() == s,
                self.at() == numeral_scan(s, from, hexadecimal),
            decreases s.len() - self.at(),
        {
            match self.peek() {
                Some(byte) => {
                    if byte == first || byte == second {
                        self.advance();
                        match self.peek() {
                            Some(sign) => if sign == PLUS || sign == MINUS {
                                self.advance();
                            },
                            None => {},
                        }
                    } else if is_ascii_hexdigit(byte) || byte == DOT {
                        self.advance();
                    } else {
                        break ;
                    }
                },
                None => break ,
            }
        }

        match self.peek() {
            Some(byte) => if is_name_start(byte) {
                self.advance();
            },
            None => {},
        }

        let source: &'a [u8] = self.source;
        let text = &source[start..self.pos];
        assert(self.at() == numeral_end(s, p));
        match numeral_value(text) {
            Some(kind) => Ok(self.token(kind, start)),
            None => Err(
                LexError {
                    kind: LexErrorKind::MalformedNumber,
                    at: start as u32,
                    near: Near::Buffer(vstd::slice::slice_to_vec(text)),
                },
            ),
        }
    }
}

/// The value a numeral stands for, or `None` when the bytes are not one after all.
pub fn numeral_value<'t>(text: &'t [u8]) -> (r: Option<TokenKind<'t>>)
    requires
        text@.len() < MAX_SOURCE,
    ensures
        answers(r, numeral_meaning(text@)),
{
    if text.len() >= 2 && text[0] == ZERO && (text[1] == 0x78 || text[1] == 0x58) {
        hexadecimal_value(&text[2..text.len()])
    } else {
        decimal_value(text)
    }
}

proof fn lemma_digits_value_prefix(t: Seq<u8>, i: int)
    requires
        0 <= i < t.len(),
    ensures
        digits_value(t.subrange(0, i + 1)) == digits_value(t.subrange(0, i)) * 10 + (t[i]
            - ZERO) as nat,
{
    assert(t.subrange(0, i + 1).drop_last() =~= t.subrange(0, i));
}

proof fn lemma_digits_value_grows(t: Seq<u8>, i: int)
    requires
        0 <= i <= t.len(),
        all_digits(t),
    ensures
        digits_value(t.subrange(0, i)) <= digits_value(t),
    decreases t.len() - i,
{
    if i < t.len() {
        lemma_digits_value_prefix(t, i);
        lemma_digits_value_grows(t, i + 1);
    } else {
        assert(t.subrange(0, i) =~= t);
    }
}

/// The digits as an `i64`, when they fit.
fn parse_decimal(text: &[u8]) -> (r: Option<i64>)
    requires
        all_digits(text@),
    ensures
        match r {
            Some(value) => value as int == digits_value(text@),
            None => digits_value(text@) > i64::MAX,
        },
{
    let mut value: i64 = 0;
    let mut i: usize = 0;
    while i < text.len()
        invariant
            i <= text@.len(),
            all_digits(text@),
            value as int == digits_value(text@.subrange(0, i as int)),
            value >= 0,
        decreases text@.len() - i,
    {
        proof {
            lemma_digits_value_prefix(text@, i as int);
        }
        let digit = (text[i] - ZERO) as i64;
        let next = match value.checked_mul(10) {
            Some(tens) => tens.checked_add(digit),
            None => None,
        };
        match next {
            Some(next) => value = next,
            None => {
                proof {
                    lemma_digits_value_grows(text@, i + 1);
                }
                return None;
            },
        }
        i += 1;
    }
    assert(text@.subrange(0, i as int) =~= text@);
    Some(value)
}

/// How many decimal digits follow from `i` on.
fn count_digits(text: &[u8], i: usize) -> (n: usize)
    requires
        i <= text@.len(),
    ensures
        n == digit_run(text@, i as int),
        i + n <= text@.len(),
{
    let mut j = i;
    while j < text.len() && is_ascii_digit(text[j])
        invariant
            i <= j <= text@.len(),
            digit_run(text@, i as int) == (j - i) + digit_run(text@, j as int),
        decreases text@.len() - j,
    {
        j += 1;
    }
    j - i
}

/// Whether `f64::from_str` takes the text, which starts with a digit or a `.`.
fn is_float_syntax(text: &[u8]) -> (r: bool)
    ensures
        r == float_syntax(text@),
{
    let n = text.len();
    let a = count_digits(text, 0);
    let dotted = a < n && text[a] == DOT;
    let b = if dotted {
        count_digits(text, a + 1)
    } else {
        0
    };
    let i = if dotted {
        a + 1 + b
    } else {
        a
    };
    if a + b == 0 {
        return false;
    }
    if i == n {
        return true;
    }
    // `[eE] [+-]? Digit+` to the end.
    if !(text[i] == 0x65 || text[i] == 0x45) {
        return false;
    }
    let j = if i + 1 < n && (text[i + 1] == PLUS || text[i + 1] == MINUS) {
        i + 2
    } else {
        i + 1
    };
    j < n && j + count_digits(text, j) == n
}

fn all_ascii_digits(text: &[u8]) -> (r: bool)
    ensures
        r == all_digits(text@),
{
    let mut i: usize = 0;
    while i < text.len()
        invariant
            i <= text@.len(),
            forall|k: int| 0 <= k < i ==> is_digit(#[trigger] text@[k]),
        decreases text@.len() - i,
    {
        if !is_ascii_digit(text[i]) {
            return false;
        }
        i += 1;
    }
    true
}

fn all_ascii_hexdigits(text: &[u8]) -> (r: bool)
    ensures
        r == all_hex_digits(text@),
{
    let mut i: usize = 0;
    while i < text.len()
        invariant
            i <= text@.len(),
            forall|k: int| 0 <= k < i ==> is_hex_digit(#[trigger] text@[k]),
        decreases text@.len() - i,
    {
        if !is_ascii_hexdigit(text[i]) {
            return false;
        }
        i += 1;
    }
    true
}

/// An integer unless a `.` or an exponent says otherwise,
/// and a float when the digits will not fit an `i64`.
pub fn decimal_value<'t>(text: &'t [u8]) -> (r: Option<TokenKind<'t>>)
    ensures
        answers(r, decimal_meaning(text@)),
{
    if text.len() > 0 && all_ascii_digits(text) {
        match parse_decimal(text) {
            Some(value) => return Some(TokenKind::Int(value)),
            None => {},
        }
    }
    if is_float_syntax(text) {
        Some(TokenKind::Float(FloatValue::Decimal(text)))
    } else {
        None
    }
}

proof fn lemma_wrapping_step(v: nat, d: nat)
    requires
        d < 16,
    ensures
        ((((v % 0x10000000000000000) * 16) % 0x10000000000000000) + d) % 0x10000000000000000 == (v
            * 16 + d) % 0x10000000000000000,
{
    let m: int = 0x10000000000000000;
    vstd::arithmetic::div_mod::lemma_mul_mod_noop_left(v as int, 16, m);
    vstd::arithmetic::div_mod::lemma_add_mod_noop(v as int * 16, d as int, m);
    vstd::arithmetic::div_mod::lemma_mod_twice(v as int * 16, m);
    vstd::arithmetic::div_mod::lemma_mod_bound(d as int, m);
    assert((d as int) % m == d);
    vstd::arithmetic::div_mod::lemma_add_mod_noop(((v % 0x10000000000000000) * 16) as int, d as int, m);
}

/// Everything after the `0x`.
pub fn hexadecimal_value<'t>(text: &'t [u8]) -> (r: Option<TokenKind<'t>>)
    requires
        text@.len() < MAX_SOURCE,
    ensures
        answers(r, hexadecimal_meaning(text@)),
{
    if text.len() == 0 {
        return None;
    }
    if all_ascii_hexdigits(text) {
        let mut value: u64 = 0;
        let mut i: usize = 0;
        proof {
            lemma2_to64_rest();
        }
        while i < text.len()
            invariant
                i <= text@.len(),
                all_hex_digits(text@),
                value as nat == hex_digits_value(text@.subrange(0, i as int)) % 0x10000000000000000,
                pow2(64) == 0x10000000000000000,
            decreases text@.len() - i,
        {
            let digit = super::bytes::hex_value(text[i]);
            proof {
                assert(text@.subrange(0, i + 1).drop_last() =~= text@.subrange(0, i as int));
                lemma_wrapping_step(hex_digits_value(text@.subrange(0, i as int)), digit as nat);
            }
            value = value.wrapping_mul(16).wrapping_add(digit as u64);
            i += 1;
        }
        assert(text@.subrange(0, i as int) =~= text@);
        return Some(TokenKind::Int(value as i64));
    }
    match hexadecimal_float(text) {
        Some(bits) => Some(TokenKind::Float(FloatValue::Bits(bits))),
        None => None,
    }
}

/// `1.8p3` and friends, after the `0x`.
pub fn hexadecimal_float(text: &[u8]) -> (r: Option<u64>)
    requires
        text@.len() < MAX_SOURCE,
    ensures
        r == hex_float_bits(text@),
{
    let ghost t = text@;
    let ghost target = hex_digits(
        t,
        0,
        HexDigits { mantissa: 0, scale: 0, sticky: false, digits: 0, fraction: false },
    );
    let mut mantissa: u64 = 0;
    let mut scale: i32 = 0;
    let mut sticky = false;
    let mut digits: i32 = 0;
    let mut fraction = false;
    let mut at: usize = 0;

    while at < text.len()
        invariant
            at <= t.len() < MAX_SOURCE,
            t == text@,
            -4 * (at as int) <= scale <= 4 * (at as int),
            0 <= digits <= at,
            target == hex_digits(
                t,
                0,
                HexDigits { mantissa: 0, scale: 0, sticky: false, digits: 0, fraction: false },
            ),
            hex_digits(
                t,
                at as int,
                HexDigits {
                    mantissa,
                    scale: scale as int,
                    sticky,
                    digits: digits as int,
                    fraction,
                },
            ) == target,
        ensures
            -4 * (at as int) <= scale <= 4 * (at as int),
            at <= t.len(),
            target == Some::<(HexDigits, int)>(
                (
                    HexDigits {
                        mantissa,
                        scale: scale as int,
                        sticky,
                        digits: digits as int,
                        fraction,
                    },
                    at as int,
                ),
            ),
        decreases t.len() - at,
    {
        let byte = text[at];
        if byte == DOT {
            if fraction {
                return None;
            }
            fraction = true;
        } else if is_ascii_hexdigit(byte) {
            digits += 1;
            if mantissa <= 0x0fff_ffff_ffff_ffff {
                let value = super::bytes::hex_value(byte) as u64;
                proof {
                    assert((mantissa << 4) | value == mantissa * 16 + value) by (bit_vector)
                        requires
                            mantissa <= 0x0fff_ffff_ffff_ffff,
                            value < 16,
                    ;
                }
                mantissa = (mantissa << 4) | value;
                if fraction {
                    scale -= 4;
                }
            } else {
                // Out of room.
                sticky = sticky || byte != ZERO;
                if !fraction {
                    scale += 4;
                }
            }
        } else {
            break ;
        }
        at += 1;
    }

    if digits == 0 {
        return None;
    }

    if at < text.len() {
        let exponent = match binary_exponent(&text[at..text.len()]) {
            Some(exponent) => exponent,
            None => return None,
        };
        scale = match scale.checked_add(exponent) {
            Some(scale) => scale,
            None => return None,
        };
    }
    Some(scaled(mantissa, scale, sticky))
}

/// The `p` exponent.
pub fn binary_exponent(text: &[u8]) -> (r: Option<i32>)
    ensures
        match binary_exponent_of(text@) {
            Some(value) => r == Some(value as i32) && -0x100000 <= value <= 0x100000,
            None => r is None,
        },
{
    let ghost t = text@;
    if !(text.len() > 0 && (text[0] == 0x70 || text[0] == 0x50)) {
        return None;
    }
    let mut at: usize = 1;
    let negative = if text.len() > 1 && text[1] == PLUS {
        at += 1;
        false
    } else if text.len() > 1 && text[1] == MINUS {
        at += 1;
        true
    } else {
        false
    };

    if at == text.len() {
        return None;
    }

    let mut value: i32 = 0;
    let mut i = at;
    while i < text.len()
        invariant
            1 <= at <= i <= t.len(),
            at < t.len(),
            t == text@,
            t[0] == 0x70 || t[0] == 0x50,
            at == (if t.len() > 1 && (t[1] == PLUS || t[1] == MINUS) {
                2int
            } else {
                1int
            }),
            negative == (t.len() > 1 && t[1] == MINUS),
            forall|k: int| at <= k < i ==> is_digit(#[trigger] t[k]),
            value as int == min(digits_value(t.subrange(at as int, i as int)) as int, 0x100000),
        decreases t.len() - i,
    {
        let byte = text[i];
        if !is_ascii_digit(byte) {
            proof {
                assert(t.subrange(at as int, t.len() as int)[i - at] == byte);
                assert(!is_digit(t.subrange(at as int, t.len() as int)[i - at]));
            }
            return None;
        }
        proof {
            assert(t.subrange(at as int, i + 1).drop_last() =~= t.subrange(at as int, i as int));
        }
        let next = value * 10 + (byte - ZERO) as i32;
        value = if next < 0x100000 {
            next
        } else {
            0x100000
        };
        i += 1;
    }
    proof {
        assert(t.subrange(at as int, i as int) =~= t.subrange(at as int, t.len() as int));
        assert(all_digits(t.subrange(at as int, t.len() as int)));
    }

    Some(
        if negative {
            -value
        } else {
            value
        },
    )
}

proof fn lemma_bit_len_leading_zeros(m: u64)
    ensures
        bit_len(m as nat) == 64 - u64_leading_zeros(m),
        bit_len(m as nat) <= 64,
    decreases m,
{
    reveal(u64_leading_zeros);
    if m != 0 {
        lemma_bit_len_leading_zeros(m / 2);
    }
}

proof fn lemma_bit_len_bounds(m: nat)
    ensures
        m < pow2(bit_len(m)),
        m > 0 ==> pow2((bit_len(m) - 1) as nat) <= m,
    decreases m,
{
    if m == 0 {
        lemma2_to64();
    } else {
        lemma_bit_len_bounds(m / 2);
        lemma_pow2_unfold(bit_len(m));
        if m / 2 == 0 {
            lemma2_to64();
        } else {
            lemma_pow2_unfold((bit_len(m) - 1) as nat);
        }
    }
}

proof fn lemma_bit_len_of_bounds(m: nat, n: nat)
    requires
        n > 0,
        pow2((n - 1) as nat) <= m < pow2(n),
    ensures
        bit_len(m) == n,
{
    lemma_bit_len_bounds(m);
    if bit_len(m) < n {
        if bit_len(m) < n - 1 {
            lemma_pow2_strictly_increases(bit_len(m), (n - 1) as nat);
        }
    } else if bit_len(m) > n {
        if n < bit_len(m) - 1 {
            lemma_pow2_strictly_increases(n, (bit_len(m) - 1) as nat);
        }
    }
}

/// Drop `count` low bits, reporting the top one dropped - which decides the rounding - and
/// whether any of the rest was set, which breaks a tie.
pub fn drop_low_bits(value: u64, count: u32) -> (r: (u64, bool, bool))
    ensures
        (r.0 as nat, r.1, r.2) == drop_low(value as nat, count as nat),
{
    proof {
        lemma2_to64();
        lemma2_to64_rest();
        lemma_pow2_pos(count as nat);
    }
    if count == 0 {
        proof {
            assert(pow2(0) == 1);
        }
        (value, false, false)
    } else if count >= 65 {
        proof {
            lemma_pow2_strictly_increases(64, count as nat);
            if count > 65 {
                lemma_pow2_strictly_increases(64, (count - 1) as nat);
            }
            vstd::arithmetic::div_mod::lemma_basic_div(value as int, pow2(count as nat) as int);
            vstd::arithmetic::div_mod::lemma_basic_div(value as int, pow2((count - 1) as nat) as int);
            vstd::arithmetic::div_mod::lemma_small_mod(value as nat, pow2((count - 1) as nat));
        }
        (0, false, value != 0)
    } else if count == 64 {
        proof {
            vstd::arithmetic::div_mod::lemma_basic_div(value as int, pow2(64) as int);
            lemma_u64_shr_is_div(value, 63);
            lemma_u64_low_bits_mask_is_mod(value, 63);
            assert(low_bits_mask(63) == 0x7fff_ffff_ffff_ffff);
            assert(((value >> 63) & 1 == 1) == ((value >> 63) % 2 == 1)) by (bit_vector);
        }
        (0, value >> 63 & 1 == 1, value & 0x7fff_ffff_ffff_ffff != 0)
    } else {
        let below = count - 1;
        proof {
            lemma_u64_shr_is_div(value, count as u64);
            lemma_u64_shr_is_div(value, below as u64);
            lemma_u64_low_bits_mask_is_mod(value, below as nat);
            lemma_u64_shl_is_mul(1, below as u64);
            lemma_pow2_strictly_increases(below as nat, 64);
            assert(((value >> below) & 1 == 1) == ((value >> below) % 2 == 1)) by (bit_vector);
        }
        let mask = (1u64 << below) - 1;
        proof {
            assert(mask == low_bits_mask(below as nat) as u64);
        }
        (value >> count, value >> below & 1 == 1, count > 1 && value & mask != 0)
    }
}

/// The bits of positive infinity.
pub const INFINITY_BITS: u64 = 0x7ff0_0000_0000_0000;

/// `mantissa * 2^scale` as the bits of the nearest binary64 value, ties to even.
/// `sticky` says whether something nonzero was already dropped below the mantissa.
pub fn scaled(mantissa: u64, scale: i32, sticky: bool) -> (bits: u64)
    requires
        -0x4800_0000 <= scale <= 0x4800_0000,
    ensures
        bits == scaled_bits(mantissa as nat, scale as int, sticky),
{
    if mantissa == 0 {
        return 0;
    }
    let ghost m0 = mantissa as nat;
    let mut mantissa = mantissa;
    let mut exponent = scale;
    let mut sticky = sticky;
    let mut round;

    // Bring it to exactly 53 significant bits, the most an `f64` carries.
    proof {
        lemma_bit_len_leading_zeros(mantissa);
        lemma_bit_len_bounds(m0);
        lemma2_to64();
        lemma2_to64_rest();
    }
    let bits = 64 - mantissa.leading_zeros() as i32;
    assert(bits as int == bit_len(m0));
    if bits > 53 {
        let (value, dropped, lost) = drop_low_bits(mantissa, (bits - 53) as u32);
        proof {
            lemma_pow2_adds((bits - 53) as nat, 53);
            vstd::arithmetic::div_mod::lemma_multiply_divide_lt(m0 as int, pow2((bits - 53) as nat) as int, pow2(53) as int);
        }
        mantissa = value;
        round = dropped;
        sticky = sticky || lost;
        exponent = exponent + (bits - 53);
    } else {
        proof {
            lemma_pow2_adds(bits as nat, (53 - bits) as nat);
            vstd::arithmetic::mul::lemma_mul_strict_inequality(m0 as int, pow2(bits as nat) as int, pow2((53 - bits) as nat) as int);
            lemma_pow2_strictly_increases(53, 64);
            assert(m0 * pow2((53 - bits) as nat) < pow2(53));
            lemma_u64_shl_is_mul(mantissa, (53 - bits) as u64);
        }
        mantissa = mantissa << (53 - bits) as u32;
        exponent = exponent - (53 - bits);
        round = false;
    }
    let ghost m1 = mantissa as nat;
    assert(m1 < pow2(53));

    // Below the smallest normal the exponent cannot fall any further, so precision goes instead.
    if exponent < -1074 {
        sticky = sticky || round;
        let (value, dropped, lost) = drop_low_bits(mantissa, (-1074 - exponent) as u32);
        proof {
            lemma_pow2_pos((-1074 - exponent) as nat);
            vstd::arithmetic::div_mod::lemma_div_is_ordered_by_denominator(m1 as int, 1, pow2((-1074 - exponent) as nat) as int);
        }
        mantissa = value;
        round = dropped;
        sticky = sticky || lost;
        exponent = -1074;
    }
    let ghost m2 = mantissa as nat;
    assert(m2 < pow2(53));

    if round && (sticky || mantissa & 1 == 1) {
        proof {
            assert((mantissa & 1 == 1) == (mantissa % 2 == 1)) by (bit_vector);
        }
        mantissa = mantissa + 1;
        proof {
            lemma_u64_shr_is_div(mantissa, 53);
        }
        if mantissa >> 53 != 0 {
            proof {
                lemma_u64_shr_is_div(mantissa, 1);
            }
            mantissa = mantissa >> 1;
            exponent = exponent + 1;
        }
    } else {
        proof {
            assert((mantissa & 1 == 1) == (mantissa % 2 == 1)) by (bit_vector);
        }
    }

    if mantissa == 0 {
        return 0;
    }

    // 53 bits means there is a leading 1 to hide.
    // Fewer means the value is subnormal, and then the bit pattern is the mantissa as it stands.
    proof {
        lemma_bit_len_leading_zeros(mantissa);
    }
    if 64 - mantissa.leading_zeros() == 53 {
        let field = exponent + 52 + 1023;
        if field >= 0x7ff {
            return INFINITY_BITS;
        }
        let low = mantissa & 0x000f_ffff_ffff_ffff;
        proof {
            lemma_u64_low_bits_mask_is_mod(mantissa, 52);
            assert(low_bits_mask(52) == 0x000f_ffff_ffff_ffff);
            let f = field as u64;
            assert((f << 52) | low == f * 0x10000000000000 + low) by (bit_vector)
                requires
                    f < 0x800,
                    low <= 0x000f_ffff_ffff_ffff,
            ;
        }
        return ((field as u64) << 52) | low;
    }
    mantissa
}

} // verus!
