//! The base library's work on plain values: reading an integer written in a given base, as
//! `tonumber(text, base)` does.
use vstd::prelude::*;
use vstd::arithmetic::div_mod::{
    lemma_add_mod_noop, lemma_mod_bound, lemma_mod_sub_multiples_vanish, lemma_mul_mod_noop_left,
    lemma_small_mod, lemma_sub_mod_noop,
};

verus! {

/// The number of values a 64-bit integer can hold.
pub open spec fn modulus() -> int {
    0x1_0000_0000_0000_0000
}

/// The `i64` that `x` wraps around to.
pub open spec fn wrap64(x: int) -> int {
    let r = x % modulus();
    if r > i64::MAX {
        r - modulus()
    } else {
        r
    }
}

/// The whitespace `tonumber` skips around a numeral.
pub open spec fn is_space(byte: u8) -> bool {
    byte == 0x20 || (0x09 <= byte <= 0x0d)
}

/// `text` without its leading whitespace.
pub open spec fn skip_leading(text: Seq<u8>) -> Seq<u8>
    decreases text.len(),
{
    if text.len() > 0 && is_space(text[0]) {
        skip_leading(text.drop_first())
    } else {
        text
    }
}

/// `text` without its trailing whitespace.
pub open spec fn skip_trailing(text: Seq<u8>) -> Seq<u8>
    decreases text.len(),
{
    if text.len() > 0 && is_space(text.last()) {
        skip_trailing(text.drop_last())
    } else {
        text
    }
}

/// A digit or a letter, as a digit in base 36.
pub open spec fn digit36(byte: u8) -> Option<int> {
    if 0x30 <= byte <= 0x39 {
        Some(byte - 0x30)
    } else if 0x61 <= byte <= 0x7a {
        Some(byte - 0x61 + 10)
    } else if 0x41 <= byte <= 0x5a {
        Some(byte - 0x41 + 10)
    } else {
        None
    }
}

/// Every byte is a digit of `base`.
pub open spec fn all_digits(digits: Seq<u8>, base: u32) -> bool {
    forall|i: int| 0 <= i < digits.len() ==> #[trigger] digit36(digits[i]) is Some && digit36(digits[i])->0 < base
}

/// What the digits are worth, exactly.
pub open spec fn digits_value(digits: Seq<u8>, base: u32) -> int
    decreases digits.len(),
{
    if digits.len() == 0 {
        0
    } else {
        digits_value(digits.drop_last(), base) * base + digit36(digits.last())->0
    }
}

/// What `tonumber(text, base)` reads: digits and letters in `base`, with whitespace around
/// them and one sign before them. A value too large for an integer wraps around.
pub open spec fn in_base_of(text: Seq<u8>, base: u32) -> Option<i64> {
    let trimmed = skip_trailing(skip_leading(text));
    let negative = trimmed.len() > 0 && trimmed[0] == 0x2d;
    let digits = if trimmed.len() > 0 && (trimmed[0] == 0x2d || trimmed[0] == 0x2b) {
        trimmed.drop_first()
    } else {
        trimmed
    };
    if digits.len() == 0 || !all_digits(digits, base) {
        None
    } else {
        let value = digits_value(digits, base);
        Some(wrap64(if negative { -value } else { value }) as i64)
    }
}

proof fn lemma_wrap_mod(x: int)
    ensures
        wrap64(x) % modulus() == x % modulus(),
        i64::MIN <= wrap64(x) <= i64::MAX,
{
    let m = modulus();
    let r = x % m;
    lemma_mod_bound(x, m);
    lemma_small_mod(r as nat, m as nat);
    if r > i64::MAX {
        lemma_mod_sub_multiples_vanish(r, m);
    }
}

proof fn lemma_wrap_same(a: int, b: int)
    requires
        a % modulus() == b % modulus(),
    ensures
        wrap64(a) == wrap64(b),
{
}

proof fn lemma_wrap_in_range(x: int)
    requires
        i64::MIN <= x <= i64::MAX,
    ensures
        wrap64(x) == x,
{
    let m = modulus();
    if x >= 0 {
        lemma_small_mod(x as nat, m as nat);
    } else {
        lemma_small_mod((x + m) as nat, m as nat);
        lemma_mod_sub_multiples_vanish(x + m, m);
    }
}

/// Taking one more digit commutes with wrapping.
proof fn lemma_wrap_step(v: int, base: int, d: int)
    ensures
        wrap64(wrap64(wrap64(v) * base) + d) == wrap64(v * base + d),
{
    let m = modulus();
    lemma_wrap_mod(v);
    lemma_wrap_mod(wrap64(v) * base);
    lemma_mul_mod_noop_left(wrap64(v), base, m);
    lemma_mul_mod_noop_left(v, base, m);
    lemma_add_mod_noop(wrap64(wrap64(v) * base), d, m);
    lemma_add_mod_noop(v * base, d, m);
    lemma_wrap_same(wrap64(wrap64(v) * base) + d, v * base + d);
}

proof fn lemma_wrap_negate(v: int)
    ensures
        wrap64(0 - wrap64(v)) == wrap64(-v),
{
    let m = modulus();
    lemma_wrap_mod(v);
    lemma_sub_mod_noop(0, wrap64(v), m);
    lemma_sub_mod_noop(0, v, m);
    lemma_wrap_same(0 - wrap64(v), -v);
}

/// `i64::wrapping_mul` and `i64::wrapping_add` are `wrap64` of the exact result.
proof fn lemma_wrapping_ops(a: i64, b: i64)
    ensures
        vstd::wrapping::i64_specs::wrapping_mul(a, b) as int == wrap64(a * b),
        vstd::wrapping::i64_specs::wrapping_add(a, b) as int == wrap64(a + b),
        vstd::wrapping::i64_specs::wrapping_sub(a, b) as int == wrap64(a - b),
{
    let m = modulus();
    lemma_mod_bound(a * b, m);
    let s = a + b;
    if s > i64::MAX {
        lemma_wrap_in_range(s - m);
        lemma_mod_sub_multiples_vanish(s, m);
        lemma_wrap_same(s, s - m);
    } else if s < i64::MIN {
        lemma_wrap_in_range(s + m);
        vstd::arithmetic::div_mod::lemma_mod_add_multiples_vanish(s, m);
        lemma_wrap_same(s, s + m);
    } else {
        lemma_wrap_in_range(s);
    }
    let t = a - b;
    if t > i64::MAX {
        lemma_wrap_in_range(t - m);
        lemma_mod_sub_multiples_vanish(t, m);
        lemma_wrap_same(t, t - m);
    } else if t < i64::MIN {
        lemma_wrap_in_range(t + m);
        vstd::arithmetic::div_mod::lemma_mod_add_multiples_vanish(t, m);
        lemma_wrap_same(t, t + m);
    } else {
        lemma_wrap_in_range(t);
    }
}

/// A value within one wrap of the `i64` range wraps by at most one turn.
pub(crate) proof fn lemma_wrap_range(x: int)
    requires
        -modulus() <= x < modulus(),
    ensures
        x > i64::MAX ==> wrap64(x) == x - modulus(),
        x < i64::MIN ==> wrap64(x) == x + modulus(),
        i64::MIN <= x <= i64::MAX ==> wrap64(x) == x,
{
    let m = modulus();
    if x > i64::MAX {
        lemma_wrap_in_range(x - m);
        lemma_mod_sub_multiples_vanish(x, m);
        lemma_wrap_same(x, x - m);
    } else if x < i64::MIN {
        lemma_wrap_in_range(x + m);
        vstd::arithmetic::div_mod::lemma_mod_add_multiples_vanish(x, m);
        lemma_wrap_same(x, x + m);
    } else {
        lemma_wrap_in_range(x);
    }
}

fn is_space_byte(byte: u8) -> (r: bool)
    ensures
        r == is_space(byte),
{
    byte == 0x20 || (0x09 <= byte && byte <= 0x0d)
}

/// A digit or a letter, as a digit in base 36.
fn to_digit36(byte: u8) -> (digit: Option<u32>)
    ensures
        match digit {
            Some(d) => digit36(byte) == Some(d as int),
            None => digit36(byte) is None,
        },
{
    if 0x30 <= byte && byte <= 0x39 {
        Some((byte - 0x30) as u32)
    } else if 0x61 <= byte && byte <= 0x7a {
        Some((byte - 0x61 + 10) as u32)
    } else if 0x41 <= byte && byte <= 0x5a {
        Some((byte - 0x41 + 10) as u32)
    } else {
        None
    }
}

proof fn lemma_skip_leading(text: Seq<u8>, start: int)
    requires
        0 <= start <= text.len(),
        forall|i: int| 0 <= i < start ==> is_space(#[trigger] text[i]),
    ensures
        skip_leading(text) == skip_leading(text.subrange(start, text.len() as int)),
    decreases start,
{
    if start > 0 {
        lemma_skip_leading(text.drop_first(), start - 1);
        assert(text.drop_first().subrange(start - 1, text.len() - 1) =~= text.subrange(start, text.len() as int));
    } else {
        assert(text.subrange(0, text.len() as int) =~= text);
    }
}

proof fn lemma_skip_trailing(text: Seq<u8>, end: int)
    requires
        0 <= end <= text.len(),
        forall|i: int| end <= i < text.len() ==> is_space(#[trigger] text[i]),
    ensures
        skip_trailing(text) == skip_trailing(text.subrange(0, end)),
    decreases text.len() - end,
{
    if end < text.len() {
        lemma_skip_trailing(text.drop_last(), end);
        assert(text.drop_last().subrange(0, end) =~= text.subrange(0, end));
    } else {
        assert(text.subrange(0, end) =~= text);
    }
}

/// Digits and letters in `base`, with surrounding whitespace and one sign. A value too large
/// for an integer wraps around.
pub fn in_base(text: &[u8], base: u32) -> (value: Option<i64>)
    ensures
        value == in_base_of(text@, base),
{
    let mut start: usize = 0;
    while start < text.len() && is_space_byte(text[start])
        invariant
            start <= text.len(),
            forall|i: int| 0 <= i < start ==> is_space(#[trigger] text@[i]),
        decreases text.len() - start,
    {
        start += 1;
    }
    let mut end: usize = text.len();
    while end > start && is_space_byte(text[end - 1])
        invariant
            start <= end <= text.len(),
            forall|i: int| end <= i < text.len() ==> is_space(#[trigger] text@[i]),
        decreases end,
    {
        end -= 1;
    }
    let ghost rest = text@.subrange(start as int, text@.len() as int);
    proof {
        lemma_skip_leading(text@, start as int);
        if start < text.len() {
            assert(!is_space(rest[0]));
        }
        assert(skip_leading(rest) == rest);
        lemma_skip_trailing(rest, end - start);
        assert(rest.subrange(0, end - start) =~= text@.subrange(start as int, end as int));
        let trimmed = text@.subrange(start as int, end as int);
        if end > start {
            assert(!is_space(trimmed.last()));
        }
        assert(skip_trailing(trimmed) == trimmed);
    }
    let ghost trimmed = text@.subrange(start as int, end as int);

    let mut negative = false;
    let mut first = start;
    if start < end && text[start] == 0x2d {
        negative = true;
        first = start + 1;
    } else if start < end && text[start] == 0x2b {
        first = start + 1;
    }
    let ghost digits = text@.subrange(first as int, end as int);
    proof {
        if first == start + 1 {
            assert(trimmed.drop_first() =~= digits);
        } else {
            assert(trimmed =~= digits);
        }
    }

    if first == end {
        return None;
    }

    let mut value: i64 = 0;
    let mut i: usize = first;
    proof {
        assert(text@.subrange(first as int, first as int) =~= Seq::<u8>::empty());
        lemma_wrap_in_range(0);
        assert(!all_digits(digits, base) ==> in_base_of(text@, base) is None);
    }
    while i < end
        invariant
            first <= i <= end <= text.len(),
            digits == text@.subrange(first as int, end as int),
            !all_digits(digits, base) ==> in_base_of(text@, base) is None,
            forall|k: int| first <= k < i ==> #[trigger] digit36(text@[k]) is Some && digit36(text@[k])->0 < base,
            value as int == wrap64(digits_value(text@.subrange(first as int, i as int), base)),
        decreases end - i,
    {
        let digit = match to_digit36(text[i]) {
            Some(digit) => digit,
            None => {
                proof {
                    assert(digits[i - first] == text@[i as int]);
                    assert(!all_digits(digits, base));
                }
                return None;
            },
        };
        if digit >= base {
            proof {
                assert(digits[i - first] == text@[i as int]);
                assert(!all_digits(digits, base));
            }
            return None;
        }
        proof {
            let prefix = text@.subrange(first as int, i + 1);
            assert(prefix.drop_last() =~= text@.subrange(first as int, i as int));
            lemma_wrapping_ops(value, base as i64);
            lemma_wrapping_ops(value.wrapping_mul(base as i64), digit as i64);
            lemma_wrap_step(digits_value(text@.subrange(first as int, i as int), base), base as int, digit as int);
        }
        value = value.wrapping_mul(base as i64).wrapping_add(digit as i64);
        i += 1;
    }
    proof {
        assert(text@.subrange(first as int, i as int) =~= digits);
        assert forall|k: int| 0 <= k < digits.len() implies #[trigger] digit36(digits[k]) is Some && digit36(digits[k])->0 < base by {
            assert(digits[k] == text@[first + k]);
        }
        lemma_wrap_mod(digits_value(digits, base));
    }
    if negative {
        proof {
            lemma_wrapping_ops(0, value);
            lemma_wrap_negate(digits_value(digits, base));
        }
        Some(0i64.wrapping_sub(value))
    } else {
        proof {
            lemma_wrap_in_range(value as int);
        }
        Some(value)
    }
}

/// The argument `select(n, ...)` starts after: the `n`-th of the `args` it was given (the
/// count among them), counted from the end when `n` is negative; `None` when that falls before
/// the first.
pub open spec fn select_from_of(asked: i64, args: u32) -> Option<i64> {
    let from = if asked < 0 {
        args + asked
    } else if asked < args {
        asked as int
    } else {
        args as int
    };
    if from < 1 {
        None
    } else {
        Some(from as i64)
    }
}

/// Where `select(n, ...)` starts: it answers the arguments after the one this names.
pub fn select_from(asked: i64, args: u32) -> (from: Option<i64>)
    ensures
        from == select_from_of(asked, args),
{
    let top = args as i64;
    let from = if asked < 0 {
        top + asked
    } else if asked < top {
        asked
    } else {
        top
    };
    if from < 1 {
        None
    } else {
        Some(from)
    }
}

} // verus!
