//! Integer arithmetic as Lua defines it: division rounds toward minus infinity, results wrap
//! around, and a shift past the width gives zero.
use vstd::prelude::*;
use vstd::arithmetic::div_mod::{lemma_fundamental_div_mod, lemma_fundamental_div_mod_converse};

use crate::base::wrap64;

verus! {

/// The quotient rounded toward minus infinity. `b` is not zero.
pub open spec fn floor_div_of(a: int, b: int) -> int {
    if b > 0 {
        a / b
    } else {
        (-a) / (-b)
    }
}

/// The remainder that goes with it, which has the sign of `b`.
pub open spec fn floor_mod_of(a: int, b: int) -> int {
    a - b * floor_div_of(a, b)
}

/// The floor of `a / b` from the magnitudes: with `A = |a|`, `B = |b|`, `A = B * uq + ur`.
proof fn lemma_floor_from_magnitudes(a: int, b: int, uq: int, ur: int)
    requires
        b != 0,
        0 <= ur < (if b < 0 { -b } else { b }),
        (if a < 0 { -a } else { a }) == (if b < 0 { -b } else { b }) * uq + ur,
    ensures
        floor_div_of(a, b) == if (a < 0) == (b < 0) || ur == 0 {
            if (a < 0) == (b < 0) { uq } else { -uq }
        } else {
            -uq - 1
        },
{
    let bb = if b < 0 { -b } else { b };
    // The floor of a / b is the floor of (sign * a) / bb, where sign makes the divisor positive.
    let x = if b > 0 { a } else { -a };
    assert(floor_div_of(a, b) == x / bb);
    if (a < 0) == (b < 0) {
        // x == A
        assert(x == uq * bb + ur) by (nonlinear_arith)
            requires
                (if a < 0 { -a } else { a }) == bb * uq + ur,
                x == (if a < 0 { -a } else { a }),
        ;
        lemma_fundamental_div_mod_converse(x, bb, uq, ur);
    } else {
        // x == -A
        if ur == 0 {
            assert(x == (-uq) * bb + 0) by (nonlinear_arith)
                requires
                    (if a < 0 { -a } else { a }) == bb * uq + ur,
                    ur == 0,
                    x == -(if a < 0 { -a } else { a }),
            ;
            lemma_fundamental_div_mod_converse(x, bb, -uq, 0);
        } else {
            assert(x == (-uq - 1) * bb + (bb - ur)) by (nonlinear_arith)
                requires
                    (if a < 0 { -a } else { a }) == bb * uq + ur,
                    x == -(if a < 0 { -a } else { a }),
            ;
            lemma_fundamental_div_mod_converse(x, bb, -uq - 1, bb - ur);
        }
    }
}

/// Integer division and remainder fit together: `a == b * (a // b) + a % b`, and the
/// remainder lies between zero and `b`, on the side of zero that `b` is on.
pub proof fn lemma_floor_div_mod(a: int, b: int)
    requires
        b != 0,
    ensures
        a == b * floor_div_of(a, b) + floor_mod_of(a, b),
        b > 0 ==> 0 <= floor_mod_of(a, b) < b,
        b < 0 ==> b < floor_mod_of(a, b) <= 0,
{
    if b > 0 {
        lemma_fundamental_div_mod(a, b);
        vstd::arithmetic::div_mod::lemma_mod_bound(a, b);
    } else {
        lemma_fundamental_div_mod(-a, -b);
        vstd::arithmetic::div_mod::lemma_mod_bound(-a, -b);
        assert(floor_mod_of(a, b) == -((-a) % (-b))) by (nonlinear_arith)
            requires
                -a == (-b) * ((-a) / (-b)) + (-a) % (-b),
                floor_mod_of(a, b) == a - b * ((-a) / (-b)),
        ;
    }
}

/// The magnitude of an `i64`, which always fits a `u64`.
fn magnitude(x: i64) -> (m: u64)
    ensures
        m == if x < 0 { -x } else { x as int },
{
    if x < 0 {
        (-(x as i128)) as u64
    } else {
        x as u64
    }
}

/// `a // b` on integers: the quotient rounded toward minus infinity, which wraps around for
/// the one quotient that does not fit.
pub fn floor_div(left: i64, right: i64) -> (quotient: i64)
    requires
        right != 0,
    ensures
        quotient == wrap64(floor_div_of(left as int, right as int)),
{
    let ua = magnitude(left);
    let ub = magnitude(right);
    let uq = ua / ub;
    let ur = ua % ub;
    proof {
        lemma_fundamental_div_mod(ua as int, ub as int);
        lemma_floor_from_magnitudes(left as int, right as int, uq as int, ur as int);
    }
    let same_sign = (left < 0) == (right < 0);
    let q: i128 = if same_sign {
        uq as i128
    } else if ur == 0 {
        -(uq as i128)
    } else {
        -(uq as i128) - 1
    };
    proof {
        assert(uq <= ua) by (nonlinear_arith)
            requires
                ua == ub * uq + ur,
                ub >= 1,
                ur >= 0,
        ;
        crate::base::lemma_wrap_range(q as int);
    }
    wrap_i128(q)
}

/// `a % b` on integers: the remainder that goes with rounding toward minus infinity, which
/// has the sign of `b`.
pub fn floor_mod(left: i64, right: i64) -> (rest: i64)
    requires
        right != 0,
    ensures
        rest == floor_mod_of(left as int, right as int),
{
    let ua = magnitude(left);
    let ub = magnitude(right);
    let uq = ua / ub;
    let ur = ua % ub;
    proof {
        lemma_fundamental_div_mod(ua as int, ub as int);
        lemma_floor_from_magnitudes(left as int, right as int, uq as int, ur as int);
        let a = left as int;
        let b = right as int;
        let f = floor_div_of(a, b);
        // a - b * f, case by case, in terms of the magnitudes.
        if (left < 0) == (right < 0) {
            assert(a - b * f == if a < 0 { -(ur as int) } else { ur as int }) by (nonlinear_arith)
                requires
                    (if a < 0 { -a } else { a }) == (if b < 0 { -b } else { b }) * uq + ur,
                    f == uq,
                    (a < 0) == (b < 0),
            ;
        } else if ur == 0 {
            assert(a - b * f == 0) by (nonlinear_arith)
                requires
                    (if a < 0 { -a } else { a }) == (if b < 0 { -b } else { b }) * uq + ur,
                    f == -uq,
                    ur == 0,
                    (a < 0) != (b < 0),
            ;
        } else {
            assert(a - b * f == if a < 0 { (ub - ur) as int } else { ur - ub }) by (nonlinear_arith)
                requires
                    (if a < 0 { -a } else { a }) == (if b < 0 { -b } else { b }) * uq + ur,
                    ub == (if b < 0 { -b } else { b }),
                    f == -uq - 1,
                    (a < 0) != (b < 0),
            ;
        }
    }
    let ur = ur as i128;
    let ub = ub as i128;
    let rest: i128 = if (left < 0) == (right < 0) {
        if left < 0 { -ur } else { ur }
    } else if ur == 0 {
        0
    } else if left < 0 {
        ub - ur
    } else {
        ur - ub
    };
    rest as i64
}

/// The `i64` an `i128` wraps around to.
fn wrap_i128(x: i128) -> (w: i64)
    requires
        -0x1_0000_0000_0000_0000 <= x < 0x1_0000_0000_0000_0000,
    ensures
        w == wrap64(x as int),
{
    proof {
        crate::base::lemma_wrap_range(x as int);
    }
    if x > i64::MAX as i128 {
        (x - 0x1_0000_0000_0000_0000) as i64
    } else if x < i64::MIN as i128 {
        (x + 0x1_0000_0000_0000_0000) as i64
    } else {
        x as i64
    }
}

/// Shifts by more than the width give zero, and a negative count goes the other way.
pub open spec fn shift_of(value: i64, places: i64) -> i64 {
    if places <= -64 || places >= 64 {
        0
    } else if places >= 0 {
        ((value as u64) << (places as u64)) as i64
    } else {
        ((value as u64) >> ((-places) as u64)) as i64
    }
}

/// `a << n` on integers, logical: the bits are those of the value as unsigned.
pub fn shift(value: i64, places: i64) -> (shifted: i64)
    ensures
        shifted == shift_of(value, places),
{
    if places <= -64 || places >= 64 {
        return 0;
    }
    if places >= 0 {
        ((value as u64) << (places as u64)) as i64
    } else {
        ((value as u64) >> ((-places) as u64)) as i64
    }
}

} // verus!
