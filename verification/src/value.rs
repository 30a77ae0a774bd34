//! One Lua value, and the handles that name the objects on the heap.
use vstd::prelude::*;
use vstd::arithmetic::power2::{lemma2_to64, lemma_pow2_adds, lemma_pow2_pos, pow2};

use crate::heap::{FuncRef, StrRef, TableRef, ThreadRef, UserDataRef};

verus! {

/// A Lua value. A float is held as the bits of its binary64 value, as `f64::to_bits` gives them.
#[derive(Debug, Clone, Copy, PartialEq, Eq, Structural)]
pub enum Value {
    Nil,
    Bool(bool),
    Int(i64),
    Float(u64),
    Str(StrRef),
    Table(TableRef),
    Func(FuncRef),
    UserData(UserDataRef),
    Thread(ThreadRef),
}

/// What `type` answers for a value.
pub open spec fn lua_type_of(value: Value) -> Seq<char> {
    match value {
        Value::Nil => "nil"@,
        Value::Bool(_) => "boolean"@,
        Value::Int(_) | Value::Float(_) => "number"@,
        Value::Str(_) => "string"@,
        Value::Table(_) => "table"@,
        Value::Func(_) => "function"@,
        Value::UserData(_) => "userdata"@,
        Value::Thread(_) => "thread"@,
    }
}

impl Value {
    pub fn lua_type(&self) -> (name: &'static str)
        ensures
            name@ == lua_type_of(*self),
    {
        match self {
            Value::Nil => "nil",
            Value::Bool(_) => "boolean",
            Value::Int(_) | Value::Float(_) => "number",
            Value::Str(_) => "string",
            Value::Table(_) => "table",
            Value::Func(_) => "function",
            Value::UserData(_) => "userdata",
            Value::Thread(_) => "thread",
        }
    }

    /// Everything except `nil` and `false` is true in a condition.
    pub fn is_truthy(&self) -> (truthy: bool)
        ensures
            truthy == !(*self == Value::Nil || *self == Value::Bool(false)),
    {
        !matches!(self, Value::Nil | Value::Bool(false))
    }
}

/// The biased exponent field of a binary64's bits.
pub open spec fn exponent_field(bits: u64) -> int {
    (bits as int / pow2(52) as int) % 2048
}

/// The fraction field.
pub open spec fn fraction_field(bits: u64) -> int {
    bits as int % pow2(52) as int
}

/// The sign bit is set.
pub open spec fn sign_set(bits: u64) -> bool {
    bits >= pow2(63)
}

/// The bits are a NaN: all-ones exponent, and a fraction that is not zero.
pub open spec fn is_nan_bits(bits: u64) -> bool {
    exponent_field(bits) == 2047 && fraction_field(bits) != 0
}

/// The integer a binary64 is exactly equal to, if it is one. Zero of either sign is 0.
pub open spec fn integer_value(bits: u64) -> Option<int> {
    let e = exponent_field(bits);
    let m = fraction_field(bits);
    if e == 2047 {
        None
    } else if e == 0 {
        if m == 0 {
            Some(0)
        } else {
            None
        }
    } else {
        let sig = pow2(52) + m;
        let magnitude = if e >= 1075 {
            Some(sig * pow2((e - 1075) as nat))
        } else if sig % pow2((1075 - e) as nat) as int == 0 {
            Some(sig / pow2((1075 - e) as nat) as int)
        } else {
            None
        };
        match magnitude {
            Some(x) => Some(if sign_set(bits) { -x } else { x }),
            None => None,
        }
    }
}

/// The integer a float names exactly, if there is one and it fits an `i64`.
pub open spec fn integral_of(bits: u64) -> Option<i64> {
    match integer_value(bits) {
        Some(v) => if i64::MIN <= v <= i64::MAX {
            Some(v as i64)
        } else {
            None
        },
        None => None,
    }
}

proof fn lemma_fields(bits: u64)
    ensures
        (bits >> 52u64) & 0x7ff == exponent_field(bits),
        bits & 0xf_ffff_ffff_ffff == fraction_field(bits),
        (bits >> 63u64 == 1) == sign_set(bits),
        0 <= fraction_field(bits) < pow2(52),
        0 <= exponent_field(bits) < 2048,
{
    lemma2_to64();
    vstd::arithmetic::power2::lemma2_to64_rest();
    assert((bits >> 52u64) & 0x7ff == (bits / 0x10_0000_0000_0000) % 2048) by (bit_vector);
    assert(bits & 0xf_ffff_ffff_ffff == bits % 0x10_0000_0000_0000) by (bit_vector);
    assert((bits >> 63u64 == 1) == (bits >= 0x8000_0000_0000_0000)) by (bit_vector);
}

/// Whether the bits are a NaN.
pub fn is_nan(bits: u64) -> (nan: bool)
    ensures
        nan == is_nan_bits(bits),
{
    proof {
        lemma_fields(bits);
    }
    (bits >> 52) & 0x7ff == 0x7ff && bits & 0xf_ffff_ffff_ffff != 0
}

/// The integer a float names exactly, if there is one.
pub fn integral(bits: u64) -> (integer: Option<i64>)
    ensures
        integer == integral_of(bits),
{
    proof {
        lemma_fields(bits);
        lemma2_to64();
        vstd::arithmetic::power2::lemma2_to64_rest();
    }
    let exponent = (bits >> 52) & 0x7ff;
    let fraction = bits & 0xf_ffff_ffff_ffff;
    let negative = bits >> 63 == 1;
    if exponent == 0x7ff {
        return None;
    }
    if exponent == 0 {
        return if fraction == 0 {
            Some(0)
        } else {
            None
        };
    }
    let significand = fraction | 0x10_0000_0000_0000;
    proof {
        assert(fraction < 0x10_0000_0000_0000 ==> fraction | 0x10_0000_0000_0000 == fraction + 0x10_0000_0000_0000)
            by (bit_vector);
    }
    if exponent < 1075 {
        let drop = 1075 - exponent;
        if drop > 52 {
            proof {
                lemma_pow2_strictly_grows(53, drop as nat);
                vstd::arithmetic::div_mod::lemma_small_mod(significand as nat, pow2(drop as nat));
            }
            return None;
        }
        proof {
            vstd::bits::lemma_u64_shl_is_mul(1, drop);
            vstd::bits::lemma_u64_low_bits_mask_is_mod(significand, drop as nat);
            vstd::bits::lemma_u64_shr_is_div(significand, drop);
            lemma_pow2_pos(drop as nat);
            vstd::bits::lemma_u64_pow2_no_overflow(drop as nat);
            lemma_pow2_strictly_grows(drop as nat, 53);
        }
        let mask = (1u64 << drop) - 1;
        if significand & mask != 0 {
            return None;
        }
        let magnitude = significand >> drop;
        proof {
            assert(magnitude <= significand) by {
                vstd::arithmetic::div_mod::lemma_div_is_ordered_by_denominator(significand as int, 1, pow2(drop as nat) as int);
            }
        }
        if negative {
            Some(-(magnitude as i64))
        } else {
            Some(magnitude as i64)
        }
    } else {
        let up = exponent - 1075;
        if up >= 11 {
            proof {
                lemma_high_magnitude(significand as int, up as nat);
            }
            if negative && up == 11 && significand == 0x10_0000_0000_0000 {
                proof {
                    lemma_pow2_adds(52, 11);
                }
                return Some(i64::MIN);
            }
            return None;
        }
        proof {
            lemma_pow2_strictly_grows(up as nat, 11);
            assert(significand * pow2(up as nat) < 0x8000_0000_0000_0000) by (nonlinear_arith)
                requires
                    significand < 0x20_0000_0000_0000,
                    pow2(up as nat) <= 0x400,
            ;
            vstd::bits::lemma_u64_shl_is_mul(significand, up);
        }
        let magnitude = significand << up;
        if negative {
            Some(-(magnitude as i64))
        } else {
            Some(magnitude as i64)
        }
    }
}

proof fn lemma_pow2_strictly_grows(a: nat, b: nat)
    requires
        a <= b,
    ensures
        pow2(a) <= pow2(b),
        a < b ==> pow2(a) < pow2(b),
{
    if a < b {
        vstd::arithmetic::power2::lemma_pow2_strictly_increases(a, b);
    }
}

/// A significand of 53 bits shifted up by 11 or more is at least 2^63, and above it unless it
/// is exactly 2^52 shifted by exactly 11.
proof fn lemma_high_magnitude(sig: int, up: nat)
    requires
        0x10_0000_0000_0000 <= sig < 0x20_0000_0000_0000,
        up >= 11,
    ensures
        sig * pow2(up) >= 0x8000_0000_0000_0000,
        !(sig == 0x10_0000_0000_0000 && up == 11) ==> sig * pow2(up) > 0x8000_0000_0000_0000,
        sig == 0x10_0000_0000_0000 && up == 11 ==> sig * pow2(up) == 0x8000_0000_0000_0000,
{
    lemma2_to64();
    vstd::arithmetic::power2::lemma2_to64_rest();
    lemma_pow2_strictly_grows(11, up);
    assert(sig * pow2(up) >= 0x10_0000_0000_0000 * 0x800) by (nonlinear_arith)
        requires
            sig >= 0x10_0000_0000_0000,
            pow2(up) >= 0x800,
    ;
    if up > 11 {
        assert(sig * pow2(up) > 0x10_0000_0000_0000 * 0x800) by (nonlinear_arith)
            requires
                sig >= 0x10_0000_0000_0000,
                pow2(up) > 0x800,
        ;
    } else if sig != 0x10_0000_0000_0000 {
        assert(sig * pow2(up) > 0x10_0000_0000_0000 * 0x800) by (nonlinear_arith)
            requires
                sig > 0x10_0000_0000_0000,
                pow2(up) == 0x800,
        ;
    }
}

/// `type` answers one of the eight basic type names, and both kinds of number, integers and
/// floats alike, are "number".
pub proof fn lemma_type_names(v: Value)
    ensures
        v is Int || v is Float ==> lua_type_of(v) == "number"@,
        v is Nil ==> lua_type_of(v) == "nil"@,
        v is Bool ==> lua_type_of(v) == "boolean"@,
        v is Str ==> lua_type_of(v) == "string"@,
        v is Table ==> lua_type_of(v) == "table"@,
        v is Func ==> lua_type_of(v) == "function"@,
        v is UserData ==> lua_type_of(v) == "userdata"@,
        v is Thread ==> lua_type_of(v) == "thread"@,
        forall|i: i64, f: u64|
            #![trigger lua_type_of(Value::Int(i)), lua_type_of(Value::Float(f))]
            lua_type_of(Value::Int(i)) == lua_type_of(Value::Float(f)),
{
}

} // verus!
