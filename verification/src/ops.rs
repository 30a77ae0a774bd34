//! The operators where no float arithmetic is involved: on integers, on the integer a float
//! names exactly, and on strings. Which operand an error blames is decided here; the message
//! that names where the operand came from is the machine's to write.
use vstd::prelude::*;

use crate::arith::{floor_div, floor_div_of, floor_mod, floor_mod_of, shift, shift_of};
use crate::base::wrap64;
use crate::heap::string::Heap;
use crate::value::{integral, integral_of, Value};

verus! {

/// The binary operators on integers alone.
#[derive(Debug, Clone, Copy, PartialEq, Eq, Structural)]
pub enum Bitwise {
    And,
    Or,
    Xor,
    Shl,
    Shr,
}

/// The arithmetic operators that give an integer for two integers. (`/` and `^` always give a
/// float.)
#[derive(Debug, Clone, Copy, PartialEq, Eq, Structural)]
pub enum IntArith {
    Add,
    Sub,
    Mul,
    IDiv,
    Mod,
}

/// Which operand an error is about.
#[derive(Debug, Clone, Copy, PartialEq, Eq, Structural)]
pub enum Blame {
    Left,
    Right,
}

/// Why a bitwise operator refused its operands.
#[derive(Debug, Clone, Copy, PartialEq, Eq, Structural)]
pub enum BitwiseFault {
    /// A number that names no integer exactly.
    NoInteger(Blame),
    /// A value that is no number.
    NotANumber(Blame),
}

/// An integer division or remainder by zero.
#[derive(Debug, Clone, Copy, PartialEq, Eq, Structural)]
pub enum ZeroDivisor {
    Divide,
    Modulo,
}

/// The value is a number, of either shape.
pub open spec fn is_number(value: Value) -> bool {
    value is Int || value is Float
}

/// The integer a value stands for as an operand of a bitwise operator: itself, or the
/// integer a float names exactly.
pub open spec fn integer_of(value: Value) -> Option<i64> {
    match value {
        Value::Int(n) => Some(n),
        Value::Float(bits) => integral_of(bits),
        _ => None,
    }
}

/// What a bitwise operator gives for two integers.
pub open spec fn bitwise_of(kind: Bitwise, a: i64, b: i64) -> i64 {
    match kind {
        Bitwise::And => a & b,
        Bitwise::Or => a | b,
        Bitwise::Xor => a ^ b,
        Bitwise::Shl => shift_of(a, b),
        Bitwise::Shr => shift_of(a, vstd::wrapping::i64_specs::wrapping_sub(0, b)),
    }
}

/// Which operand a refused bitwise operation blames: between two numbers, the first that
/// names no integer; otherwise the first that is no number.
pub open spec fn bitwise_fault_of(left: Value, right: Value) -> BitwiseFault {
    if is_number(left) && is_number(right) {
        BitwiseFault::NoInteger(if integer_of(left) is Some { Blame::Right } else { Blame::Left })
    } else {
        BitwiseFault::NotANumber(if is_number(left) { Blame::Right } else { Blame::Left })
    }
}

/// What an arithmetic operator gives for two integers, or the division by zero it refuses.
pub open spec fn integer_arith_of(op: IntArith, a: i64, b: i64) -> Result<i64, ZeroDivisor> {
    match op {
        IntArith::Add => Ok(vstd::wrapping::i64_specs::wrapping_add(a, b)),
        IntArith::Sub => Ok(vstd::wrapping::i64_specs::wrapping_sub(a, b)),
        IntArith::Mul => Ok(vstd::wrapping::i64_specs::wrapping_mul(a, b)),
        IntArith::IDiv => if b == 0 {
            Err(ZeroDivisor::Divide)
        } else {
            Ok(wrap64(floor_div_of(a as int, b as int)) as i64)
        },
        IntArith::Mod => if b == 0 {
            Err(ZeroDivisor::Modulo)
        } else {
            Ok(floor_mod_of(a as int, b as int) as i64)
        },
    }
}

/// The integer a bitwise operand stands for, if any.
pub fn integer(value: Value) -> (n: Option<i64>)
    ensures
        n == integer_of(value),
{
    match value {
        Value::Int(n) => Some(n),
        Value::Float(bits) => integral(bits),
        _ => None,
    }
}

/// A binary bitwise operator, or the operand it blames.
pub fn bitwise(kind: Bitwise, left: Value, right: Value) -> (r: Result<i64, BitwiseFault>)
    ensures
        r == match (integer_of(left), integer_of(right)) {
            (Some(a), Some(b)) => Ok(bitwise_of(kind, a, b)),
            _ => Err(bitwise_fault_of(left, right)),
        },
{
    let (a, b) = match (integer(left), integer(right)) {
        (Some(a), Some(b)) => (a, b),
        _ => {
            let both = matches!(left, Value::Int(_) | Value::Float(_)) && matches!(right, Value::Int(_) | Value::Float(_));
            if both {
                let blame = if integer(left).is_some() {
                    Blame::Right
                } else {
                    Blame::Left
                };
                return Err(BitwiseFault::NoInteger(blame));
            }
            let blame = if matches!(left, Value::Int(_) | Value::Float(_)) {
                Blame::Right
            } else {
                Blame::Left
            };
            return Err(BitwiseFault::NotANumber(blame));
        },
    };
    Ok(
        match kind {
            Bitwise::And => a & b,
            Bitwise::Or => a | b,
            Bitwise::Xor => a ^ b,
            Bitwise::Shl => shift(a, b),
            Bitwise::Shr => shift(a, 0i64.wrapping_sub(b)),
        },
    )
}

/// `~x`, or why the operand is refused.
pub fn complement(operand: Value) -> (r: Result<i64, BitwiseFault>)
    ensures
        r == match integer_of(operand) {
            Some(n) => Ok(!n),
            None => Err(bitwise_fault_of(operand, operand)),
        },
{
    match integer(operand) {
        Some(n) => Ok(!n),
        None => {
            if matches!(operand, Value::Int(_) | Value::Float(_)) {
                Err(BitwiseFault::NoInteger(Blame::Left))
            } else {
                Err(BitwiseFault::NotANumber(Blame::Left))
            }
        },
    }
}

/// An arithmetic operator on two integers, which wraps around as the machine's integers do,
/// or the division by zero it refuses.
pub fn integer_arith(op: IntArith, a: i64, b: i64) -> (r: Result<i64, ZeroDivisor>)
    ensures
        r == integer_arith_of(op, a, b),
{
    match op {
        IntArith::Add => Ok(a.wrapping_add(b)),
        IntArith::Sub => Ok(a.wrapping_sub(b)),
        IntArith::Mul => Ok(a.wrapping_mul(b)),
        IntArith::IDiv => if b == 0 {
            Err(ZeroDivisor::Divide)
        } else {
            Ok(floor_div(a, b))
        },
        IntArith::Mod => if b == 0 {
            Err(ZeroDivisor::Modulo)
        } else {
            Ok(floor_mod(a, b))
        },
    }
}

impl ZeroDivisor {
    /// What the error says.
    pub fn message(self) -> (text: &'static str)
        ensures
            text@ == match self {
                ZeroDivisor::Divide => "attempt to divide by zero"@,
                ZeroDivisor::Modulo => "attempt to perform 'n%0'"@,
            },
    {
        match self {
            ZeroDivisor::Divide => "attempt to divide by zero",
            ZeroDivisor::Modulo => "attempt to perform 'n%0'",
        }
    }
}

/// `a` comes before `b` byte by byte, a proper prefix first.
pub open spec fn bytes_less(a: Seq<u8>, b: Seq<u8>) -> bool
    decreases a.len(),
{
    if a.len() == 0 {
        b.len() > 0
    } else if b.len() == 0 {
        false
    } else if a[0] != b[0] {
        a[0] < b[0]
    } else {
        bytes_less(a.drop_first(), b.drop_first())
    }
}

/// `a < b` on strings, by their bytes.
pub fn string_less(a: &[u8], b: &[u8]) -> (less: bool)
    ensures
        less == bytes_less(a@, b@),
{
    let mut i: usize = 0;
    proof {
        assert(a@.skip(0) =~= a@);
        assert(b@.skip(0) =~= b@);
    }
    while i < a.len() && i < b.len() && a[i] == b[i]
        invariant
            i <= a@.len(),
            i <= b@.len(),
            a@.subrange(0, i as int) == b@.subrange(0, i as int),
            bytes_less(a@, b@) == bytes_less(a@.skip(i as int), b@.skip(i as int)),
        decreases a@.len() - i,
    {
        proof {
            assert(a@.skip(i as int).drop_first() =~= a@.skip(i + 1));
            assert(b@.skip(i as int).drop_first() =~= b@.skip(i + 1));
            assert(a@.subrange(0, i + 1) =~= a@.subrange(0, i as int).push(a@[i as int]));
            assert(b@.subrange(0, i + 1) =~= b@.subrange(0, i as int).push(b@[i as int]));
        }
        i += 1;
    }
    proof {
        assert(a@.skip(i as int).len() == 0 || b@.skip(i as int).len() == 0 || a@.skip(i as int)[0] != b@.skip(i as int)[0]);
    }
    if i == a.len() {
        i < b.len()
    } else if i == b.len() {
        false
    } else {
        a[i] < b[i]
    }
}

/// The length operator: a string's byte count, or a border of a table. `None` for any other
/// value, which the operator refuses.
pub fn length(heap: &Heap, value: Value) -> (n: Option<i64>)
    requires
        heap.wf(),
        value matches Value::Str(s) ==> heap.is_string(s.id() as int),
        value matches Value::Table(t) ==> heap.is_table(t.id() as int),
        value matches Value::Str(s) ==> heap.strings()[s.id() as int].len() <= i64::MAX,
    ensures
        value matches Value::Str(s) ==> n == Some(heap.strings()[s.id() as int].len() as i64),
        value matches Value::Table(t) ==> (n matches Some(b) && heap.is_border(t.id() as int, b)),
        !(value is Str || value is Table) ==> n is None,
{
    match value {
        Value::Str(handle) => {
            let len = heap.string(handle).len();
            Some(len as i64)
        },
        Value::Table(handle) => Some(heap.table_length(handle)),
        _ => None,
    }
}

/// Strings are ordered by their bytes, each compared as an unsigned value from 0 to 255:
/// where `a` and `b` agree on their first `i` bytes, the byte at `i` decides if both have one
/// and they differ; otherwise the shorter comes first.
pub proof fn lemma_bytes_order(a: Seq<u8>, b: Seq<u8>, i: int)
    requires
        0 <= i <= a.len(),
        i <= b.len(),
        a.subrange(0, i) == b.subrange(0, i),
    ensures
        i < a.len() && i < b.len() && a[i] != b[i] ==> bytes_less(a, b) == ((a[i] as int) < (b[i] as int)),
        i == a.len() ==> bytes_less(a, b) == (i < b.len()),
        i == b.len() && i < a.len() ==> !bytes_less(a, b),
    decreases i,
{
    if i > 0 {
        assert(a[0] == a.subrange(0, i)[0]);
        assert(b[0] == b.subrange(0, i)[0]);
        assert(a.drop_first().subrange(0, i - 1) =~= a.subrange(0, i).drop_first());
        assert(b.drop_first().subrange(0, i - 1) =~= b.subrange(0, i).drop_first());
        lemma_bytes_order(a.drop_first(), b.drop_first(), i - 1);
    }
}

/// One byte is below another exactly when its unsigned value is: `"\\xc3" < "z"` is false.
pub proof fn lemma_byte_order(x: u8, y: u8)
    ensures
        bytes_less(seq![x], seq![y]) == ((x as int) < (y as int)),
{
    assert(seq![x].subrange(0, 0) =~= seq![y].subrange(0, 0));
    lemma_bytes_order(seq![x], seq![y], 0);
    if x == y {
        assert(seq![x].subrange(0, 1) =~= seq![y].subrange(0, 1));
        lemma_bytes_order(seq![x], seq![y], 1);
    }
}

} // verus!
