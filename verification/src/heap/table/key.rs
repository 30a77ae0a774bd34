//! What a table key is, and when two of them are the same one.
use vstd::prelude::*;

use crate::heap::hash::string_hash;
use crate::value::{integral, integral_of, is_nan, is_nan_bits, Value};

verus! {

/// Why a value cannot be a table key.
#[derive(Debug, Clone, Copy, PartialEq, Eq, Structural)]
pub enum KeyError {
    Nil,
    Nan,
}

/// A key `next` was asked to go on from, which the table does not hold.
#[derive(Debug, Clone, Copy, PartialEq, Eq, Structural)]
pub struct InvalidKey;

/// A key as the table tells keys apart: a string by its bytes, everything else by its value.
pub enum KeyView {
    Bool(bool),
    Int(i64),
    Float(u64),
    Str(Seq<u8>),
    Table(u32),
    Func(u32),
    UserData(u32),
    Thread(u32),
}

/// The key a value is, with `strs` the contents of the heap's objects. `nil` is no key; it is
/// given a view here only so that the function is total.
pub open spec fn key_view(key: Value, strs: Seq<Seq<u8>>) -> KeyView {
    match key {
        Value::Nil => KeyView::Bool(false),
        Value::Bool(flag) => KeyView::Bool(flag),
        Value::Int(number) => KeyView::Int(number),
        Value::Float(bits) => KeyView::Float(bits),
        Value::Str(handle) => KeyView::Str(strs[handle.id() as int]),
        Value::Table(handle) => KeyView::Table(handle.id()),
        Value::Func(handle) => KeyView::Func(handle.id()),
        Value::UserData(handle) => KeyView::UserData(handle.id()),
        Value::Thread(handle) => KeyView::Thread(handle.id()),
    }
}

/// The key a value stands for, or why it cannot be one: a float that names an integer exactly
/// is that integer.
pub open spec fn normalized(key: Value) -> Result<Value, KeyError> {
    match key {
        Value::Nil => Err(KeyError::Nil),
        Value::Float(bits) => if is_nan_bits(bits) {
            Err(KeyError::Nan)
        } else {
            match integral_of(bits) {
                Some(integer) => Ok(Value::Int(integer)),
                None => Ok(Value::Float(bits)),
            }
        },
        other => Ok(other),
    }
}

/// A key as the table stores it: not `nil`, and a float only when it is no integer and no NaN.
pub open spec fn is_normal(key: Value) -> bool {
    normalized(key) == Ok::<Value, KeyError>(key)
}

/// The key a value stands for, or why it cannot be one.
pub fn normalize(key: Value) -> (result: Result<Value, KeyError>)
    ensures
        result == normalized(key),
        result matches Ok(k) ==> is_normal(k),
{
    match key {
        Value::Nil => Err(KeyError::Nil),
        Value::Float(bits) => {
            if is_nan(bits) {
                return Err(KeyError::Nan);
            }
            match integral(bits) {
                Some(integer) => Ok(Value::Int(integer)),
                None => Ok(Value::Float(bits)),
            }
        },
        other => Ok(other),
    }
}

/// The `n` low bytes of `x`, least significant first.
pub open spec fn le_bytes(x: nat, n: nat) -> Seq<u8>
    decreases n,
{
    if n == 0 {
        Seq::empty()
    } else {
        seq![(x % 256) as u8] + le_bytes(x / 256, (n - 1) as nat)
    }
}

/// The hash a key is placed by: a string's own hash, and for everything else the hash of the
/// bytes the value is stored as.
pub open spec fn hash_of(key: KeyView) -> u32 {
    match key {
        KeyView::Bool(flag) => string_hash(seq![if flag { 1u8 } else { 0u8 }]),
        KeyView::Int(number) => string_hash(le_bytes(number as u64 as nat, 8)),
        KeyView::Float(bits) => string_hash(le_bytes(bits as nat, 8)),
        KeyView::Str(bytes) => string_hash(bytes),
        KeyView::Table(id) => string_hash(le_bytes(id as nat, 4)),
        KeyView::Func(id) => string_hash(le_bytes(id as nat, 4)),
        KeyView::UserData(id) => string_hash(le_bytes(id as nat, 4)),
        KeyView::Thread(id) => string_hash(le_bytes(id as nat, 4)),
    }
}

/// The `count` low bytes of `x`, least significant first, as `to_le_bytes` writes them.
pub fn to_le_bytes(x: u64, count: usize) -> (bytes: Vec<u8>)
    requires
        count <= 8,
    ensures
        bytes@ == le_bytes(x as nat, count as nat),
{
    let mut out: Vec<u8> = Vec::new();
    let mut rest = x;
    let mut i: usize = 0;
    while i < count
        invariant
            i <= count,
            out@ + le_bytes(rest as nat, (count - i) as nat) == le_bytes(x as nat, count as nat),
        decreases count - i,
    {
        proof {
            let tail = le_bytes(rest as nat, (count - i) as nat);
            assert(tail == seq![(rest % 256) as u8] + le_bytes((rest / 256) as nat, (count - i - 1) as nat));
            assert(out@ + tail =~= out@.push((rest % 256) as u8) + le_bytes((rest / 256) as nat, (count - i - 1) as nat));
        }
        out.push((rest % 256) as u8);
        rest = rest / 256;
        i += 1;
    }
    proof {
        assert(out@ + Seq::<u8>::empty() =~= out@);
    }
    out
}

} // verus!
