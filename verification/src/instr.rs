//! The decisions of single instructions that need no floating point: where a jump lands, and
//! what storing into a table or defining a global does or refuses.
use vstd::prelude::*;

use crate::heap::string::Heap;
use crate::heap::table::key::{normalized, KeyError};
use crate::heap::table::store::valid_key;
use crate::value::Value;

verus! {

/// Why a store into an object is refused.
#[derive(Debug, Clone, Copy, PartialEq, Eq, Structural)]
pub enum StoreFault {
    /// The object is no table.
    NotATable,
    /// The key is `nil`.
    NilKey,
    /// The key is a NaN.
    NanKey,
}

/// Why defining a global is refused.
#[derive(Debug, Clone, Copy, PartialEq, Eq, Structural)]
pub enum DefineFault {
    /// The global holds something already; `false` counts, only `nil` does not.
    AlreadyDefined,
    Store(StoreFault),
}

/// Where a jump lands: `offset` counts from the instruction after the jump, where the pc
/// already is. `None` for a target outside what a pc can hold.
pub fn jump_target(pc: u32, offset: i32) -> (target: Option<u32>)
    ensures
        target == if 0 <= pc + offset <= u32::MAX {
            Some((pc + offset) as u32)
        } else {
            None
        },
{
    let sum: i64 = pc as i64 + offset as i64;
    if 0 <= sum && sum <= u32::MAX as i64 {
        Some(sum as u32)
    } else {
        None
    }
}

/// What a table store must know of its operands: a table of the heap, under the bound on its
/// keys, and a key that names a live object.
pub open spec fn storable(heap: &Heap, object: Value, key: Value) -> bool {
    object matches Value::Table(t) ==> heap.is_table(t.id() as int) && valid_key(key, heap.strings(), heap.kinds())
        && heap.table_keys(t.id() as int).len() < 0x3fff_ffff
}

/// The outcome of `object[key] = value`: refused for an object that is no table and for a key
/// that cannot be one, and otherwise the write.
pub open spec fn stored(before: &Heap, after: &Heap, object: Value, key: Value, value: Value, r: Result<(), StoreFault>) -> bool {
    match object {
        Value::Table(t) => match normalized(key) {
            Err(KeyError::Nil) => r == Err::<(), StoreFault>(StoreFault::NilKey) && *after == *before,
            Err(KeyError::Nan) => r == Err::<(), StoreFault>(StoreFault::NanKey) && *after == *before,
            Ok(_) => r is Ok && after.table_written(before, t.id() as int, key, value),
        },
        _ => r == Err::<(), StoreFault>(StoreFault::NotATable) && *after == *before,
    }
}

/// `object[key] = value`, as the store instruction does it.
pub fn store(heap: &mut Heap, object: Value, key: Value, value: Value) -> (r: Result<(), StoreFault>)
    requires
        old(heap).wf(),
        storable(old(heap), object, key),
    ensures
        final(heap).wf(),
        stored(old(heap), final(heap), object, key, value, r),
{
    let table = match object {
        Value::Table(table) => table,
        _ => return Err(StoreFault::NotATable),
    };
    match heap.table_set(table, key, value) {
        Ok(()) => Ok(()),
        Err(KeyError::Nil) => Err(StoreFault::NilKey),
        Err(KeyError::Nan) => Err(StoreFault::NanKey),
    }
}

/// Defining a global in `env`: refused where `env` is a table that holds something at the
/// name already, and otherwise a store.
pub fn define_global(heap: &mut Heap, env: Value, key: Value, value: Value) -> (r: Result<(), DefineFault>)
    requires
        old(heap).wf(),
        storable(old(heap), env, key),
    ensures
        final(heap).wf(),
        (env matches Value::Table(t) && old(heap).table_read(t.id() as int, key) != Value::Nil) ==> r == Err::<
            (),
            DefineFault,
        >(DefineFault::AlreadyDefined) && *final(heap) == *old(heap),
        !(env matches Value::Table(t) && old(heap).table_read(t.id() as int, key) != Value::Nil) ==> exists|s: Result<(), StoreFault>|
            #![trigger stored(old(heap), final(heap), env, key, value, s)]
            stored(old(heap), final(heap), env, key, value, s) && r == match s {
                Ok(()) => Ok::<(), DefineFault>(()),
                Err(fault) => Err(DefineFault::Store(fault)),
            },
{
    if let Value::Table(table) = env {
        if !matches!(heap.table_get(table, key), Value::Nil) {
            return Err(DefineFault::AlreadyDefined);
        }
    }
    match store(heap, env, key, value) {
        Ok(()) => Ok(()),
        Err(fault) => Err(DefineFault::Store(fault)),
    }
}

} // verus!
