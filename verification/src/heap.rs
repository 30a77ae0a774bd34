//! The heap: one arena, and handles that index it.
use vstd::prelude::*;

pub mod handle;
pub mod hash;
mod intern;
pub mod string;
pub mod table;

pub use handle::{FuncRef, ProtoRef, StrRef, TableRef, ThreadRef, UpvalRef, UserDataRef};
pub use hash::{hash_bytes, hash_seed};
pub use string::{Heap, LuaStr, SHORT_STRING_MAX};

verus! {

} // verus!
