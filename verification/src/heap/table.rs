//! Lua tables.
use vstd::prelude::*;

mod access;
pub mod api;
mod chain;
pub mod key;
mod resize;
pub mod size;
pub mod store;

pub use key::{InvalidKey, KeyError};

verus! {

} // verus!
