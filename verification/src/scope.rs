//! Name resolution, and the assignments it refuses.
use vstd::prelude::*;

pub mod binding;
pub mod expr;
mod label;
pub mod resolver;
pub mod stat;

pub use binding::{Access, Binding, Bindings, Capture, FunctionBindings, Upvalue, VarId};
pub use resolver::resolve;

verus! {

} // verus!
