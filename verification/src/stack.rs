//! The stacks a running chunk keeps: its values, and its call frames.
use vstd::prelude::*;

pub mod frame;
pub mod values;

pub use frame::{Frame, Want};
pub use values::Stack;

verus! {

} // verus!
