//! The parser: one recursive descent over the tokens, building the syntax tree.
use vstd::prelude::*;

mod chunk;
mod expr;
mod func;
mod report;
mod stat;

pub use chunk::{parse_chunk, MAX_DEPTH};

verus! {

} // verus!
