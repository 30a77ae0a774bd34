//! The lexer.
use vstd::prelude::*;

pub mod bytes;
mod cursor;
mod long;
mod number;
mod scan;
pub mod span;
mod string;
pub mod error;
pub mod grammar;

pub use cursor::{Lexer, MAX_SOURCE};
pub use number::numeral_value;

verus! {

} // verus!
