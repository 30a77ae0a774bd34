//! The front end of a Lua implementation, and the parts of its runtime that hold values:
//! lexing, parsing, name resolution, line numbering, string interning and tables.
use vstd::prelude::*;

pub mod arith;
pub mod ast;
pub mod base;
pub mod call;
pub mod cells;
pub mod corpus;
pub mod error;
pub mod heap;
pub mod instr;
pub mod lexer;
pub mod line_index;
pub mod loops;
pub mod near;
pub mod number;
pub mod operator;
pub mod ops;
pub mod origin;
pub mod parser;
pub mod raise;
pub mod reference;
pub mod scope;
pub mod stack;
pub mod text;
pub mod token;
pub mod value;

verus! {

} // verus!
