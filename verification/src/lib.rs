//! A minimal interpreted-language toolchain: a tokenizer, a recursive-descent
//! parser producing an abstract syntax tree, and a tree-walking evaluator.

use vstd::prelude::*;

pub mod interpreter;
pub mod lex;
pub mod parse;

verus! {

} // verus!
