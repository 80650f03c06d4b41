//! Front end of a small scripting language: a lexer from source text to
//! tokens and a recursive-descent parser from tokens to a syntax tree.
use vstd::prelude::*;

pub mod ast;
pub mod builtins;
pub mod lexer;
pub mod parser;

verus! {

} // verus!
