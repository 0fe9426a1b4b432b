//! A small interpreter for a Lisp-family language: source text is tokenized,
//! parsed into an abstract syntax tree, and evaluated against a name-to-value
//! environment. Every stage is specified by spec functions and the executable
//! code is verified against them.
pub mod float;
pub mod strutil;
pub mod tokenizer;
pub mod parser;
pub mod eval;
pub mod laws;

use vstd::prelude::*;

verus! {

} // verus!
