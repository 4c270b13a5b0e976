//! Front end and execution core of Delta, a small scripting language whose
//! blocks are marked by indentation and whose relations are written as
//! English phrases.
//!
//! Source text is turned into tokens by [`lexer::Lexer`], tokens into a tree
//! by [`parser::Parser`], and the tree is executed by
//! [`evaluator::Evaluator`]. What each of the three has to produce is
//! defined in [`lexer`], [`grammar`] and [`semantics`]; [`laws`] holds what
//! follows from those definitions for every input.
use vstd::prelude::*;

pub mod ast;
pub mod environment;
pub mod evaluator;
pub mod grammar;
pub mod laws;
pub mod lexer;
pub mod parser;
pub mod semantics;
pub mod text;
pub mod values;

verus! {

} // verus!
