//! A calculator for arithmetic expressions over non-negative integers.
//!
//! An expression travels through three stages. The tokenizer turns text into
//! tokens, the converter reorders the tokens from infix into postfix order,
//! and the evaluator runs the postfix tokens on a stack. Each stage is a
//! function of its input alone and is specified by a mathematical model over
//! sequences.

use vstd::prelude::*;

pub mod content;
pub mod eval;
pub mod grouping;
pub mod laws;
pub mod postfix;
pub mod token;
pub mod tokenizer;

pub use eval::Expr;
pub use token::{Error, Operator, Token, CLOSE, OPEN};

verus! {

/// The calculator: a namespace for the three stages.
pub struct Calculator {}

} // verus!
