//! A small arithmetic language: a lexer that splits a line into tokens, a
//! parser that finds the loosest operator of a token list and splits there, and
//! an evaluator that runs the tree against a session's variables. Doubles are
//! held as their IEEE-754 bit patterns; the caller supplies the floating-point
//! operations themselves.

pub mod lexer;
pub mod expression;
pub mod statement;
pub mod evaluator;
