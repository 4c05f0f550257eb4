//! A verified evaluator for flat arithmetic expressions given as text.
//!
//! The input string is tokenized into numbers, operators and parenthesized
//! groups, and the token sequence is then reduced strictly left to right,
//! one operand/operator/operand triple at a time, to a single [`tokenizer::Number`].

pub mod decimal;
pub mod solver;
pub mod tokenizer;
