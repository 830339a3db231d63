//! A verified interpreter for a small Pascal-like language: a lexer that
//! turns source text into tokens, a recursive-descent parser that builds an
//! abstract syntax tree, and an evaluator that walks the tree, maintaining a
//! variable environment and producing a numeric result.
//!
//! Numbers are either 32-bit integers or exact rational numbers; a rational
//! stands for a `REAL` value of the source language, so every arithmetic
//! result is stated and proved exactly.

pub mod ast;
pub mod interpreter;
pub mod laws;
pub mod lexer;
pub mod parser;
pub mod rational;
pub mod token;
