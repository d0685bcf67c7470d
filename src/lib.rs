//! A line evaluator for chains of non-negative integers joined by `+`, `-`,
//! `*` and `/`, folded strictly from left to right.
//!
//! The lexer turns a line into tokens one at a time; the interpreter pulls
//! them according to the grammar `integer (operator integer)* end-of-input`
//! and folds each operator into a running value.
pub mod chain;
pub mod interpreter;
pub mod lexer;
pub mod token;

pub use interpreter::{evaluate, Interpreter};
pub use lexer::Lexer;
pub use token::{EvalError, Operation, Token};
