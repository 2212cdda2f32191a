//! A reader and evaluator for parenthesized arithmetic expressions.
//!
//! Text is split into tokens, tokens are built into a tree of nested lists,
//! and a list is evaluated against a table of named binary operators.

pub mod atoms;
pub mod builder;
pub mod error;
pub mod eval;
pub mod lexer;
pub mod lispies;
pub mod literal;
pub mod nesting;
pub mod parser;
pub mod pattern;
pub mod text;

pub use crate::error::LispError;
pub use crate::eval::{eval, Func, Operator, OperatorTable};
pub use crate::lispies::{Lisper, Lispies, Real};
pub use crate::parser::Parser;
