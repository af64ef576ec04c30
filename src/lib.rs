//! A tree-walking interpreter for a small Lox-family scripting language:
//! scanner, recursive-descent parser, scoped environment and evaluator.
use vstd::prelude::*;

pub mod environment;
pub mod expr;
pub mod interpreter;
pub mod number;
pub mod parser;
pub mod scanner;
pub mod stmt;
pub mod token;
