//! Statements.
use vstd::prelude::*;

use crate::expr::Expr;
use crate::token::Token;

verus! {

/// A statement. Each child is owned by its parent.
#[derive(Debug)]
pub enum Stmt {
    Expression(Expr),
    Print(Expr),
    Var(Token, Option<Expr>),
    Block(Vec<Stmt>),
}

} // verus!
