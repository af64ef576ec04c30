//! Expression trees and their parenthesized prefix rendering.
use vstd::prelude::*;

use crate::number::show_agrees;
use crate::token::{Literal, Token, Value};

verus! {

/// An expression. Each child is owned by its parent.
#[derive(Debug)]
pub enum Expr {
    Binary(BinaryExpr),
    Grouping(GroupingExpr),
    Literal(LiteralExpr),
    Unary(UnaryExpr),
    Variable(VariableExpr),
    Assign(AssignExpr),
}

#[derive(Debug)]
pub struct BinaryExpr {
    pub left: Box<Expr>,
    pub operator: Token,
    pub right: Box<Expr>,
}

#[derive(Debug)]
pub struct GroupingExpr {
    pub expression: Box<Expr>,
}

#[derive(Debug)]
pub struct LiteralExpr {
    pub value: Literal,
}

#[derive(Debug)]
pub struct UnaryExpr {
    pub operator: Token,
    pub right: Box<Expr>,
}

#[derive(Debug)]
pub struct VariableExpr {
    pub name: Token,
}

#[derive(Debug)]
pub struct AssignExpr {
    pub name: Token,
    pub value: Box<Expr>,
}

/// The display text of a value, numbers rendered by `show`.
pub open spec fn display_text(v: Value, show: spec_fn(u64) -> Seq<char>) -> Seq<char> {
    match v {
        Value::Str(s) => s,
        Value::Num(n) => show(n),
        Value::Bool(b) => if b {
            "true"@
        } else {
            "false"@
        },
        Value::Nil => "nil"@,
    }
}

pub open spec fn paren1(name: Seq<char>, a: Seq<char>) -> Seq<char> {
    "("@ + name + " "@ + a + ")"@
}

pub open spec fn paren2(name: Seq<char>, a: Seq<char>, b: Seq<char>) -> Seq<char> {
    "("@ + name + " "@ + a + " "@ + b + ")"@
}

/// The parenthesized prefix form of an expression: operator first, each
/// operand after a space, groups written `(group ...)`.
pub open spec fn prefix_text(e: Expr, show: spec_fn(u64) -> Seq<char>) -> Seq<char>
    decreases e,
{
    match e {
        Expr::Binary(b) => paren2(
            b.operator.lexeme@,
            prefix_text(*b.left, show),
            prefix_text(*b.right, show),
        ),
        Expr::Grouping(g) => paren1("group"@, prefix_text(*g.expression, show)),
        Expr::Literal(l) => display_text(l.value@, show),
        Expr::Unary(u) => paren1(u.operator.lexeme@, prefix_text(*u.right, show)),
        Expr::Variable(v) => v.name.lexeme@,
        Expr::Assign(a) => paren1(a.name.lexeme@, prefix_text(*a.value, show)),
    }
}

impl Literal {
    /// The display text of this value: strings raw, `true`/`false`, `nil`,
    /// and numbers as `show` renders them.
    pub fn display_with<S: Fn(u64) -> String>(&self, show: &S) -> (r: String)
        requires
            forall|n: u64| show.requires((n,)),
        ensures
            forall|sh: spec_fn(u64) -> Seq<char>|
                show_agrees(*show, sh) ==> r@ == display_text(self@, sh),
    {
        match self {
            Literal::String(s) => s.clone(),
            Literal::Number(n) => show(*n),
            Literal::Boolean(b) => {
                if *b {
                    "true".to_string()
                } else {
                    "false".to_string()
                }
            },
            Literal::Nil => "nil".to_string(),
        }
    }
}

fn paren(name: &String, a: String, b: Option<String>) -> (r: String)
    ensures
        match b {
            Some(b) => r@ == paren2(name@, a@, b@),
            None => r@ == paren1(name@, a@),
        },
{
    let mut s = "(".to_string();
    s = s.concat(name.as_str());
    s = s.concat(" ");
    s = s.concat(a.as_str());
    match b {
        Some(b) => {
            s = s.concat(" ");
            s = s.concat(b.as_str());
        },
        None => {},
    }
    s = s.concat(")");
    s
}

impl Expr {
    /// Renders this expression in parenthesized prefix form.
    pub fn to_prefix<S: Fn(u64) -> String>(&self, show: &S) -> (r: String)
        requires
            forall|n: u64| show.requires((n,)),
        ensures
            forall|sh: spec_fn(u64) -> Seq<char>|
                show_agrees(*show, sh) ==> r@ == prefix_text(*self, sh),
        decreases self,
    {
        match self {
            Expr::Binary(b) => {
                let l = b.left.to_prefix(show);
                let r = b.right.to_prefix(show);
                let res = paren(&b.operator.lexeme, l, Some(r));
                assert forall|sh: spec_fn(u64) -> Seq<char>| show_agrees(*show, sh) implies res@ == prefix_text(*self, sh) by {
                    assert(l@ == prefix_text(*b.left, sh));
                    assert(r@ == prefix_text(*b.right, sh));
                }
                res
            },
            Expr::Grouping(g) => {
                let inner = g.expression.to_prefix(show);
                let res = paren(&"group".to_string(), inner, None);
                assert forall|sh: spec_fn(u64) -> Seq<char>| show_agrees(*show, sh) implies res@ == prefix_text(*self, sh) by {
                    assert(inner@ == prefix_text(*g.expression, sh));
                }
                res
            },
            Expr::Literal(l) => l.value.display_with(show),
            Expr::Unary(u) => {
                let inner = u.right.to_prefix(show);
                let res = paren(&u.operator.lexeme, inner, None);
                assert forall|sh: spec_fn(u64) -> Seq<char>| show_agrees(*show, sh) implies res@ == prefix_text(*self, sh) by {
                    assert(inner@ == prefix_text(*u.right, sh));
                }
                res
            },
            Expr::Variable(v) => v.name.lexeme.clone(),
            Expr::Assign(a) => {
                let inner = a.value.to_prefix(show);
                let res = paren(&a.name.lexeme, inner, None);
                assert forall|sh: spec_fn(u64) -> Seq<char>| show_agrees(*show, sh) implies res@ == prefix_text(*self, sh) by {
                    assert(inner@ == prefix_text(*a.value, sh));
                }
                res
            },
        }
    }
}

} // verus!
