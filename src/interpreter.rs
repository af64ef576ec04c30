//! The evaluator: statements and expressions run against the scope chain.
use vstd::prelude::*;

use crate::environment::{assigned, defined, lemma_update_depth, lookup, Environment, Scope};
use crate::expr::{Expr, LiteralExpr, UnaryExpr};
use crate::number::{
    arith_agrees, arith_total, is_zero, negate, num_eq, num_le, num_lt, spec_is_zero, spec_negate,
    spec_num_eq, spec_num_le, spec_num_lt, ArithOp,
};
use crate::parser::{
    fails_first_at, invalid_target_report, is_program, parse_error_text, stmts_normal, stmts_read_as,
    ParseError,
    Parser,
};
use crate::scanner::{
    parse_agrees, parse_total, scan_spec, scan_succeeded, scanner_error_text, views, Scanner, ScannerError,
};
use crate::stmt::Stmt;
use crate::token::{token_text, Literal, Token, TokenType, TokenView, Value};

verus! {

/// A failure during evaluation.
#[derive(Debug)]
pub enum RuntimeError {
    /// An operand of the wrong kind for the operator token.
    Token(Token, &'static str),
    /// A name that no scope binds.
    UndefinedVariable(String),
}

pub enum RuntimeErrorView {
    Token(TokenView, Seq<char>),
    UndefinedVariable(Seq<char>),
}

impl View for RuntimeError {
    type V = RuntimeErrorView;

    open spec fn view(&self) -> RuntimeErrorView {
        match self {
            RuntimeError::Token(t, m) => RuntimeErrorView::Token(t@, m@),
            RuntimeError::UndefinedVariable(n) => RuntimeErrorView::UndefinedVariable(n@),
        }
    }
}

/// The display text of a runtime error.
pub open spec fn runtime_error_text(e: RuntimeErrorView) -> Seq<char> {
    match e {
        RuntimeErrorView::Token(t, m) => token_text(t) + ": "@ + m,
        RuntimeErrorView::UndefinedVariable(n) => "Undefined variable '"@ + n + "'."@,
    }
}

impl RuntimeError {
    /// `<kind> <lexeme>: <message>`, or `Undefined variable '<name>'.`
    pub fn message(&self) -> (r: String)
        ensures
            r@ == runtime_error_text(self@),
    {
        match self {
            RuntimeError::Token(t, m) => t.text().concat(": ").concat(m),
            RuntimeError::UndefinedVariable(n) => "Undefined variable '".to_string().concat(
                n.as_str(),
            ).concat("'."),
        }
    }
}

pub open spec fn value_result(r: Result<Literal, RuntimeError>) -> Result<Value, RuntimeErrorView> {
    match r {
        Ok(v) => Ok(v@),
        Err(e) => Err(e@),
    }
}

pub open spec fn unit_result(r: Result<(), RuntimeError>) -> Result<(), RuntimeErrorView> {
    match r {
        Ok(_) => Ok(()),
        Err(e) => Err(e@),
    }
}

pub open spec fn values_of(s: Seq<Literal>) -> Seq<Value> {
    s.map_values(|l: Literal| l@)
}

/// Only `nil` and `false` are false.
pub open spec fn truthy(v: Value) -> bool {
    match v {
        Value::Nil => false,
        Value::Bool(b) => b,
        _ => true,
    }
}

/// Structural equality; numbers compare as IEEE-754 values; values of
/// different kinds are unequal.
pub open spec fn values_equal(a: Value, b: Value) -> bool {
    match (a, b) {
        (Value::Num(x), Value::Num(y)) => spec_num_eq(x, y),
        (Value::Str(x), Value::Str(y)) => x == y,
        (Value::Bool(x), Value::Bool(y)) => x == y,
        (Value::Nil, Value::Nil) => true,
        _ => false,
    }
}

pub open spec fn is_binary_op(t: TokenType) -> bool {
    t == TokenType::Minus || t == TokenType::Slash || t == TokenType::Star || t == TokenType::Plus
        || t == TokenType::Greater || t == TokenType::GreaterEqual || t == TokenType::Less || t
        == TokenType::LessEqual || t == TokenType::BangEqual || t == TokenType::EqualEqual
}

pub open spec fn is_unary_op(t: TokenType) -> bool {
    t == TokenType::Minus || t == TokenType::Bang
}

/// Every operator token of the tree is one the evaluator knows.
pub open spec fn wf_expr(e: Expr) -> bool
    decreases e,
{
    match e {
        Expr::Binary(b) => is_binary_op(b.operator.typ) && wf_expr(*b.left) && wf_expr(*b.right),
        Expr::Grouping(g) => wf_expr(*g.expression),
        Expr::Literal(_) => true,
        Expr::Unary(u) => is_unary_op(u.operator.typ) && wf_expr(*u.right),
        Expr::Variable(_) => true,
        Expr::Assign(a) => wf_expr(*a.value),
    }
}

pub open spec fn wf_stmt(s: Stmt) -> bool
    decreases s,
{
    match s {
        Stmt::Expression(e) => wf_expr(e),
        Stmt::Print(e) => wf_expr(e),
        Stmt::Var(_, init) => match init {
            Some(e) => wf_expr(e),
            None => true,
        },
        Stmt::Block(ss) => wf_stmts(ss@),
    }
}

pub open spec fn wf_stmts(ss: Seq<Stmt>) -> bool
    decreases ss,
{
    if ss.len() == 0 {
        true
    } else {
        wf_stmt(ss[0]) && wf_stmts(ss.subrange(1, ss.len() as int))
    }
}

pub proof fn lemma_wf_stmts_push(ss: Seq<Stmt>, s: Stmt)
    requires
        wf_stmts(ss),
        wf_stmt(s),
    ensures
        wf_stmts(ss.push(s)),
    decreases ss.len(),
{
    if ss.len() > 0 {
        lemma_wf_stmts_push(ss.subrange(1, ss.len() as int), s);
        let p = ss.push(s);
        assert(p.subrange(1, p.len() as int) =~= ss.subrange(1, ss.len() as int).push(s));
        assert(p[0] == ss[0]);
        assert(wf_stmt(p[0]));
    } else {
        let p = ss.push(s);
        assert(p.subrange(1, p.len() as int) =~= Seq::<Stmt>::empty());
        assert(p[0] == s);
        assert(wf_stmts(p.subrange(1, p.len() as int)));
    }
}

pub open spec fn operand_error(op: Token, msg: Seq<char>) -> RuntimeErrorView {
    RuntimeErrorView::Token(op@, msg)
}

/// The result of an operator that needs two numbers.
pub open spec fn numeric_value(
    op: Token,
    a: u64,
    b: u64,
    num: spec_fn(ArithOp, u64, u64) -> u64,
) -> Result<Value, RuntimeErrorView> {
    match op.typ {
        TokenType::Minus => Ok(Value::Num(num(ArithOp::Sub, a, b))),
        TokenType::Star => Ok(Value::Num(num(ArithOp::Mul, a, b))),
        TokenType::Slash => if spec_is_zero(b) {
            Err(operand_error(op, "Cannot divide by zero."@))
        } else {
            Ok(Value::Num(num(ArithOp::Div, a, b)))
        },
        TokenType::Greater => Ok(Value::Bool(spec_num_lt(b, a))),
        TokenType::GreaterEqual => Ok(Value::Bool(spec_num_le(b, a))),
        TokenType::Less => Ok(Value::Bool(spec_num_lt(a, b))),
        _ => Ok(Value::Bool(spec_num_le(a, b))),
    }
}

/// The result of a binary operator on two evaluated operands.
pub open spec fn binary_value(
    op: Token,
    l: Value,
    r: Value,
    num: spec_fn(ArithOp, u64, u64) -> u64,
) -> Result<Value, RuntimeErrorView> {
    match op.typ {
        TokenType::Plus => match (l, r) {
            (Value::Num(a), Value::Num(b)) => Ok(Value::Num(num(ArithOp::Add, a, b))),
            (Value::Str(a), Value::Str(b)) => Ok(Value::Str(a + b)),
            _ => Err(operand_error(op, "Operands must be two numbers or two strings."@)),
        },
        TokenType::EqualEqual => Ok(Value::Bool(values_equal(l, r))),
        TokenType::BangEqual => Ok(Value::Bool(!values_equal(l, r))),
        _ => match (l, r) {
            (Value::Num(a), Value::Num(b)) => numeric_value(op, a, b, num),
            _ => Err(operand_error(op, "Operands must be numbers."@)),
        },
    }
}

/// The result of a unary operator on its evaluated operand.
pub open spec fn unary_value(op: Token, v: Value) -> Result<Value, RuntimeErrorView> {
    match op.typ {
        TokenType::Minus => match v {
            Value::Num(n) => Ok(Value::Num(spec_negate(n))),
            _ => Err(operand_error(op, "Invalid operand for unary minus"@)),
        },
        _ => Ok(Value::Bool(!truthy(v))),
    }
}

/// The literal under exactly `n` applications of `!`, if `e` is that.
pub open spec fn literal_under_bangs(e: Expr, n: nat) -> Option<Value>
    decreases e,
{
    match e {
        Expr::Literal(l) => if n == 0 {
            Some(l.value@)
        } else {
            None
        },
        Expr::Unary(u) => if n > 0 && u.operator.typ == TokenType::Bang {
            literal_under_bangs(*u.right, (n - 1) as nat)
        } else {
            None
        },
        _ => None,
    }
}

/// `v` with `!` applied `n` times.
pub open spec fn negated(v: Value, n: nat) -> Value
    decreases n,
{
    if n == 0 {
        v
    } else {
        Value::Bool(!truthy(negated(v, (n - 1) as nat)))
    }
}

/// `!!x` is `Boolean(truthy(x))`.
pub proof fn lemma_negated_twice(x: Value)
    ensures
        negated(x, 2) == Value::Bool(truthy(x)),
{
    assert(negated(x, 0) == x);
    assert(negated(x, 1) == Value::Bool(!truthy(negated(x, 0))));
    assert(negated(x, 2) == Value::Bool(!truthy(negated(x, 1))));
}

/// The outcome of evaluating an expression: its value or error, and the
/// scopes afterwards (an assignment changes them).
pub struct Evaluated {
    pub result: Result<Value, RuntimeErrorView>,
    pub frames: Seq<Scope>,
}

/// Evaluation of an expression, operands left to right, with `num` giving
/// the four arithmetic operations.
pub open spec fn eval(e: Expr, frames: Seq<Scope>, num: spec_fn(ArithOp, u64, u64) -> u64) -> Evaluated
    decreases e,
{
    match e {
        Expr::Binary(b) => {
            let l = eval(*b.left, frames, num);
            match l.result {
                Err(_) => l,
                Ok(lv) => {
                    let r = eval(*b.right, l.frames, num);
                    match r.result {
                        Err(_) => r,
                        Ok(rv) => Evaluated {
                            result: binary_value(b.operator, lv, rv, num),
                            frames: r.frames,
                        },
                    }
                },
            }
        },
        Expr::Grouping(g) => eval(*g.expression, frames, num),
        Expr::Literal(l) => Evaluated { result: Ok(l.value@), frames },
        Expr::Unary(u) => {
            let r = eval(*u.right, frames, num);
            match r.result {
                Err(_) => r,
                Ok(v) => Evaluated { result: unary_value(u.operator, v), frames: r.frames },
            }
        },
        Expr::Variable(v) => Evaluated {
            result: match lookup(frames, v.name.lexeme@) {
                Some(x) => Ok(x),
                None => Err(RuntimeErrorView::UndefinedVariable(v.name.lexeme@)),
            },
            frames,
        },
        Expr::Assign(a) => {
            let r = eval(*a.value, frames, num);
            match r.result {
                Err(_) => r,
                Ok(v) => match assigned(r.frames, a.name.lexeme@, v) {
                    Some(f) => Evaluated { result: Ok(v), frames: f },
                    None => Evaluated {
                        result: Err(RuntimeErrorView::UndefinedVariable(a.name.lexeme@)),
                        frames: r.frames,
                    },
                },
            }
        },
    }
}

/// The outcome of executing statements: success or the first error, the
/// scopes afterwards, and the values printed, in order.
pub struct Executed {
    pub result: Result<(), RuntimeErrorView>,
    pub frames: Seq<Scope>,
    pub printed: Seq<Value>,
}

pub open spec fn exec_stmt(s: Stmt, frames: Seq<Scope>, num: spec_fn(ArithOp, u64, u64) -> u64) -> Executed
    decreases s,
{
    match s {
        Stmt::Expression(e) => {
            let r = eval(e, frames, num);
            Executed {
                result: match r.result {
                    Ok(_) => Ok(()),
                    Err(x) => Err(x),
                },
                frames: r.frames,
                printed: seq![],
            }
        },
        Stmt::Print(e) => {
            let r = eval(e, frames, num);
            match r.result {
                Ok(v) => Executed { result: Ok(()), frames: r.frames, printed: seq![v] },
                Err(x) => Executed { result: Err(x), frames: r.frames, printed: seq![] },
            }
        },
        Stmt::Var(name, init) => match init {
            None => Executed {
                result: Ok(()),
                frames: defined(frames, name.lexeme@, Value::Nil),
                printed: seq![],
            },
            Some(e) => {
                let r = eval(e, frames, num);
                match r.result {
                    Ok(v) => Executed {
                        result: Ok(()),
                        frames: defined(r.frames, name.lexeme@, v),
                        printed: seq![],
                    },
                    Err(x) => Executed { result: Err(x), frames: r.frames, printed: seq![] },
                }
            },
        },
        Stmt::Block(ss) => {
            let inner = exec_stmts(ss@, frames.push(Scope::empty()), num);
            Executed { result: inner.result, frames: inner.frames.drop_last(), printed: inner.printed }
        },
    }
}

/// Statements run in order; the first error stops the rest.
pub open spec fn exec_stmts(ss: Seq<Stmt>, frames: Seq<Scope>, num: spec_fn(ArithOp, u64, u64) -> u64) -> Executed
    decreases ss,
{
    if ss.len() == 0 {
        Executed { result: Ok(()), frames, printed: seq![] }
    } else {
        let first = exec_stmt(ss[0], frames, num);
        match first.result {
            Err(_) => first,
            Ok(_) => {
                let rest = exec_stmts(ss.subrange(1, ss.len() as int), first.frames, num);
                Executed {
                    result: rest.result,
                    frames: rest.frames,
                    printed: first.printed + rest.printed,
                }
            },
        }
    }
}

fn literals_equal(a: &Literal, b: &Literal) -> (r: bool)
    ensures
        r == values_equal(a@, b@),
{
    match (a, b) {
        (Literal::Number(x), Literal::Number(y)) => num_eq(*x, *y),
        (Literal::String(x), Literal::String(y)) => *x == *y,
        (Literal::Boolean(x), Literal::Boolean(y)) => *x == *y,
        (Literal::Nil, Literal::Nil) => true,
        _ => false,
    }
}

fn is_truthy(v: &Literal) -> (r: bool)
    ensures
        r == truthy(v@),
{
    match v {
        Literal::Nil => false,
        Literal::Boolean(b) => *b,
        _ => true,
    }
}

fn numeric_operation<F: Fn(ArithOp, u64, u64) -> u64>(op: &Token, a: u64, b: u64, arith: &F) -> (res:
    Result<Literal, RuntimeError>)
    requires
        is_binary_op(op.typ),
        op.typ != TokenType::Plus,
        op.typ != TokenType::EqualEqual,
        op.typ != TokenType::BangEqual,
        arith_total(*arith),
    ensures
        forall|num: spec_fn(ArithOp, u64, u64) -> u64| #[trigger]
            arith_agrees(*arith, num) ==> value_result(res) == numeric_value(*op, a, b, num),
{
    match op.typ {
        TokenType::Minus => Ok(Literal::Number(arith(ArithOp::Sub, a, b))),
        TokenType::Star => Ok(Literal::Number(arith(ArithOp::Mul, a, b))),
        TokenType::Slash => {
            if is_zero(b) {
                Err(RuntimeError::Token(op.duplicate(), "Cannot divide by zero."))
            } else {
                Ok(Literal::Number(arith(ArithOp::Div, a, b)))
            }
        },
        TokenType::Greater => Ok(Literal::Boolean(num_lt(b, a))),
        TokenType::GreaterEqual => Ok(Literal::Boolean(num_le(b, a))),
        TokenType::Less => Ok(Literal::Boolean(num_lt(a, b))),
        _ => Ok(Literal::Boolean(num_le(a, b))),
    }
}

fn binary_operation<F: Fn(ArithOp, u64, u64) -> u64>(
    op: &Token,
    left: &Literal,
    right: &Literal,
    arith: &F,
) -> (res: Result<Literal, RuntimeError>)
    requires
        is_binary_op(op.typ),
        arith_total(*arith),
    ensures
        forall|num: spec_fn(ArithOp, u64, u64) -> u64| #[trigger]
            arith_agrees(*arith, num) ==> value_result(res) == binary_value(*op, left@, right@, num),
{
    match op.typ {
        TokenType::Plus => match (left, right) {
            (Literal::Number(a), Literal::Number(b)) => Ok(Literal::Number(arith(ArithOp::Add, *a, *b))),
            (Literal::String(a), Literal::String(b)) => Ok(Literal::String(a.clone().concat(b.as_str()))),
            _ => Err(RuntimeError::Token(op.duplicate(), "Operands must be two numbers or two strings.")),
        },
        TokenType::EqualEqual => Ok(Literal::Boolean(literals_equal(left, right))),
        TokenType::BangEqual => Ok(Literal::Boolean(!literals_equal(left, right))),
        _ => match (left, right) {
            (Literal::Number(a), Literal::Number(b)) => numeric_operation(op, *a, *b, arith),
            _ => Err(RuntimeError::Token(op.duplicate(), "Operands must be numbers.")),
        },
    }
}

fn unary_operation(op: &Token, v: &Literal) -> (res: Result<Literal, RuntimeError>)
    requires
        is_unary_op(op.typ),
    ensures
        value_result(res) == unary_value(*op, v@),
{
    match op.typ {
        TokenType::Minus => match v {
            Literal::Number(n) => Ok(Literal::Number(negate(*n))),
            _ => Err(RuntimeError::Token(op.duplicate(), "Invalid operand for unary minus")),
        },
        _ => Ok(Literal::Boolean(!is_truthy(v))),
    }
}

/// The interpreter: a scope chain whose globals persist from one run to
/// the next.
pub struct Interpreter {
    environment: Environment,
}

impl Interpreter {
    /// The scopes, globals first.
    pub closed spec fn scopes(&self) -> Seq<Scope> {
        self.environment@
    }

    pub closed spec fn wf(&self) -> bool {
        self.environment.wf()
    }

    pub proof fn lemma_wf(&self)
        requires
            self.wf(),
        ensures
            self.scopes().len() > 0,
    {
        self.environment.lemma_wf();
    }

    /// An interpreter with empty globals.
    pub fn new() -> (r: Self)
        ensures
            r.wf(),
            r.scopes() == seq![Scope::empty()],
    {
        Interpreter { environment: Environment::new() }
    }

    /// Evaluates an expression in the current scope chain.
    pub fn evaluate<F: Fn(ArithOp, u64, u64) -> u64>(&mut self, e: &Expr, arith: &F) -> (r: Result<
        Literal,
        RuntimeError,
    >)
        requires
            old(self).wf(),
            wf_expr(*e),
            arith_total(*arith),
        ensures
            final(self).wf(),
            final(self).scopes().len() == old(self).scopes().len(),
            forall|num: spec_fn(ArithOp, u64, u64) -> u64| #[trigger]
                arith_agrees(*arith, num) ==> value_result(r) == eval(*e, old(self).scopes(), num).result
                    && final(self).scopes() == eval(*e, old(self).scopes(), num).frames,
            forall|n: nat| #[trigger]
                literal_under_bangs(*e, n) is Some ==> r is Ok && r->Ok_0@ == negated(
                    literal_under_bangs(*e, n)->Some_0,
                    n,
                ),
        decreases e,
    {
        let ghost s0 = self.scopes();
        match e {
            Expr::Binary(b) => {
                let l = self.evaluate(&b.left, arith);
                match l {
                    Err(err) => Err(err),
                    Ok(lv) => {
                        let ghost s1 = self.scopes();
                        let r = self.evaluate(&b.right, arith);
                        match r {
                            Err(err) => {
                                assert forall|num: spec_fn(ArithOp, u64, u64) -> u64| #[trigger]
                                    arith_agrees(*arith, num) implies value_result(
                                    Err::<Literal, RuntimeError>(err),
                                ) == eval(*e, s0, num).result && self.scopes() == eval(
                                    *e,
                                    s0,
                                    num,
                                ).frames by {
                                    assert(eval(*b.left, s0, num).frames == s1);
                                }
                                Err(err)
                            },
                            Ok(rv) => {
                                let res = binary_operation(&b.operator, &lv, &rv, arith);
                                assert forall|num: spec_fn(ArithOp, u64, u64) -> u64| #[trigger]
                                    arith_agrees(*arith, num) implies value_result(res) == eval(
                                    *e,
                                    s0,
                                    num,
                                ).result && self.scopes() == eval(*e, s0, num).frames by {
                                    assert(eval(*b.left, s0, num).frames == s1);
                                }
                                res
                            },
                        }
                    },
                }
            },
            Expr::Grouping(g) => self.evaluate(&g.expression, arith),
            Expr::Literal(l) => Ok(l.value.duplicate()),
            Expr::Unary(u) => {
                let r = self.evaluate(&u.right, arith);
                let res = match r {
                    Err(err) => Err(err),
                    Ok(v) => unary_operation(&u.operator, &v),
                };
                proof {
                    assert forall|n: nat| #[trigger]
                        literal_under_bangs(*e, n) is Some implies res is Ok && res->Ok_0@ == negated(
                            literal_under_bangs(*e, n)->Some_0,
                            n,
                        ) by {
                        assert(literal_under_bangs(*u.right, (n - 1) as nat) == literal_under_bangs(*e, n));
                    }
                }
                res
            },
            Expr::Variable(v) => self.environment.get(&v.name.lexeme),
            Expr::Assign(a) => {
                let r = self.evaluate(&a.value, arith);
                match r {
                    Err(err) => Err(err),
                    Ok(v) => {
                        let kept = v.duplicate();
                        match self.environment.assign(&a.name.lexeme, v) {
                            Ok(()) => Ok(kept),
                            Err(err) => Err(err),
                        }
                    },
                }
            },
        }
    }

    /// Executes one statement; printed values are appended to `out`.
    pub fn execute<F: Fn(ArithOp, u64, u64) -> u64>(
        &mut self,
        s: &Stmt,
        arith: &F,
        out: &mut Vec<Literal>,
    ) -> (r: Result<(), RuntimeError>)
        requires
            old(self).wf(),
            wf_stmt(*s),
            arith_total(*arith),
        ensures
            final(self).wf(),
            final(self).scopes().len() == old(self).scopes().len(),
            forall|num: spec_fn(ArithOp, u64, u64) -> u64| #[trigger]
                arith_agrees(*arith, num) ==> unit_result(r) == exec_stmt(*s, old(self).scopes(), num).result
                    && final(self).scopes() == exec_stmt(*s, old(self).scopes(), num).frames
                    && values_of(final(out)@) == values_of(old(out)@) + exec_stmt(*s, old(self).scopes(), num).printed,
            !prints(*s) ==> final(out)@ == old(out)@,
        decreases s, 0nat,
    {
        let ghost s0 = self.scopes();
        let ghost o0 = out@;
        match s {
            Stmt::Expression(e) => {
                let r = self.evaluate(e, arith);
                assert(values_of(out@) =~= values_of(o0) + Seq::<Value>::empty());
                match r {
                    Ok(_) => Ok(()),
                    Err(err) => Err(err),
                }
            },
            Stmt::Print(e) => {
                let r = self.evaluate(e, arith);
                match r {
                    Ok(v) => {
                        let ghost vv = v@;
                        out.push(v);
                        assert(values_of(out@) =~= values_of(o0) + seq![vv]);
                        Ok(())
                    },
                    Err(err) => {
                        assert(values_of(out@) =~= values_of(o0) + Seq::<Value>::empty());
                        Err(err)
                    },
                }
            },
            Stmt::Var(name, init) => {
                assert(values_of(out@) =~= values_of(o0) + Seq::<Value>::empty());
                match init {
                    None => {
                        self.environment.define(name.lexeme.clone(), Literal::Nil);
                        Ok(())
                    },
                    Some(e) => {
                        let r = self.evaluate(e, arith);
                        match r {
                            Ok(v) => {
                                self.environment.define(name.lexeme.clone(), v);
                                Ok(())
                            },
                            Err(err) => Err(err),
                        }
                    },
                }
            },
            Stmt::Block(ss) => self.execute_block(ss, arith, out),
        }
    }

    /// Executes statements in a new scope enclosed by the current one. The
    /// enclosing scope is current again afterwards, whether the block
    /// finished or failed.
    fn execute_block<F: Fn(ArithOp, u64, u64) -> u64>(
        &mut self,
        block: &Vec<Stmt>,
        arith: &F,
        out: &mut Vec<Literal>,
    ) -> (r: Result<(), RuntimeError>)
        requires
            old(self).wf(),
            wf_stmts(block@),
            arith_total(*arith),
        ensures
            final(self).wf(),
            final(self).scopes().len() == old(self).scopes().len(),
            forall|num: spec_fn(ArithOp, u64, u64) -> u64| #[trigger]
                arith_agrees(*arith, num) ==> unit_result(r) == exec_stmt(Stmt::Block(*block), old(self).scopes(), num).result
                    && final(self).scopes() == exec_stmt(Stmt::Block(*block), old(self).scopes(), num).frames
                    && values_of(final(out)@) == values_of(old(out)@) + exec_stmt(Stmt::Block(*block), old(self).scopes(), num).printed,
            !any_prints(block@) ==> final(out)@ == old(out)@,
        decreases block, block.len() + 1,
    {
        let ghost s0 = self.scopes();
        proof {
            self.lemma_wf();
        }
        self.environment.push_scope();
        assert(block@.subrange(0, block@.len() as int) =~= block@);
        assert(self.scopes() == s0.push(Scope::empty()));
        let r = self.execute_from(block, 0, arith, out);
        assert(self.scopes().len() == s0.len() + 1);
        self.environment.pop_scope();
        assert(self.scopes().len() == s0.len());
        r
    }

    /// Executes `stmts[i..]` in order, stopping at the first error.
    fn execute_from<F: Fn(ArithOp, u64, u64) -> u64>(
        &mut self,
        stmts: &Vec<Stmt>,
        i: usize,
        arith: &F,
        out: &mut Vec<Literal>,
    ) -> (r: Result<(), RuntimeError>)
        requires
            old(self).wf(),
            i <= stmts.len(),
            wf_stmts(stmts@.subrange(i as int, stmts.len() as int)),
            arith_total(*arith),
        ensures
            final(self).wf(),
            final(self).scopes().len() == old(self).scopes().len(),
            forall|num: spec_fn(ArithOp, u64, u64) -> u64| #[trigger]
                arith_agrees(*arith, num) ==> unit_result(r) == exec_stmts(stmts@.subrange(i as int, stmts.len() as int), old(self).scopes(), num).result
                    && final(self).scopes() == exec_stmts(stmts@.subrange(i as int, stmts.len() as int), old(self).scopes(), num).frames
                    && values_of(final(out)@) == values_of(old(out)@) + exec_stmts(stmts@.subrange(i as int, stmts.len() as int), old(self).scopes(), num).printed,
            !any_prints(stmts@.subrange(i as int, stmts.len() as int)) ==> final(out)@ == old(out)@,
        decreases stmts, stmts.len() - i,
    {
        let ghost s0 = self.scopes();
        let ghost o0 = out@;
        let ghost rest = stmts@.subrange(i as int, stmts.len() as int);
        if i == stmts.len() {
            assert(values_of(out@) =~= values_of(o0) + Seq::<Value>::empty());
            return Ok(());
        }
        assert(rest.subrange(1, rest.len() as int) =~= stmts@.subrange(i + 1, stmts.len() as int));
        assert(rest[0] == stmts@[i as int]);
        let r = self.execute(&stmts[i], arith, out);
        match r {
            Err(err) => Err(err),
            Ok(()) => {
                let ghost s1 = self.scopes();
                let ghost o1 = out@;
                let r2 = self.execute_from(stmts, i + 1, arith, out);
                assert forall|num: spec_fn(ArithOp, u64, u64) -> u64| #[trigger]
                    arith_agrees(*arith, num) implies unit_result(r2) == exec_stmts(rest, s0, num).result
                        && self.scopes() == exec_stmts(rest, s0, num).frames
                        && values_of(out@) == values_of(o0) + exec_stmts(rest, s0, num).printed by {
                    let first = exec_stmt(stmts@[i as int], s0, num);
                    let tail = exec_stmts(stmts@.subrange(i + 1, stmts.len() as int), s1, num);
                    assert(values_of(out@) == values_of(o1) + tail.printed);
                    assert(values_of(o1) == values_of(o0) + first.printed);
                    assert(values_of(out@) =~= values_of(o0) + (first.printed + tail.printed));
                }
                r2
            },
        }
    }

    /// Executes a program's statements in order, stopping at the first
    /// error; printed values are appended to `out`.
    pub fn interpret<F: Fn(ArithOp, u64, u64) -> u64>(
        &mut self,
        stmts: &Vec<Stmt>,
        arith: &F,
        out: &mut Vec<Literal>,
    ) -> (r: Result<(), RuntimeError>)
        requires
            old(self).wf(),
            wf_stmts(stmts@),
            arith_total(*arith),
        ensures
            final(self).wf(),
            final(self).scopes().len() == old(self).scopes().len(),
            forall|num: spec_fn(ArithOp, u64, u64) -> u64| #[trigger]
                arith_agrees(*arith, num) ==> unit_result(r) == exec_stmts(stmts@, old(self).scopes(), num).result
                    && final(self).scopes() == exec_stmts(stmts@, old(self).scopes(), num).frames
                    && values_of(final(out)@) == values_of(old(out)@) + exec_stmts(stmts@, old(self).scopes(), num).printed,
            !any_prints(stmts@) ==> final(out)@ == old(out)@,
    {
        assert(stmts@.subrange(0, stmts@.len() as int) =~= stmts@);
        self.execute_from(stmts, 0, arith, out)
    }

    /// Scans, parses and executes `source` as one program. A scanning or
    /// parsing error stops it before anything runs; a runtime error stops
    /// it at the failing statement. Printed values are appended to `out`,
    /// reported invalid assignment targets to `notes`.
    pub fn run<P: Fn(String) -> Option<u64>, F: Fn(ArithOp, u64, u64) -> u64>(
        &mut self,
        source: &str,
        parse: &P,
        arith: &F,
        out: &mut Vec<Literal>,
        notes: &mut Vec<ParseError>,
    ) -> (r: Result<(), LoxError>)
        requires
            old(self).wf(),
            source@.len() < usize::MAX,
            parse_total(*parse),
            arith_total(*arith),
        ensures
            final(self).wf(),
            final(self).scopes().len() == old(self).scopes().len(),
            final(notes)@.len() >= old(notes)@.len(),
            final(notes)@.subrange(0, old(notes)@.len() as int) == old(notes)@,
            forall|i: int|
                old(notes)@.len() <= i < final(notes)@.len() ==> invalid_target_report(
                    #[trigger] final(notes)@[i],
                ),
            r matches Err(LoxError::Scan(_)) ==> final(notes)@ == old(notes)@,
            forall|pn: spec_fn(Seq<char>) -> Option<u64>, p: int, q: int, m: Seq<char>|
                #[trigger] parse_agrees(*parse, pn) && scan_spec(source@, pn) is Ok && #[trigger] fails_first_at(
                    scan_spec(source@, pn)->Ok_0,
                    p,
                    q,
                    m,
                ) ==> r is Err && r->Err_0 is Parse && r->Err_0->Parse_0.token@ == scan_spec(source@, pn)->Ok_0[q]
                    && r->Err_0->Parse_0.message@ == m,
            match r {
                Err(LoxError::Scan(e)) => final(self).scopes() == old(self).scopes() && final(out)@ == old(
                    out,
                )@ && forall|pn: spec_fn(Seq<char>) -> Option<u64>| #[trigger]
                    parse_agrees(*parse, pn) ==> scan_spec(source@, pn) == Err::<
                        Seq<TokenView>,
                        (Seq<char>, nat),
                    >((e.description(), e.line() as nat)),
                Err(LoxError::Parse(_)) => final(self).scopes() == old(self).scopes() && final(out)@ == old(
                    out,
                )@ && forall|pn: spec_fn(Seq<char>) -> Option<u64>| #[trigger]
                    parse_agrees(*parse, pn) ==> scan_spec(source@, pn) is Ok && !is_program(
                        scan_spec(source@, pn)->Ok_0,
                    ),
                _ => {
                    exists|ss: Seq<Stmt>| #[trigger]
                    program_of(source@, ss, *parse) && (!any_prints(ss) ==> final(out)@ == old(out)@)
                        && forall|num: spec_fn(ArithOp, u64, u64) -> u64| #[trigger]
                        arith_agrees(*arith, num) ==> run_result(r) == exec_stmts(ss, old(self).scopes(), num).result
                            && final(self).scopes() == exec_stmts(ss, old(self).scopes(), num).frames
                            && values_of(final(out)@) == values_of(old(out)@) + exec_stmts(ss, old(self).scopes(), num).printed
                },
            },
    {
        let mut scanner = Scanner::new(source);
        let tokens = match scanner.scan_tokens(parse) {
            Ok(t) => t,
            Err(e) => {
                assert(notes@.subrange(0, notes@.len() as int) =~= notes@);
                return Err(LoxError::Scan(e));
            },
        };
        let ghost ts = views(tokens@);
        let mut parser = Parser::new(tokens);
        let parsed = parser.parse();
        let reported = parser.reported();
        let ghost n0 = notes@.len();
        let mut i: usize = 0;
        while i < reported.len()
            invariant
                i <= reported.len(),
                notes@.len() == n0 + i,
                n0 == old(notes)@.len(),
                notes@.subrange(0, n0 as int) == old(notes)@,
                forall|j: int| 0 <= j < reported@.len() ==> invalid_target_report(#[trigger] reported@[j]),
                forall|j: int| n0 <= j < notes@.len() ==> invalid_target_report(#[trigger] notes@[j]),
            decreases reported.len() - i,
        {
            let note = reported[i].duplicate();
            let ghost before = notes@;
            notes.push(note);
            proof {
                assert(notes@.subrange(0, n0 as int) =~= before.subrange(0, n0 as int));
                assert forall|j: int| n0 <= j < notes@.len() implies invalid_target_report(#[trigger] notes@[j]) by {
                    if j < before.len() {
                        assert(notes@[j] == before[j]);
                    } else {
                        assert(invalid_target_report(reported@[i as int]));
                    }
                }
            }
            i = i + 1;
        }
        let stmts = match parsed {
            Ok(s) => s,
            Err(e) => return Err(LoxError::Parse(e)),
        };
        proof {
            let p = parser.position();
            if p < ts.len() - 1 {
                assert(ts[p].typ != TokenType::EOF);
            }
            assert(parser.toks().subrange(0, p) =~= ts.drop_last());
            assert(program_of(source@, stmts@, *parse));
        }
        match self.interpret(&stmts, arith, out) {
            Ok(()) => Ok(()),
            Err(e) => Err(LoxError::Runtime(e)),
        }
    }
}

/// Any failure of a run: scanning, parsing or evaluation.
#[derive(Debug)]
pub enum LoxError {
    Scan(ScannerError),
    Parse(ParseError),
    Runtime(RuntimeError),
}

impl LoxError {
    /// The display text of the underlying error.
    pub fn message(&self) -> (r: String)
        ensures
            r@ == match self {
                LoxError::Scan(e) => scanner_error_text(e.line() as nat, e.description()),
                LoxError::Parse(e) => parse_error_text(e.token@, e.message@),
                LoxError::Runtime(e) => runtime_error_text(e@),
            },
    {
        match self {
            LoxError::Scan(e) => e.message(),
            LoxError::Parse(e) => e.text(),
            LoxError::Runtime(e) => e.message(),
        }
    }
}

/// The outcome of a run that got past scanning and parsing.
pub open spec fn run_result(r: Result<(), LoxError>) -> Result<(), RuntimeErrorView> {
    match r {
        Err(LoxError::Runtime(e)) => Err(e@),
        _ => Ok(()),
    }
}

/// `ss` are the statements that the parser builds from `src`: it scans,
/// and `ss`, well formed and in normal form, read exactly its tokens
/// before `EOF`.
pub open spec fn program_of<P: Fn(String) -> Option<u64>>(
    src: Seq<char>,
    ss: Seq<Stmt>,
    parse: P,
) -> bool {
    exists|ts: Seq<TokenView>|
        scan_succeeded(src, ts, parse) && (forall|pn: spec_fn(Seq<char>) -> Option<u64>| #[trigger]
            parse_agrees(parse, pn) ==> scan_spec(src, pn) == Ok::<Seq<TokenView>, (Seq<char>, nat)>(ts))
            && wf_stmts(ss) && stmts_normal(ss) && stmts_read_as(ss, #[trigger] ts.drop_last())
}

/// Evaluating an expression keeps the depth of the scope chain.
pub proof fn lemma_eval_depth(e: Expr, frames: Seq<Scope>, num: spec_fn(ArithOp, u64, u64) -> u64)
    requires
        frames.len() > 0,
    ensures
        eval(e, frames, num).frames.len() == frames.len(),
    decreases e,
{
    match e {
        Expr::Binary(b) => {
            lemma_eval_depth(*b.left, frames, num);
            lemma_eval_depth(*b.right, eval(*b.left, frames, num).frames, num);
        },
        Expr::Grouping(g) => lemma_eval_depth(*g.expression, frames, num),
        Expr::Unary(u) => lemma_eval_depth(*u.right, frames, num),
        Expr::Assign(a) => {
            lemma_eval_depth(*a.value, frames, num);
            let r = eval(*a.value, frames, num);
            if let Ok(v) = r.result {
                lemma_update_depth(r.frames, a.name.lexeme@, v);
            }
        },
        _ => {},
    }
}

/// Executing a statement keeps the depth of the scope chain.
pub proof fn lemma_exec_stmt_depth(s: Stmt, frames: Seq<Scope>, num: spec_fn(ArithOp, u64, u64) -> u64)
    requires
        frames.len() > 0,
    ensures
        exec_stmt(s, frames, num).frames.len() == frames.len(),
    decreases s,
{
    match s {
        Stmt::Expression(e) => lemma_eval_depth(e, frames, num),
        Stmt::Print(e) => lemma_eval_depth(e, frames, num),
        Stmt::Var(name, init) => match init {
            None => lemma_update_depth(frames, name.lexeme@, Value::Nil),
            Some(e) => {
                lemma_eval_depth(e, frames, num);
                let r = eval(e, frames, num);
                if let Ok(v) = r.result {
                    lemma_update_depth(r.frames, name.lexeme@, v);
                }
            },
        },
        Stmt::Block(ss) => lemma_exec_stmts_depth(ss@, frames.push(Scope::empty()), num),
    }
}

/// Executing statements keeps the depth of the scope chain.
pub proof fn lemma_exec_stmts_depth(ss: Seq<Stmt>, frames: Seq<Scope>, num: spec_fn(ArithOp, u64, u64) -> u64)
    requires
        frames.len() > 0,
    ensures
        exec_stmts(ss, frames, num).frames.len() == frames.len(),
    decreases ss,
{
    if ss.len() > 0 {
        lemma_exec_stmt_depth(ss[0], frames, num);
        lemma_exec_stmts_depth(
            ss.subrange(1, ss.len() as int),
            exec_stmt(ss[0], frames, num).frames,
            num,
        );
    }
}

/// A block runs in a scope of its own pushed on the chain, and afterwards
/// the enclosing scope is innermost again, at the same depth, whether the
/// block finished or failed; the block's own bindings are gone.
pub proof fn lemma_block_restores_scope(
    block: Vec<Stmt>,
    frames: Seq<Scope>,
    num: spec_fn(ArithOp, u64, u64) -> u64,
)
    requires
        frames.len() > 0,
    ensures
        ({
            let inner = exec_stmts(block@, frames.push(Scope::empty()), num);
            let after = exec_stmt(Stmt::Block(block), frames, num);
            &&& inner.frames.len() == frames.len() + 1
            &&& after.frames == inner.frames.drop_last()
            &&& after.frames.len() == frames.len()
            &&& after.result == inner.result
        }),
{
    lemma_exec_stmts_depth(block@, frames.push(Scope::empty()), num);
}

/// `!!x` evaluates to `Boolean(truthy(x))` for every literal `x`.
pub proof fn lemma_double_negation(
    bang: Token,
    inner_bang: Token,
    x: Literal,
    frames: Seq<Scope>,
    num: spec_fn(ArithOp, u64, u64) -> u64,
)
    requires
        bang.typ == TokenType::Bang,
        inner_bang.typ == TokenType::Bang,
    ensures
        eval(
            Expr::Unary(
                (UnaryExpr {
                    operator: bang,
                    right: Box::new(
                        Expr::Unary(
                            (UnaryExpr {
                                operator: inner_bang,
                                right: Box::new(Expr::Literal((LiteralExpr { value: x }))),
                            }),
                        ),
                    ),
                }),
            ),
            frames,
            num,
        ).result == Ok::<Value, RuntimeErrorView>(Value::Bool(truthy(x@))),
{
    let lit = Expr::Literal(LiteralExpr { value: x });
    let inner = Expr::Unary(UnaryExpr { operator: inner_bang, right: Box::new(lit) });
    assert(eval(lit, frames, num).result == Ok::<Value, RuntimeErrorView>(x@));
    assert(eval(inner, frames, num).result == Ok::<Value, RuntimeErrorView>(Value::Bool(!truthy(x@))));
}

/// The statement prints, or holds a statement that does.
pub open spec fn prints(s: Stmt) -> bool
    decreases s,
{
    match s {
        Stmt::Print(_) => true,
        Stmt::Block(ss) => any_prints(ss@),
        _ => false,
    }
}

pub open spec fn any_prints(ss: Seq<Stmt>) -> bool
    decreases ss,
{
    if ss.len() == 0 {
        false
    } else {
        prints(ss[0]) || any_prints(ss.subrange(1, ss.len() as int))
    }
}

/// A statement without `print` prints nothing.
pub proof fn lemma_silent_stmt(s: Stmt, frames: Seq<Scope>, num: spec_fn(ArithOp, u64, u64) -> u64)
    requires
        !prints(s),
    ensures
        exec_stmt(s, frames, num).printed == Seq::<Value>::empty(),
    decreases s,
{
    if let Stmt::Block(ss) = s {
        lemma_silent_program(ss@, frames.push(Scope::empty()), num);
    }
}

/// A program without `print` prints nothing, whatever happens as it runs.
pub proof fn lemma_silent_program(ss: Seq<Stmt>, frames: Seq<Scope>, num: spec_fn(ArithOp, u64, u64) -> u64)
    requires
        !any_prints(ss),
    ensures
        exec_stmts(ss, frames, num).printed == Seq::<Value>::empty(),
    decreases ss,
{
    if ss.len() > 0 {
        lemma_silent_stmt(ss[0], frames, num);
        let first = exec_stmt(ss[0], frames, num);
        lemma_silent_program(ss.subrange(1, ss.len() as int), first.frames, num);
        assert(first.printed + Seq::<Value>::empty() =~= Seq::<Value>::empty());
    }
}

} // verus!
