//! The recursive-descent parser: tokens to statements.
use vstd::prelude::*;

use crate::expr::{AssignExpr, BinaryExpr, Expr, GroupingExpr, LiteralExpr, UnaryExpr, VariableExpr};
use crate::interpreter::{is_binary_op, lemma_wf_stmts_push, wf_expr, wf_stmt, wf_stmts};
use crate::scanner::views;
use crate::stmt::Stmt;
use crate::token::{decimal, decimal_text, Literal, Token, TokenType, TokenView, Value};

verus! {

pub open spec fn is_literal_kind(t: TokenType) -> bool {
    t == TokenType::String || t == TokenType::Number || t == TokenType::True || t
        == TokenType::False || t == TokenType::Nil
}

/// The value a literal token stands for.
pub open spec fn literal_of(t: TokenView) -> Value {
    match t.literal {
        Some(v) => v,
        None => Value::Nil,
    }
}

/// `e` is a derivation of exactly the tokens `ts`.
pub open spec fn parses_as(e: Expr, ts: Seq<TokenView>) -> bool
    decreases e,
{
    match e {
        Expr::Literal(l) => ts.len() == 1 && is_literal_kind(ts[0].typ) && l.value@ == literal_of(ts[0]),
        Expr::Variable(v) => ts.len() == 1 && ts[0].typ == TokenType::Identifier && v.name@ == ts[0],
        Expr::Grouping(g) => ts.len() >= 2 && ts[0].typ == TokenType::LeftParen && ts.last().typ
            == TokenType::RightParen && parses_as(*g.expression, ts.subrange(1, ts.len() - 1)),
        Expr::Unary(u) => ts.len() >= 1 && ts[0] == u.operator@ && parses_as(
            *u.right,
            ts.subrange(1, ts.len() as int),
        ),
        Expr::Binary(b) => exists|k: int|
            0 <= k < ts.len() && ts[k] == b.operator@ && parses_as(*b.left, #[trigger] ts.subrange(0, k))
                && parses_as(*b.right, ts.subrange(k + 1, ts.len() as int)),
        Expr::Assign(a) => ts.len() >= 2 && ts[0] == a.name@ && ts[0].typ == TokenType::Identifier
            && ts[1].typ == TokenType::Equal && parses_as(*a.value, ts.subrange(2, ts.len() as int)),
    }
}

/// How tightly an expression binds: assignment loosest, then equality,
/// comparison, terms, factors, unary operators, and primaries.
pub open spec fn precedence(e: Expr) -> nat {
    match e {
        Expr::Assign(_) => 0,
        Expr::Binary(b) => binary_precedence(b.operator.typ),
        Expr::Unary(_) => 5,
        _ => 6,
    }
}

pub open spec fn binary_precedence(t: TokenType) -> nat {
    if t == TokenType::BangEqual || t == TokenType::EqualEqual {
        1
    } else if t == TokenType::Greater || t == TokenType::GreaterEqual || t == TokenType::Less || t
        == TokenType::LessEqual {
        2
    } else if t == TokenType::Minus || t == TokenType::Plus {
        3
    } else {
        4
    }
}

/// The tree has the shape the grammar gives: binary operators associate
/// to the left and bind by precedence, assignment to a variable only.
pub open spec fn normal(e: Expr) -> bool
    decreases e,
{
    match e {
        Expr::Binary(b) => precedence(*b.left) >= precedence(e) && precedence(*b.right) > precedence(e)
            && normal(*b.left) && normal(*b.right),
        Expr::Grouping(g) => normal(*g.expression),
        Expr::Unary(u) => precedence(*u.right) >= 5 && normal(*u.right),
        Expr::Assign(a) => normal(*a.value),
        _ => true,
    }
}

/// `s` is a derivation of exactly the tokens `ts`.
pub open spec fn stmt_parses_as(s: Stmt, ts: Seq<TokenView>) -> bool
    decreases s,
{
    match s {
        Stmt::Expression(e) => ts.len() >= 1 && ts.last().typ == TokenType::SemiColon && parses_as(
            e,
            ts.drop_last(),
        ),
        Stmt::Print(e) => ts.len() >= 2 && ts[0].typ == TokenType::Print && ts.last().typ
            == TokenType::SemiColon && parses_as(e, ts.subrange(1, ts.len() - 1)),
        Stmt::Var(name, init) => ts.len() >= 3 && ts[0].typ == TokenType::Var && ts[1] == name@
            && ts[1].typ == TokenType::Identifier && ts.last().typ == TokenType::SemiColon
            && match init {
            None => ts.len() == 3,
            Some(e) => ts.len() >= 4 && ts[2].typ == TokenType::Equal && parses_as(
                e,
                ts.subrange(3, ts.len() - 1),
            ),
        },
        Stmt::Block(ss) => ts.len() >= 2 && ts[0].typ == TokenType::LeftBrace && ts.last().typ
            == TokenType::RightBrace && stmts_parse_as(ss@, ts.subrange(1, ts.len() - 1)),
    }
}

/// `ss` derive consecutive pieces of `ts` that together make up all of it.
pub open spec fn stmts_parse_as(ss: Seq<Stmt>, ts: Seq<TokenView>) -> bool
    decreases ss,
{
    if ss.len() == 0 {
        ts.len() == 0
    } else {
        exists|k: int|
            0 <= k <= ts.len() && stmt_parses_as(ss.last(), #[trigger] ts.subrange(k, ts.len() as int))
                && stmts_parse_as(ss.drop_last(), ts.subrange(0, k))
    }
}

pub open spec fn stmt_normal(s: Stmt) -> bool
    decreases s,
{
    match s {
        Stmt::Expression(e) => normal(e),
        Stmt::Print(e) => normal(e),
        Stmt::Var(_, init) => match init {
            Some(e) => normal(e),
            None => true,
        },
        Stmt::Block(ss) => stmts_normal(ss@),
    }
}

pub open spec fn stmts_normal(ss: Seq<Stmt>) -> bool
    decreases ss,
{
    if ss.len() == 0 {
        true
    } else {
        stmts_normal(ss.drop_last()) && stmt_normal(ss.last())
    }
}

/// `e` is what the parser builds from exactly the tokens `ts`: a
/// derivation, except that inside groupings and assigned values an
/// invalid assignment target may stand (see `reads_top`).
pub open spec fn reads_as(e: Expr, ts: Seq<TokenView>) -> bool
    decreases ts.len(), 0nat,
{
    match e {
        Expr::Literal(l) => ts.len() == 1 && is_literal_kind(ts[0].typ) && l.value@ == literal_of(ts[0]),
        Expr::Variable(v) => ts.len() == 1 && ts[0].typ == TokenType::Identifier && v.name@ == ts[0],
        Expr::Grouping(g) => ts.len() >= 2 && ts[0].typ == TokenType::LeftParen && ts.last().typ
            == TokenType::RightParen && reads_top(*g.expression, ts.subrange(1, ts.len() - 1)),
        Expr::Unary(u) => ts.len() >= 1 && ts[0] == u.operator@ && reads_as(
            *u.right,
            ts.subrange(1, ts.len() as int),
        ),
        Expr::Binary(b) => exists|k: int|
            0 <= k < ts.len() && ts[k] == b.operator@ && reads_as(*b.left, #[trigger] ts.subrange(0, k))
                && reads_as(*b.right, ts.subrange(k + 1, ts.len() as int)),
        Expr::Assign(a) => ts.len() >= 2 && ts[0] == a.name@ && ts[0].typ == TokenType::Identifier
            && ts[1].typ == TokenType::Equal && reads_top(*a.value, ts.subrange(2, ts.len() as int)),
    }
}

/// What the parser builds at the assignment level from exactly `ts`:
/// `reads_as`, or an equality-level expression other than a variable
/// followed by `=` and the (non-empty) rest, where the left side stands and
/// the `=` is reported as an invalid assignment target.
pub open spec fn reads_top(e: Expr, ts: Seq<TokenView>) -> bool
    decreases ts.len(), 1nat,
{
    reads_as(e, ts) || (!(e is Variable) && precedence(e) >= 1 && exists|k: int|
        0 < k < ts.len() - 1 && ts[k].typ == TokenType::Equal && reads_as(e, #[trigger] ts.subrange(0, k)))
}

/// `s` is what the parser builds from exactly the tokens `ts`.
pub open spec fn stmt_reads_as(s: Stmt, ts: Seq<TokenView>) -> bool
    decreases s,
{
    match s {
        Stmt::Expression(e) => ts.len() >= 1 && ts.last().typ == TokenType::SemiColon && reads_top(
            e,
            ts.drop_last(),
        ),
        Stmt::Print(e) => ts.len() >= 2 && ts[0].typ == TokenType::Print && ts.last().typ
            == TokenType::SemiColon && reads_top(e, ts.subrange(1, ts.len() - 1)),
        Stmt::Var(name, init) => ts.len() >= 3 && ts[0].typ == TokenType::Var && ts[1] == name@
            && ts[1].typ == TokenType::Identifier && ts.last().typ == TokenType::SemiColon
            && match init {
            None => ts.len() == 3,
            Some(e) => ts.len() >= 4 && ts[2].typ == TokenType::Equal && reads_top(
                e,
                ts.subrange(3, ts.len() - 1),
            ),
        },
        Stmt::Block(ss) => ts.len() >= 2 && ts[0].typ == TokenType::LeftBrace && ts.last().typ
            == TokenType::RightBrace && stmts_read_as(ss@, ts.subrange(1, ts.len() - 1)),
    }
}

/// `ss` are what the parser builds from consecutive pieces of `ts` that
/// together make up all of it.
pub open spec fn stmts_read_as(ss: Seq<Stmt>, ts: Seq<TokenView>) -> bool
    decreases ss,
{
    if ss.len() == 0 {
        ts.len() == 0
    } else {
        exists|k: int|
            0 <= k <= ts.len() && stmt_reads_as(ss.last(), #[trigger] ts.subrange(k, ts.len() as int))
                && stmts_read_as(ss.drop_last(), ts.subrange(0, k))
    }
}

proof fn lemma_binary_reads(ts: Seq<TokenView>, c0: int, c1: int, c2: int, e: Expr)
    requires
        0 <= c0 <= c1 < c2 <= ts.len(),
        match e {
            Expr::Binary(b) => reads_as(*b.left, ts.subrange(c0, c1)) && ts[c1] == b.operator@
                && reads_as(*b.right, ts.subrange(c1 + 1, c2)),
            _ => false,
        },
    ensures
        reads_as(e, ts.subrange(c0, c2)),
{
    let s = ts.subrange(c0, c2);
    let k = c1 - c0;
    assert(s.subrange(0, k) =~= ts.subrange(c0, c1));
    assert(s.subrange(k + 1, s.len() as int) =~= ts.subrange(c1 + 1, c2));
    assert(s[k] == ts[c1]);
}

proof fn lemma_reads_nonempty(e: Expr, ts: Seq<TokenView>)
    requires
        reads_as(e, ts),
    ensures
        ts.len() > 0,
{
}

/// What the parser builds from a single identifier is a variable.
proof fn lemma_reads_single_identifier(e: Expr, ts: Seq<TokenView>)
    requires
        reads_as(e, ts),
        ts.len() == 1,
        ts[0].typ == TokenType::Identifier,
    ensures
        e is Variable,
{
    match e {
        Expr::Binary(b) => {
            let k = choose|k: int|
                0 <= k < ts.len() && ts[k] == b.operator@ && reads_as(*b.left, #[trigger] ts.subrange(0, k))
                    && reads_as(*b.right, ts.subrange(k + 1, ts.len() as int));
            lemma_reads_nonempty(*b.left, ts.subrange(0, k));
        },
        Expr::Unary(u) => {
            lemma_reads_nonempty(*u.right, ts.subrange(1, ts.len() as int));
        },
        _ => {},
    }
}

/// Some well-formed expression in normal form, binding at least as
/// tightly as `level`, derives exactly `ts[c..d]`.
pub open spec fn derives(ts: Seq<TokenView>, c: int, d: int, level: nat) -> bool {
    exists|e: Expr|
        #[trigger] parses_as(e, ts.subrange(c, d)) && normal(e) && wf_expr(e) && precedence(e) >= level
}

/// `t` may follow an expression parsed at `level`: it is no binary
/// operator binding at least that tightly, nor, at the assignment level,
/// an `=`.
pub open spec fn ends_level(t: TokenType, level: nat) -> bool {
    !(is_binary_op(t) && binary_precedence(t) >= level) && (level == 0 ==> t != TokenType::Equal)
}

pub open spec fn level_op(t: TokenType, level: nat) -> bool {
    is_binary_op(t) && binary_precedence(t) == level
}

/// `ts[i..d]` is a run of operators of `level`, each followed by an operand
/// that binds more tightly.
pub open spec fn chain(ts: Seq<TokenView>, i: int, d: int, level: nat) -> bool
    decreases d - i,
{
    if i >= d {
        i == d
    } else {
        level_op(ts[i].typ, level) && exists|j: int|
            i + 1 < j <= d && #[trigger] derives(ts, i + 1, j, level + 1) && chain(ts, j, d, level)
    }
}

proof fn lemma_parses_nonempty(e: Expr, ts: Seq<TokenView>)
    requires
        parses_as(e, ts),
    ensures
        ts.len() > 0,
{
}

proof fn lemma_chain_append(ts: Seq<TokenView>, i: int, m: int, d: int, level: nat)
    requires
        i <= m,
        m + 1 < d <= ts.len(),
        chain(ts, i, m, level),
        level_op(ts[m].typ, level),
        derives(ts, m + 1, d, level + 1),
    ensures
        chain(ts, i, d, level),
    decreases m - i,
{
    if i < m {
        let j = choose|j: int| i + 1 < j <= m && #[trigger] derives(ts, i + 1, j, level + 1) && chain(ts, j, m, level);
        lemma_chain_append(ts, j, m, d, level);
        assert(derives(ts, i + 1, j, level + 1) && chain(ts, j, d, level));
    } else {
        assert(chain(ts, d, d, level));
        assert(derives(ts, i + 1, d, level + 1) && chain(ts, d, d, level));
    }
}

/// An expression of a binary level splits into its leftmost operand and
/// the run of operators and operands after it.
proof fn lemma_spine(ts: Seq<TokenView>, c: int, d: int, level: nat, e: Expr)
    requires
        1 <= level <= 4,
        0 <= c < d <= ts.len(),
        parses_as(e, ts.subrange(c, d)),
        normal(e),
        wf_expr(e),
        precedence(e) >= level,
    ensures
        exists|k: int| c < k <= d && #[trigger] derives(ts, c, k, level + 1) && chain(ts, k, d, level),
    decreases e,
{
    if precedence(e) > level {
        assert(derives(ts, c, d, level + 1));
        assert(chain(ts, d, d, level));
    } else {
        if let Expr::Binary(b) = e {
            let s = ts.subrange(c, d);
            let m = choose|m: int|
                0 <= m < s.len() && s[m] == b.operator@ && parses_as(*b.left, #[trigger] s.subrange(0, m))
                    && parses_as(*b.right, s.subrange(m + 1, s.len() as int));
            assert(s.subrange(0, m) =~= ts.subrange(c, c + m));
            assert(s.subrange(m + 1, s.len() as int) =~= ts.subrange(c + m + 1, d));
            lemma_parses_nonempty(*b.left, s.subrange(0, m));
            lemma_parses_nonempty(*b.right, s.subrange(m + 1, s.len() as int));
            lemma_spine(ts, c, c + m, level, *b.left);
            let k = choose|k: int| c < k <= c + m && #[trigger] derives(ts, c, k, level + 1) && chain(ts, k, c + m, level);
            assert(parses_as(*b.right, ts.subrange(c + m + 1, d)));
            assert(derives(ts, c + m + 1, d, level + 1));
            lemma_chain_append(ts, k, c + m, d, level);
        }
    }
}

pub open spec fn can_start_expression(t: TokenType) -> bool {
    is_literal_kind(t) || t == TokenType::Identifier || t == TokenType::LeftParen || t == TokenType::Bang
        || t == TokenType::Minus
}

proof fn lemma_first_token(e: Expr, ts: Seq<TokenView>)
    requires
        parses_as(e, ts),
        wf_expr(e),
    ensures
        ts.len() > 0,
        can_start_expression(ts[0].typ),
    decreases e,
{
    if let Expr::Binary(b) = e {
        let k = choose|k: int|
            0 <= k < ts.len() && ts[k] == b.operator@ && parses_as(*b.left, #[trigger] ts.subrange(0, k))
                && parses_as(*b.right, ts.subrange(k + 1, ts.len() as int));
        lemma_first_token(*b.left, ts.subrange(0, k));
    }
}

/// Some well-formed statement in normal form derives exactly `ts[c..d]`.
pub open spec fn stmt_derives(ts: Seq<TokenView>, c: int, d: int) -> bool {
    exists|s: Stmt| #[trigger] stmt_parses_as(s, ts.subrange(c, d)) && stmt_normal(s) && wf_stmt(s)
}

/// `ts[c..d]` splits into consecutive pieces each derived by a statement.
pub open spec fn stmts_derive(ts: Seq<TokenView>, c: int, d: int) -> bool
    decreases d - c,
{
    if c >= d {
        c == d
    } else {
        exists|k: int| c < k <= d && #[trigger] stmt_derives(ts, c, k) && stmts_derive(ts, k, d)
    }
}

/// `ts` is a program: statements that derive every token before the
/// closing `EOF`, which is the only `EOF`.
pub open spec fn is_program(ts: Seq<TokenView>) -> bool {
    &&& ts.len() > 0
    &&& forall|i: int| 0 <= i < ts.len() - 1 ==> (#[trigger] ts[i]).typ != TokenType::EOF
    &&& ts.last().typ == TokenType::EOF
    &&& stmts_derive(ts, 0, ts.len() - 1)
}

/// A place where error recovery stops: just after a `;`, or at the end,
/// or before a keyword that starts a statement.
pub open spec fn sync_point(ts: Seq<TokenView>, j: int) -> bool {
    let t = ts[j].typ;
    (j > 0 && ts[j - 1].typ == TokenType::SemiColon) || t == TokenType::EOF || t == TokenType::Class
        || t == TokenType::Fun || t == TokenType::Var || t == TokenType::For || t == TokenType::If || t
        == TokenType::While || t == TokenType::Print || t == TokenType::Return
}

/// After an error at token `q`, recovery stops at `j`: at `q` itself at
/// the end of input, else at the first sync point after `q`.
pub open spec fn recovered_at(ts: Seq<TokenView>, q: int, j: int) -> bool {
    if ts[q].typ == TokenType::EOF {
        j == q
    } else {
        q < j && sync_point(ts, j) && forall|m: int| q < m < j ==> !sync_point(ts, m)
    }
}

/// Where and how the declaration starting at `p` fails when it breaks off
/// right after a well-formed part: a `var` without a name, or a statement
/// whose expression is not followed by `;`.
pub open spec fn local_failure(ts: Seq<TokenView>, p: int, q: int, message: Seq<char>) -> bool {
    let t = ts[p].typ;
    if t == TokenType::Var {
        (q == p + 1 && ts[q].typ != TokenType::Identifier && message == "Expected variable name."@) || (
        ts[p + 1].typ == TokenType::Identifier && ts[p + 2].typ == TokenType::Equal && p + 3 < q && derives(
            ts,
            p + 3,
            q,
            0,
        ) && ends_level(ts[q].typ, 0) && ts[q].typ != TokenType::SemiColon && message
            == "Expected ';' after variable declaration."@)
    } else if t == TokenType::Print {
        p + 1 < q && derives(ts, p + 1, q, 0) && ends_level(ts[q].typ, 0) && ts[q].typ
            != TokenType::SemiColon && message == "Expected ';' after print statement."@
    } else {
        t != TokenType::LeftBrace && p < q && derives(ts, p, q, 0) && ends_level(ts[q].typ, 0) && ts[q].typ
            != TokenType::SemiColon && message == "Expected ';' after expression."@
    }
}

/// Whole statements derive `ts[..p]`, and the declaration at `p` then
/// fails at `q` with `message` (`EOF` only closing the list).
pub open spec fn fails_first_at(ts: Seq<TokenView>, p: int, q: int, message: Seq<char>) -> bool {
    &&& forall|i: int| 0 <= i < ts.len() - 1 ==> (#[trigger] ts[i]).typ != TokenType::EOF
    &&& stmts_derive(ts, 0, p)
    &&& 0 <= p < q < ts.len()
    &&& local_failure(ts, p, q, message)
}

/// Tokens that begin a primary expression.
pub open spec fn can_start_primary(t: TokenType) -> bool {
    is_literal_kind(t) || t == TokenType::Identifier || t == TokenType::LeftParen
}

pub open spec fn can_start_statement(t: TokenType) -> bool {
    can_start_expression(t) || t == TokenType::Print || t == TokenType::Var || t == TokenType::LeftBrace
}

proof fn lemma_stmt_first_token(s: Stmt, ts: Seq<TokenView>)
    requires
        stmt_parses_as(s, ts),
        wf_stmt(s),
    ensures
        ts.len() > 0,
        can_start_statement(ts[0].typ),
        s is Var <==> ts[0].typ == TokenType::Var,
        s is Print <==> ts[0].typ == TokenType::Print,
        s is Block <==> ts[0].typ == TokenType::LeftBrace,
        s is Expression <==> can_start_expression(ts[0].typ),
        !(s is Expression) ==> ts.len() >= 2,
{
    if let Stmt::Expression(e) = s {
        lemma_first_token(e, ts.drop_last());
        assert(ts.drop_last()[0] == ts[0]);
    }
}

proof fn lemma_stmts_derive_append(ts: Seq<TokenView>, c: int, k: int, d: int)
    requires
        c <= k < d,
        stmts_derive(ts, c, k),
        stmt_derives(ts, k, d),
    ensures
        stmts_derive(ts, c, d),
    decreases k - c,
{
    if c < k {
        let j = choose|j: int| c < j <= k && #[trigger] stmt_derives(ts, c, j) && stmts_derive(ts, j, k);
        lemma_stmts_derive_append(ts, j, k, d);
        assert(stmt_derives(ts, c, j) && stmts_derive(ts, j, d));
    } else {
        assert(stmts_derive(ts, d, d));
        assert(stmt_derives(ts, c, d) && stmts_derive(ts, d, d));
    }
}

proof fn lemma_wf_stmts_last(ss: Seq<Stmt>)
    requires
        wf_stmts(ss),
        ss.len() > 0,
    ensures
        wf_stmts(ss.drop_last()),
        wf_stmt(ss.last()),
    decreases ss.len(),
{
    let rest = ss.subrange(1, ss.len() as int);
    if ss.len() > 1 {
        lemma_wf_stmts_last(rest);
        assert(rest.drop_last() =~= ss.drop_last().subrange(1, ss.len() - 1));
        assert(rest.last() == ss.last());
        assert(ss.drop_last()[0] == ss[0]);
    } else {
        assert(ss.drop_last() =~= Seq::<Stmt>::empty());
    }
}

/// A derivation of a statement list gives a split into statements.
proof fn lemma_stmts_split(ss: Seq<Stmt>, ts: Seq<TokenView>, c: int, d: int)
    requires
        0 <= c <= d <= ts.len(),
        stmts_parse_as(ss, ts.subrange(c, d)),
        stmts_normal(ss),
        wf_stmts(ss),
    ensures
        stmts_derive(ts, c, d),
    decreases ss.len(),
{
    let s = ts.subrange(c, d);
    if ss.len() == 0 {
    } else {
        let k = choose|k: int|
            0 <= k <= s.len() && stmt_parses_as(ss.last(), #[trigger] s.subrange(k, s.len() as int))
                && stmts_parse_as(ss.drop_last(), s.subrange(0, k));
        assert(s.subrange(k, s.len() as int) =~= ts.subrange(c + k, d));
        assert(s.subrange(0, k) =~= ts.subrange(c, c + k));
        lemma_wf_stmts_last(ss);
        lemma_stmts_split(ss.drop_last(), ts, c, c + k);
        lemma_stmt_first_token(ss.last(), ts.subrange(c + k, d));
        assert(stmt_derives(ts, c + k, d));
        lemma_stmts_derive_append(ts, c, c + k, d);
    }
}

/// The display text of a grammar violation at token `t`.
pub open spec fn parse_error_text(t: TokenView, message: Seq<char>) -> Seq<char> {
    decimal(t.line) + if t.typ == TokenType::EOF {
        " at end: "@
    } else {
        " at "@ + t.lexeme + ": "@
    } + message
}

/// A grammar violation at a token.
#[derive(Debug)]
pub struct ParseError {
    pub token: Token,
    pub message: &'static str,
}

impl ParseError {
    pub fn new(token: Token, message: &'static str) -> (r: Self)
        ensures
            r.token@ == token@,
            r.message == message,
    {
        ParseError { token, message }
    }

    /// A copy of this error.
    pub fn duplicate(&self) -> (r: Self)
        ensures
            r.token@ == self.token@,
            r.message == self.message,
    {
        ParseError { token: self.token.duplicate(), message: self.message }
    }

    /// `<line> at <lexeme>: <message>`, or `<line> at end: <message>` at
    /// the end of input.
    pub fn text(&self) -> (r: String)
        ensures
            r@ == parse_error_text(self.token@, self.message@),
    {
        let line = decimal_text(self.token.line);
        if self.token.typ == TokenType::EOF {
            line.concat(" at end: ").concat(self.message)
        } else {
            line.concat(" at ").concat(self.token.lexeme.as_str()).concat(": ").concat(self.message)
        }
    }
}

/// What every expression-parsing step promises: the token list is kept,
/// the cursor only moves forward, and a parsed expression is well formed,
/// binds at least as tightly as `level`, and, when no invalid assignment
/// target was reported, derives exactly the tokens consumed.
spec fn expr_step(old: Parser, new: Parser, r: Result<Expr, ParseError>, level: nat) -> bool {
    &&& new.inv()
    &&& new.tokens == old.tokens
    &&& new.errors == old.errors
    &&& new.current >= old.current
    &&& new.reported@.len() >= old.reported@.len()
    &&& r is Err ==> r->Err_0.token@ == new.toks()[new.current as int] && parse_message(
        r->Err_0.message@,
    )
    &&& r is Ok ==> {
        let e = r->Ok_0;
        &&& new.current > old.current
        &&& wf_expr(e)
        &&& normal(e)
        &&& precedence(e) >= level
        &&& level == 0 ==> reads_top(e, new.toks().subrange(old.current as int, new.current as int))
        &&& level >= 1 ==> reads_as(e, new.toks().subrange(old.current as int, new.current as int))
    }
}

/// Whenever some derivation at `level` runs from the cursor to a position
/// that may end it, the step succeeds there without a report.
spec fn expr_complete(old: Parser, new: Parser, r: Result<Expr, ParseError>, level: nat) -> bool {
    forall|d: int|
        old.current < d < old.toks().len() && #[trigger] derives(old.toks(), old.current as int, d, level)
            && ends_level(old.toks()[d].typ, level) ==> r is Ok && new.current == d
            && new.reported@.len() == old.reported@.len()
}

/// What every statement-parsing step promises; `from` is where the
/// statement's first token is.
spec fn stmt_step(old: Parser, new: Parser, r: Result<Stmt, ParseError>, from: int) -> bool {
    &&& new.inv()
    &&& new.tokens == old.tokens
    &&& new.errors@.len() >= old.errors@.len()
    &&& new.current >= old.current
    &&& new.reported@.len() >= old.reported@.len()
    &&& old.errors@.len() > 0 ==> new.errors@[0] == old.errors@[0]
    &&& r is Err ==> r->Err_0.token@ == new.toks()[new.current as int] && parse_message(
        r->Err_0.message@,
    )
    &&& r is Ok ==> {
        let s = r->Ok_0;
        &&& new.current > old.current
        &&& wf_stmt(s)
        &&& stmt_normal(s)
        &&& new.errors@.len() == old.errors@.len() ==> stmt_reads_as(
            s,
            new.toks().subrange(from, new.current as int),
        )
    }
}

/// Whenever some statement derives the tokens from `from` to some `d`,
/// the step succeeds at `d` without an error or a report.
spec fn stmt_complete(old: Parser, new: Parser, r: Result<Stmt, ParseError>, from: int) -> bool {
    forall|d: int|
        old.current < d < old.toks().len() && #[trigger] stmt_derives(old.toks(), from, d) ==> r is Ok
            && new.current == d && new.errors@.len() == old.errors@.len() && new.reported@.len()
            == old.reported@.len()
}

/// The messages of the parser's errors.
pub open spec fn parse_message(m: Seq<char>) -> bool {
    m == "expected expression"@ || m == "expected ')' after expression"@ || m
        == "Expected variable name."@ || m == "Expected ';' after variable declaration."@ || m
        == "Expected ';' after print statement."@ || m == "Expected ';' after expression."@ || m
        == "Expected '}' after block."@
}

/// A report of an `=` whose left side is not a variable.
pub open spec fn invalid_target_report(e: ParseError) -> bool {
    e.token@.typ == TokenType::Equal && e.message@ == "Invalid assignment target"@
}

/// Builds statements from a token list that ends with `EOF`.
pub struct Parser {
    tokens: Vec<Token>,
    current: usize,
    errors: Vec<ParseError>,
    reported: Vec<ParseError>,
}

impl Parser {
    pub closed spec fn toks(&self) -> Seq<TokenView> {
        views(self.tokens@)
    }

    pub closed spec fn inv(&self) -> bool {
        &&& self.tokens.len() > 0
        &&& self.tokens@.last()@.typ == TokenType::EOF
        &&& self.current < self.tokens.len()
        &&& forall|i: int|
            0 <= i < self.reported@.len() ==> invalid_target_report(#[trigger] self.reported@[i])
        &&& forall|i: int| 0 <= i < self.errors@.len() ==> parse_message((#[trigger] self.errors@[i]).message@)
    }

    /// The errors recorded so far, in the order they were met.
    pub closed spec fn recorded_errors(&self) -> Seq<ParseError> {
        self.errors@
    }

    pub closed spec fn at_end(&self) -> bool {
        self.tokens@[self.current as int]@.typ == TokenType::EOF
    }

    pub closed spec fn reported_errors(&self) -> Seq<ParseError> {
        self.reported@
    }

    pub closed spec fn position(&self) -> int {
        self.current as int
    }

    /// The invalid assignment targets reported so far; they do not stop
    /// the parse.
    pub fn reported(&self) -> (r: &Vec<ParseError>)
        ensures
            r@ == self.reported_errors(),
    {
        &self.reported
    }

    pub fn new(tokens: Vec<Token>) -> (r: Self)
        requires
            tokens.len() > 0,
            tokens@.last()@.typ == TokenType::EOF,
        ensures
            r.is_fresh(),
            r.toks() == views(tokens@),
            r.position() == 0,
    {
        Parser { tokens, current: 0, errors: Vec::new(), reported: Vec::new() }
    }

    fn is_at_end(&self) -> (r: bool)
        requires
            self.inv(),
        ensures
            r == self.at_end(),
    {
        self.tokens[self.current].typ == TokenType::EOF
    }

    fn peek_type(&self) -> (r: TokenType)
        requires
            self.inv(),
        ensures
            r == self.toks()[self.current as int].typ,
    {
        self.tokens[self.current].typ
    }

    fn peek(&self) -> (r: Token)
        requires
            self.inv(),
        ensures
            r@ == self.toks()[self.current as int],
    {
        self.tokens[self.current].duplicate()
    }

    fn check_token(&self, typ: TokenType) -> (r: bool)
        requires
            self.inv(),
        ensures
            r == (!self.at_end() && self.toks()[self.current as int].typ == typ),
    {
        if self.is_at_end() {
            false
        } else {
            self.tokens[self.current].typ == typ
        }
    }

    /// Consumes the current token and returns it.
    fn advance(&mut self) -> (r: Token)
        requires
            old(self).inv(),
            !old(self).at_end(),
        ensures
            final(self).inv(),
            final(self).tokens == old(self).tokens,
            final(self).errors == old(self).errors,
            final(self).reported == old(self).reported,
            final(self).current == old(self).current + 1,
            r@ == old(self).toks()[old(self).current as int],
    {
        let t = self.tokens[self.current].duplicate();
        self.current = self.current + 1;
        t
    }

    fn matches_token(&mut self, typ: TokenType) -> (r: bool)
        requires
            old(self).inv(),
        ensures
            final(self).inv(),
            final(self).tokens == old(self).tokens,
            final(self).errors == old(self).errors,
            final(self).reported == old(self).reported,
            r == (!old(self).at_end() && old(self).toks()[old(self).current as int].typ == typ),
            final(self).current == old(self).current + if r { 1int } else { 0 },
    {
        if self.check_token(typ) {
            self.advance();
            true
        } else {
            false
        }
    }

    /// Consumes a token of kind `typ`, or fails at the current token.
    fn consume(&mut self, typ: TokenType, msg: &'static str) -> (r: Result<Token, ParseError>)
        requires
            old(self).inv(),
        ensures
            final(self).inv(),
            final(self).tokens == old(self).tokens,
            final(self).errors == old(self).errors,
            final(self).reported == old(self).reported,
            r is Ok <==> (!old(self).at_end() && old(self).toks()[old(self).current as int].typ == typ),
            r is Ok ==> final(self).current == old(self).current + 1 && r->Ok_0@ == old(self).toks()[old(self).current as int],
            r is Err ==> final(self).current == old(self).current && r->Err_0.token@ == old(self).toks()[old(self).current as int] && r->Err_0.message == msg,
    {
        if self.check_token(typ) {
            Ok(self.advance())
        } else {
            Err(ParseError::new(self.peek(), msg))
        }
    }

    /// `primary → NUMBER | STRING | "true" | "false" | "nil" | "(" expression ")" | IDENT`
    #[verifier::spinoff_prover]
    fn primary(&mut self) -> (r: Result<Expr, ParseError>)
        requires
            old(self).inv(),
        ensures
            expr_step(*old(self), *final(self), r, 5),
            expr_complete(*old(self), *final(self), r, 6),
            !can_start_primary(old(self).toks()[old(self).current as int].typ) ==> r is Err
                && r->Err_0.token@ == old(self).toks()[old(self).current as int] && r->Err_0.message@
                == "expected expression"@,
        decreases old(self).tokens.len() - old(self).current, 1nat,
    {
        let ghost c0 = self.current as int;
        let ghost ts = self.toks();
        proof {
            assert forall|d: int|
                c0 < d < ts.len() && #[trigger] derives(ts, c0, d, 6) implies can_start_expression(ts[c0].typ)
                && ts[c0].typ != TokenType::Bang && ts[c0].typ != TokenType::Minus by {
                let e = choose|e: Expr|
                    #[trigger] parses_as(e, ts.subrange(c0, d)) && normal(e) && wf_expr(e) && precedence(e) >= 6;
                lemma_first_token(e, ts.subrange(c0, d));
            }
        }
        let t = self.peek_type();
        if !(t == TokenType::String || t == TokenType::Number || t == TokenType::True || t
            == TokenType::False || t == TokenType::Nil || t == TokenType::Identifier || t
            == TokenType::LeftParen) {
            return Err(ParseError::new(self.peek(), "expected expression"));
        }
        let token = self.advance();
        match token.typ {
            TokenType::LeftParen => {
                let ghost c1 = self.current as int;
                let inner = self.expression();
                proof {
                    assert forall|d: int|
                        c0 < d < ts.len() && #[trigger] derives(ts, c0, d, 6) implies inner is Ok && self.current == d - 1
                            && self.reported@.len() == old(self).reported@.len() by {
                        let e = choose|e: Expr|
                            #[trigger] parses_as(e, ts.subrange(c0, d)) && normal(e) && wf_expr(e) && precedence(e) >= 6;
                        if let Expr::Grouping(g) = e {
                            let s = ts.subrange(c0, d);
                            assert(s.subrange(1, s.len() - 1) =~= ts.subrange(c1, d - 1));
                            lemma_parses_nonempty(*g.expression, ts.subrange(c1, d - 1));
                            assert(parses_as(*g.expression, ts.subrange(c1, d - 1)));
                            assert(normal(*g.expression) && wf_expr(*g.expression));
                            assert(derives(ts, c1, d - 1, 0));
                            assert(s.last() == ts[d - 1]);
                        }
                    }
                }
                let inner = match inner {
                    Ok(e) => e,
                    Err(e) => return Err(e),
                };
                let ghost c2 = self.current as int;
                proof {
                    assert forall|d: int|
                        c0 < d < ts.len() && #[trigger] derives(ts, c0, d, 6) implies ts[c2].typ == TokenType::RightParen by {
                        let e = choose|e: Expr|
                            #[trigger] parses_as(e, ts.subrange(c0, d)) && normal(e) && wf_expr(e) && precedence(e) >= 6;
                        let s = ts.subrange(c0, d);
                        assert(s.last() == ts[d - 1]);
                    }
                }
                match self.consume(TokenType::RightParen, "expected ')' after expression") {
                    Ok(_) => {},
                    Err(e) => return Err(e),
                }
                let e = Expr::Grouping(GroupingExpr { expression: Box::new(inner) });
                proof {
                    let s = self.toks().subrange(c0, c2 + 1);
                    assert(s.subrange(1, s.len() - 1) =~= self.toks().subrange(c1, c2));
                }
                Ok(e)
            },
            TokenType::String | TokenType::Number | TokenType::True | TokenType::False
            | TokenType::Nil => {
                let value = match token.literal {
                    Some(v) => v,
                    None => Literal::Nil,
                };
                proof {
                    assert(self.toks().subrange(c0, c0 + 1) =~= seq![token@]);
                    assert forall|d: int| c0 < d < ts.len() && #[trigger] derives(ts, c0, d, 6) implies d == c0 + 1 by {
                        let e = choose|e: Expr|
                            #[trigger] parses_as(e, ts.subrange(c0, d)) && normal(e) && wf_expr(e) && precedence(e) >= 6;
                        assert(ts.subrange(c0, d)[0] == ts[c0]);
                    }
                }
                Ok(Expr::Literal(LiteralExpr { value }))
            },
            TokenType::Identifier => {
                proof {
                    assert(self.toks().subrange(c0, c0 + 1) =~= seq![token@]);
                    assert forall|d: int| c0 < d < ts.len() && #[trigger] derives(ts, c0, d, 6) implies d == c0 + 1 by {
                        let e = choose|e: Expr|
                            #[trigger] parses_as(e, ts.subrange(c0, d)) && normal(e) && wf_expr(e) && precedence(e) >= 6;
                        assert(ts.subrange(c0, d)[0] == ts[c0]);
                    }
                }
                Ok(Expr::Variable(VariableExpr { name: token }))
            },
            _ => Err(ParseError::new(token, "expected expression")),
        }
    }

    /// `unary → ("!" | "-") unary | primary`
    fn unary(&mut self) -> (r: Result<Expr, ParseError>)
        requires
            old(self).inv(),
        ensures
            expr_step(*old(self), *final(self), r, 5),
            expr_complete(*old(self), *final(self), r, 5),
        decreases old(self).tokens.len() - old(self).current, 2nat,
    {
        let ghost c0 = self.current as int;
        let ghost ts = self.toks();
        let t = self.peek_type();
        if t == TokenType::Bang || t == TokenType::Minus {
            let operator = self.advance();
            let right = self.unary();
            proof {
                assert forall|d: int| c0 < d < ts.len() && #[trigger] derives(ts, c0, d, 5) implies right is Ok
                    && self.current == d && self.reported@.len() == old(self).reported@.len() by {
                    let e = choose|e: Expr|
                        #[trigger] parses_as(e, ts.subrange(c0, d)) && normal(e) && wf_expr(e) && precedence(e) >= 5;
                    let s = ts.subrange(c0, d);
                    lemma_first_token(e, s);
                    assert(s[0] == ts[c0]);
                    if let Expr::Unary(u) = e {
                        assert(s.subrange(1, s.len() as int) =~= ts.subrange(c0 + 1, d));
                        lemma_parses_nonempty(*u.right, ts.subrange(c0 + 1, d));
                        assert(parses_as(*u.right, ts.subrange(c0 + 1, d)));
                        assert(normal(*u.right) && wf_expr(*u.right) && precedence(*u.right) >= 5);
                        assert(derives(ts, c0 + 1, d, 5));
                    }
                }
            }
            let right = match right {
                Ok(e) => e,
                Err(e) => return Err(e),
            };
            let e = Expr::Unary(UnaryExpr { operator, right: Box::new(right) });
            proof {
                let s = self.toks().subrange(c0, self.current as int);
                assert(s.subrange(1, s.len() as int) =~= self.toks().subrange(c0 + 1, self.current as int));
            }
            Ok(e)
        } else {
            proof {
                assert forall|d: int| c0 < d < ts.len() && #[trigger] derives(ts, c0, d, 5) implies derives(ts, c0, d, 6) by {
                    let e = choose|e: Expr|
                        #[trigger] parses_as(e, ts.subrange(c0, d)) && normal(e) && wf_expr(e) && precedence(e) >= 5;
                    let s = ts.subrange(c0, d);
                    assert(s[0] == ts[c0]);
                }
            }
            self.primary()
        }
    }

    /// `factor → unary (("/" | "*") unary)*`
    fn factor(&mut self) -> (r: Result<Expr, ParseError>)
        requires
            old(self).inv(),
        ensures
            expr_step(*old(self), *final(self), r, 4),
            expr_complete(*old(self), *final(self), r, 4),
        decreases old(self).tokens.len() - old(self).current, 3nat,
    {
        let ghost c0 = self.current as int;
        let ghost r0 = self.reported@.len();
        let ghost ts = self.toks();
        let first = self.unary();
        proof {
            assert forall|d: int|
                c0 < d < ts.len() && #[trigger] derives(ts, c0, d, 4) && ends_level(ts[d].typ, 4) implies first is Ok
                    && chain(ts, self.current as int, d, 4) && self.reported@.len() == r0 by {
                let e = choose|e: Expr|
                    #[trigger] parses_as(e, ts.subrange(c0, d)) && normal(e) && wf_expr(e) && precedence(e) >= 4;
                lemma_spine(ts, c0, d, 4, e);
                let k = choose|k: int| c0 < k <= d && #[trigger] derives(ts, c0, k, 5) && chain(ts, k, d, 4);
                assert(ends_level(ts[k].typ, 5));
            }
        }
        let mut expr = match first {
            Ok(e) => e,
            Err(e) => return Err(e),
        };
        loop
            invariant
                self.inv(),
                self.tokens == old(self).tokens,
                self.errors == old(self).errors,
                ts == self.toks(),
                self.current > c0,
                self.reported@.len() >= r0,
                r0 == old(self).reported@.len(),
                c0 == old(self).current,
                wf_expr(expr),
                normal(expr),
                precedence(expr) >= 4,
                reads_as(expr, self.toks().subrange(c0, self.current as int)),
                forall|d: int|
                    c0 < d < ts.len() && #[trigger] derives(ts, c0, d, 4) && ends_level(ts[d].typ, 4) ==> chain(
                        ts,
                        self.current as int,
                        d,
                        4,
                    ) && self.reported@.len() == r0,
            ensures
                !level_op(self.toks()[self.current as int].typ, 4),
            decreases self.tokens.len() - self.current,
        {
            let t = self.peek_type();
            if !(t == TokenType::Slash || t == TokenType::Star) {
                break;
            }
            let ghost c1 = self.current as int;
            let operator = self.advance();
            let next = self.unary();
            proof {
                assert forall|d: int|
                    c0 < d < ts.len() && #[trigger] derives(ts, c0, d, 4) && ends_level(ts[d].typ, 4) implies next is Ok
                        && chain(ts, self.current as int, d, 4) && self.reported@.len() == r0 by {
                    assert(chain(ts, c1, d, 4));
                    if c1 == d {
                        assert(level_op(ts[d].typ, 4));
                    }
                    let j = choose|j: int| c1 + 1 < j <= d && #[trigger] derives(ts, c1 + 1, j, 5) && chain(ts, j, d, 4);
                    assert(ends_level(ts[j].typ, 5));
                }
            }
            let right = match next {
                Ok(e) => e,
                Err(e) => return Err(e),
            };
            let ghost c2 = self.current as int;
            expr = Expr::Binary(BinaryExpr { left: Box::new(expr), operator, right: Box::new(right) });
            proof {
                lemma_binary_reads(self.toks(), c0, c1, c2, expr);
            }
        }
        proof {
            assert forall|d: int|
                c0 < d < ts.len() && #[trigger] derives(ts, c0, d, 4) && ends_level(ts[d].typ, 4) implies self.current == d by {
                assert(chain(ts, self.current as int, d, 4));
                if self.current < d {
                    assert(level_op(ts[self.current as int].typ, 4));
                }
            }
        }
        Ok(expr)
    }

    /// `term → factor (("-" | "+") factor)*`
    fn term(&mut self) -> (r: Result<Expr, ParseError>)
        requires
            old(self).inv(),
        ensures
            expr_step(*old(self), *final(self), r, 3),
            expr_complete(*old(self), *final(self), r, 3),
        decreases old(self).tokens.len() - old(self).current, 4nat,
    {
        let ghost c0 = self.current as int;
        let ghost r0 = self.reported@.len();
        let ghost ts = self.toks();
        let first = self.factor();
        proof {
            assert forall|d: int|
                c0 < d < ts.len() && #[trigger] derives(ts, c0, d, 3) && ends_level(ts[d].typ, 3) implies first is Ok
                    && chain(ts, self.current as int, d, 3) && self.reported@.len() == r0 by {
                let e = choose|e: Expr|
                    #[trigger] parses_as(e, ts.subrange(c0, d)) && normal(e) && wf_expr(e) && precedence(e) >= 3;
                lemma_spine(ts, c0, d, 3, e);
                let k = choose|k: int| c0 < k <= d && #[trigger] derives(ts, c0, k, 4) && chain(ts, k, d, 3);
                assert(ends_level(ts[k].typ, 4));
            }
        }
        let mut expr = match first {
            Ok(e) => e,
            Err(e) => return Err(e),
        };
        loop
            invariant
                self.inv(),
                self.tokens == old(self).tokens,
                self.errors == old(self).errors,
                ts == self.toks(),
                self.current > c0,
                self.reported@.len() >= r0,
                r0 == old(self).reported@.len(),
                c0 == old(self).current,
                wf_expr(expr),
                normal(expr),
                precedence(expr) >= 3,
                reads_as(expr, self.toks().subrange(c0, self.current as int)),
                forall|d: int|
                    c0 < d < ts.len() && #[trigger] derives(ts, c0, d, 3) && ends_level(ts[d].typ, 3) ==> chain(
                        ts,
                        self.current as int,
                        d,
                        3,
                    ) && self.reported@.len() == r0,
            ensures
                !level_op(self.toks()[self.current as int].typ, 3),
            decreases self.tokens.len() - self.current,
        {
            let t = self.peek_type();
            if !(t == TokenType::Minus || t == TokenType::Plus) {
                break;
            }
            let ghost c1 = self.current as int;
            let operator = self.advance();
            let next = self.factor();
            proof {
                assert forall|d: int|
                    c0 < d < ts.len() && #[trigger] derives(ts, c0, d, 3) && ends_level(ts[d].typ, 3) implies next is Ok
                        && chain(ts, self.current as int, d, 3) && self.reported@.len() == r0 by {
                    assert(chain(ts, c1, d, 3));
                    if c1 == d {
                        assert(level_op(ts[d].typ, 3));
                    }
                    let j = choose|j: int| c1 + 1 < j <= d && #[trigger] derives(ts, c1 + 1, j, 4) && chain(ts, j, d, 3);
                    assert(ends_level(ts[j].typ, 4));
                }
            }
            let right = match next {
                Ok(e) => e,
                Err(e) => return Err(e),
            };
            let ghost c2 = self.current as int;
            expr = Expr::Binary(BinaryExpr { left: Box::new(expr), operator, right: Box::new(right) });
            proof {
                lemma_binary_reads(self.toks(), c0, c1, c2, expr);
            }
        }
        proof {
            assert forall|d: int|
                c0 < d < ts.len() && #[trigger] derives(ts, c0, d, 3) && ends_level(ts[d].typ, 3) implies self.current == d by {
                assert(chain(ts, self.current as int, d, 3));
                if self.current < d {
                    assert(level_op(ts[self.current as int].typ, 3));
                }
            }
        }
        Ok(expr)
    }

    /// `comparison → term (("<" | "<=" | ">" | ">=") term)*`
    fn comparison(&mut self) -> (r: Result<Expr, ParseError>)
        requires
            old(self).inv(),
        ensures
            expr_step(*old(self), *final(self), r, 2),
            expr_complete(*old(self), *final(self), r, 2),
        decreases old(self).tokens.len() - old(self).current, 5nat,
    {
        let ghost c0 = self.current as int;
        let ghost r0 = self.reported@.len();
        let ghost ts = self.toks();
        let first = self.term();
        proof {
            assert forall|d: int|
                c0 < d < ts.len() && #[trigger] derives(ts, c0, d, 2) && ends_level(ts[d].typ, 2) implies first is Ok
                    && chain(ts, self.current as int, d, 2) && self.reported@.len() == r0 by {
                let e = choose|e: Expr|
                    #[trigger] parses_as(e, ts.subrange(c0, d)) && normal(e) && wf_expr(e) && precedence(e) >= 2;
                lemma_spine(ts, c0, d, 2, e);
                let k = choose|k: int| c0 < k <= d && #[trigger] derives(ts, c0, k, 3) && chain(ts, k, d, 2);
                assert(ends_level(ts[k].typ, 3));
            }
        }
        let mut expr = match first {
            Ok(e) => e,
            Err(e) => return Err(e),
        };
        loop
            invariant
                self.inv(),
                self.tokens == old(self).tokens,
                self.errors == old(self).errors,
                ts == self.toks(),
                self.current > c0,
                self.reported@.len() >= r0,
                r0 == old(self).reported@.len(),
                c0 == old(self).current,
                wf_expr(expr),
                normal(expr),
                precedence(expr) >= 2,
                reads_as(expr, self.toks().subrange(c0, self.current as int)),
                forall|d: int|
                    c0 < d < ts.len() && #[trigger] derives(ts, c0, d, 2) && ends_level(ts[d].typ, 2) ==> chain(
                        ts,
                        self.current as int,
                        d,
                        2,
                    ) && self.reported@.len() == r0,
            ensures
                !level_op(self.toks()[self.current as int].typ, 2),
            decreases self.tokens.len() - self.current,
        {
            let t = self.peek_type();
            if !(t == TokenType::Greater || t == TokenType::GreaterEqual || t == TokenType::Less || t == TokenType::LessEqual) {
                break;
            }
            let ghost c1 = self.current as int;
            let operator = self.advance();
            let next = self.term();
            proof {
                assert forall|d: int|
                    c0 < d < ts.len() && #[trigger] derives(ts, c0, d, 2) && ends_level(ts[d].typ, 2) implies next is Ok
                        && chain(ts, self.current as int, d, 2) && self.reported@.len() == r0 by {
                    assert(chain(ts, c1, d, 2));
                    if c1 == d {
                        assert(level_op(ts[d].typ, 2));
                    }
                    let j = choose|j: int| c1 + 1 < j <= d && #[trigger] derives(ts, c1 + 1, j, 3) && chain(ts, j, d, 2);
                    assert(ends_level(ts[j].typ, 3));
                }
            }
            let right = match next {
                Ok(e) => e,
                Err(e) => return Err(e),
            };
            let ghost c2 = self.current as int;
            expr = Expr::Binary(BinaryExpr { left: Box::new(expr), operator, right: Box::new(right) });
            proof {
                lemma_binary_reads(self.toks(), c0, c1, c2, expr);
            }
        }
        proof {
            assert forall|d: int|
                c0 < d < ts.len() && #[trigger] derives(ts, c0, d, 2) && ends_level(ts[d].typ, 2) implies self.current == d by {
                assert(chain(ts, self.current as int, d, 2));
                if self.current < d {
                    assert(level_op(ts[self.current as int].typ, 2));
                }
            }
        }
        Ok(expr)
    }

    /// `equality → comparison (("!=" | "==") comparison)*`
    fn equality(&mut self) -> (r: Result<Expr, ParseError>)
        requires
            old(self).inv(),
        ensures
            expr_step(*old(self), *final(self), r, 1),
            expr_complete(*old(self), *final(self), r, 1),
        decreases old(self).tokens.len() - old(self).current, 6nat,
    {
        let ghost c0 = self.current as int;
        let ghost r0 = self.reported@.len();
        let ghost ts = self.toks();
        let first = self.comparison();
        proof {
            assert forall|d: int|
                c0 < d < ts.len() && #[trigger] derives(ts, c0, d, 1) && ends_level(ts[d].typ, 1) implies first is Ok
                    && chain(ts, self.current as int, d, 1) && self.reported@.len() == r0 by {
                let e = choose|e: Expr|
                    #[trigger] parses_as(e, ts.subrange(c0, d)) && normal(e) && wf_expr(e) && precedence(e) >= 1;
                lemma_spine(ts, c0, d, 1, e);
                let k = choose|k: int| c0 < k <= d && #[trigger] derives(ts, c0, k, 2) && chain(ts, k, d, 1);
                assert(ends_level(ts[k].typ, 2));
            }
        }
        let mut expr = match first {
            Ok(e) => e,
            Err(e) => return Err(e),
        };
        loop
            invariant
                self.inv(),
                self.tokens == old(self).tokens,
                self.errors == old(self).errors,
                ts == self.toks(),
                self.current > c0,
                self.reported@.len() >= r0,
                r0 == old(self).reported@.len(),
                c0 == old(self).current,
                wf_expr(expr),
                normal(expr),
                precedence(expr) >= 1,
                reads_as(expr, self.toks().subrange(c0, self.current as int)),
                forall|d: int|
                    c0 < d < ts.len() && #[trigger] derives(ts, c0, d, 1) && ends_level(ts[d].typ, 1) ==> chain(
                        ts,
                        self.current as int,
                        d,
                        1,
                    ) && self.reported@.len() == r0,
            ensures
                !level_op(self.toks()[self.current as int].typ, 1),
            decreases self.tokens.len() - self.current,
        {
            let t = self.peek_type();
            if !(t == TokenType::BangEqual || t == TokenType::EqualEqual) {
                break;
            }
            let ghost c1 = self.current as int;
            let operator = self.advance();
            let next = self.comparison();
            proof {
                assert forall|d: int|
                    c0 < d < ts.len() && #[trigger] derives(ts, c0, d, 1) && ends_level(ts[d].typ, 1) implies next is Ok
                        && chain(ts, self.current as int, d, 1) && self.reported@.len() == r0 by {
                    assert(chain(ts, c1, d, 1));
                    if c1 == d {
                        assert(level_op(ts[d].typ, 1));
                    }
                    let j = choose|j: int| c1 + 1 < j <= d && #[trigger] derives(ts, c1 + 1, j, 2) && chain(ts, j, d, 1);
                    assert(ends_level(ts[j].typ, 2));
                }
            }
            let right = match next {
                Ok(e) => e,
                Err(e) => return Err(e),
            };
            let ghost c2 = self.current as int;
            expr = Expr::Binary(BinaryExpr { left: Box::new(expr), operator, right: Box::new(right) });
            proof {
                lemma_binary_reads(self.toks(), c0, c1, c2, expr);
            }
        }
        proof {
            assert forall|d: int|
                c0 < d < ts.len() && #[trigger] derives(ts, c0, d, 1) && ends_level(ts[d].typ, 1) implies self.current == d by {
                assert(chain(ts, self.current as int, d, 1));
                if self.current < d {
                    assert(level_op(ts[self.current as int].typ, 1));
                }
            }
        }
        Ok(expr)
    }

    /// `assignment → IDENT "=" assignment | equality`; an `=` after anything
    /// but a variable is reported, and the left side stands.
    #[verifier::spinoff_prover]
    fn assignment(&mut self) -> (r: Result<Expr, ParseError>)
        requires
            old(self).inv(),
        ensures
            expr_step(*old(self), *final(self), r, 0),
            expr_complete(*old(self), *final(self), r, 0),
            r is Ok ==> reads_as(
                r->Ok_0,
                final(self).toks().subrange(old(self).current as int, final(self).current as int),
            ) || (final(self).reported@.len() > old(self).reported@.len() && exists|k: int|
                old(self).current < k < final(self).current && final(self).toks()[k]
                    == final(self).reported@.last().token@ && #[trigger] reads_as(
                    r->Ok_0,
                    final(self).toks().subrange(old(self).current as int, k),
                )),
        decreases old(self).tokens.len() - old(self).current, 7nat,
    {
        let ghost c0 = self.current as int;
        let ghost ts = self.toks();
        let left = self.equality();
        proof {
            assert forall|d: int|
                c0 < d < ts.len() && #[trigger] derives(ts, c0, d, 0) && ends_level(ts[d].typ, 0) implies left is Ok
                    && self.reported@.len() == old(self).reported@.len() && (self.current == d || (
                    self.current == c0 + 1 && ts[c0].typ == TokenType::Identifier && ts[c0 + 1].typ
                    == TokenType::Equal && derives(ts, c0 + 2, d, 0))) by {
                let e = choose|e: Expr|
                    #[trigger] parses_as(e, ts.subrange(c0, d)) && normal(e) && wf_expr(e) && precedence(e) >= 0;
                let s = ts.subrange(c0, d);
                if let Expr::Assign(a) = e {
                    let v = Expr::Variable(VariableExpr { name: a.name });
                    assert(s.subrange(0, 1) =~= ts.subrange(c0, c0 + 1));
                    assert(parses_as(v, ts.subrange(c0, c0 + 1)));
                    assert(derives(ts, c0, c0 + 1, 1));
                    assert(s[1] == ts[c0 + 1]);
                    assert(s.subrange(2, s.len() as int) =~= ts.subrange(c0 + 2, d));
                    lemma_parses_nonempty(*a.value, ts.subrange(c0 + 2, d));
                    assert(parses_as(*a.value, ts.subrange(c0 + 2, d)));
                    assert(normal(*a.value) && wf_expr(*a.value));
                    assert(derives(ts, c0 + 2, d, 0));
                    assert(s[0] == ts[c0]);
                } else {
                    assert(derives(ts, c0, d, 1));
                }
            }
        }
        let expr = match left {
            Ok(e) => e,
            Err(e) => return Err(e),
        };
        if self.check_token(TokenType::Equal) {
            let ghost c1 = self.current as int;
            let equals = self.advance();
            let value = self.assignment();
            proof {
                assert forall|d: int|
                    c0 < d < ts.len() && #[trigger] derives(ts, c0, d, 0) && ends_level(ts[d].typ, 0) implies value is Ok
                        && self.current == d && self.reported@.len() == old(self).reported@.len() && expr is Variable by {
                    assert(ts[c1].typ == TokenType::Equal);
                    assert(c1 != d);
                    assert(self.toks().subrange(c0, c1).len() == 1);
                    assert(self.toks().subrange(c0, c1)[0] == ts[c0]);
                    lemma_reads_single_identifier(expr, self.toks().subrange(c0, c1));
                }
            }
            let value = match value {
                Ok(e) => e,
                Err(e) => return Err(e),
            };
            match expr {
                Expr::Variable(var) => {
                    let e = Expr::Assign(AssignExpr { name: var.name, value: Box::new(value) });
                    proof {
                        assert(self.toks().subrange(c0, c1).len() == 1);
                        let s = self.toks().subrange(c0, self.current as int);
                        assert(s.subrange(2, s.len() as int) =~= self.toks().subrange(c1 + 1, self.current as int));
                        assert(self.toks().subrange(c0, c1)[0] == s[0]);
                        assert(s[1] == self.toks()[c1]);
                        assert(reads_as(e, s));
                    }
                    return Ok(e);
                },
                other => {
                    let ghost before = self.reported@;
                    self.reported.push(ParseError::new(equals, "Invalid assignment target"));
                    proof {
                        let c2 = self.current as int;
                        let s = self.toks().subrange(c0, c2);
                        let k = c1 - c0;
                        assert(s.subrange(0, k) =~= self.toks().subrange(c0, c1));
                        assert(s.subrange(k + 1, s.len() as int) =~= self.toks().subrange(c1 + 1, c2));
                        assert(s[k] == self.toks()[c1]);
                        assert(reads_top(value, s.subrange(k + 1, s.len() as int)));
                        assert(reads_as(other, s.subrange(0, k)));
                        assert(!(other is Variable));
                        assert(precedence(other) >= 1);
                        assert(0 < k < s.len());
                        assert(s[k].typ == TokenType::Equal);
                        assert(k < s.len() - 1);
                        assert(reads_top(other, s));
                        assert forall|i: int| 0 <= i < self.reported@.len() implies invalid_target_report(
                            #[trigger] self.reported@[i],
                        ) by {
                            if i < before.len() {
                                assert(self.reported@[i] == before[i]);
                            }
                        }
                    }
                    return Ok(other);
                },
            }
        }
        proof {
            assert(reads_top(expr, self.toks().subrange(c0, self.current as int)));
        }
        Ok(expr)
    }

    /// `expression → assignment`
    fn expression(&mut self) -> (r: Result<Expr, ParseError>)
        requires
            old(self).inv(),
        ensures
            expr_step(*old(self), *final(self), r, 0),
            expr_complete(*old(self), *final(self), r, 0),
        decreases old(self).tokens.len() - old(self).current, 8nat,
    {
        self.assignment()
    }

    /// `varDecl → "var" IDENT ("=" expression)? ";"`, after the `var`.
    #[verifier::spinoff_prover]
    fn var_declaration(&mut self) -> (r: Result<Stmt, ParseError>)
        requires
            old(self).inv(),
            old(self).current > 0,
            old(self).toks()[old(self).current - 1].typ == TokenType::Var,
        ensures
            stmt_step(*old(self), *final(self), r, old(self).current - 1),
            stmt_complete(*old(self), *final(self), r, old(self).current - 1),
            old(self).toks()[old(self).current as int].typ != TokenType::Identifier ==> r is Err
                && r->Err_0.token@ == old(self).toks()[old(self).current as int] && r->Err_0.message@
                == "Expected variable name."@,
            final(self).errors == old(self).errors,
            forall|q: int, m: Seq<char>|
                old(self).current - 1 < q < old(self).toks().len() && #[trigger] local_failure(
                    old(self).toks(),
                    old(self).current - 1,
                    q,
                    m,
                ) ==> r is Err && r->Err_0.token@ == old(self).toks()[q] && r->Err_0.message@ == m,
        decreases old(self).tokens.len() - old(self).current, 12nat,
    {
        let ghost c0 = self.current - 1;
        let ghost ts = self.toks();
        let named = self.consume(TokenType::Identifier, "Expected variable name.");
        proof {
            assert forall|d: int| c0 + 1 < d < ts.len() && #[trigger] stmt_derives(ts, c0, d) implies named is Ok
                && (if ts[c0 + 2].typ == TokenType::Equal {
                d >= c0 + 4 && derives(ts, c0 + 3, d - 1, 0) && ts[d - 1].typ == TokenType::SemiColon
            } else {
                d == c0 + 3 && ts[c0 + 2].typ == TokenType::SemiColon
            }) by {
                let st = choose|st: Stmt| #[trigger] stmt_parses_as(st, ts.subrange(c0, d)) && stmt_normal(st) && wf_stmt(st);
                let w = ts.subrange(c0, d);
                lemma_stmt_first_token(st, w);
                assert(w[0] == ts[c0] && w[1] == ts[c0 + 1] && w[2] == ts[c0 + 2]);
                assert(w.last() == ts[d - 1]);
                if let Stmt::Var(name, init) = st {
                    if let Some(e) = init {
                        assert(w.subrange(3, w.len() - 1) =~= ts.subrange(c0 + 3, d - 1));
                        lemma_parses_nonempty(e, ts.subrange(c0 + 3, d - 1));
                        assert(parses_as(e, ts.subrange(c0 + 3, d - 1)) && normal(e) && wf_expr(e));
                        assert(derives(ts, c0 + 3, d - 1, 0));
                    }
                }
            }
        }
        let name = match named {
            Ok(t) => t,
            Err(e) => return Err(e),
        };
        let ghost c2 = self.current as int;
        let initializer = if self.matches_token(TokenType::Equal) {
            let value = self.expression();
            proof {
                assert forall|d: int| c0 + 1 < d < ts.len() && #[trigger] stmt_derives(ts, c0, d) implies value is Ok
                    && self.current == d - 1 && self.reported@.len() == old(self).reported@.len() by {
                    assert(ends_level(ts[d - 1].typ, 0));
                }
                assert forall|q: int, m: Seq<char>| c0 < q < ts.len() && #[trigger] local_failure(ts, c0, q, m) implies value is Ok
                    && self.current == q by {
                    assert(ts[c0 + 1].typ == TokenType::Identifier);
                    assert(derives(ts, c0 + 3, q, 0));
                }
            }
            match value {
                Ok(e) => Some(e),
                Err(e) => return Err(e),
            }
        } else {
            proof {
                assert(ts[c2].typ != TokenType::Equal);
                assert forall|q: int, m: Seq<char>| c0 < q < ts.len() && #[trigger] local_failure(ts, c0, q, m) implies false by {
                    assert(ts[c0 + 1].typ == TokenType::Identifier);
                }
            }
            None
        };
        let ghost c3 = self.current as int;
        match self.consume(TokenType::SemiColon, "Expected ';' after variable declaration.") {
            Ok(_) => {},
            Err(e) => return Err(e),
        }
        let s = Stmt::Var(name, initializer);
        proof {
            assert forall|q: int, m: Seq<char>| c0 < q < ts.len() && #[trigger] local_failure(ts, c0, q, m) implies false by {
                assert(ts[c0 + 1].typ == TokenType::Identifier);
                if c3 > c2 {
                    assert(c3 == q);
                }
            }
            let ts = self.toks().subrange(c0, self.current as int);
            assert(ts[0] == self.toks()[c0]);
            assert(ts[1] == self.toks()[c0 + 1]);
            assert(ts.last() == self.toks()[c3]);
            if c3 > c2 {
                assert(ts[2] == self.toks()[c2]);
                assert(ts.subrange(3, ts.len() - 1) =~= self.toks().subrange(c2 + 1, c3));
            }
        }
        Ok(s)
    }

    /// `printStmt → "print" expression ";"`, after the `print`.
    fn print_statement(&mut self) -> (r: Result<Stmt, ParseError>)
        requires
            old(self).inv(),
            old(self).current > 0,
            old(self).toks()[old(self).current - 1].typ == TokenType::Print,
        ensures
            stmt_step(*old(self), *final(self), r, old(self).current - 1),
            stmt_complete(*old(self), *final(self), r, old(self).current - 1),
            final(self).errors == old(self).errors,
            forall|q: int, m: Seq<char>|
                old(self).current - 1 < q < old(self).toks().len() && #[trigger] local_failure(
                    old(self).toks(),
                    old(self).current - 1,
                    q,
                    m,
                ) ==> r is Err && r->Err_0.token@ == old(self).toks()[q] && r->Err_0.message@ == m,
        decreases old(self).tokens.len() - old(self).current, 11nat,
    {
        let ghost c0 = self.current - 1;
        let ghost ts = self.toks();
        let value = self.expression();
        proof {
            assert forall|d: int| c0 + 1 < d < ts.len() && #[trigger] stmt_derives(ts, c0, d) implies value is Ok
                && self.current == d - 1 && self.reported@.len() == old(self).reported@.len()
                && ts[d - 1].typ == TokenType::SemiColon by {
                let st = choose|st: Stmt| #[trigger] stmt_parses_as(st, ts.subrange(c0, d)) && stmt_normal(st) && wf_stmt(st);
                let w = ts.subrange(c0, d);
                lemma_stmt_first_token(st, w);
                assert(w[0] == ts[c0]);
                assert(w.last() == ts[d - 1]);
                if let Stmt::Print(e) = st {
                    assert(w.subrange(1, w.len() - 1) =~= ts.subrange(c0 + 1, d - 1));
                    lemma_parses_nonempty(e, ts.subrange(c0 + 1, d - 1));
                    assert(parses_as(e, ts.subrange(c0 + 1, d - 1)) && normal(e) && wf_expr(e));
                    assert(derives(ts, c0 + 1, d - 1, 0));
                }
            }
        }
        let value = match value {
            Ok(e) => e,
            Err(e) => return Err(e),
        };
        let ghost c2 = self.current as int;
        match self.consume(TokenType::SemiColon, "Expected ';' after print statement.") {
            Ok(_) => {},
            Err(e) => return Err(e),
        }
        proof {
            let ts = self.toks().subrange(c0, self.current as int);
            assert(ts[0] == self.toks()[c0]);
            assert(ts.subrange(1, ts.len() - 1) =~= self.toks().subrange(c0 + 1, c2));
        }
        Ok(Stmt::Print(value))
    }

    /// `exprStmt → expression ";"`
    fn expression_statement(&mut self) -> (r: Result<Stmt, ParseError>)
        requires
            old(self).inv(),
        ensures
            stmt_step(*old(self), *final(self), r, old(self).current as int),
            ({
                let t = old(self).toks()[old(self).current as int].typ;
                t != TokenType::Var && t != TokenType::Print && t != TokenType::LeftBrace ==> stmt_complete(
                    *old(self),
                    *final(self),
                    r,
                    old(self).current as int,
                )
            }),
            final(self).errors == old(self).errors,
            forall|q: int, m: Seq<char>|
                old(self).current < q < old(self).toks().len() && old(self).toks()[old(self).current as int].typ
                    != TokenType::Var && old(self).toks()[old(self).current as int].typ != TokenType::Print
                    && #[trigger] local_failure(old(self).toks(), old(self).current as int, q, m) ==> r is Err
                    && r->Err_0.token@ == old(self).toks()[q] && r->Err_0.message@ == m,
        decreases old(self).tokens.len() - old(self).current, 11nat,
    {
        let ghost c0 = self.current as int;
        let ghost ts = self.toks();
        let expr = self.expression();
        proof {
            let t = ts[c0].typ;
            if t != TokenType::Var && t != TokenType::Print && t != TokenType::LeftBrace {
                assert forall|d: int| c0 < d < ts.len() && #[trigger] stmt_derives(ts, c0, d) implies expr is Ok
                    && self.current == d - 1 && self.reported@.len() == old(self).reported@.len()
                    && ts[d - 1].typ == TokenType::SemiColon by {
                    let st = choose|st: Stmt| #[trigger] stmt_parses_as(st, ts.subrange(c0, d)) && stmt_normal(st) && wf_stmt(st);
                    let w = ts.subrange(c0, d);
                    lemma_stmt_first_token(st, w);
                    assert(w[0] == ts[c0]);
                    assert(w.last() == ts[d - 1]);
                    if let Stmt::Expression(e) = st {
                        assert(w.drop_last() =~= ts.subrange(c0, d - 1));
                        lemma_parses_nonempty(e, ts.subrange(c0, d - 1));
                        assert(parses_as(e, ts.subrange(c0, d - 1)) && normal(e) && wf_expr(e));
                        assert(derives(ts, c0, d - 1, 0));
                    }
                }
            }
        }
        let expr = match expr {
            Ok(e) => e,
            Err(e) => return Err(e),
        };
        let ghost c2 = self.current as int;
        match self.consume(TokenType::SemiColon, "Expected ';' after expression.") {
            Ok(_) => {},
            Err(e) => return Err(e),
        }
        proof {
            let ts = self.toks().subrange(c0, self.current as int);
            assert(ts.drop_last() =~= self.toks().subrange(c0, c2));
        }
        Ok(Stmt::Expression(expr))
    }

    /// `block → "{" declaration* "}"`, after the `{`.
    #[verifier::spinoff_prover]
    fn block(&mut self) -> (r: Result<Stmt, ParseError>)
        requires
            old(self).inv(),
            old(self).current > 0,
            old(self).toks()[old(self).current - 1].typ == TokenType::LeftBrace,
        ensures
            stmt_step(*old(self), *final(self), r, old(self).current - 1),
            stmt_complete(*old(self), *final(self), r, old(self).current - 1),
        decreases old(self).tokens.len() - old(self).current, 14nat,
    {
        let ghost c0 = self.current - 1;
        let ghost e0 = self.errors@.len();
        let ghost r0 = self.reported@.len();
        let ghost ts = self.toks();
        let mut statements: Vec<Stmt> = Vec::new();
        proof {
            assert(self.toks().subrange(c0 + 1, c0 + 1) =~= Seq::<TokenView>::empty());
            assert forall|d: int| c0 + 1 < d < ts.len() && #[trigger] stmt_derives(ts, c0, d) implies stmts_derive(ts, c0 + 1, d - 1)
                && ts[d - 1].typ == TokenType::RightBrace by {
                let st = choose|st: Stmt| #[trigger] stmt_parses_as(st, ts.subrange(c0, d)) && stmt_normal(st) && wf_stmt(st);
                let w = ts.subrange(c0, d);
                lemma_stmt_first_token(st, w);
                assert(w[0] == ts[c0]);
                assert(w.last() == ts[d - 1]);
                if let Stmt::Block(ss) = st {
                    assert(w.subrange(1, w.len() - 1) =~= ts.subrange(c0 + 1, d - 1));
                    lemma_stmts_split(ss@, ts, c0 + 1, d - 1);
                }
            }
        }
        while !self.check_token(TokenType::RightBrace) && !self.is_at_end()
            invariant
                self.inv(),
                self.tokens == old(self).tokens,
                ts == self.toks(),
                self.current >= c0 + 1,
                c0 + 1 == old(self).current,
                self.errors@.len() >= e0,
                self.reported@.len() >= r0,
                e0 == old(self).errors@.len(),
                r0 == old(self).reported@.len(),
                e0 > 0 ==> self.errors@[0] == old(self).errors@[0],
                wf_stmts(statements@),
                stmts_normal(statements@),
                self.errors@.len() == e0 ==> stmts_read_as(
                    statements@,
                    self.toks().subrange(c0 + 1, self.current as int),
                ),
                forall|d: int| c0 + 1 < d < ts.len() && #[trigger] stmt_derives(ts, c0, d) ==> stmts_derive(ts, self.current as int, d - 1)
                    && ts[d - 1].typ == TokenType::RightBrace && self.errors@.len() == e0 && self.reported@.len() == r0,
            decreases self.tokens.len() - self.current,
        {
            let ghost c1 = self.current as int;
            let ghost before = statements@;
            let (s, _) = self.declaration();
            proof {
                lemma_wf_stmts_push(before, s);
                assert(before.push(s).drop_last() =~= before);
                if self.errors@.len() == e0 {
                    let w = self.toks().subrange(c0 + 1, self.current as int);
                    let k = c1 - (c0 + 1);
                    assert(w.subrange(k, w.len() as int) =~= self.toks().subrange(c1, self.current as int));
                    assert(w.subrange(0, k) =~= self.toks().subrange(c0 + 1, c1));
                    assert(stmts_read_as(before.push(s), w));
                }
                assert forall|d: int| c0 + 1 < d < ts.len() && #[trigger] stmt_derives(ts, c0, d) implies stmts_derive(ts, self.current as int, d - 1)
                    && self.errors@.len() == e0 && self.reported@.len() == r0 by {
                    assert(stmts_derive(ts, c1, d - 1));
                    if c1 == d - 1 {
                        assert(ts[c1].typ == TokenType::RightBrace);
                    }
                    let k = choose|k: int| c1 < k <= d - 1 && #[trigger] stmt_derives(ts, c1, k) && stmts_derive(ts, k, d - 1);
                }
            }
            statements.push(s);
        }
        proof {
            assert forall|d: int| c0 + 1 < d < ts.len() && #[trigger] stmt_derives(ts, c0, d) implies self.current == d - 1 by {
                if self.current < d - 1 {
                    let k = choose|k: int| self.current < k <= d - 1 && #[trigger] stmt_derives(ts, self.current as int, k) && stmts_derive(ts, k, d - 1);
                    let st = choose|st: Stmt| #[trigger] stmt_parses_as(st, ts.subrange(self.current as int, k)) && stmt_normal(st) && wf_stmt(st);
                    lemma_stmt_first_token(st, ts.subrange(self.current as int, k));
                    assert(ts.subrange(self.current as int, k)[0] == ts[self.current as int]);
                }
            }
        }
        let ghost c2 = self.current as int;
        match self.consume(TokenType::RightBrace, "Expected '}' after block.") {
            Ok(_) => {},
            Err(e) => return Err(e),
        }
        proof {
            let w = self.toks().subrange(c0, self.current as int);
            assert(w.subrange(1, w.len() - 1) =~= self.toks().subrange(c0 + 1, c2));
        }
        Ok(Stmt::Block(statements))
    }

    /// `statement → printStmt | block | exprStmt`
    #[verifier::spinoff_prover]
    fn statement(&mut self) -> (r: Result<Stmt, ParseError>)
        requires
            old(self).inv(),
        ensures
            stmt_step(*old(self), *final(self), r, old(self).current as int),
            old(self).toks()[old(self).current as int].typ != TokenType::Var ==> stmt_complete(
                *old(self),
                *final(self),
                r,
                old(self).current as int,
            ),
            forall|q: int, m: Seq<char>|
                old(self).current < q < old(self).toks().len() && old(self).toks()[old(self).current as int].typ
                    != TokenType::Var && #[trigger] local_failure(old(self).toks(), old(self).current as int, q, m)
                    ==> r is Err && r->Err_0.token@ == old(self).toks()[q] && r->Err_0.message@ == m
                    && final(self).errors == old(self).errors,
        decreases old(self).tokens.len() - old(self).current, 12nat,
    {
        let ghost c0 = self.current as int;
        let ghost ts = self.toks();
        proof {
            assert forall|d: int| c0 < d < ts.len() && #[trigger] stmt_derives(ts, c0, d) implies ts[c0].typ != TokenType::EOF
                && (ts[c0].typ == TokenType::Print || ts[c0].typ == TokenType::LeftBrace ==> c0 + 1 < d) by {
                let st = choose|st: Stmt| #[trigger] stmt_parses_as(st, ts.subrange(c0, d)) && stmt_normal(st) && wf_stmt(st);
                lemma_stmt_first_token(st, ts.subrange(c0, d));
                assert(ts.subrange(c0, d)[0] == ts[c0]);
            }
        }
        if self.matches_token(TokenType::Print) {
            let r = self.print_statement();
            proof {
                assert forall|q: int, m: Seq<char>|
                    c0 < q < ts.len() && ts[c0].typ != TokenType::Var && #[trigger] local_failure(ts, c0, q, m) implies r is Err
                        && r->Err_0.token@ == ts[q] && r->Err_0.message@ == m && self.errors == old(self).errors by {
                }
                assert forall|d: int| c0 < d < ts.len() && #[trigger] stmt_derives(ts, c0, d) implies r is Ok
                    && self.current == d && self.errors@.len() == old(self).errors@.len()
                    && self.reported@.len() == old(self).reported@.len() by {
                    assert(c0 + 1 < d);
                }
            }
            r
        } else if self.matches_token(TokenType::LeftBrace) {
            let r = self.block();
            proof {
                assert forall|q: int, m: Seq<char>|
                    c0 < q < ts.len() && ts[c0].typ != TokenType::Var && #[trigger] local_failure(ts, c0, q, m) implies false by {
                }
                assert forall|d: int| c0 < d < ts.len() && #[trigger] stmt_derives(ts, c0, d) implies r is Ok
                    && self.current == d && self.errors@.len() == old(self).errors@.len()
                    && self.reported@.len() == old(self).reported@.len() by {
                    assert(c0 + 1 < d);
                }
            }
            r
        } else {
            self.expression_statement()
        }
    }

    /// Discards tokens until just after a `;` or just before a keyword that
    /// starts a statement.
    fn synchronize(&mut self)
        requires
            old(self).inv(),
        ensures
            final(self).inv(),
            final(self).tokens == old(self).tokens,
            final(self).errors == old(self).errors,
            final(self).reported == old(self).reported,
            final(self).current >= old(self).current,
            !old(self).at_end() ==> final(self).current > old(self).current,
            old(self).at_end() ==> final(self).current == old(self).current,
            !old(self).at_end() ==> sync_point(final(self).toks(), final(self).current as int) && forall|j: int|
                old(self).current < j < final(self).current ==> !sync_point(final(self).toks(), j),
    {
        if !self.is_at_end() {
            self.advance();
        }
        while !self.is_at_end()
            invariant
                self.inv(),
                self.tokens == old(self).tokens,
                self.errors == old(self).errors,
                self.reported == old(self).reported,
                self.current >= old(self).current,
                !old(self).at_end() ==> self.current > old(self).current,
                old(self).at_end() ==> self.current == old(self).current,
                forall|j: int| old(self).current < j < self.current ==> !sync_point(self.toks(), j),
            decreases self.tokens.len() - self.current,
        {
            if self.current > 0 && self.tokens[self.current - 1].typ == TokenType::SemiColon {
                return;
            }
            match self.peek_type() {
                TokenType::Class | TokenType::Fun | TokenType::Var | TokenType::For | TokenType::If
                | TokenType::While | TokenType::Print | TokenType::Return => {
                    return;
                },
                _ => {},
            }
            self.advance();
        }
    }

    /// `declaration → varDecl | statement`. On an error, records it, skips
    /// to the next statement boundary and stands a `nil` expression
    /// statement in the failed statement's place.
    #[verifier::spinoff_prover]
    fn declaration(&mut self) -> (r: (Stmt, bool))
        requires
            old(self).inv(),
        ensures
            final(self).inv(),
            final(self).tokens == old(self).tokens,
            final(self).current >= old(self).current,
            !old(self).at_end() ==> final(self).current > old(self).current,
            final(self).errors@.len() >= old(self).errors@.len(),
            final(self).reported@.len() >= old(self).reported@.len(),
            wf_stmt(r.0),
            stmt_normal(r.0),
            final(self).errors@.len() == old(self).errors@.len() ==> stmt_reads_as(
                r.0,
                final(self).toks().subrange(old(self).current as int, final(self).current as int),
            ),
            forall|d: int|
                old(self).current < d < old(self).toks().len() && #[trigger] stmt_derives(
                    old(self).toks(),
                    old(self).current as int,
                    d,
                ) ==> final(self).current == d && final(self).errors@.len() == old(self).errors@.len()
                    && final(self).reported@.len() == old(self).reported@.len(),
            old(self).errors@.len() > 0 ==> final(self).errors@[0] == old(self).errors@[0],
            forall|q: int, m: Seq<char>|
                old(self).current < q < old(self).toks().len() && #[trigger] local_failure(
                    old(self).toks(),
                    old(self).current as int,
                    q,
                    m,
                ) ==> r.1 && final(self).errors@.len() == old(self).errors@.len() + 1
                    && final(self).errors@.last().token@ == old(self).toks()[q]
                    && final(self).errors@.last().message@ == m,
            r.1 ==> final(self).errors@.len() > old(self).errors@.len() && exists|q: int|
                old(self).current <= q <= final(self).current && #[trigger] final(self).toks()[q]
                    == final(self).errors@.last().token@ && recovered_at(final(self).toks(), q, final(self).current as int),
        decreases old(self).tokens.len() - old(self).current, 13nat,
    {
        let ghost c0 = self.current as int;
        let ghost ts = self.toks();
        let is_var = self.matches_token(TokenType::Var);
        let result = if is_var {
            proof {
                assert forall|d: int| c0 < d < ts.len() && #[trigger] stmt_derives(ts, c0, d) implies c0 + 1 < d by {
                    let st = choose|st: Stmt| #[trigger] stmt_parses_as(st, ts.subrange(c0, d)) && stmt_normal(st) && wf_stmt(st);
                    lemma_stmt_first_token(st, ts.subrange(c0, d));
                    assert(ts.subrange(c0, d)[0] == ts[c0]);
                }
            }
            let r = self.var_declaration();
            proof {
                assert forall|d: int| c0 < d < ts.len() && #[trigger] stmt_derives(ts, c0, d) implies r is Ok
                    && self.current == d && self.errors@.len() == old(self).errors@.len()
                    && self.reported@.len() == old(self).reported@.len() by {
                    assert(c0 + 1 < d);
                }
            }
            r
        } else {
            proof {
                assert(ts[c0].typ != TokenType::Var);
            }
            let r = self.statement();
            proof {
                assert forall|d: int| c0 < d < ts.len() && #[trigger] stmt_derives(ts, c0, d) implies r is Ok
                    && self.current == d && self.errors@.len() == old(self).errors@.len()
                    && self.reported@.len() == old(self).reported@.len() by {
                }
            }
            r
        };
        match result {
            Ok(s) => (s, false),
            Err(e) => {
                let ghost before = self.errors@;
                let ghost q = self.current as int;
                self.errors.push(e);
                proof {
                    assert forall|i: int| 0 <= i < self.errors@.len() implies parse_message(
                        (#[trigger] self.errors@[i]).message@,
                    ) by {
                        if i < before.len() {
                            assert(self.errors@[i] == before[i]);
                        }
                    }
                }
                self.synchronize();
                proof {
                    assert(self.toks()[q] == self.errors@.last().token@);
                    assert(recovered_at(self.toks(), q, self.current as int));
                }
                (Stmt::Expression(Expr::Literal(LiteralExpr { value: Literal::Nil })), true)
            },
        }
    }

    /// Nothing has been parsed yet.
    pub closed spec fn is_fresh(&self) -> bool {
        &&& self.inv()
        &&& self.current == 0
        &&& self.errors@.len() == 0
        &&& self.reported@.len() == 0
    }

    /// `program → declaration* EOF`. Fails with the first error when any
    /// declaration had one.
    #[verifier::spinoff_prover]
    pub fn parse(&mut self) -> (r: Result<Vec<Stmt>, ParseError>)
        requires
            old(self).is_fresh(),
        ensures
            final(self).toks() == old(self).toks(),
            0 <= final(self).position() < final(self).toks().len(),
            final(self).toks()[final(self).position()].typ == TokenType::EOF,
            r is Ok ==> wf_stmts(r->Ok_0@) && stmts_normal(r->Ok_0@) && stmts_read_as(
                r->Ok_0@,
                final(self).toks().subrange(0, final(self).position()),
            ),
            forall|i: int|
                0 <= i < final(self).reported_errors().len() ==> invalid_target_report(
                    #[trigger] final(self).reported_errors()[i],
                ),
            is_program(old(self).toks()) ==> r is Ok && final(self).reported_errors().len() == 0,
            r is Ok <==> final(self).recorded_errors().len() == 0,
            forall|p: int, q: int, m: Seq<char>| #[trigger]
                fails_first_at(old(self).toks(), p, q, m) ==> r is Err && r->Err_0.token@ == old(
                    self,
                ).toks()[q] && r->Err_0.message@ == m,
            r is Err ==> r->Err_0.token@ == final(self).recorded_errors()[0].token@ && r->Err_0.message
                == final(self).recorded_errors()[0].message && parse_message(r->Err_0.message@),
    {
        let ghost ts = self.toks();
        let mut statements: Vec<Stmt> = Vec::new();
        proof {
            assert(self.toks().subrange(0, 0) =~= Seq::<TokenView>::empty());
        }
        while !self.is_at_end()
            invariant
                self.inv(),
                self.tokens == old(self).tokens,
                wf_stmts(statements@),
                stmts_normal(statements@),
                self.errors@.len() == 0 ==> stmts_read_as(statements@, self.toks().subrange(0, self.current as int)),
                ts == self.toks(),
                is_program(ts) ==> stmts_derive(ts, self.current as int, ts.len() - 1) && self.errors@.len() == 0
                    && self.reported@.len() == 0,
                forall|p: int, q: int, m: Seq<char>| #[trigger]
                    fails_first_at(ts, p, q, m) ==> (self.errors@.len() == 0 && self.current <= p
                        && stmts_derive(ts, self.current as int, p)) || (self.errors@.len() > 0
                        && self.errors@[0].token@ == ts[q] && self.errors@[0].message@ == m),
            decreases self.tokens.len() - self.current,
        {
            let ghost c1 = self.current as int;
            let ghost before = statements@;
            let ghost e_before = self.errors@;
            proof {
                assert forall|p: int, q: int, m: Seq<char>| #[trigger]
                    fails_first_at(ts, p, q, m) && self.errors@.len() == 0 && c1 < p implies exists|k: int|
                    c1 < k <= p && #[trigger] stmt_derives(ts, c1, k) && stmts_derive(ts, k, p) by {
                }
            }
            proof {
                if is_program(ts) {
                    assert(c1 != ts.len() - 1);
                    let k = choose|k: int| c1 < k <= ts.len() - 1 && #[trigger] stmt_derives(ts, c1, k) && stmts_derive(ts, k, ts.len() - 1);
                }
            }
            let (s, _) = self.declaration();
            proof {
                assert forall|p: int, q: int, m: Seq<char>| #[trigger]
                    fails_first_at(ts, p, q, m) implies (self.errors@.len() == 0 && self.current <= p
                        && stmts_derive(ts, self.current as int, p)) || (self.errors@.len() > 0
                        && self.errors@[0].token@ == ts[q] && self.errors@[0].message@ == m) by {
                    if e_before.len() == 0 && c1 < p {
                        let k = choose|k: int| c1 < k <= p && #[trigger] stmt_derives(ts, c1, k) && stmts_derive(ts, k, p);
                        assert(k < ts.len());
                    } else if e_before.len() == 0 && c1 == p {
                        assert(local_failure(ts, c1, q, m));
                        assert(self.errors@.len() == 1);
                        assert(self.errors@[0] == self.errors@.last());
                    }
                }
                lemma_wf_stmts_push(before, s);
                assert(before.push(s).drop_last() =~= before);
                if self.errors@.len() == 0 {
                    let ts = self.toks().subrange(0, self.current as int);
                    assert(ts.subrange(c1, ts.len() as int) =~= self.toks().subrange(c1, self.current as int));
                    assert(ts.subrange(0, c1) =~= self.toks().subrange(0, c1));
                    assert(stmts_read_as(before.push(s), ts));
                }
            }
            statements.push(s);
        }
        proof {
            assert forall|p: int, q: int, m: Seq<char>| #[trigger]
                fails_first_at(ts, p, q, m) implies self.errors@.len() > 0 && self.errors@[0].token@ == ts[q]
                    && self.errors@[0].message@ == m by {
                if self.errors@.len() == 0 {
                    assert(self.current <= p);
                    assert(self.current < ts.len() - 1);
                    assert(ts[self.current as int].typ != TokenType::EOF);
                }
            }
        }
        if self.errors.len() > 0 {
            Err(self.errors[0].duplicate())
        } else {
            Ok(statements)
        }
    }
}

} // verus!
