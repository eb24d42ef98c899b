//! Syntax tree of the .tape language. Each call expression carries the
//! byte offset of its opening paren in the source, so site ids stay stable.
use vstd::prelude::*;

verus! {

#[derive(Debug)]
pub enum Expr {
    Nil,
    Bool(bool),
    Int(i64),
    Str(String),
    Ident(String),
    /// the callee's name (no first-class functions), the arguments, and the
    /// byte offset of the call's opening paren: that offset is what gets
    /// hashed into the site id.
    Call { callee: String, args: Vec<Expr>, off: usize },
    Binary { op: BinOp, lhs: Box<Expr>, rhs: Box<Expr> },
    Unary { op: UnOp, rhs: Box<Expr> },
    Index { target: Box<Expr>, index: Box<Expr> },
}

#[derive(Debug, Clone, Copy, PartialEq, Eq, Structural)]
pub enum BinOp {
    Add,
    Sub,
    Mul,
    Div,
    Mod,
    Eq,
    Neq,
    Lt,
    Le,
    Gt,
    Ge,
    And,
    Or,
}

#[derive(Debug, Clone, Copy, PartialEq, Eq, Structural)]
pub enum UnOp {
    Neg,
    Not,
}

#[derive(Debug)]
pub enum Stmt {
    Let(String, Expr),
    If(Expr, Vec<Stmt>, Option<Vec<Stmt>>),
    While(Expr, Vec<Stmt>),
    For(String, Expr, Expr, Vec<Stmt>),
    Return(Option<Expr>),
    Expr(Expr),
}

#[derive(Debug)]
pub struct Program {
    pub stmts: Vec<Stmt>,
}

/// An expression as the specs see it.
#[allow(inconsistent_fields)]
pub enum ExprV {
    Nil,
    Bool(bool),
    Int(i64),
    Str(Seq<char>),
    Ident(Seq<char>),
    Call { callee: Seq<char>, args: Seq<ExprV>, off: int },
    Binary { op: BinOp, lhs: Box<ExprV>, rhs: Box<ExprV> },
    Unary { op: UnOp, rhs: Box<ExprV> },
    Index { target: Box<ExprV>, index: Box<ExprV> },
}

/// A statement as the specs see it.
pub enum StmtV {
    Let(Seq<char>, ExprV),
    If(ExprV, Seq<StmtV>, Option<Seq<StmtV>>),
    While(ExprV, Seq<StmtV>),
    For(Seq<char>, ExprV, ExprV, Seq<StmtV>),
    Return(Option<ExprV>),
    Expr(ExprV),
}

pub open spec fn expr_v(e: Expr) -> ExprV
    decreases e, 1nat,
{
    match e {
        Expr::Nil => ExprV::Nil,
        Expr::Bool(b) => ExprV::Bool(b),
        Expr::Int(n) => ExprV::Int(n),
        Expr::Str(s) => ExprV::Str(s@),
        Expr::Ident(s) => ExprV::Ident(s@),
        Expr::Call { callee, args, off } => ExprV::Call {
            callee: callee@,
            args: exprs_v(args@),
            off: off as int,
        },
        Expr::Binary { op, lhs, rhs } => ExprV::Binary {
            op,
            lhs: Box::new(expr_v(*lhs)),
            rhs: Box::new(expr_v(*rhs)),
        },
        Expr::Unary { op, rhs } => ExprV::Unary { op, rhs: Box::new(expr_v(*rhs)) },
        Expr::Index { target, index } => ExprV::Index {
            target: Box::new(expr_v(*target)),
            index: Box::new(expr_v(*index)),
        },
    }
}

pub open spec fn exprs_v(s: Seq<Expr>) -> Seq<ExprV>
    decreases s, 0nat,
{
    if s.len() == 0 {
        Seq::empty()
    } else {
        exprs_v(s.drop_last()).push(expr_v(s.last()))
    }
}

pub open spec fn stmt_v(s: Stmt) -> StmtV
    decreases s, 1nat,
{
    match s {
        Stmt::Let(n, e) => StmtV::Let(n@, expr_v(e)),
        Stmt::If(c, t, el) => StmtV::If(
            expr_v(c),
            stmts_v(t@),
            match el {
                Some(b) => Some(stmts_v(b@)),
                None => None,
            },
        ),
        Stmt::While(c, b) => StmtV::While(expr_v(c), stmts_v(b@)),
        Stmt::For(n, lo, hi, b) => StmtV::For(n@, expr_v(lo), expr_v(hi), stmts_v(b@)),
        Stmt::Return(e) => StmtV::Return(
            match e {
                Some(x) => Some(expr_v(x)),
                None => None,
            },
        ),
        Stmt::Expr(e) => StmtV::Expr(expr_v(e)),
    }
}

pub open spec fn stmts_v(s: Seq<Stmt>) -> Seq<StmtV>
    decreases s, 0nat,
{
    if s.len() == 0 {
        Seq::empty()
    } else {
        stmts_v(s.drop_last()).push(stmt_v(s.last()))
    }
}

impl View for Expr {
    type V = ExprV;

    open spec fn view(&self) -> ExprV {
        expr_v(*self)
    }
}

impl View for Stmt {
    type V = StmtV;

    open spec fn view(&self) -> StmtV {
        stmt_v(*self)
    }
}

pub proof fn lemma_exprs_push(s: Seq<Expr>, e: Expr)
    ensures
        exprs_v(s.push(e)) == exprs_v(s).push(expr_v(e)),
        exprs_v(s.push(e)).len() == s.len() + 1,
{
    assert(s.push(e).drop_last() =~= s);
    lemma_exprs_len(s);
}

pub proof fn lemma_exprs_len(s: Seq<Expr>)
    ensures
        exprs_v(s).len() == s.len(),
    decreases s.len(),
{
    if s.len() > 0 {
        lemma_exprs_len(s.drop_last());
    }
}

pub proof fn lemma_stmts_push(s: Seq<Stmt>, e: Stmt)
    ensures
        stmts_v(s.push(e)) == stmts_v(s).push(stmt_v(e)),
{
    assert(s.push(e).drop_last() =~= s);
}

pub proof fn lemma_exprs_index(s: Seq<Expr>, i: int)
    requires
        0 <= i < s.len(),
    ensures
        exprs_v(s)[i] == expr_v(s[i]),
    decreases s.len(),
{
    lemma_exprs_len(s.drop_last());
    if i < s.len() - 1 {
        lemma_exprs_index(s.drop_last(), i);
    }
}

pub proof fn lemma_stmts_len(s: Seq<Stmt>)
    ensures
        stmts_v(s).len() == s.len(),
    decreases s.len(),
{
    if s.len() > 0 {
        lemma_stmts_len(s.drop_last());
    }
}

pub proof fn lemma_stmts_index(s: Seq<Stmt>, i: int)
    requires
        0 <= i < s.len(),
    ensures
        stmts_v(s)[i] == stmt_v(s[i]),
    decreases s.len(),
{
    lemma_stmts_len(s.drop_last());
    if i < s.len() - 1 {
        lemma_stmts_index(s.drop_last(), i);
    }
}

} // verus!
