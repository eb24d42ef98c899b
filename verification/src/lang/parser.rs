//! Recursive-descent parser. There is no error recovery: the first parse
//! error aborts, and its message names the byte offset where things went
//! wrong.
use crate::inspect::str_eq;
use crate::lang::ast::{
    lemma_exprs_len, lemma_exprs_push, lemma_stmts_push, stmts_v, BinOp, Expr, ExprV, Program,
    Stmt, StmtV, UnOp,
};
use crate::lang::lexer::{tokens_view, Tok, TokV, Token, TokenV};
use crate::text::{dec_int, debug_str, push_int, push_str, str_chars, str_debug, string_of};
use vstd::prelude::*;

verus! {

#[derive(Debug)]
pub struct ParseErr {
    pub off: usize,
    pub msg: String,
}

/// A parse of some tokens from a position: the value and the position
/// after it, or the error's offset and message.
pub type PRes<V> = Result<(V, int), (int, Seq<char>)>;

/// the variant's position in the declaration.
pub open spec fn tok_index(t: TokV) -> nat {
    match t {
        TokV::Int(_) => 0,
        TokV::Str(_) => 1,
        TokV::Ident(_) => 2,
        TokV::Let => 3,
        TokV::If => 4,
        TokV::Else => 5,
        TokV::While => 6,
        TokV::For => 7,
        TokV::In => 8,
        TokV::Return => 9,
        TokV::True => 10,
        TokV::False => 11,
        TokV::Nil => 12,
        TokV::LParen => 13,
        TokV::RParen => 14,
        TokV::LBrace => 15,
        TokV::RBrace => 16,
        TokV::LBracket => 17,
        TokV::RBracket => 18,
        TokV::Comma => 19,
        TokV::Semicolon => 20,
        TokV::Assign => 21,
        TokV::DotDot => 22,
        TokV::Plus => 23,
        TokV::Minus => 24,
        TokV::Star => 25,
        TokV::Slash => 26,
        TokV::Percent => 27,
        TokV::Eq => 28,
        TokV::Neq => 29,
        TokV::Lt => 30,
        TokV::Le => 31,
        TokV::Gt => 32,
        TokV::Ge => 33,
        TokV::AndAnd => 34,
        TokV::OrOr => 35,
        TokV::Bang => 36,
    }
}

fn tok_index_of(t: &Tok) -> (i: u8)
    ensures
        i == tok_index(t@),
{
    match t {
        Tok::Int(_) => 0,
        Tok::Str(_) => 1,
        Tok::Ident(_) => 2,
        Tok::Let => 3,
        Tok::If => 4,
        Tok::Else => 5,
        Tok::While => 6,
        Tok::For => 7,
        Tok::In => 8,
        Tok::Return => 9,
        Tok::True => 10,
        Tok::False => 11,
        Tok::Nil => 12,
        Tok::LParen => 13,
        Tok::RParen => 14,
        Tok::LBrace => 15,
        Tok::RBrace => 16,
        Tok::LBracket => 17,
        Tok::RBracket => 18,
        Tok::Comma => 19,
        Tok::Semicolon => 20,
        Tok::Assign => 21,
        Tok::DotDot => 22,
        Tok::Plus => 23,
        Tok::Minus => 24,
        Tok::Star => 25,
        Tok::Slash => 26,
        Tok::Percent => 27,
        Tok::Eq => 28,
        Tok::Neq => 29,
        Tok::Lt => 30,
        Tok::Le => 31,
        Tok::Gt => 32,
        Tok::Ge => 33,
        Tok::AndAnd => 34,
        Tok::OrOr => 35,
        Tok::Bang => 36,
    }
}

/// What `{:?}` prints for a token.
pub open spec fn tok_dbg(t: TokV) -> Seq<char> {
    match t {
        TokV::Int(n) => "Int("@ + dec_int(n as int) + ")"@,
        TokV::Str(s) => "Str("@ + str_debug(s) + ")"@,
        TokV::Ident(s) => "Ident("@ + str_debug(s) + ")"@,
        TokV::Let => "Let"@,
        TokV::If => "If"@,
        TokV::Else => "Else"@,
        TokV::While => "While"@,
        TokV::For => "For"@,
        TokV::In => "In"@,
        TokV::Return => "Return"@,
        TokV::True => "True"@,
        TokV::False => "False"@,
        TokV::Nil => "Nil"@,
        TokV::LParen => "LParen"@,
        TokV::RParen => "RParen"@,
        TokV::LBrace => "LBrace"@,
        TokV::RBrace => "RBrace"@,
        TokV::LBracket => "LBracket"@,
        TokV::RBracket => "RBracket"@,
        TokV::Comma => "Comma"@,
        TokV::Semicolon => "Semicolon"@,
        TokV::Assign => "Assign"@,
        TokV::DotDot => "DotDot"@,
        TokV::Plus => "Plus"@,
        TokV::Minus => "Minus"@,
        TokV::Star => "Star"@,
        TokV::Slash => "Slash"@,
        TokV::Percent => "Percent"@,
        TokV::Eq => "Eq"@,
        TokV::Neq => "Neq"@,
        TokV::Lt => "Lt"@,
        TokV::Le => "Le"@,
        TokV::Gt => "Gt"@,
        TokV::Ge => "Ge"@,
        TokV::AndAnd => "AndAnd"@,
        TokV::OrOr => "OrOr"@,
        TokV::Bang => "Bang"@,
    }
}

fn push_tok_debug(out: &mut Vec<char>, t: &Tok)
    ensures
        final(out)@ == old(out)@ + tok_dbg(t@),
{
    match t {
        Tok::Int(n) => {
            push_str(out, "Int(");
            push_int(out, *n);
            push_str(out, ")");
        },
        Tok::Str(s) => {
            push_str(out, "Str(");
            let d = debug_str(s.as_str());
            push_str(out, d.as_str());
            push_str(out, ")");
        },
        Tok::Ident(s) => {
            push_str(out, "Ident(");
            let d = debug_str(s.as_str());
            push_str(out, d.as_str());
            push_str(out, ")");
        },
        Tok::Let => push_str(out, "Let"),
        Tok::If => push_str(out, "If"),
        Tok::Else => push_str(out, "Else"),
        Tok::While => push_str(out, "While"),
        Tok::For => push_str(out, "For"),
        Tok::In => push_str(out, "In"),
        Tok::Return => push_str(out, "Return"),
        Tok::True => push_str(out, "True"),
        Tok::False => push_str(out, "False"),
        Tok::Nil => push_str(out, "Nil"),
        Tok::LParen => push_str(out, "LParen"),
        Tok::RParen => push_str(out, "RParen"),
        Tok::LBrace => push_str(out, "LBrace"),
        Tok::RBrace => push_str(out, "RBrace"),
        Tok::LBracket => push_str(out, "LBracket"),
        Tok::RBracket => push_str(out, "RBracket"),
        Tok::Comma => push_str(out, "Comma"),
        Tok::Semicolon => push_str(out, "Semicolon"),
        Tok::Assign => push_str(out, "Assign"),
        Tok::DotDot => push_str(out, "DotDot"),
        Tok::Plus => push_str(out, "Plus"),
        Tok::Minus => push_str(out, "Minus"),
        Tok::Star => push_str(out, "Star"),
        Tok::Slash => push_str(out, "Slash"),
        Tok::Percent => push_str(out, "Percent"),
        Tok::Eq => push_str(out, "Eq"),
        Tok::Neq => push_str(out, "Neq"),
        Tok::Lt => push_str(out, "Lt"),
        Tok::Le => push_str(out, "Le"),
        Tok::Gt => push_str(out, "Gt"),
        Tok::Ge => push_str(out, "Ge"),
        Tok::AndAnd => push_str(out, "AndAnd"),
        Tok::OrOr => push_str(out, "OrOr"),
        Tok::Bang => push_str(out, "Bang"),
    }
    assert(final(out)@ =~= old(out)@ + tok_dbg(t@));
}


fn same_tok(a: &Tok, b: &Tok) -> (r: bool)
    ensures
        r == (a@ == b@),
{
    match (a, b) {
        (Tok::Int(x), Tok::Int(y)) => *x == *y,
        (Tok::Str(x), Tok::Str(y)) => str_eq(x.as_str(), y.as_str()),
        (Tok::Ident(x), Tok::Ident(y)) => str_eq(x.as_str(), y.as_str()),
        _ => {
            let i = tok_index_of(a);
            let j = tok_index_of(b);
            i == j && i >= 3
        },
    }
}

pub open spec fn tok_is(ts: Seq<TokenV>, pos: int, t: TokV) -> bool {
    0 <= pos < ts.len() && ts[pos].tok == t
}

/// The position after the wanted token, or the error `expect` reports.
pub open spec fn expect_at(ts: Seq<TokenV>, pos: int, want: TokV) -> Result<int, (int, Seq<char>)> {
    if 0 <= pos < ts.len() {
        if ts[pos].tok == want {
            Ok(pos + 1)
        } else {
            Err((ts[pos].off, "expected "@ + tok_dbg(want) + ", found "@ + tok_dbg(ts[pos].tok)))
        }
    } else {
        Err((0, "expected "@ + tok_dbg(want) + ", found end of input"@))
    }
}

/// The binary operator a token stands for at a precedence level, lowest
/// (6: `||`) to highest (1: `* / %`).
pub open spec fn bin_op(level: nat, t: TokV) -> Option<BinOp> {
    if level >= 6 {
        if t == TokV::OrOr { Some(BinOp::Or) } else { None }
    } else if level == 5 {
        if t == TokV::AndAnd { Some(BinOp::And) } else { None }
    } else if level == 4 {
        if t == TokV::Eq {
            Some(BinOp::Eq)
        } else if t == TokV::Neq {
            Some(BinOp::Neq)
        } else {
            None
        }
    } else if level == 3 {
        if t == TokV::Lt {
            Some(BinOp::Lt)
        } else if t == TokV::Le {
            Some(BinOp::Le)
        } else if t == TokV::Gt {
            Some(BinOp::Gt)
        } else if t == TokV::Ge {
            Some(BinOp::Ge)
        } else {
            None
        }
    } else if level == 2 {
        if t == TokV::Plus {
            Some(BinOp::Add)
        } else if t == TokV::Minus {
            Some(BinOp::Sub)
        } else {
            None
        }
    } else {
        if t == TokV::Star {
            Some(BinOp::Mul)
        } else if t == TokV::Slash {
            Some(BinOp::Div)
        } else if t == TokV::Percent {
            Some(BinOp::Mod)
        } else {
            None
        }
    }
}

pub open spec fn gone(pos: int) -> (int, Seq<char>) {
    (pos, Seq::empty())
}

/// An expression: `||` binds loosest.
pub open spec fn p_expr(ts: Seq<TokenV>, pos: int) -> PRes<ExprV>
    decreases ts.len() - pos, 10nat,
{
    p_bin(ts, pos, 6)
}

/// A left-associative chain of operators of one level, over operands of
/// the next tighter level.
pub open spec fn p_bin(ts: Seq<TokenV>, pos: int, level: nat) -> PRes<ExprV>
    decreases ts.len() - pos, level + 3,
{
    let first = if level <= 1 {
        p_unary(ts, pos)
    } else {
        p_bin(ts, pos, (level - 1) as nat)
    };
    match first {
        Ok((l, p2)) => if pos < p2 <= ts.len() {
            p_bin_loop(ts, p2, level, l)
        } else {
            Err(gone(pos))
        },
        Err(e) => Err(e),
    }
}

pub open spec fn p_bin_loop(ts: Seq<TokenV>, pos: int, level: nat, lhs: ExprV) -> PRes<ExprV>
    decreases ts.len() - pos, 0nat,
{
    if 0 <= pos < ts.len() && bin_op(level, ts[pos].tok) is Some {
        let op = bin_op(level, ts[pos].tok)->0;
        let r = if level <= 1 {
            p_unary(ts, pos + 1)
        } else {
            p_bin(ts, pos + 1, (level - 1) as nat)
        };
        match r {
            Ok((rhs, p3)) => if pos + 1 < p3 <= ts.len() {
                p_bin_loop(
                    ts,
                    p3,
                    level,
                    ExprV::Binary { op, lhs: Box::new(lhs), rhs: Box::new(rhs) },
                )
            } else {
                Err(gone(pos))
            },
            Err(e) => Err(e),
        }
    } else {
        Ok((lhs, pos))
    }
}

pub open spec fn p_unary(ts: Seq<TokenV>, pos: int) -> PRes<ExprV>
    decreases ts.len() - pos, 2nat,
{
    if tok_is(ts, pos, TokV::Bang) {
        match p_unary(ts, pos + 1) {
            Ok((r, p2)) => Ok((ExprV::Unary { op: UnOp::Not, rhs: Box::new(r) }, p2)),
            Err(e) => Err(e),
        }
    } else if tok_is(ts, pos, TokV::Minus) {
        match p_unary(ts, pos + 1) {
            Ok((r, p2)) => Ok((ExprV::Unary { op: UnOp::Neg, rhs: Box::new(r) }, p2)),
            Err(e) => Err(e),
        }
    } else {
        p_postfix(ts, pos)
    }
}

pub open spec fn p_postfix(ts: Seq<TokenV>, pos: int) -> PRes<ExprV>
    decreases ts.len() - pos, 1nat,
{
    match p_primary(ts, pos) {
        Ok((e, p2)) => if pos < p2 <= ts.len() {
            p_post_loop(ts, p2, e)
        } else {
            Err(gone(pos))
        },
        Err(x) => Err(x),
    }
}

pub open spec fn p_post_loop(ts: Seq<TokenV>, pos: int, e: ExprV) -> PRes<ExprV>
    decreases ts.len() - pos, 0nat,
{
    if tok_is(ts, pos, TokV::LBracket) {
        match p_expr(ts, pos + 1) {
            Ok((idx, p2)) => if pos + 1 < p2 <= ts.len() {
                match expect_at(ts, p2, TokV::RBracket) {
                    Ok(p3) => p_post_loop(
                        ts,
                        p3,
                        ExprV::Index { target: Box::new(e), index: Box::new(idx) },
                    ),
                    Err(x) => Err(x),
                }
            } else {
                Err(gone(pos))
            },
            Err(x) => Err(x),
        }
    } else {
        Ok((e, pos))
    }
}

pub open spec fn p_primary(ts: Seq<TokenV>, pos: int) -> PRes<ExprV>
    decreases ts.len() - pos, 0nat,
{
    if !(0 <= pos < ts.len()) {
        Err((0, "unexpected end of input"@))
    } else {
        let t = ts[pos];
        match t.tok {
            TokV::Nil => Ok((ExprV::Nil, pos + 1)),
            TokV::True => Ok((ExprV::Bool(true), pos + 1)),
            TokV::False => Ok((ExprV::Bool(false), pos + 1)),
            TokV::Int(n) => Ok((ExprV::Int(n), pos + 1)),
            TokV::Str(s) => Ok((ExprV::Str(s), pos + 1)),
            TokV::LParen => match p_expr(ts, pos + 1) {
                Ok((e, p2)) => if pos + 1 < p2 <= ts.len() {
                    match expect_at(ts, p2, TokV::RParen) {
                        Ok(p3) => Ok((e, p3)),
                        Err(x) => Err(x),
                    }
                } else {
                    Err(gone(pos))
                },
                Err(x) => Err(x),
            },
            TokV::Ident(name) => if tok_is(ts, pos + 1, TokV::LParen) {
                let off = ts[pos + 1].off;
                if tok_is(ts, pos + 2, TokV::RParen) {
                    Ok((ExprV::Call { callee: name, args: Seq::empty(), off }, pos + 3))
                } else {
                    match p_args(ts, pos + 2, Seq::empty()) {
                        Ok((args, p3)) => match expect_at(ts, p3, TokV::RParen) {
                            Ok(p4) => Ok((ExprV::Call { callee: name, args, off }, p4)),
                            Err(x) => Err(x),
                        },
                        Err(x) => Err(x),
                    }
                }
            } else {
                Ok((ExprV::Ident(name), pos + 1))
            },
            other => Err((t.off, "unexpected token "@ + tok_dbg(other))),
        }
    }
}

/// Comma-separated call arguments, appended to `acc`.
pub open spec fn p_args(ts: Seq<TokenV>, pos: int, acc: Seq<ExprV>) -> PRes<Seq<ExprV>>
    decreases ts.len() - pos, 11nat,
{
    match p_expr(ts, pos) {
        Ok((a, p2)) => if pos < p2 <= ts.len() {
            if tok_is(ts, p2, TokV::Comma) {
                p_args(ts, p2 + 1, acc.push(a))
            } else {
                Ok((acc.push(a), p2))
            }
        } else {
            Err(gone(pos))
        },
        Err(x) => Err(x),
    }
}

pub open spec fn ident_at(ts: Seq<TokenV>, pos: int) -> Option<Seq<char>> {
    if 0 <= pos < ts.len() {
        match ts[pos].tok {
            TokV::Ident(n) => Some(n),
            _ => None,
        }
    } else {
        None
    }
}

pub open spec fn off_or_zero(ts: Seq<TokenV>, pos: int) -> int {
    if 0 <= pos < ts.len() {
        ts[pos].off
    } else {
        0
    }
}

/// One statement.
pub open spec fn p_stmt(ts: Seq<TokenV>, pos: int) -> PRes<StmtV>
    decreases ts.len() - pos, 3nat,
{
    if !(0 <= pos < ts.len()) {
        Err((0, "unexpected end"@))
    } else {
        match ts[pos].tok {
            TokV::Let => p_let(ts, pos),
            TokV::If => p_if(ts, pos),
            TokV::While => p_while(ts, pos),
            TokV::For => p_for(ts, pos),
            TokV::Return => p_return(ts, pos),
            _ => match p_expr(ts, pos) {
                Ok((e, p2)) => match expect_at(ts, p2, TokV::Semicolon) {
                    Ok(p3) => Ok((StmtV::Expr(e), p3)),
                    Err(x) => Err(x),
                },
                Err(x) => Err(x),
            },
        }
    }
}

pub open spec fn p_let(ts: Seq<TokenV>, pos: int) -> PRes<StmtV>
    decreases ts.len() - pos, 2nat,
{
    match expect_at(ts, pos, TokV::Let) {
        Ok(p1) => match ident_at(ts, p1) {
            Some(n) => match expect_at(ts, p1 + 1, TokV::Assign) {
                Ok(p2) => match p_expr(ts, p2) {
                    Ok((e, p3)) => match expect_at(ts, p3, TokV::Semicolon) {
                        Ok(p4) => Ok((StmtV::Let(n, e), p4)),
                        Err(x) => Err(x),
                    },
                    Err(x) => Err(x),
                },
                Err(x) => Err(x),
            },
            None => Err((off_or_zero(ts, p1), "expected identifier after "@ + "let"@)),
        },
        Err(x) => Err(x),
    }
}

pub open spec fn p_if(ts: Seq<TokenV>, pos: int) -> PRes<StmtV>
    decreases ts.len() - pos, 2nat,
{
    match expect_at(ts, pos, TokV::If) {
        Ok(p1) => match p_expr(ts, p1) {
            Ok((c, p2)) => if pos < p2 <= ts.len() {
                match p_block(ts, p2) {
                    Ok((tb, p3)) => if pos < p3 <= ts.len() {
                        if tok_is(ts, p3, TokV::Else) {
                            match p_block(ts, p3 + 1) {
                                Ok((eb, p4)) => Ok((StmtV::If(c, tb, Some(eb)), p4)),
                                Err(x) => Err(x),
                            }
                        } else {
                            Ok((StmtV::If(c, tb, None), p3))
                        }
                    } else {
                        Err(gone(pos))
                    },
                    Err(x) => Err(x),
                }
            } else {
                Err(gone(pos))
            },
            Err(x) => Err(x),
        },
        Err(x) => Err(x),
    }
}

pub open spec fn p_while(ts: Seq<TokenV>, pos: int) -> PRes<StmtV>
    decreases ts.len() - pos, 2nat,
{
    match expect_at(ts, pos, TokV::While) {
        Ok(p1) => match p_expr(ts, p1) {
            Ok((c, p2)) => if pos < p2 <= ts.len() {
                match p_block(ts, p2) {
                    Ok((b, p3)) => Ok((StmtV::While(c, b), p3)),
                    Err(x) => Err(x),
                }
            } else {
                Err(gone(pos))
            },
            Err(x) => Err(x),
        },
        Err(x) => Err(x),
    }
}

pub open spec fn p_for(ts: Seq<TokenV>, pos: int) -> PRes<StmtV>
    decreases ts.len() - pos, 2nat,
{
    match expect_at(ts, pos, TokV::For) {
        Ok(p1) => match ident_at(ts, p1) {
            Some(n) => match expect_at(ts, p1 + 1, TokV::In) {
                Ok(p2) => match p_expr(ts, p2) {
                    Ok((lo, p3)) => match expect_at(ts, p3, TokV::DotDot) {
                        Ok(p4) => match p_expr(ts, p4) {
                            Ok((hi, p5)) => if pos < p5 <= ts.len() {
                                match p_block(ts, p5) {
                                    Ok((b, p6)) => Ok((StmtV::For(n, lo, hi, b), p6)),
                                    Err(x) => Err(x),
                                }
                            } else {
                                Err(gone(pos))
                            },
                            Err(x) => Err(x),
                        },
                        Err(x) => Err(x),
                    },
                    Err(x) => Err(x),
                },
                Err(x) => Err(x),
            },
            None => Err((off_or_zero(ts, p1), "expected identifier after "@ + "for"@)),
        },
        Err(x) => Err(x),
    }
}

pub open spec fn p_return(ts: Seq<TokenV>, pos: int) -> PRes<StmtV>
    decreases ts.len() - pos, 2nat,
{
    match expect_at(ts, pos, TokV::Return) {
        Ok(p1) => if tok_is(ts, p1, TokV::Semicolon) {
            Ok((StmtV::Return(None), p1 + 1))
        } else {
            match p_expr(ts, p1) {
                Ok((e, p2)) => match expect_at(ts, p2, TokV::Semicolon) {
                    Ok(p3) => Ok((StmtV::Return(Some(e)), p3)),
                    Err(x) => Err(x),
                },
                Err(x) => Err(x),
            }
        },
        Err(x) => Err(x),
    }
}

/// `{ statements }`.
pub open spec fn p_block(ts: Seq<TokenV>, pos: int) -> PRes<Seq<StmtV>>
    decreases ts.len() - pos, 2nat,
{
    match expect_at(ts, pos, TokV::LBrace) {
        Ok(p1) => p_block_loop(ts, p1, Seq::empty()),
        Err(x) => Err(x),
    }
}

pub open spec fn p_block_loop(ts: Seq<TokenV>, pos: int, acc: Seq<StmtV>) -> PRes<Seq<StmtV>>
    decreases ts.len() - pos, 4nat,
{
    if tok_is(ts, pos, TokV::RBrace) {
        Ok((acc, pos + 1))
    } else if !(0 <= pos < ts.len()) {
        Err((0, "unterminated block"@))
    } else {
        match p_stmt(ts, pos) {
            Ok((st, p2)) => if pos < p2 <= ts.len() {
                p_block_loop(ts, p2, acc.push(st))
            } else {
                Err(gone(pos))
            },
            Err(x) => Err(x),
        }
    }
}

/// Statements until the tokens run out.
#[verifier::opaque]
pub open spec fn p_program(ts: Seq<TokenV>, pos: int, acc: Seq<StmtV>) -> PRes<Seq<StmtV>>
    decreases ts.len() - pos,
{
    if !(0 <= pos < ts.len()) {
        Ok((acc, pos))
    } else {
        match p_stmt(ts, pos) {
            Ok((st, p2)) => if pos < p2 <= ts.len() {
                p_program(ts, p2, acc.push(st))
            } else {
                Err(gone(pos))
            },
            Err(x) => Err(x),
        }
    }
}

proof fn lemma_program_step(ts: Seq<TokenV>, pos: int, acc: Seq<StmtV>)
    requires
        0 <= pos < ts.len(),
    ensures
        match p_stmt(ts, pos) {
            Ok((st, p2)) => pos < p2 <= ts.len() ==> p_program(ts, pos, acc) == p_program(ts, p2, acc.push(st)),
            Err(x) => p_program(ts, pos, acc) == Err::<(Seq<StmtV>, int), (int, Seq<char>)>(x),
        },
{
    reveal(p_program);
}

proof fn lemma_program_end(ts: Seq<TokenV>, pos: int, acc: Seq<StmtV>)
    requires
        pos >= ts.len(),
    ensures
        p_program(ts, pos, acc) == Ok::<(Seq<StmtV>, int), (int, Seq<char>)>((acc, pos)),
{
    reveal(p_program);
}

/// The program the tokens spell, or the first parse error.
pub open spec fn parse_spec(ts: Seq<TokenV>) -> Result<Seq<StmtV>, (int, Seq<char>)> {
    match p_program(ts, 0, Seq::empty()) {
        Ok((stmts, _)) => Ok(stmts),
        Err(x) => Err(x),
    }
}

pub open spec fn stmt_parsed(spec: PRes<StmtV>, r: Result<Stmt, ParseErr>, p1: int) -> bool {
    match spec {
        Ok((e, p)) => r matches Ok(x) && x@ == e && p1 == p,
        Err((o, m)) => r matches Err(x) && x.off == o && x.msg@ == m,
    }
}

pub open spec fn block_parsed(spec: PRes<Seq<StmtV>>, r: Result<Vec<Stmt>, ParseErr>, p1: int) -> bool {
    match spec {
        Ok((e, p)) => r matches Ok(x) && crate::lang::ast::stmts_v(x@) == e && p1 == p,
        Err((o, m)) => r matches Err(x) && x.off == o && x.msg@ == m,
    }
}

/// The parser's outcome matches the spec parse: the same expression and
/// end position, or the same error.
pub open spec fn expr_parsed(spec: PRes<ExprV>, r: Result<Expr, ParseErr>, p1: int) -> bool {
    match spec {
        Ok((e, p)) => r matches Ok(x) && x@ == e && p1 == p,
        Err((o, m)) => r matches Err(x) && x.off == o && x.msg@ == m,
    }
}

pub struct Parser {
    toks: Vec<Token>,
    pos: usize,
}

impl Parser {
    #[verifier::type_invariant]
    spec fn inv(&self) -> bool {
        self.pos <= self.toks@.len() <= usize::MAX
    }

    /// the tokens being parsed.
    pub closed spec fn tokens(&self) -> Seq<TokenV> {
        tokens_view(self.toks@)
    }

    /// the position of the next token to parse.
    pub closed spec fn cursor(&self) -> int {
        self.pos as int
    }

    pub fn new(toks: Vec<Token>) -> (p: Self)
        ensures
            p.tokens() == tokens_view(toks@),
            p.cursor() == 0,
    {
        let _n = toks.len();
        Parser { toks, pos: 0 }
    }

    /// Is the next token `t`?
    fn at(&self, t: &Tok) -> (b: bool)
        ensures
            b == tok_is(self.tokens(), self.cursor(), t@),
    {
        if self.pos < self.toks.len() {
            same_tok(&self.toks[self.pos].tok, t)
        } else {
            false
        }
    }

    fn expect(&mut self, want: &Tok) -> (r: Result<(), ParseErr>)
        ensures
            final(self).tokens() == old(self).tokens(),
            match expect_at(old(self).tokens(), old(self).cursor(), want@) {
                Ok(p) => r is Ok && final(self).cursor() == p,
                Err((o, m)) => r matches Err(x) && x.off == o && x.msg@ == m,
            },
    {
        proof { use_type_invariant(&*self); }
        if self.pos < self.toks.len() {
            if same_tok(&self.toks[self.pos].tok, want) {
                self.pos += 1;
                Ok(())
            } else {
                let mut m = str_chars("expected ");
                push_tok_debug(&mut m, want);
                push_str(&mut m, ", found ");
                push_tok_debug(&mut m, &self.toks[self.pos].tok);
                Err(ParseErr { off: self.toks[self.pos].off, msg: string_of(m.as_slice()) })
            }
        } else {
            let mut m = str_chars("expected ");
            push_tok_debug(&mut m, want);
            push_str(&mut m, ", found end of input");
            Err(ParseErr { off: 0, msg: string_of(m.as_slice()) })
        }
    }

    /// The operator of the given level that the next token stands for.
    fn bin_op_here(&self, level: u8) -> (r: Option<BinOp>)
        ensures
            r == (if 0 <= self.cursor() < self.tokens().len() {
                bin_op(level as nat, self.tokens()[self.cursor()].tok)
            } else {
                None
            }),
    {
        if self.pos >= self.toks.len() {
            return None;
        }
        let t = &self.toks[self.pos].tok;
        if level >= 6 {
            match t { Tok::OrOr => Some(BinOp::Or), _ => None }
        } else if level == 5 {
            match t { Tok::AndAnd => Some(BinOp::And), _ => None }
        } else if level == 4 {
            match t { Tok::Eq => Some(BinOp::Eq), Tok::Neq => Some(BinOp::Neq), _ => None }
        } else if level == 3 {
            match t {
                Tok::Lt => Some(BinOp::Lt),
                Tok::Le => Some(BinOp::Le),
                Tok::Gt => Some(BinOp::Gt),
                Tok::Ge => Some(BinOp::Ge),
                _ => None,
            }
        } else if level == 2 {
            match t { Tok::Plus => Some(BinOp::Add), Tok::Minus => Some(BinOp::Sub), _ => None }
        } else {
            match t {
                Tok::Star => Some(BinOp::Mul),
                Tok::Slash => Some(BinOp::Div),
                Tok::Percent => Some(BinOp::Mod),
                _ => None,
            }
        }
    }

    /// Parse one expression from the current position.
    pub fn parse_expr(&mut self) -> (r: Result<Expr, ParseErr>)
        ensures
            final(self).tokens() == old(self).tokens(),
            expr_parsed(p_expr(old(self).tokens(), old(self).cursor()), r, final(self).cursor()),
            r is Ok ==> old(self).cursor() < final(self).cursor(),
        decreases old(self).tokens().len() - old(self).cursor(), 10nat,
    {
        self.parse_bin(6)
    }

    // precedence, lowest to highest: || (6), && (5), == != (4),
    // < <= > >= (3), + - (2), * / % (1), then unary ! -, then postfix
    // indexing, then primaries.
    fn parse_bin(&mut self, level: u8) -> (r: Result<Expr, ParseErr>)
        requires
            1 <= level <= 6,
        ensures
            final(self).tokens() == old(self).tokens(),
            expr_parsed(p_bin(old(self).tokens(), old(self).cursor(), level as nat), r, final(self).cursor()),
            r is Ok ==> old(self).cursor() < final(self).cursor(),
        decreases old(self).tokens().len() - old(self).cursor(), level + 3,
    {
        proof { use_type_invariant(&*self); }
        let ghost ts = self.tokens();
        let ghost p0 = self.cursor();
        let first = if level <= 1 {
            self.parse_unary()
        } else {
            self.parse_bin(level - 1)
        };
        let mut lhs = match first {
            Ok(e) => e,
            Err(e) => return Err(e),
        };
        proof { use_type_invariant(&*self); }
        loop
            invariant_except_break
                1 <= level <= 6,
                ts == old(self).tokens(),
                p0 == old(self).cursor(),
                self.tokens() == ts,
                p0 < self.cursor() <= ts.len(),
                p_bin(ts, p0, level as nat) == p_bin_loop(ts, self.cursor(), level as nat, lhs@),
            ensures
                self.tokens() == ts,
                p0 < self.cursor() <= ts.len(),
                p_bin(ts, p0, level as nat) == Ok::<(ExprV, int), (int, Seq<char>)>((lhs@, self.cursor())),
            decreases ts.len() - self.cursor(),
        {
            proof { use_type_invariant(&*self); }
            let op = match self.bin_op_here(level) {
                Some(op) => op,
                None => break,
            };
            let ghost p1 = self.cursor();
            self.pos = self.pos + 1;
            let next = if level <= 1 {
                self.parse_unary()
            } else {
                self.parse_bin(level - 1)
            };
            let rhs = match next {
                Ok(e) => e,
                Err(e) => return Err(e),
            };
            proof { use_type_invariant(&*self); }
            lhs = Expr::Binary { op, lhs: Box::new(lhs), rhs: Box::new(rhs) };
        }
        Ok(lhs)
    }

    fn parse_unary(&mut self) -> (r: Result<Expr, ParseErr>)
        ensures
            final(self).tokens() == old(self).tokens(),
            expr_parsed(p_unary(old(self).tokens(), old(self).cursor()), r, final(self).cursor()),
            r is Ok ==> old(self).cursor() < final(self).cursor(),
        decreases old(self).tokens().len() - old(self).cursor(), 2nat,
    {
        proof { use_type_invariant(&*self); }
        if self.at(&Tok::Bang) {
            self.pos = self.pos + 1;
            let rhs = self.parse_unary();
            match rhs {
                Ok(e) => Ok(Expr::Unary { op: UnOp::Not, rhs: Box::new(e) }),
                Err(e) => Err(e),
            }
        } else if self.at(&Tok::Minus) {
            self.pos = self.pos + 1;
            let rhs = self.parse_unary();
            match rhs {
                Ok(e) => Ok(Expr::Unary { op: UnOp::Neg, rhs: Box::new(e) }),
                Err(e) => Err(e),
            }
        } else {
            self.parse_postfix()
        }
    }

    fn parse_postfix(&mut self) -> (r: Result<Expr, ParseErr>)
        ensures
            final(self).tokens() == old(self).tokens(),
            expr_parsed(p_postfix(old(self).tokens(), old(self).cursor()), r, final(self).cursor()),
            r is Ok ==> old(self).cursor() < final(self).cursor(),
        decreases old(self).tokens().len() - old(self).cursor(), 1nat,
    {
        let ghost ts = self.tokens();
        let ghost p0 = self.cursor();
        let mut e = match self.parse_primary() {
            Ok(e) => e,
            Err(x) => return Err(x),
        };
        proof { use_type_invariant(&*self); }
        while self.at(&Tok::LBracket)
            invariant
                ts == old(self).tokens(),
                p0 == old(self).cursor(),
                self.tokens() == ts,
                p0 < self.cursor() <= ts.len(),
                p_postfix(ts, p0) == p_post_loop(ts, self.cursor(), e@),
            decreases ts.len() - self.cursor(),
        {
            proof { use_type_invariant(&*self); }
            self.pos = self.pos + 1;
            let idx = match self.parse_expr() {
                Ok(i) => i,
                Err(x) => return Err(x),
            };
            proof { use_type_invariant(&*self); }
            match self.expect(&Tok::RBracket) {
                Ok(()) => {},
                Err(x) => return Err(x),
            }
            proof { use_type_invariant(&*self); }
            e = Expr::Index { target: Box::new(e), index: Box::new(idx) };
        }
        Ok(e)
    }

    fn parse_primary(&mut self) -> (r: Result<Expr, ParseErr>)
        ensures
            final(self).tokens() == old(self).tokens(),
            expr_parsed(p_primary(old(self).tokens(), old(self).cursor()), r, final(self).cursor()),
            r is Ok ==> old(self).cursor() < final(self).cursor(),
        decreases old(self).tokens().len() - old(self).cursor(), 0nat,
    {
        proof { use_type_invariant(&*self); }
        let ghost ts = self.tokens();
        let ghost p0 = self.cursor();
        if self.pos >= self.toks.len() {
            return Err(ParseErr { off: 0, msg: string_of(str_chars("unexpected end of input").as_slice()) });
        }
        let i = self.pos;
        self.pos = self.pos + 1;
        match &self.toks[i].tok {
            Tok::Nil => Ok(Expr::Nil),
            Tok::True => Ok(Expr::Bool(true)),
            Tok::False => Ok(Expr::Bool(false)),
            Tok::Int(n) => Ok(Expr::Int(*n)),
            Tok::Str(s) => Ok(Expr::Str(s.clone())),
            Tok::LParen => {
                let e = match self.parse_expr() {
                    Ok(e) => e,
                    Err(x) => return Err(x),
                };
                proof { use_type_invariant(&*self); }
                match self.expect(&Tok::RParen) {
                    Ok(()) => Ok(e),
                    Err(x) => Err(x),
                }
            },
            Tok::Ident(name) => {
                let name = name.clone();
                if self.at(&Tok::LParen) {
                    let off = self.toks[self.pos].off;
                    self.pos = self.pos + 1;
                    let mut args: Vec<Expr> = Vec::new();
                    if !self.at(&Tok::RParen) {
                        let ghost pa = self.cursor();
                        loop
                            invariant_except_break
                                ts == old(self).tokens(),
                                p0 == old(self).cursor(),
                                p0 < pa,
                                p_args(ts, pa, Seq::empty()) is Err ==> p_primary(ts, p0) == Err::<(ExprV, int), (int, Seq<char>)>(p_args(ts, pa, Seq::empty())->Err_0),
                                self.tokens() == ts,
                                pa <= self.cursor() <= ts.len(),
                                p_args(ts, pa, Seq::empty()) == p_args(ts, self.cursor(), crate::lang::ast::exprs_v(args@)),
                            ensures
                                self.tokens() == ts,
                                pa < self.cursor() <= ts.len(),
                                p_args(ts, pa, Seq::empty()) == Ok::<(Seq<ExprV>, int), (int, Seq<char>)>((crate::lang::ast::exprs_v(args@), self.cursor())),
                            decreases ts.len() - self.cursor(),
                        {
                            proof { use_type_invariant(&*self); }
                            let ghost pc = self.cursor();
                            let a = match self.parse_expr() {
                                Ok(a) => a,
                                Err(x) => {
                                    assert(p_args(ts, pc, crate::lang::ast::exprs_v(args@)) is Err);
                                    return Err(x);
                                },
                            };
                            proof {
                                use_type_invariant(&*self);
                                lemma_exprs_push(args@, a);
                            }
                            args.push(a);
                            if self.at(&Tok::Comma) {
                                self.pos = self.pos + 1;
                            } else {
                                break;
                            }
                        }
                    }
                    match self.expect(&Tok::RParen) {
                        Ok(()) => {},
                        Err(x) => return Err(x),
                    }
                    proof { use_type_invariant(&*self); }
                    Ok(Expr::Call { callee: name, args, off })
                } else {
                    Ok(Expr::Ident(name))
                }
            },
            other => {
                let mut m = str_chars("unexpected token ");
                push_tok_debug(&mut m, other);
                Err(ParseErr { off: self.toks[i].off, msg: string_of(m.as_slice()) })
            },
        }
    }

    /// The name at the cursor, which is then consumed.
    fn ident_here(&mut self, what: &str) -> (r: Result<String, ParseErr>)
        ensures
            final(self).tokens() == old(self).tokens(),
            match ident_at(old(self).tokens(), old(self).cursor()) {
                Some(n) => r matches Ok(x) && x@ == n && final(self).cursor() == old(self).cursor() + 1,
                None => r matches Err(x) && x.off == off_or_zero(old(self).tokens(), old(self).cursor())
                    && x.msg@ == "expected identifier after "@ + what@,
            },
    {
        proof { use_type_invariant(&*self); }
        if self.pos >= self.toks.len() {
            return Err(fail(0, what));
        }
        let name = match &self.toks[self.pos].tok {
            Tok::Ident(n) => n.clone(),
            _ => return Err(fail(self.toks[self.pos].off, what)),
        };
        self.pos = self.pos + 1;
        Ok(name)
    }

    /// Parse one statement from the current position.
    fn parse_stmt(&mut self) -> (r: Result<Stmt, ParseErr>)
        ensures
            final(self).tokens() == old(self).tokens(),
            stmt_parsed(p_stmt(old(self).tokens(), old(self).cursor()), r, final(self).cursor()),
            r is Ok ==> old(self).cursor() < final(self).cursor(),
        decreases old(self).tokens().len() - old(self).cursor(), 3nat,
    {
        proof { use_type_invariant(&*self); }
        if self.pos >= self.toks.len() {
            return Err(ParseErr { off: 0, msg: string_of(str_chars("unexpected end").as_slice()) });
        }
        let k = tok_index_of(&self.toks[self.pos].tok);
        if k == 3 {
            self.parse_let()
        } else if k == 4 {
            self.parse_if()
        } else if k == 6 {
            self.parse_while()
        } else if k == 7 {
            self.parse_for()
        } else if k == 9 {
            self.parse_return()
        } else {
            let e = match self.parse_expr() {
                Ok(e) => e,
                Err(x) => return Err(x),
            };
            proof { use_type_invariant(&*self); }
            match self.expect(&Tok::Semicolon) {
                Ok(()) => Ok(Stmt::Expr(e)),
                Err(x) => Err(x),
            }
        }
    }

    fn parse_let(&mut self) -> (r: Result<Stmt, ParseErr>)
        ensures
            final(self).tokens() == old(self).tokens(),
            stmt_parsed(p_let(old(self).tokens(), old(self).cursor()), r, final(self).cursor()),
            r is Ok ==> old(self).cursor() < final(self).cursor(),
    {
        match self.expect(&Tok::Let) {
            Ok(()) => {},
            Err(x) => return Err(x),
        }
        let name = match self.ident_here("let") {
            Ok(n) => n,
            Err(x) => return Err(x),
        };
        match self.expect(&Tok::Assign) {
            Ok(()) => {},
            Err(x) => return Err(x),
        }
        let e = match self.parse_expr() {
            Ok(e) => e,
            Err(x) => return Err(x),
        };
        match self.expect(&Tok::Semicolon) {
            Ok(()) => Ok(Stmt::Let(name, e)),
            Err(x) => Err(x),
        }
    }

    fn parse_if(&mut self) -> (r: Result<Stmt, ParseErr>)
        ensures
            final(self).tokens() == old(self).tokens(),
            stmt_parsed(p_if(old(self).tokens(), old(self).cursor()), r, final(self).cursor()),
            r is Ok ==> old(self).cursor() < final(self).cursor(),
        decreases old(self).tokens().len() - old(self).cursor(), 2nat,
    {
        match self.expect(&Tok::If) {
            Ok(()) => {},
            Err(x) => return Err(x),
        }
        let cond = match self.parse_expr() {
            Ok(e) => e,
            Err(x) => return Err(x),
        };
        proof { use_type_invariant(&*self); }
        let then_block = match self.parse_block() {
            Ok(b) => b,
            Err(x) => return Err(x),
        };
        proof { use_type_invariant(&*self); }
        if self.at(&Tok::Else) {
            self.pos = self.pos + 1;
            match self.parse_block() {
                Ok(b) => Ok(Stmt::If(cond, then_block, Some(b))),
                Err(x) => Err(x),
            }
        } else {
            Ok(Stmt::If(cond, then_block, None))
        }
    }

    fn parse_while(&mut self) -> (r: Result<Stmt, ParseErr>)
        ensures
            final(self).tokens() == old(self).tokens(),
            stmt_parsed(p_while(old(self).tokens(), old(self).cursor()), r, final(self).cursor()),
            r is Ok ==> old(self).cursor() < final(self).cursor(),
        decreases old(self).tokens().len() - old(self).cursor(), 2nat,
    {
        match self.expect(&Tok::While) {
            Ok(()) => {},
            Err(x) => return Err(x),
        }
        let cond = match self.parse_expr() {
            Ok(e) => e,
            Err(x) => return Err(x),
        };
        proof { use_type_invariant(&*self); }
        match self.parse_block() {
            Ok(b) => Ok(Stmt::While(cond, b)),
            Err(x) => Err(x),
        }
    }

    fn parse_for(&mut self) -> (r: Result<Stmt, ParseErr>)
        ensures
            final(self).tokens() == old(self).tokens(),
            stmt_parsed(p_for(old(self).tokens(), old(self).cursor()), r, final(self).cursor()),
            r is Ok ==> old(self).cursor() < final(self).cursor(),
        decreases old(self).tokens().len() - old(self).cursor(), 2nat,
    {
        match self.expect(&Tok::For) {
            Ok(()) => {},
            Err(x) => return Err(x),
        }
        let name = match self.ident_here("for") {
            Ok(n) => n,
            Err(x) => return Err(x),
        };
        match self.expect(&Tok::In) {
            Ok(()) => {},
            Err(x) => return Err(x),
        }
        let lo = match self.parse_expr() {
            Ok(e) => e,
            Err(x) => return Err(x),
        };
        match self.expect(&Tok::DotDot) {
            Ok(()) => {},
            Err(x) => return Err(x),
        }
        let hi = match self.parse_expr() {
            Ok(e) => e,
            Err(x) => return Err(x),
        };
        proof { use_type_invariant(&*self); }
        match self.parse_block() {
            Ok(b) => Ok(Stmt::For(name, lo, hi, b)),
            Err(x) => Err(x),
        }
    }

    fn parse_return(&mut self) -> (r: Result<Stmt, ParseErr>)
        ensures
            final(self).tokens() == old(self).tokens(),
            stmt_parsed(p_return(old(self).tokens(), old(self).cursor()), r, final(self).cursor()),
            r is Ok ==> old(self).cursor() < final(self).cursor(),
    {
        match self.expect(&Tok::Return) {
            Ok(()) => {},
            Err(x) => return Err(x),
        }
        proof { use_type_invariant(&*self); }
        if self.at(&Tok::Semicolon) {
            self.pos = self.pos + 1;
            return Ok(Stmt::Return(None));
        }
        let e = match self.parse_expr() {
            Ok(e) => e,
            Err(x) => return Err(x),
        };
        match self.expect(&Tok::Semicolon) {
            Ok(()) => Ok(Stmt::Return(Some(e))),
            Err(x) => Err(x),
        }
    }

    /// `{ statements }`.
    fn parse_block(&mut self) -> (r: Result<Vec<Stmt>, ParseErr>)
        ensures
            final(self).tokens() == old(self).tokens(),
            block_parsed(p_block(old(self).tokens(), old(self).cursor()), r, final(self).cursor()),
            r is Ok ==> old(self).cursor() < final(self).cursor(),
        decreases old(self).tokens().len() - old(self).cursor(), 2nat,
    {
        let ghost ts = self.tokens();
        let ghost p0 = self.cursor();
        match self.expect(&Tok::LBrace) {
            Ok(()) => {},
            Err(x) => return Err(x),
        }
        proof { use_type_invariant(&*self); }
        let mut stmts: Vec<Stmt> = Vec::new();
        while !self.at(&Tok::RBrace)
            invariant
                ts == old(self).tokens(),
                p0 == old(self).cursor(),
                self.tokens() == ts,
                p0 < self.cursor() <= ts.len(),
                p_block(ts, p0) == p_block_loop(ts, self.cursor(), stmts_v(stmts@)),
            decreases ts.len() - self.cursor(),
        {
            proof { use_type_invariant(&*self); }
            if self.pos >= self.toks.len() {
                return Err(ParseErr { off: 0, msg: string_of(str_chars("unterminated block").as_slice()) });
            }
            let st = match self.parse_stmt() {
                Ok(s) => s,
                Err(x) => return Err(x),
            };
            proof {
                use_type_invariant(&*self);
                lemma_stmts_push(stmts@, st);
            }
            stmts.push(st);
        }
        match self.expect(&Tok::RBrace) {
            Ok(()) => Ok(stmts),
            Err(x) => Err(x),
        }
    }

    /// Parse statements until the tokens run out.
    pub fn parse_program(&mut self) -> (r: Result<Program, ParseErr>)
        ensures
            final(self).tokens() == old(self).tokens(),
            match p_program(old(self).tokens(), old(self).cursor(), Seq::empty()) {
                Ok((s, _)) => r matches Ok(p) && stmts_v(p.stmts@) == s,
                Err((o, m)) => r matches Err(x) && x.off == o && x.msg@ == m,
            },
    {
        proof { use_type_invariant(&*self); }
        let ghost ts = self.tokens();
        let ghost p0 = self.cursor();
        let mut stmts: Vec<Stmt> = Vec::new();
        while self.pos < self.toks.len()
            invariant
                ts == old(self).tokens(),
                p0 == old(self).cursor(),
                self.tokens() == ts,
                p0 <= self.cursor() <= ts.len(),
                p_program(ts, p0, Seq::empty()) == p_program(ts, self.cursor(), stmts_v(stmts@)),
            decreases ts.len() - self.cursor(),
        {
            proof { use_type_invariant(&*self); }
            let ghost pc = self.cursor();
            let st = match self.parse_stmt() {
                Ok(s) => s,
                Err(x) => {
                    proof { lemma_program_step(ts, pc, stmts_v(stmts@)); }
                    return Err(x);
                },
            };
            proof {
                use_type_invariant(&*self);
                lemma_program_step(ts, pc, stmts_v(stmts@));
                lemma_stmts_push(stmts@, st);
            }
            stmts.push(st);
        }
        proof { lemma_program_end(ts, self.cursor(), stmts_v(stmts@)); }
        Ok(Program { stmts })
    }
}

/// A parse error at `off`: "expected identifier after `what`".
fn fail(off: usize, what: &str) -> (e: ParseErr)
    ensures
        e.off == off,
        e.msg@ == "expected identifier after "@ + what@,
{
    let mut m = str_chars("expected identifier after ");
    push_str(&mut m, what);
    ParseErr { off, msg: string_of(m.as_slice()) }
}

/// `+` or `-` and the operator it stands for.
pub open spec fn additive(t: TokV, op: BinOp) -> bool {
    ||| t == TokV::Plus && op == BinOp::Add
    ||| t == TokV::Minus && op == BinOp::Sub
}

/// `*`, `/` or `%` and the operator it stands for.
pub open spec fn multiplicative(t: TokV, op: BinOp) -> bool {
    ||| t == TokV::Star && op == BinOp::Mul
    ||| t == TokV::Slash && op == BinOp::Div
    ||| t == TokV::Percent && op == BinOp::Mod
}

/// An integer literal that is not indexed is a unary operand by itself.
proof fn lemma_int_unary(ts: Seq<TokenV>, pos: int, n: i64)
    requires
        0 <= pos < ts.len(),
        ts[pos].tok == TokV::Int(n),
        !tok_is(ts, pos + 1, TokV::LBracket),
    ensures
        p_unary(ts, pos) == Ok::<(ExprV, int), (int, Seq<char>)>((ExprV::Int(n), pos + 1)),
{
    assert(p_primary(ts, pos) == Ok::<(ExprV, int), (int, Seq<char>)>((ExprV::Int(n), pos + 1)));
    assert(p_post_loop(ts, pos + 1, ExprV::Int(n)) == Ok::<(ExprV, int), (int, Seq<char>)>((ExprV::Int(n), pos + 1)));
    assert(p_postfix(ts, pos) == Ok::<(ExprV, int), (int, Seq<char>)>((ExprV::Int(n), pos + 1)));
}

/// An integer literal followed by the end of input or by a token that
/// neither indexes it nor continues it at a level up to `level` parses,
/// at every such level, as that literal alone.
proof fn lemma_int_operand(ts: Seq<TokenV>, pos: int, n: i64, level: nat)
    requires
        0 <= pos < ts.len(),
        ts[pos].tok == TokV::Int(n),
        1 <= level,
        !tok_is(ts, pos + 1, TokV::LBracket),
        forall|l: nat| 1 <= l <= level && pos + 1 < ts.len() ==> #[trigger] bin_op(l, ts[pos + 1].tok) is None,
    ensures
        p_bin(ts, pos, level) == Ok::<(ExprV, int), (int, Seq<char>)>((ExprV::Int(n), pos + 1)),
    decreases level,
{
    lemma_int_unary(ts, pos, n);
    if pos + 1 < ts.len() {
        assert(bin_op(level, ts[pos + 1].tok) is None);
    }
    assert(p_bin_loop(ts, pos + 1, level, ExprV::Int(n)) == Ok::<(ExprV, int), (int, Seq<char>)>((ExprV::Int(n), pos + 1)));
    if level > 1 {
        lemma_int_operand(ts, pos, n, (level - 1) as nat);
    }
}

/// A parse that takes every remaining token at one level is the parse at
/// every looser level too: there is nothing left for them to continue.
proof fn lemma_whole_rest(ts: Seq<TokenV>, pos: int, level: nat, top: nat, e: ExprV)
    requires
        0 <= pos < ts.len(),
        1 <= level <= top,
        p_bin(ts, pos, level) == Ok::<(ExprV, int), (int, Seq<char>)>((e, ts.len() as int)),
    ensures
        p_bin(ts, pos, top) == Ok::<(ExprV, int), (int, Seq<char>)>((e, ts.len() as int)),
    decreases top - level,
{
    if top > level {
        lemma_whole_rest(ts, pos, level, (top - 1) as nat, e);
        assert(p_bin_loop(ts, ts.len() as int, top, e) == Ok::<(ExprV, int), (int, Seq<char>)>((e, ts.len() as int)));
    }
}

/// Multiplication, division and remainder bind tighter than addition and
/// subtraction, whichever comes first: `a + b % c` parses as
/// `a + (b % c)`, and `a % b + c` as `(a % b) + c`.
pub proof fn law_multiplicative_binds_tighter(
    ts: Seq<TokenV>,
    a: i64,
    b: i64,
    c: i64,
    t1: TokV,
    o1: BinOp,
    t2: TokV,
    o2: BinOp,
)
    requires
        ts.len() == 5,
        ts[0].tok == TokV::Int(a),
        ts[2].tok == TokV::Int(b),
        ts[4].tok == TokV::Int(c),
        additive(t1, o1),
        multiplicative(t2, o2),
    ensures
        ts[1].tok == t1 && ts[3].tok == t2 ==> p_expr(ts, 0) == Ok::<(ExprV, int), (int, Seq<char>)>((
            ExprV::Binary {
                op: o1,
                lhs: Box::new(ExprV::Int(a)),
                rhs: Box::new(ExprV::Binary { op: o2, lhs: Box::new(ExprV::Int(b)), rhs: Box::new(ExprV::Int(c)) }),
            },
            5,
        )),
        ts[1].tok == t2 && ts[3].tok == t1 ==> p_expr(ts, 0) == Ok::<(ExprV, int), (int, Seq<char>)>((
            ExprV::Binary {
                op: o1,
                lhs: Box::new(ExprV::Binary { op: o2, lhs: Box::new(ExprV::Int(a)), rhs: Box::new(ExprV::Int(b)) }),
                rhs: Box::new(ExprV::Int(c)),
            },
            5,
        )),
{
    let ia = ExprV::Int(a);
    let ib = ExprV::Int(b);
    let ic = ExprV::Int(c);
    if ts[1].tok == t1 && ts[3].tok == t2 {
        let inner = ExprV::Binary { op: o2, lhs: Box::new(ib), rhs: Box::new(ic) };
        let whole = ExprV::Binary { op: o1, lhs: Box::new(ia), rhs: Box::new(inner) };
        lemma_int_operand(ts, 0, a, 1);
        lemma_int_unary(ts, 2, b);
        lemma_int_unary(ts, 4, c);
        assert(p_bin_loop(ts, 5, 1, inner) == Ok::<(ExprV, int), (int, Seq<char>)>((inner, 5)));
        assert(p_bin_loop(ts, 3, 1, ib) == Ok::<(ExprV, int), (int, Seq<char>)>((inner, 5)));
        assert(p_bin(ts, 2, 1) == Ok::<(ExprV, int), (int, Seq<char>)>((inner, 5)));
        assert(p_bin_loop(ts, 5, 2, whole) == Ok::<(ExprV, int), (int, Seq<char>)>((whole, 5)));
        assert(p_bin_loop(ts, 1, 2, ia) == Ok::<(ExprV, int), (int, Seq<char>)>((whole, 5)));
        assert(p_bin(ts, 0, 2) == Ok::<(ExprV, int), (int, Seq<char>)>((whole, 5)));
        lemma_whole_rest(ts, 0, 2, 6, whole);
    }
    if ts[1].tok == t2 && ts[3].tok == t1 {
        let inner = ExprV::Binary { op: o2, lhs: Box::new(ia), rhs: Box::new(ib) };
        let whole = ExprV::Binary { op: o1, lhs: Box::new(inner), rhs: Box::new(ic) };
        lemma_int_unary(ts, 0, a);
        lemma_int_unary(ts, 2, b);
        assert(p_bin_loop(ts, 3, 1, inner) == Ok::<(ExprV, int), (int, Seq<char>)>((inner, 3)));
        assert(p_bin_loop(ts, 1, 1, ia) == Ok::<(ExprV, int), (int, Seq<char>)>((inner, 3)));
        assert(p_bin(ts, 0, 1) == Ok::<(ExprV, int), (int, Seq<char>)>((inner, 3)));
        lemma_int_operand(ts, 4, c, 1);
        assert(p_bin_loop(ts, 5, 2, whole) == Ok::<(ExprV, int), (int, Seq<char>)>((whole, 5)));
        assert(p_bin_loop(ts, 3, 2, inner) == Ok::<(ExprV, int), (int, Seq<char>)>((whole, 5)));
        assert(p_bin(ts, 0, 2) == Ok::<(ExprV, int), (int, Seq<char>)>((whole, 5)));
        lemma_whole_rest(ts, 0, 2, 6, whole);
    }
}

/// Operators of one level group to the left: `a - b + c` parses as
/// `(a - b) + c`, and `a / b * c` as `(a / b) * c`.
pub proof fn law_same_level_groups_left(
    ts: Seq<TokenV>,
    a: i64,
    b: i64,
    c: i64,
    o1: BinOp,
    o2: BinOp,
)
    requires
        ts.len() == 5,
        ts[0].tok == TokV::Int(a),
        ts[2].tok == TokV::Int(b),
        ts[4].tok == TokV::Int(c),
        (additive(ts[1].tok, o1) && additive(ts[3].tok, o2)) || (multiplicative(ts[1].tok, o1)
            && multiplicative(ts[3].tok, o2)),
    ensures
        p_expr(ts, 0) == Ok::<(ExprV, int), (int, Seq<char>)>((
            ExprV::Binary {
                op: o2,
                lhs: Box::new(ExprV::Binary { op: o1, lhs: Box::new(ExprV::Int(a)), rhs: Box::new(ExprV::Int(b)) }),
                rhs: Box::new(ExprV::Int(c)),
            },
            5,
        )),
{
    let ia = ExprV::Int(a);
    let ib = ExprV::Int(b);
    let ic = ExprV::Int(c);
    let inner = ExprV::Binary { op: o1, lhs: Box::new(ia), rhs: Box::new(ib) };
    let whole = ExprV::Binary { op: o2, lhs: Box::new(inner), rhs: Box::new(ic) };
    lemma_int_unary(ts, 0, a);
    lemma_int_unary(ts, 2, b);
    lemma_int_unary(ts, 4, c);
    if additive(ts[1].tok, o1) {
        lemma_int_operand(ts, 0, a, 1);
        lemma_int_operand(ts, 2, b, 1);
        lemma_int_operand(ts, 4, c, 1);
        assert(p_bin_loop(ts, 5, 2, whole) == Ok::<(ExprV, int), (int, Seq<char>)>((whole, 5)));
        assert(p_bin_loop(ts, 3, 2, inner) == Ok::<(ExprV, int), (int, Seq<char>)>((whole, 5)));
        assert(p_bin_loop(ts, 1, 2, ia) == Ok::<(ExprV, int), (int, Seq<char>)>((whole, 5)));
        assert(p_bin(ts, 0, 2) == Ok::<(ExprV, int), (int, Seq<char>)>((whole, 5)));
        lemma_whole_rest(ts, 0, 2, 6, whole);
    } else {
        assert(p_bin_loop(ts, 5, 1, whole) == Ok::<(ExprV, int), (int, Seq<char>)>((whole, 5)));
        assert(p_bin_loop(ts, 3, 1, inner) == Ok::<(ExprV, int), (int, Seq<char>)>((whole, 5)));
        assert(p_bin_loop(ts, 1, 1, ia) == Ok::<(ExprV, int), (int, Seq<char>)>((whole, 5)));
        assert(p_bin(ts, 0, 1) == Ok::<(ExprV, int), (int, Seq<char>)>((whole, 5)));
        lemma_whole_rest(ts, 0, 1, 6, whole);
    }
}

} // verus!
