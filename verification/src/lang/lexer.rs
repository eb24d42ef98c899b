//! Tokenizer for .tape source files. Small on purpose.
//!
//! Tokens carry their byte offset into the source string. The interpreter
//! later combines (file path, byte offset of a call) into a stable site id.
use crate::inspect::chars_eq;
use crate::text::{char_debug, debug_char, push_chars, push_str, str_chars, string_of};
use vstd::prelude::*;
use vstd::string::StringSliceAdditionalSpecFns;

verus! {

#[derive(Debug, Clone, PartialEq, Eq)]
pub enum Tok {
    // literals
    Int(i64),
    Str(String),
    Ident(String),
    // keywords
    Let,
    If,
    Else,
    While,
    For,
    In,
    Return,
    True,
    False,
    Nil,
    // punctuation
    LParen,
    RParen,
    LBrace,
    RBrace,
    LBracket,
    RBracket,
    Comma,
    Semicolon,
    Assign,
    DotDot,
    // operators
    Plus,
    Minus,
    Star,
    Slash,
    Percent,
    Eq,
    Neq,
    Lt,
    Le,
    Gt,
    Ge,
    AndAnd,
    OrOr,
    Bang,
}

/// A token as the specs see it: payloads as character sequences.
pub enum TokV {
    Int(i64),
    Str(Seq<char>),
    Ident(Seq<char>),
    Let,
    If,
    Else,
    While,
    For,
    In,
    Return,
    True,
    False,
    Nil,
    LParen,
    RParen,
    LBrace,
    RBrace,
    LBracket,
    RBracket,
    Comma,
    Semicolon,
    Assign,
    DotDot,
    Plus,
    Minus,
    Star,
    Slash,
    Percent,
    Eq,
    Neq,
    Lt,
    Le,
    Gt,
    Ge,
    AndAnd,
    OrOr,
    Bang,
}

impl View for Tok {
    type V = TokV;

    open spec fn view(&self) -> TokV {
        match self {
            Tok::Int(n) => TokV::Int(*n),
            Tok::Str(s) => TokV::Str(s@),
            Tok::Ident(s) => TokV::Ident(s@),
            Tok::Let => TokV::Let,
            Tok::If => TokV::If,
            Tok::Else => TokV::Else,
            Tok::While => TokV::While,
            Tok::For => TokV::For,
            Tok::In => TokV::In,
            Tok::Return => TokV::Return,
            Tok::True => TokV::True,
            Tok::False => TokV::False,
            Tok::Nil => TokV::Nil,
            Tok::LParen => TokV::LParen,
            Tok::RParen => TokV::RParen,
            Tok::LBrace => TokV::LBrace,
            Tok::RBrace => TokV::RBrace,
            Tok::LBracket => TokV::LBracket,
            Tok::RBracket => TokV::RBracket,
            Tok::Comma => TokV::Comma,
            Tok::Semicolon => TokV::Semicolon,
            Tok::Assign => TokV::Assign,
            Tok::DotDot => TokV::DotDot,
            Tok::Plus => TokV::Plus,
            Tok::Minus => TokV::Minus,
            Tok::Star => TokV::Star,
            Tok::Slash => TokV::Slash,
            Tok::Percent => TokV::Percent,
            Tok::Eq => TokV::Eq,
            Tok::Neq => TokV::Neq,
            Tok::Lt => TokV::Lt,
            Tok::Le => TokV::Le,
            Tok::Gt => TokV::Gt,
            Tok::Ge => TokV::Ge,
            Tok::AndAnd => TokV::AndAnd,
            Tok::OrOr => TokV::OrOr,
            Tok::Bang => TokV::Bang,
        }
    }
}

#[derive(Debug, Clone)]
pub struct Token {
    pub tok: Tok,
    pub off: usize,
}

pub struct TokenV {
    pub tok: TokV,
    pub off: int,
}

impl View for Token {
    type V = TokenV;

    open spec fn view(&self) -> TokenV {
        TokenV { tok: self.tok@, off: self.off as int }
    }
}

pub open spec fn tokens_view(ts: Seq<Token>) -> Seq<TokenV> {
    ts.map_values(|t: Token| t@)
}

#[derive(Debug)]
pub struct LexErr {
    pub off: usize,
    pub msg: String,
}

/// How lexing a source ends: its tokens, the first error, or a fault
/// (slicing the source inside a character while looking for a two-byte
/// operator).
pub enum LexOut {
    Done(Seq<TokenV>),
    Fail(int, Seq<char>),
    Stuck,
}

pub open spec fn is_space(c: u8) -> bool {
    c == 32 || c == 9 || c == 13 || c == 10
}

pub open spec fn is_digit(c: u8) -> bool {
    48 <= c <= 57
}

pub open spec fn is_alpha(c: u8) -> bool {
    (65 <= c <= 90) || (97 <= c <= 122)
}

pub open spec fn is_ident_byte(c: u8) -> bool {
    is_alpha(c) || is_digit(c) || c == 95 || c == 46
}

/// a UTF-8 continuation byte: never the first byte of a character.
pub open spec fn is_cont(c: u8) -> bool {
    128 <= c <= 191
}

/// first position at or after `i` holding a newline, or the end.
pub open spec fn line_end(b: Seq<u8>, i: int) -> int
    decreases b.len() - i,
{
    if i >= b.len() || b[i] == 10 {
        i
    } else {
        line_end(b, i + 1)
    }
}

/// first position at or after `i` where `pred` fails, or the end.
pub open spec fn run_end(b: Seq<u8>, i: int, ident: bool) -> int
    decreases b.len() - i,
{
    if i >= b.len() || !(if ident {
        is_ident_byte(b[i])
    } else {
        is_digit(b[i])
    }) {
        i
    } else {
        run_end(b, i + 1, ident)
    }
}

pub proof fn lemma_line_end(b: Seq<u8>, i: int)
    ensures
        line_end(b, i) >= i,
        i <= b.len() ==> line_end(b, i) <= b.len(),
        line_end(b, i) < b.len() ==> b[line_end(b, i)] == 10,
    decreases b.len() - i,
{
    if !(i >= b.len() || b[i] == 10) {
        lemma_line_end(b, i + 1);
    }
}

pub proof fn lemma_run_end(b: Seq<u8>, i: int, ident: bool)
    ensures
        run_end(b, i, ident) >= i,
        i <= b.len() ==> run_end(b, i, ident) <= b.len(),
        forall|k: int|
            i <= k < run_end(b, i, ident) ==> (if ident {
                is_ident_byte(#[trigger] b[k])
            } else {
                is_digit(b[k])
            }),
    decreases b.len() - i,
{
    if !(i >= b.len() || !(if ident {
        is_ident_byte(b[i])
    } else {
        is_digit(b[i])
    })) {
        lemma_run_end(b, i + 1, ident);
    }
}

/// the value of a run of decimal digits.
pub open spec fn digits_value(d: Seq<u8>) -> nat
    decreases d.len(),
{
    if d.len() == 0 {
        0
    } else {
        digits_value(d.drop_last()) * 10 + (d.last() - 48) as nat
    }
}

/// The body of a string literal from position `j` on: its characters and
/// the position after the closing quote, or the error.
pub open spec fn scan_str(b: Seq<u8>, start: int, j: int, acc: Seq<char>) -> Result<
    (Seq<char>, int),
    (int, Seq<char>),
>
    decreases b.len() - j,
{
    if j >= b.len() {
        Err((start, "unterminated string"@))
    } else if b[j] == 34 {
        Ok((acc, j + 1))
    } else if b[j] == 92 {
        if j + 1 >= b.len() {
            Err((j, "unterminated escape"@))
        } else {
            let e = b[j + 1];
            if e == 110 {
                scan_str(b, start, j + 2, acc.push('\n'))
            } else if e == 116 {
                scan_str(b, start, j + 2, acc.push('\t'))
            } else if e == 34 {
                scan_str(b, start, j + 2, acc.push('"'))
            } else if e == 92 {
                scan_str(b, start, j + 2, acc.push('\\'))
            } else {
                Err((j, "unknown escape \\"@.push(e as char)))
            }
        }
    } else {
        scan_str(b, start, j + 1, acc.push(b[j] as char))
    }
}

pub proof fn lemma_scan_str(b: Seq<u8>, start: int, j: int, acc: Seq<char>)
    requires
        0 <= j,
    ensures
        scan_str(b, start, j, acc) matches Ok((_, k)) ==> j < k <= b.len(),
    decreases b.len() - j,
{
    if j < b.len() && b[j] != 34 {
        if b[j] == 92 {
            if j + 1 < b.len() {
                let e = b[j + 1];
                if e == 110 {
                    lemma_scan_str(b, start, j + 2, acc.push('\n'));
                } else if e == 116 {
                    lemma_scan_str(b, start, j + 2, acc.push('\t'));
                } else if e == 34 {
                    lemma_scan_str(b, start, j + 2, acc.push('"'));
                } else if e == 92 {
                    lemma_scan_str(b, start, j + 2, acc.push('\\'));
                }
            }
        } else {
            lemma_scan_str(b, start, j + 1, acc.push(b[j] as char));
        }
    }
}

pub open spec fn keyword(w: Seq<char>) -> TokV {
    if w == "let"@ {
        TokV::Let
    } else if w == "if"@ {
        TokV::If
    } else if w == "else"@ {
        TokV::Else
    } else if w == "while"@ {
        TokV::While
    } else if w == "for"@ {
        TokV::For
    } else if w == "in"@ {
        TokV::In
    } else if w == "return"@ {
        TokV::Return
    } else if w == "true"@ {
        TokV::True
    } else if w == "false"@ {
        TokV::False
    } else if w == "nil"@ {
        TokV::Nil
    } else {
        TokV::Ident(w)
    }
}

/// bytes read as characters one for one (the source's ASCII parts).
pub open spec fn byte_chars(b: Seq<u8>) -> Seq<char> {
    b.map_values(|x: u8| x as char)
}

pub open spec fn pair_tok(a: u8, c: u8) -> Option<TokV> {
    if a == 61 && c == 61 {
        Some(TokV::Eq)
    } else if a == 33 && c == 61 {
        Some(TokV::Neq)
    } else if a == 60 && c == 61 {
        Some(TokV::Le)
    } else if a == 62 && c == 61 {
        Some(TokV::Ge)
    } else if a == 38 && c == 38 {
        Some(TokV::AndAnd)
    } else if a == 124 && c == 124 {
        Some(TokV::OrOr)
    } else if a == 46 && c == 46 {
        Some(TokV::DotDot)
    } else {
        None
    }
}

pub open spec fn single_tok(c: u8) -> Option<TokV> {
    if c == 40 {
        Some(TokV::LParen)
    } else if c == 41 {
        Some(TokV::RParen)
    } else if c == 123 {
        Some(TokV::LBrace)
    } else if c == 125 {
        Some(TokV::RBrace)
    } else if c == 91 {
        Some(TokV::LBracket)
    } else if c == 93 {
        Some(TokV::RBracket)
    } else if c == 44 {
        Some(TokV::Comma)
    } else if c == 59 {
        Some(TokV::Semicolon)
    } else if c == 61 {
        Some(TokV::Assign)
    } else if c == 43 {
        Some(TokV::Plus)
    } else if c == 45 {
        Some(TokV::Minus)
    } else if c == 42 {
        Some(TokV::Star)
    } else if c == 47 {
        Some(TokV::Slash)
    } else if c == 37 {
        Some(TokV::Percent)
    } else if c == 60 {
        Some(TokV::Lt)
    } else if c == 62 {
        Some(TokV::Gt)
    } else if c == 33 {
        Some(TokV::Bang)
    } else {
        None
    }
}

pub open spec fn cons(t: TokenV, rest: LexOut) -> LexOut {
    match rest {
        LexOut::Done(ts) => LexOut::Done(seq![t] + ts),
        other => other,
    }
}

/// Lexing the source bytes from position `i` on.
pub open spec fn lex_from(b: Seq<u8>, i: int) -> LexOut
    decreases b.len() - i,
{
    if i >= b.len() || i < 0 {
        LexOut::Done(Seq::empty())
    } else {
        let c = b[i];
        if is_space(c) {
            lex_from(b, i + 1)
        } else if c == 35 {
            proof {
                lemma_line_end(b, i + 1);
            }
            lex_from(b, line_end(b, i + 1))
        } else if c == 34 {
            match scan_str(b, i, i + 1, Seq::empty()) {
                Ok((s, j)) => if i < j <= b.len() {
                    cons(TokenV { tok: TokV::Str(s), off: i }, lex_from(b, j))
                } else {
                    LexOut::Stuck
                },
                Err((o, m)) => LexOut::Fail(o, m),
            }
        } else if is_digit(c) {
            proof {
                lemma_run_end(b, i + 1, false);
            }
            let j = run_end(b, i + 1, false);
            let v = digits_value(b.subrange(i, j));
            if v > i64::MAX {
                LexOut::Fail(i, "bad integer"@)
            } else {
                cons(TokenV { tok: TokV::Int(v as i64), off: i }, lex_from(b, j))
            }
        } else if is_alpha(c) || c == 95 {
            proof {
                lemma_run_end(b, i + 1, true);
            }
            let j = run_end(b, i + 1, true);
            cons(TokenV { tok: keyword(byte_chars(b.subrange(i, j))), off: i }, lex_from(b, j))
        } else if i + 2 < b.len() && is_cont(b[i + 2]) {
            LexOut::Stuck
        } else if i + 1 < b.len() && pair_tok(c, b[i + 1]) is Some {
            cons(TokenV { tok: pair_tok(c, b[i + 1])->0, off: i }, lex_from(b, i + 2))
        } else {
            match single_tok(c) {
                Some(t) => cons(TokenV { tok: t, off: i }, lex_from(b, i + 1)),
                None => LexOut::Fail(i, "unexpected character "@ + char_debug(c as char)),
            }
        }
    }
}

/// What lexing a source gives.
pub open spec fn lex_spec(src: Seq<u8>) -> LexOut {
    lex_from(src, 0)
}

/// Token offsets lie in `lo..hi`, strictly increase, and each points at a
/// byte that starts a token (not white space, not a comment).
pub open spec fn offsets_ok(b: Seq<u8>, ts: Seq<TokenV>, lo: int) -> bool {
    &&& forall|k: int| 0 <= k < ts.len() ==> lo <= #[trigger] ts[k].off < b.len()
    &&& forall|k: int, l: int| 0 <= k < l < ts.len() ==> #[trigger] ts[k].off < #[trigger] ts[l].off
    &&& forall|k: int| 0 <= k < ts.len() ==> !is_space(b[#[trigger] ts[k].off]) && b[ts[k].off] != 35
}

proof fn lemma_cons_offsets(b: Seq<u8>, t: TokenV, ts: Seq<TokenV>, i: int, j: int)
    requires
        0 <= i < j,
        i == t.off,
        i < b.len(),
        !is_space(b[i]),
        b[i] != 35,
        offsets_ok(b, ts, j),
    ensures
        offsets_ok(b, seq![t] + ts, i),
{
    let s = seq![t] + ts;
    assert forall|k: int, l: int| 0 <= k < l < s.len() implies #[trigger] s[k].off < #[trigger] s[l].off by {
        if k > 0 {
            assert(s[k] == ts[k - 1] && s[l] == ts[l - 1]);
        } else {
            assert(s[l] == ts[l - 1]);
        }
    }
    assert forall|k: int| 0 <= k < s.len() implies i <= #[trigger] s[k].off < b.len() by {
        if k > 0 {
            assert(s[k] == ts[k - 1]);
        }
    }
    assert forall|k: int| 0 <= k < s.len() implies !is_space(b[#[trigger] s[k].off]) && b[s[k].off] != 35 by {
        if k > 0 {
            assert(s[k] == ts[k - 1]);
        }
    }
}

proof fn lemma_lex_offsets(b: Seq<u8>, i: int)
    requires
        0 <= i,
    ensures
        lex_from(b, i) matches LexOut::Done(ts) ==> offsets_ok(b, ts, i),
    decreases b.len() - i,
{
    if i < b.len() {
        let c = b[i];
        if is_space(c) {
            lemma_lex_offsets(b, i + 1);
        } else if c == 35 {
            lemma_line_end(b, i + 1);
            lemma_lex_offsets(b, line_end(b, i + 1));
        } else if c == 34 {
            lemma_scan_str(b, i, i + 1, Seq::empty());
            if let Ok((st, j)) = scan_str(b, i, i + 1, Seq::empty()) {
                lemma_lex_offsets(b, j);
                if let LexOut::Done(ts) = lex_from(b, j) {
                    lemma_cons_offsets(b, TokenV { tok: TokV::Str(st), off: i }, ts, i, j);
                }
            }
        } else if is_digit(c) {
            lemma_run_end(b, i + 1, false);
            let j = run_end(b, i + 1, false);
            lemma_lex_offsets(b, j);
            let v = digits_value(b.subrange(i, j));
            if let LexOut::Done(ts) = lex_from(b, j) {
                if v <= i64::MAX {
                    lemma_cons_offsets(b, TokenV { tok: TokV::Int(v as i64), off: i }, ts, i, j);
                }
            }
        } else if is_alpha(c) || c == 95 {
            lemma_run_end(b, i + 1, true);
            let j = run_end(b, i + 1, true);
            lemma_lex_offsets(b, j);
            if let LexOut::Done(ts) = lex_from(b, j) {
                lemma_cons_offsets(b, TokenV { tok: keyword(byte_chars(b.subrange(i, j))), off: i }, ts, i, j);
            }
        } else if i + 2 < b.len() && is_cont(b[i + 2]) {
        } else if i + 1 < b.len() && pair_tok(c, b[i + 1]) is Some {
            lemma_lex_offsets(b, i + 2);
            if let LexOut::Done(ts) = lex_from(b, i + 2) {
                lemma_cons_offsets(b, TokenV { tok: pair_tok(c, b[i + 1])->0, off: i }, ts, i, i + 2);
            }
        } else {
            lemma_lex_offsets(b, i + 1);
            if let Some(t) = single_tok(c) {
                if let LexOut::Done(ts) = lex_from(b, i + 1) {
                    lemma_cons_offsets(b, TokenV { tok: t, off: i }, ts, i, i + 1);
                }
            }
        }
    }
}

/// The tokens of a source come in source order: each token's offset is
/// inside the source, at a byte that starts the token (no white space or
/// comment), and offsets strictly increase.
pub proof fn law_lex_offsets(src: Seq<u8>)
    ensures
        lex_spec(src) matches LexOut::Done(ts) ==> offsets_ok(src, ts, 0),
{
    lemma_lex_offsets(src, 0);
}

/// `ts`, then the tokens of `rest`, if `rest` finished.
pub open spec fn after(ts: Seq<TokenV>, rest: LexOut) -> LexOut {
    match rest {
        LexOut::Done(r) => LexOut::Done(ts + r),
        other => other,
    }
}

proof fn lemma_after_cons(ts: Seq<TokenV>, t: TokenV, rest: LexOut)
    ensures
        after(ts.push(t), rest) == after(ts, cons(t, rest)),
{
    if let LexOut::Done(r) = rest {
        assert(ts.push(t) + r =~= ts + (seq![t] + r));
    }
}

enum LexRun {
    Done(Vec<Token>),
    Fail(LexErr),
    Stuck,
}

fn keyword_tok(w: &Vec<char>) -> (t: Tok)
    ensures
        t@ == keyword(w@),
{
    let ws = w.as_slice();
    if chars_eq(ws, str_chars("let").as_slice()) {
        Tok::Let
    } else if chars_eq(ws, str_chars("if").as_slice()) {
        Tok::If
    } else if chars_eq(ws, str_chars("else").as_slice()) {
        Tok::Else
    } else if chars_eq(ws, str_chars("while").as_slice()) {
        Tok::While
    } else if chars_eq(ws, str_chars("for").as_slice()) {
        Tok::For
    } else if chars_eq(ws, str_chars("in").as_slice()) {
        Tok::In
    } else if chars_eq(ws, str_chars("return").as_slice()) {
        Tok::Return
    } else if chars_eq(ws, str_chars("true").as_slice()) {
        Tok::True
    } else if chars_eq(ws, str_chars("false").as_slice()) {
        Tok::False
    } else if chars_eq(ws, str_chars("nil").as_slice()) {
        Tok::Nil
    } else {
        Tok::Ident(string_of(ws))
    }
}

fn pair_token(a: u8, c: u8) -> (t: Option<Tok>)
    ensures
        match t {
            Some(x) => pair_tok(a, c) == Some(x@),
            None => pair_tok(a, c) is None,
        },
{
    if a == 61 && c == 61 {
        Some(Tok::Eq)
    } else if a == 33 && c == 61 {
        Some(Tok::Neq)
    } else if a == 60 && c == 61 {
        Some(Tok::Le)
    } else if a == 62 && c == 61 {
        Some(Tok::Ge)
    } else if a == 38 && c == 38 {
        Some(Tok::AndAnd)
    } else if a == 124 && c == 124 {
        Some(Tok::OrOr)
    } else if a == 46 && c == 46 {
        Some(Tok::DotDot)
    } else {
        None
    }
}

fn single_token(c: u8) -> (t: Option<Tok>)
    ensures
        match t {
            Some(x) => single_tok(c) == Some(x@),
            None => single_tok(c) is None,
        },
{
    if c == 40 {
        Some(Tok::LParen)
    } else if c == 41 {
        Some(Tok::RParen)
    } else if c == 123 {
        Some(Tok::LBrace)
    } else if c == 125 {
        Some(Tok::RBrace)
    } else if c == 91 {
        Some(Tok::LBracket)
    } else if c == 93 {
        Some(Tok::RBracket)
    } else if c == 44 {
        Some(Tok::Comma)
    } else if c == 59 {
        Some(Tok::Semicolon)
    } else if c == 61 {
        Some(Tok::Assign)
    } else if c == 43 {
        Some(Tok::Plus)
    } else if c == 45 {
        Some(Tok::Minus)
    } else if c == 42 {
        Some(Tok::Star)
    } else if c == 47 {
        Some(Tok::Slash)
    } else if c == 37 {
        Some(Tok::Percent)
    } else if c == 60 {
        Some(Tok::Lt)
    } else if c == 62 {
        Some(Tok::Gt)
    } else if c == 33 {
        Some(Tok::Bang)
    } else {
        None
    }
}

/// The body of a string literal whose opening quote is at `start`.
fn scan_string(b: &[u8], start: usize) -> (r: Result<(Vec<char>, usize), LexErr>)
    requires
        start < b@.len(),
    ensures
        match scan_str(b@, start as int, start + 1, Seq::empty()) {
            Ok((s, j)) => r matches Ok((v, k)) && v@ == s && k == j,
            Err((o, m)) => r matches Err(e) && e.off == o && e.msg@ == m,
        },
{
    let mut acc: Vec<char> = Vec::new();
    let _n = b.len();
    let mut j = start + 1;
    while j < b.len() && b[j] != 34
        invariant
            start < j <= b@.len(),
            scan_str(b@, start as int, start + 1, Seq::empty()) == scan_str(b@, start as int, j as int, acc@),
        decreases b@.len() - j,
    {
        if b[j] == 92 {
            if j + 1 >= b.len() {
                return Err(LexErr { off: j, msg: string_of(str_chars("unterminated escape").as_slice()) });
            }
            let e = b[j + 1];
            if e == 110 {
                acc.push('\n');
            } else if e == 116 {
                acc.push('\t');
            } else if e == 34 {
                acc.push('"');
            } else if e == 92 {
                acc.push('\\');
            } else {
                let mut m = str_chars("unknown escape \\");
                m.push(e as char);
                return Err(LexErr { off: j, msg: string_of(m.as_slice()) });
            }
            j += 2;
        } else {
            acc.push(b[j] as char);
            j += 1;
        }
    }
    if j >= b.len() {
        return Err(LexErr { off: start, msg: string_of(str_chars("unterminated string").as_slice()) });
    }
    Ok((acc, j + 1))
}

fn lex_bytes(b: &[u8]) -> (r: LexRun)
    ensures
        match lex_from(b@, 0) {
            LexOut::Done(ts) => r matches LexRun::Done(v) && tokens_view(v@) == ts,
            LexOut::Fail(o, m) => r matches LexRun::Fail(e) && e.off == o && e.msg@ == m,
            LexOut::Stuck => r is Stuck,
        },
{
    let mut out: Vec<Token> = Vec::new();
    let mut i: usize = 0;
    while i < b.len()
        invariant
            0 <= i <= b@.len(),
            lex_from(b@, 0) == after(tokens_view(out@), lex_from(b@, i as int)),
        decreases b@.len() - i,
    {
        let c = b[i];
        let ghost tv = tokens_view(out@);
        if c == 32 || c == 9 || c == 13 || c == 10 {
            i += 1;
        } else if c == 35 {
            let mut j = i + 1;
            proof { lemma_line_end(b@, i + 1); }
            while j < b.len() && b[j] != 10
                invariant
                    i < j <= b@.len(),
                    line_end(b@, i + 1) == line_end(b@, j as int),
                decreases b@.len() - j,
            {
                j += 1;
            }
            i = j;
        } else if c == 34 {
            proof { lemma_scan_str(b@, i as int, i + 1, Seq::empty()); }
            match scan_string(b, i) {
                Ok((acc, j)) => {
                    let t = Token { tok: Tok::Str(string_of(acc.as_slice())), off: i };
                    proof {
                        lemma_after_cons(tv, t@, lex_from(b@, j as int));
                        assert(tokens_view(out@.push(t)) =~= tv.push(t@));
                    }
                    out.push(t);
                    i = j;
                },
                Err(e) => {
                    return LexRun::Fail(e);
                },
            }
        } else if 48 <= c && c <= 57 {
            let mut j = i + 1;
            let mut val: i64 = (c - 48) as i64;
            let mut overflow = false;
            proof {
                lemma_run_end(b@, i + 1, false);
                assert(b@.subrange(i as int, i + 1).drop_last() =~= Seq::<u8>::empty());
                assert(b@.subrange(i as int, i + 1).last() == c);
                assert(digits_value(Seq::<u8>::empty()) == 0);
            }
            while j < b.len() && 48 <= b[j] && b[j] <= 57
                invariant
                    i < j <= b@.len(),
                    run_end(b@, i + 1, false) == run_end(b@, j as int, false),
                    overflow ==> digits_value(b@.subrange(i as int, j as int)) > i64::MAX,
                    !overflow ==> val == digits_value(b@.subrange(i as int, j as int)),
                    val >= 0,
                decreases b@.len() - j,
            {
                let d = b[j] - 48;
                proof {
                    assert(b@.subrange(i as int, j + 1).drop_last() =~= b@.subrange(i as int, j as int));
                }
                if !overflow {
                    let nv: i128 = (val as i128) * 10 + d as i128;
                    if nv > 9223372036854775807 {
                        overflow = true;
                    } else {
                        val = nv as i64;
                    }
                }
                j += 1;
            }
            if overflow {
                return LexRun::Fail(LexErr { off: i, msg: string_of(str_chars("bad integer").as_slice()) });
            }
            let t = Token { tok: Tok::Int(val), off: i };
            proof {
                lemma_after_cons(tv, t@, lex_from(b@, j as int));
                assert(tokens_view(out@.push(t)) =~= tv.push(t@));
            }
            out.push(t);
            i = j;
        } else if (65 <= c && c <= 90) || (97 <= c && c <= 122) || c == 95 {
            let mut j = i + 1;
            let mut w: Vec<char> = Vec::new();
            w.push(c as char);
            proof { lemma_run_end(b@, i + 1, true); }
            while j < b.len() && ((65 <= b[j] && b[j] <= 90) || (97 <= b[j] && b[j] <= 122) || (48 <= b[j] && b[j] <= 57) || b[j] == 95 || b[j] == 46)
                invariant
                    i < j <= b@.len(),
                    run_end(b@, i + 1, true) == run_end(b@, j as int, true),
                    w@ =~= byte_chars(b@.subrange(i as int, j as int)),
                decreases b@.len() - j,
            {
                w.push(b[j] as char);
                j += 1;
            }
            let t = Token { tok: keyword_tok(&w), off: i };
            proof {
                lemma_after_cons(tv, t@, lex_from(b@, j as int));
                assert(tokens_view(out@.push(t)) =~= tv.push(t@));
            }
            out.push(t);
            i = j;
        } else if b.len() - i > 2 && 128 <= b[i + 2] && b[i + 2] <= 191 {
            return LexRun::Stuck;
        } else {
            let pair = if i + 1 < b.len() { pair_token(c, b[i + 1]) } else { None };
            match pair {
                Some(tok) => {
                    let t = Token { tok, off: i };
                    proof {
                        lemma_after_cons(tv, t@, lex_from(b@, i + 2));
                        assert(tokens_view(out@.push(t)) =~= tv.push(t@));
                    }
                    out.push(t);
                    i += 2;
                },
                None => match single_token(c) {
                    Some(tok) => {
                        let t = Token { tok, off: i };
                        proof {
                            lemma_after_cons(tv, t@, lex_from(b@, i + 1));
                            assert(tokens_view(out@.push(t)) =~= tv.push(t@));
                        }
                        out.push(t);
                        i += 1;
                    },
                    None => {
                        let mut m = str_chars("unexpected character ");
                        let d = debug_char(c as char);
                        push_str(&mut m, d.as_str());
                        return LexRun::Fail(LexErr { off: i, msg: string_of(m.as_slice()) });
                    },
                },
            }
        }
    }
    assert(tokens_view(out@) + Seq::<TokenV>::empty() =~= tokens_view(out@));
    LexRun::Done(out)
}

/// Can `lex` take this source? It cannot when a two-byte operator check
/// would cut the source inside a multi-byte character.
pub fn lexable(src: &str) -> (ok: bool)
    ensures
        ok == !(lex_spec(src.spec_bytes()) is Stuck),
{
    match lex_bytes(src.as_bytes()) {
        LexRun::Stuck => false,
        _ => true,
    }
}

/// The tokens of a source, each with its byte offset, or the first error.
pub fn lex(src: &str) -> (r: Result<Vec<Token>, LexErr>)
    requires
        !(lex_spec(src.spec_bytes()) is Stuck),
    ensures
        match lex_spec(src.spec_bytes()) {
            LexOut::Done(ts) => r matches Ok(v) && tokens_view(v@) == ts,
            LexOut::Fail(o, m) => r matches Err(e) && e.off == o && e.msg@ == m,
            LexOut::Stuck => false,
        },
{
    match lex_bytes(src.as_bytes()) {
        LexRun::Done(v) => Ok(v),
        LexRun::Fail(e) => Err(e),
        LexRun::Stuck => {
            proof {
                assert(false);
            }
            Ok(Vec::new())
        },
    }
}

/// A reserved word and the token it stands for.
pub open spec fn reserved(w: Seq<char>, t: TokV) -> bool {
    ||| w == "let"@ && t == TokV::Let
    ||| w == "if"@ && t == TokV::If
    ||| w == "else"@ && t == TokV::Else
    ||| w == "while"@ && t == TokV::While
    ||| w == "for"@ && t == TokV::For
    ||| w == "in"@ && t == TokV::In
    ||| w == "return"@ && t == TokV::Return
    ||| w == "true"@ && t == TokV::True
    ||| w == "false"@ && t == TokV::False
    ||| w == "nil"@ && t == TokV::Nil
}

/// Each reserved word is its own token, and any other word is an
/// identifier that carries the word itself.
pub proof fn law_keywords(w: Seq<char>, t: TokV)
    ensures
        reserved(w, t) ==> keyword(w) == t,
        keyword(w) is Ident ==> keyword(w) == TokV::Ident(w),
        !(keyword(w) is Ident) ==> reserved(w, keyword(w)),
{
    reveal_strlit("let");
    reveal_strlit("if");
    reveal_strlit("else");
    reveal_strlit("while");
    reveal_strlit("for");
    reveal_strlit("in");
    reveal_strlit("return");
    reveal_strlit("true");
    reveal_strlit("false");
    reveal_strlit("nil");
    // the words differ in length or, within a length, at these characters
    assert("let"@.len() == 3 && "for"@.len() == 3 && "nil"@.len() == 3);
    assert("if"@.len() == 2 && "in"@.len() == 2);
    assert("else"@.len() == 4 && "true"@.len() == 4);
    assert("while"@.len() == 5 && "false"@.len() == 5 && "return"@.len() == 6);
    assert("let"@[0] == 'l' && "for"@[0] == 'f' && "nil"@[0] == 'n');
    assert("if"@[1] == 'f' && "in"@[1] == 'n');
    assert("else"@[0] == 'e' && "true"@[0] == 't');
    assert("while"@[0] == 'w' && "false"@[0] == 'f');
}

/// A run of identifier bytes from `j` that stops at `e` ends at `e`.
proof fn lemma_ident_run(b: Seq<u8>, j: int, e: int)
    requires
        0 <= j <= e <= b.len(),
        forall|k: int| j <= k < e ==> is_ident_byte(#[trigger] b[k]),
        e == b.len() || !is_ident_byte(b[e]),
    ensures
        run_end(b, j, true) == e,
    decreases e - j,
{
    if j < e {
        lemma_ident_run(b, j + 1, e);
    }
}

/// Wherever a reserved word stands as a whole word in the source (the
/// byte after it, if any, cannot continue a word), lexing there gives
/// that word's own token at the word's offset, then the tokens after it.
pub proof fn law_reserved_word_lexes(b: Seq<u8>, i: int, w: Seq<char>, t: TokV)
    requires
        reserved(w, t),
        0 <= i,
        i + w.len() <= b.len(),
        byte_chars(b.subrange(i, i + w.len())) == w,
        i + w.len() == b.len() || !is_ident_byte(b[i + w.len()]),
    ensures
        lex_from(b, i) == cons(TokenV { tok: t, off: i }, lex_from(b, i + w.len())),
{
    law_keywords(w, t);
    reveal_strlit("let");
    reveal_strlit("if");
    reveal_strlit("else");
    reveal_strlit("while");
    reveal_strlit("for");
    reveal_strlit("in");
    reveal_strlit("return");
    reveal_strlit("true");
    reveal_strlit("false");
    reveal_strlit("nil");
    let n = w.len() as int;
    assert forall|k: int| i <= k < i + n implies is_alpha(#[trigger] b[k]) by {
        assert(byte_chars(b.subrange(i, i + n))[k - i] == (b[k] as char));
        assert(w[k - i] == (b[k] as char));
    }
    assert(is_alpha(b[i]));
    lemma_ident_run(b, i + 1, i + n);
}

} // verus!
