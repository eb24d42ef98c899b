//! What a .tape program does, as specs: evaluation of expressions,
//! execution of statements, the built-in calls, and the environment of
//! names.
//!
//! A program's effect calls are answered by the runtime. The semantics
//! takes those answers as an argument, `ans`: the answer to the call made
//! when `n` calls have been made so far is `ans[n]`. Given the answers,
//! everything else follows: the value or error, the calls made (site, kind,
//! arguments) and the environment left behind.
use crate::codec::{
    enc_bytes, enc_str, enc_str_bytes, enc_u64, take_bytes, take_opt_str, take_res_bytes,
    take_res_u64, take_strs, take_u64, value_of,
};
use crate::event::{EffectCall, EffectKind};
use crate::lang::ast::{BinOp, ExprV, StmtV};
use crate::lang::value::{binop, display, index_value, to_bytes, truthy, unop, ValueV};
use crate::text::{dec_nat, str_debug, trim_end, trim_start, utf8_lossy};
use crate::{fnv_bytes, fnv_mix};
use vstd::prelude::*;
use vstd::utf8::*;

verus! {

/// Why evaluation stopped: a runtime error of the script, or a runtime
/// (replay) that refused the call.
pub enum ErrV {
    Runtime(Seq<char>),
    Replay,
}

/// How a statement or block finished.
pub enum FlowV {
    Normal,
    Return(ValueV),
}

/// Name bindings of one scope, oldest first.
pub type Frame = Seq<(Seq<char>, ValueV)>;

/// The global scope and the stack of loop scopes, innermost last.
pub struct EnvV {
    pub globals: Frame,
    pub locals: Seq<Frame>,
}

/// What statements change: the names, the loop budget, and the calls made.
pub struct St {
    pub env: EnvV,
    pub steps: u64,
    pub calls: Seq<EffectCall>,
}

pub open spec fn rt_err<T>(m: Seq<char>) -> Result<T, ErrV> {
    Err(ErrV::Runtime(m))
}

pub open spec fn lift(r: Result<ValueV, Seq<char>>) -> Result<ValueV, ErrV> {
    match r {
        Ok(v) => Ok(v),
        Err(m) => Err(ErrV::Runtime(m)),
    }
}

pub open spec fn step_msg() -> Seq<char> {
    "step limit reached"@
}

// ---------------------------------------------------------------------------
// names

/// Where `k` was last bound in `f`.
pub open spec fn last_index(f: Frame, k: Seq<char>) -> Option<int>
    decreases f.len(),
{
    if f.len() == 0 {
        None
    } else if f.last().0 == k {
        Some(f.len() - 1)
    } else {
        last_index(f.drop_last(), k)
    }
}

pub proof fn lemma_last_index(f: Frame, k: Seq<char>)
    ensures
        last_index(f, k) matches Some(j) ==> 0 <= j < f.len() && f[j].0 == k,
    decreases f.len(),
{
    if f.len() > 0 && f.last().0 != k {
        lemma_last_index(f.drop_last(), k);
    }
}

pub open spec fn frame_get(f: Frame, k: Seq<char>) -> Option<ValueV> {
    match last_index(f, k) {
        Some(j) => Some(f[j].1),
        None => None,
    }
}

/// `f` with `k` bound to `v`: rebound in place, or added at the end.
pub open spec fn frame_set(f: Frame, k: Seq<char>, v: ValueV) -> Frame {
    match last_index(f, k) {
        Some(j) => f.update(j, (k, v)),
        None => f.push((k, v)),
    }
}

/// Look `k` up in the loop scopes, innermost first, then in the globals.
pub open spec fn frames_get(locals: Seq<Frame>, globals: Frame, k: Seq<char>) -> Option<ValueV>
    decreases locals.len(),
{
    if locals.len() == 0 {
        frame_get(globals, k)
    } else {
        match frame_get(locals.last(), k) {
            Some(v) => Some(v),
            None => frames_get(locals.drop_last(), globals, k),
        }
    }
}

pub open spec fn env_lookup(env: EnvV, k: Seq<char>) -> Option<ValueV> {
    frames_get(env.locals, env.globals, k)
}

/// `let` binds in the global scope.
pub open spec fn env_let(env: EnvV, k: Seq<char>, v: ValueV) -> EnvV {
    EnvV { globals: frame_set(env.globals, k, v), locals: env.locals }
}

/// A loop variable binds in the innermost loop scope (the globals if none).
pub open spec fn env_bind_local(env: EnvV, k: Seq<char>, v: ValueV) -> EnvV {
    if env.locals.len() > 0 {
        EnvV {
            globals: env.globals,
            locals: env.locals.update(
                env.locals.len() - 1,
                frame_set(env.locals.last(), k, v),
            ),
        }
    } else {
        env_let(env, k, v)
    }
}

pub open spec fn env_push(env: EnvV) -> EnvV {
    EnvV { globals: env.globals, locals: env.locals.push(Seq::empty()) }
}

pub open spec fn env_pop(env: EnvV) -> EnvV {
    if env.locals.len() > 0 {
        EnvV { globals: env.globals, locals: env.locals.drop_last() }
    } else {
        env
    }
}

// ---------------------------------------------------------------------------
// sites

/// The site id of a call whose opening paren is at byte `off` of the
/// script at `file`: FNV-1a over the path's bytes, then over the low and
/// high 32 bits of the offset.
pub open spec fn site_at(file: Seq<char>, off: int) -> u32 {
    let h = fnv_bytes(0x811c_9dc5, encode_utf8(file));
    let lo = ((off as u64) & 0xFFFF_FFFFu64) as u32;
    let hi = ((off as u64) >> 32u64) as u32;
    fnv_mix(fnv_mix(h, lo), hi)
}

// ---------------------------------------------------------------------------
// built-in calls

pub open spec fn args_msg(name: Seq<char>, n: nat, got: nat) -> Seq<char> {
    name + ": expected "@ + dec_nat(n) + " args, got "@ + dec_nat(got)
}

pub open spec fn as_int_spec(v: ValueV, ctx: Seq<char>) -> Result<i64, Seq<char>> {
    match v {
        ValueV::Int(n) => Ok(n),
        _ => Err(ctx + ": expected int"@),
    }
}

pub open spec fn as_str_spec(v: ValueV, ctx: Seq<char>) -> Result<Seq<char>, Seq<char>> {
    match v {
        ValueV::Str(s) => Ok(s),
        ValueV::Bytes(b) => Ok(utf8_lossy(b)),
        _ => Err(ctx + ": expected string"@),
    }
}

pub open spec fn is_digit(c: char) -> bool {
    48 <= (c as u32) <= 57
}

pub open spec fn digits_val(d: Seq<char>) -> int
    decreases d.len(),
{
    if d.len() == 0 {
        0
    } else {
        digits_val(d.drop_last()) * 10 + ((d.last() as u32) - 48)
    }
}

pub open spec fn all_digits(d: Seq<char>) -> bool {
    forall|i: int| 0 <= i < d.len() ==> is_digit(#[trigger] d[i])
}

/// The characters after a leading `+` or `-`.
pub open spec fn unsigned_part(s: Seq<char>) -> Seq<char> {
    if s.len() > 0 && (s[0] == '-' || s[0] == '+') {
        s.drop_first()
    } else {
        s
    }
}

/// `str::parse::<i64>`: an optional sign, then one or more ASCII digits,
/// the value in range.
pub open spec fn parse_i64(s: Seq<char>) -> Option<i64> {
    let d = unsigned_part(s);
    let v = if s.len() > 0 && s[0] == '-' {
        -digits_val(d)
    } else {
        digits_val(d)
    };
    if d.len() > 0 && all_digits(d) && i64::MIN <= v <= i64::MAX {
        Some(v as i64)
    } else {
        None
    }
}

/// `str::trim`.
pub open spec fn trim(s: Seq<char>) -> Seq<char> {
    trim_start(trim_end(s))
}

/// The pure built-ins: `len`, `int`, `str`, `byte_at`, applied to
/// arguments of the right number.
pub open spec fn len_spec(v: ValueV) -> Result<ValueV, Seq<char>> {
    match v {
        ValueV::Str(s) => Ok(ValueV::Int((encode_utf8(s).len() as usize) as i64)),
        ValueV::Bytes(b) => Ok(ValueV::Int(b.len() as i64)),
        ValueV::List(l) => Ok(ValueV::Int(l.len() as i64)),
        _ => Err("len: unsupported type"@),
    }
}

pub open spec fn int_spec(v: ValueV) -> Result<ValueV, Seq<char>> {
    match v {
        ValueV::Int(n) => Ok(ValueV::Int(n)),
        ValueV::Bool(b) => Ok(
            ValueV::Int(
                if b {
                    1
                } else {
                    0
                },
            ),
        ),
        ValueV::Str(s) => match parse_i64(trim(s)) {
            Some(n) => Ok(ValueV::Int(n)),
            None => Err("int: cannot parse "@ + str_debug(s)),
        },
        _ => Err("int: unsupported type"@),
    }
}

pub open spec fn byte_at_spec(t: ValueV, i: ValueV) -> Result<ValueV, Seq<char>> {
    match as_int_spec(i, "byte_at index"@) {
        Err(m) => Err(m),
        Ok(n) => {
            let k = n as usize;
            match t {
                ValueV::Bytes(b) => if k < b.len() {
                    Ok(ValueV::Int(b[k as int] as i64))
                } else {
                    Err("byte_at: out of range"@)
                },
                ValueV::Str(s) => if k < encode_utf8(s).len() {
                    Ok(ValueV::Int(encode_utf8(s)[k as int] as i64))
                } else {
                    Err("byte_at: out of range"@)
                },
                _ => Err("byte_at: need bytes or string"@),
            }
        },
    }
}

/// `c` with one more call, answered by `ans`.
pub open spec fn answered(
    c: Seq<EffectCall>,
    ans: Seq<Seq<u8>>,
    site: u32,
    kind: EffectKind,
    args: Seq<u8>,
) -> Seq<EffectCall> {
    c.push(EffectCall { site, kind, args, result: ans[c.len() as int] })
}

/// Each effect call: the call it makes, and what the script gets from the
/// answer. An answer the call cannot use (it does not decode, or has the
/// wrong shape) stops the script with a replay error.
pub open spec fn eff_now(site: u32, c: Seq<EffectCall>, ans: Seq<Seq<u8>>) -> (
    Result<ValueV, ErrV>,
    Seq<EffectCall>,
) {
    (
        match value_of(take_u64(ans[c.len() as int])) {
            Some(t) => Ok(ValueV::Int(t as i64)),
            None => Err(ErrV::Replay),
        },
        answered(c, ans, site, EffectKind::ClockNow, Seq::empty()),
    )
}

pub open spec fn eff_random(site: u32, len: usize, c: Seq<EffectCall>, ans: Seq<Seq<u8>>) -> (
    Result<ValueV, ErrV>,
    Seq<EffectCall>,
) {
    (
        match value_of(take_bytes(ans[c.len() as int])) {
            Some(b) => if b.len() == len {
                Ok(ValueV::Bytes(b))
            } else {
                Err(ErrV::Replay)
            },
            None => Err(ErrV::Replay),
        },
        answered(c, ans, site, EffectKind::RandomBits, enc_u64(len as u64)),
    )
}

pub open spec fn eff_write(site: u32, buf: Seq<u8>, c: Seq<EffectCall>, ans: Seq<Seq<u8>>) -> (
    Result<ValueV, ErrV>,
    Seq<EffectCall>,
) {
    (
        match value_of(take_u64(ans[c.len() as int])) {
            Some(n) => Ok(ValueV::Int((n as usize) as i64)),
            None => Err(ErrV::Replay),
        },
        answered(c, ans, site, EffectKind::IoWrite, enc_bytes(buf)),
    )
}

pub open spec fn eff_read(site: u32, path: Seq<char>, c: Seq<EffectCall>, ans: Seq<Seq<u8>>) -> (
    Result<ValueV, ErrV>,
    Seq<EffectCall>,
) {
    (
        match value_of(take_res_bytes(ans[c.len() as int])) {
            Some(Ok(b)) => Ok(ValueV::Bytes(b)),
            Some(Err(e)) => rt_err("fs.read("@ + path + "): "@ + e),
            None => Err(ErrV::Replay),
        },
        answered(c, ans, site, EffectKind::FsRead, enc_str(path)),
    )
}

pub open spec fn eff_fwrite(
    site: u32,
    path: Seq<char>,
    buf: Seq<u8>,
    c: Seq<EffectCall>,
    ans: Seq<Seq<u8>>,
) -> (Result<ValueV, ErrV>, Seq<EffectCall>) {
    (
        match value_of(take_res_u64(ans[c.len() as int])) {
            Some(Ok(n)) => if n <= usize::MAX {
                Ok(ValueV::Int(n as i64))
            } else {
                Err(ErrV::Replay)
            },
            Some(Err(e)) => rt_err("fs.write("@ + path + "): "@ + e),
            None => Err(ErrV::Replay),
        },
        answered(c, ans, site, EffectKind::FsWrite, enc_str_bytes(path, buf)),
    )
}

pub open spec fn eff_env(site: u32, name: Seq<char>, c: Seq<EffectCall>, ans: Seq<Seq<u8>>) -> (
    Result<ValueV, ErrV>,
    Seq<EffectCall>,
) {
    (
        match value_of(take_opt_str(ans[c.len() as int])) {
            Some(Some(s)) => Ok(ValueV::Str(s)),
            Some(None) => Ok(ValueV::Str(Seq::empty())),
            None => Err(ErrV::Replay),
        },
        answered(c, ans, site, EffectKind::EnvGet, enc_str(name)),
    )
}

pub open spec fn str_values(ss: Seq<Seq<char>>) -> Seq<ValueV> {
    ss.map_values(|s: Seq<char>| ValueV::Str(s))
}

pub open spec fn eff_args(site: u32, c: Seq<EffectCall>, ans: Seq<Seq<u8>>) -> (
    Result<ValueV, ErrV>,
    Seq<EffectCall>,
) {
    (
        match value_of(take_strs(ans[c.len() as int])) {
            Some(ss) => Ok(ValueV::List(str_values(ss))),
            None => Err(ErrV::Replay),
        },
        answered(c, ans, site, EffectKind::ArgsGet, Seq::empty()),
    )
}

pub open spec fn eff_sleep(site: u32, millis: u64, c: Seq<EffectCall>, ans: Seq<Seq<u8>>) -> (
    Result<ValueV, ErrV>,
    Seq<EffectCall>,
) {
    (Ok(ValueV::Nil), answered(c, ans, site, EffectKind::TimeSleep, enc_u64(millis)))
}

/// A pure result, with no call made.
pub open spec fn pure(r: Result<ValueV, Seq<char>>, c: Seq<EffectCall>) -> (
    Result<ValueV, ErrV>,
    Seq<EffectCall>,
) {
    (lift(r), c)
}

/// A call of the built-in `name` on evaluated arguments `vals`, made at
/// `site`. Each built-in first checks its number of arguments.
pub open spec fn call_spec(
    name: Seq<char>,
    vals: Seq<ValueV>,
    site: u32,
    c: Seq<EffectCall>,
    ans: Seq<Seq<u8>>,
) -> (Result<ValueV, ErrV>, Seq<EffectCall>) {
    let n = vals.len();
    if name == "clock.now"@ {
        if n != 0 {
            pure(Err(args_msg(name, 0, n)), c)
        } else {
            eff_now(site, c, ans)
        }
    } else if name == "random.bits"@ {
        if n != 1 {
            pure(Err(args_msg(name, 1, n)), c)
        } else {
            match as_int_spec(vals[0], "random.bits len"@) {
                Ok(len) => eff_random(site, len as usize, c, ans),
                Err(m) => pure(Err(m), c),
            }
        }
    } else if name == "io.write"@ {
        if n != 1 {
            pure(Err(args_msg(name, 1, n)), c)
        } else {
            eff_write(site, to_bytes(vals[0]), c, ans)
        }
    } else if name == "fs.read"@ {
        if n != 1 {
            pure(Err(args_msg(name, 1, n)), c)
        } else {
            match as_str_spec(vals[0], "fs.read path"@) {
                Ok(p) => eff_read(site, p, c, ans),
                Err(m) => pure(Err(m), c),
            }
        }
    } else if name == "fs.write"@ {
        if n != 2 {
            pure(Err(args_msg(name, 2, n)), c)
        } else {
            match as_str_spec(vals[0], "fs.write path"@) {
                Ok(p) => eff_fwrite(site, p, to_bytes(vals[1]), c, ans),
                Err(m) => pure(Err(m), c),
            }
        }
    } else if name == "env.get"@ {
        if n != 1 {
            pure(Err(args_msg(name, 1, n)), c)
        } else {
            match as_str_spec(vals[0], "env.get name"@) {
                Ok(k) => eff_env(site, k, c, ans),
                Err(m) => pure(Err(m), c),
            }
        }
    } else if name == "args.get"@ {
        if n != 0 {
            pure(Err(args_msg(name, 0, n)), c)
        } else {
            eff_args(site, c, ans)
        }
    } else if name == "time.sleep"@ {
        if n != 1 {
            pure(Err(args_msg(name, 1, n)), c)
        } else {
            match as_int_spec(vals[0], "time.sleep millis"@) {
                Ok(ms) => eff_sleep(site, ms as u64, c, ans),
                Err(m) => pure(Err(m), c),
            }
        }
    } else if name == "print"@ {
        if n != 1 {
            pure(Err(args_msg(name, 1, n)), c)
        } else {
            eff_write(site, to_bytes(vals[0]).push(10u8), c, ans)
        }
    } else if name == "len"@ {
        if n != 1 {
            pure(Err(args_msg(name, 1, n)), c)
        } else {
            pure(len_spec(vals[0]), c)
        }
    } else if name == "int"@ {
        if n != 1 {
            pure(Err(args_msg(name, 1, n)), c)
        } else {
            pure(int_spec(vals[0]), c)
        }
    } else if name == "str"@ {
        if n != 1 {
            pure(Err(args_msg(name, 1, n)), c)
        } else {
            pure(Ok(ValueV::Str(display(vals[0]))), c)
        }
    } else if name == "byte_at"@ {
        if n != 2 {
            pure(Err(args_msg(name, 2, n)), c)
        } else {
            pure(byte_at_spec(vals[0], vals[1]), c)
        }
    } else {
        pure(Err("unknown function: "@ + name), c)
    }
}

// ---------------------------------------------------------------------------
// expressions

/// Evaluate `e` in `env`, the calls so far being `c`. Expressions do not
/// change the names; they only make calls.
pub open spec fn eval(
    e: ExprV,
    file: Seq<char>,
    env: EnvV,
    c: Seq<EffectCall>,
    ans: Seq<Seq<u8>>,
) -> (Result<ValueV, ErrV>, Seq<EffectCall>)
    decreases e, 0int,
{
    match e {
        ExprV::Nil => (Ok(ValueV::Nil), c),
        ExprV::Bool(b) => (Ok(ValueV::Bool(b)), c),
        ExprV::Int(n) => (Ok(ValueV::Int(n)), c),
        ExprV::Str(s) => (Ok(ValueV::Str(s)), c),
        ExprV::Ident(n) => match env_lookup(env, n) {
            Some(v) => (Ok(v), c),
            None => (rt_err("unbound name: "@ + n), c),
        },
        ExprV::Call { callee, args, off } => {
            let (r, c1) = eval_args(args, 0, file, env, c, ans, Seq::empty());
            match r {
                Ok(vals) => call_spec(callee, vals, site_at(file, off), c1, ans),
                Err(x) => (Err(x), c1),
            }
        },
        ExprV::Binary { op, lhs, rhs } => {
            let (l, c1) = eval(*lhs, file, env, c, ans);
            match l {
                Err(x) => (Err(x), c1),
                Ok(lv) => if op == BinOp::And && !truthy(lv) {
                    (Ok(ValueV::Bool(false)), c1)
                } else if op == BinOp::Or && truthy(lv) {
                    (Ok(ValueV::Bool(true)), c1)
                } else {
                    let (r, c2) = eval(*rhs, file, env, c1, ans);
                    match r {
                        Err(x) => (Err(x), c2),
                        Ok(rv) => if op == BinOp::And || op == BinOp::Or {
                            (Ok(ValueV::Bool(truthy(rv))), c2)
                        } else {
                            (lift(binop(op, lv, rv)), c2)
                        },
                    }
                },
            }
        },
        ExprV::Unary { op, rhs } => {
            let (v, c1) = eval(*rhs, file, env, c, ans);
            match v {
                Err(x) => (Err(x), c1),
                Ok(x) => (lift(unop(op, x)), c1),
            }
        },
        ExprV::Index { target, index } => {
            let (t, c1) = eval(*target, file, env, c, ans);
            match t {
                Err(x) => (Err(x), c1),
                Ok(tv) => {
                    let (i, c2) = eval(*index, file, env, c1, ans);
                    match i {
                        Err(x) => (Err(x), c2),
                        Ok(iv) => (lift(index_value(tv, iv)), c2),
                    }
                },
            }
        },
    }
}

/// Evaluate `args[i..]` left to right, appending the values to `acc`.
pub open spec fn eval_args(
    args: Seq<ExprV>,
    i: int,
    file: Seq<char>,
    env: EnvV,
    c: Seq<EffectCall>,
    ans: Seq<Seq<u8>>,
    acc: Seq<ValueV>,
) -> (Result<Seq<ValueV>, ErrV>, Seq<EffectCall>)
    decreases args, args.len() - i,
{
    if i < 0 || i >= args.len() {
        (Ok(acc), c)
    } else {
        let (r, c1) = eval(args[i], file, env, c, ans);
        match r {
            Ok(v) => eval_args(args, i + 1, file, env, c1, ans, acc.push(v)),
            Err(x) => (Err(x), c1),
        }
    }
}

// ---------------------------------------------------------------------------
// statements

pub open spec fn with_calls(st: St, c: Seq<EffectCall>) -> St {
    St { env: st.env, steps: st.steps, calls: c }
}

/// Execute one statement.
pub open spec fn exec_spec(s: StmtV, file: Seq<char>, st: St, ans: Seq<Seq<u8>>) -> (
    Result<FlowV, ErrV>,
    St,
)
    decreases st.steps, s, 0int,
{
    match s {
        StmtV::Let(n, e) => {
            let (r, c1) = eval(e, file, st.env, st.calls, ans);
            match r {
                Ok(v) => (Ok(FlowV::Normal), St { env: env_let(st.env, n, v), steps: st.steps, calls: c1 }),
                Err(x) => (Err(x), with_calls(st, c1)),
            }
        },
        StmtV::If(cond, tb, eb) => {
            let (r, c1) = eval(cond, file, st.env, st.calls, ans);
            let st1 = with_calls(st, c1);
            match r {
                Err(x) => (Err(x), st1),
                Ok(v) => if truthy(v) {
                    block_spec(tb, 0, file, st1, ans)
                } else {
                    match eb {
                        Some(b) => block_spec(b, 0, file, st1, ans),
                        None => (Ok(FlowV::Normal), st1),
                    }
                },
            }
        },
        StmtV::While(cond, body) => while_spec(cond, body, file, st, ans),
        StmtV::For(n, lo, hi, body) => {
            let (a, c1) = eval(lo, file, st.env, st.calls, ans);
            match a {
                Err(x) => (Err(x), with_calls(st, c1)),
                Ok(av) => {
                    let (b, c2) = eval(hi, file, st.env, c1, ans);
                    let st2 = with_calls(st, c2);
                    match b {
                        Err(x) => (Err(x), st2),
                        Ok(bv) => match (av, bv) {
                            (ValueV::Int(x), ValueV::Int(y)) => for_spec(n, x, y, body, file, st2, ans),
                            _ => (rt_err("for range needs ints"@), st2),
                        },
                    }
                },
            }
        },
        StmtV::Return(e) => match e {
            Some(x) => {
                let (r, c1) = eval(x, file, st.env, st.calls, ans);
                match r {
                    Ok(v) => (Ok(FlowV::Return(v)), with_calls(st, c1)),
                    Err(x) => (Err(x), with_calls(st, c1)),
                }
            },
            None => (Ok(FlowV::Return(ValueV::Nil)), st),
        },
        StmtV::Expr(e) => {
            let (r, c1) = eval(e, file, st.env, st.calls, ans);
            match r {
                Ok(_) => (Ok(FlowV::Normal), with_calls(st, c1)),
                Err(x) => (Err(x), with_calls(st, c1)),
            }
        },
    }
}

/// Execute `ss[i..]` in order, stopping at the first `return` or error.
pub open spec fn block_spec(ss: Seq<StmtV>, i: int, file: Seq<char>, st: St, ans: Seq<Seq<u8>>) -> (
    Result<FlowV, ErrV>,
    St,
)
    decreases st.steps, ss, ss.len() - i,
{
    if i < 0 || i >= ss.len() {
        (Ok(FlowV::Normal), st)
    } else {
        let (r, st1) = exec_spec(ss[i], file, st, ans);
        match r {
            Ok(FlowV::Normal) => if st1.steps <= st.steps {
                block_spec(ss, i + 1, file, st1, ans)
            } else {
                (rt_err(step_msg()), st1)
            },
            other => (other, st1),
        }
    }
}

/// `while cond { body }`: each pass through the body spends one step of
/// the budget; with none left, the loop stops with an error.
pub open spec fn while_spec(
    cond: ExprV,
    body: Seq<StmtV>,
    file: Seq<char>,
    st: St,
    ans: Seq<Seq<u8>>,
) -> (Result<FlowV, ErrV>, St)
    decreases st.steps, body, 0int,
{
    let (r, c1) = eval(cond, file, st.env, st.calls, ans);
    let st1 = with_calls(st, c1);
    match r {
        Err(x) => (Err(x), st1),
        Ok(v) => if !truthy(v) {
            (Ok(FlowV::Normal), st1)
        } else if st.steps == 0 {
            (rt_err(step_msg()), st1)
        } else {
            let st2 = St { env: st1.env, steps: (st.steps - 1) as u64, calls: c1 };
            let (b, st3) = block_spec(body, 0, file, st2, ans);
            match b {
                Ok(FlowV::Normal) => if st3.steps < st.steps {
                    while_spec(cond, body, file, st3, ans)
                } else {
                    (rt_err(step_msg()), st3)
                },
                other => (other, st3),
            }
        },
    }
}

/// `for name in i..hi { body }`: each pass binds `name` in a scope of its
/// own, which the pass drops when the body finishes normally.
pub open spec fn for_spec(
    name: Seq<char>,
    i: i64,
    hi: i64,
    body: Seq<StmtV>,
    file: Seq<char>,
    st: St,
    ans: Seq<Seq<u8>>,
) -> (Result<FlowV, ErrV>, St)
    decreases st.steps, body, hi - i + body.len() + 1,
{
    if i >= hi {
        (Ok(FlowV::Normal), st)
    } else {
        let env1 = env_bind_local(env_push(st.env), name, ValueV::Int(i));
        let (b, st2) = block_spec(body, 0, file, St { env: env1, steps: st.steps, calls: st.calls }, ans);
        match b {
            Err(x) => (Err(x), st2),
            Ok(flow) => {
                let st3 = St { env: env_pop(st2.env), steps: st2.steps, calls: st2.calls };
                match flow {
                    FlowV::Return(v) => (Ok(FlowV::Return(v)), st3),
                    FlowV::Normal => if st3.steps <= st.steps {
                        for_spec(name, (i + 1) as i64, hi, body, file, st3, ans)
                    } else {
                        (rt_err(step_msg()), st3)
                    },
                }
            },
        }
    }
}

/// A whole program: its exit code is what it returns, if that is an
/// integer (taken as an `i32`), and 0 otherwise.
pub open spec fn run_spec(prog: Seq<StmtV>, file: Seq<char>, st: St, ans: Seq<Seq<u8>>) -> (
    Result<i32, ErrV>,
    St,
) {
    let (r, st1) = block_spec(prog, 0, file, st, ans);
    (
        match r {
            Ok(FlowV::Return(ValueV::Int(n))) => Ok(n as i32),
            Ok(_) => Ok(0),
            Err(x) => Err(x),
        },
        st1,
    )
}

// ---------------------------------------------------------------------------
// histories and answers

/// `h1` is `h0` with more calls after it.
pub open spec fn extends(h0: Seq<EffectCall>, h1: Seq<EffectCall>) -> bool {
    h0.len() <= h1.len() && h1.take(h0.len() as int) == h0
}

/// `ans` holds the answers recorded in `h` (and maybe more after them).
pub open spec fn agrees(ans: Seq<Seq<u8>>, h: Seq<EffectCall>) -> bool {
    h.len() <= ans.len() && forall|i: int| 0 <= i < h.len() ==> ans[i] == #[trigger] h[i].result
}

/// The answers recorded in a history.
pub open spec fn answers(h: Seq<EffectCall>) -> Seq<Seq<u8>> {
    h.map_values(|c: EffectCall| c.result)
}

pub proof fn lemma_agrees_prefix(ans: Seq<Seq<u8>>, h0: Seq<EffectCall>, h1: Seq<EffectCall>)
    requires
        extends(h0, h1),
        agrees(ans, h1),
    ensures
        agrees(ans, h0),
{
    assert forall|i: int| 0 <= i < h0.len() implies ans[i] == #[trigger] h0[i].result by {
        assert(h1.take(h0.len() as int)[i] == h1[i]);
    }
}

pub proof fn lemma_extends_trans(h0: Seq<EffectCall>, h1: Seq<EffectCall>, h2: Seq<EffectCall>)
    requires
        extends(h0, h1),
        extends(h1, h2),
    ensures
        extends(h0, h2),
{
    assert(h2.take(h0.len() as int) =~= h1.take(h0.len() as int));
}

} // verus!

verus! {

// ---------------------------------------------------------------------------
// a run reads only the answers to the calls it makes

/// `a1` and `a2` hold the same answers at positions `lo..hi`.
pub open spec fn agree_on(a1: Seq<Seq<u8>>, a2: Seq<Seq<u8>>, lo: int, hi: int) -> bool {
    forall|i: int| lo <= i < hi ==> #[trigger] a1[i] == a2[i]
}

pub proof fn lemma_call_grows(
    name: Seq<char>,
    vals: Seq<ValueV>,
    site: u32,
    c: Seq<EffectCall>,
    ans: Seq<Seq<u8>>,
)
    ensures
        c.len() <= call_spec(name, vals, site, c, ans).1.len() <= c.len() + 1,
        call_spec(name, vals, site, c, ans).1.take(c.len() as int) == c,
{
    let out = call_spec(name, vals, site, c, ans).1;
    assert(out.take(c.len() as int) =~= c);
}

pub proof fn lemma_call_frame(
    name: Seq<char>,
    vals: Seq<ValueV>,
    site: u32,
    c: Seq<EffectCall>,
    a1: Seq<Seq<u8>>,
    a2: Seq<Seq<u8>>,
)
    requires
        agree_on(a1, a2, c.len() as int, call_spec(name, vals, site, c, a1).1.len() as int),
    ensures
        call_spec(name, vals, site, c, a2) == call_spec(name, vals, site, c, a1),
{
    lemma_call_grows(name, vals, site, c, a1);
    if call_spec(name, vals, site, c, a1).1.len() > c.len() {
        assert(a1[c.len() as int] == a2[c.len() as int]);
    }
}

pub proof fn lemma_eval_grows(e: ExprV, file: Seq<char>, env: EnvV, c: Seq<EffectCall>, ans: Seq<Seq<u8>>)
    ensures
        c.len() <= eval(e, file, env, c, ans).1.len(),
        eval(e, file, env, c, ans).1.take(c.len() as int) == c,
    decreases e, 0int,
{
    match e {
        ExprV::Call { callee, args, off } => {
            lemma_args_grows(args, 0, file, env, c, ans, Seq::empty());
            let (r, c1) = eval_args(args, 0, file, env, c, ans, Seq::empty());
            if r is Ok {
                lemma_call_grows(callee, r->Ok_0, site_at(file, off), c1, ans);
                let c2 = call_spec(callee, r->Ok_0, site_at(file, off), c1, ans).1;
                assert(c2.take(c.len() as int) =~= c1.take(c.len() as int));
            }
        },
        ExprV::Binary { op, lhs, rhs } => {
            lemma_eval_grows(*lhs, file, env, c, ans);
            let (l, c1) = eval(*lhs, file, env, c, ans);
            lemma_eval_grows(*rhs, file, env, c1, ans);
            let c2 = eval(*rhs, file, env, c1, ans).1;
            assert(c2.take(c.len() as int) =~= c1.take(c.len() as int));
        },
        ExprV::Unary { op, rhs } => {
            lemma_eval_grows(*rhs, file, env, c, ans);
        },
        ExprV::Index { target, index } => {
            lemma_eval_grows(*target, file, env, c, ans);
            let (t, c1) = eval(*target, file, env, c, ans);
            lemma_eval_grows(*index, file, env, c1, ans);
            let c2 = eval(*index, file, env, c1, ans).1;
            assert(c2.take(c.len() as int) =~= c1.take(c.len() as int));
        },
        _ => {
            assert(c.take(c.len() as int) =~= c);
        },
    }
}

pub proof fn lemma_args_grows(
    args: Seq<ExprV>,
    i: int,
    file: Seq<char>,
    env: EnvV,
    c: Seq<EffectCall>,
    ans: Seq<Seq<u8>>,
    acc: Seq<ValueV>,
)
    ensures
        c.len() <= eval_args(args, i, file, env, c, ans, acc).1.len(),
        eval_args(args, i, file, env, c, ans, acc).1.take(c.len() as int) == c,
    decreases args, args.len() - i,
{
    if i < 0 || i >= args.len() {
        assert(c.take(c.len() as int) =~= c);
    } else {
        lemma_eval_grows(args[i], file, env, c, ans);
        let (r, c1) = eval(args[i], file, env, c, ans);
        if r is Ok {
            lemma_args_grows(args, i + 1, file, env, c1, ans, acc.push(r->Ok_0));
            let c2 = eval_args(args, i + 1, file, env, c1, ans, acc.push(r->Ok_0)).1;
            assert(c2.take(c.len() as int) =~= c1.take(c.len() as int));
        }
    }
}

pub proof fn lemma_eval_frame(
    e: ExprV,
    file: Seq<char>,
    env: EnvV,
    c: Seq<EffectCall>,
    a1: Seq<Seq<u8>>,
    a2: Seq<Seq<u8>>,
)
    requires
        agree_on(a1, a2, c.len() as int, eval(e, file, env, c, a1).1.len() as int),
    ensures
        eval(e, file, env, c, a2) == eval(e, file, env, c, a1),
    decreases e, 0int,
{
    lemma_eval_grows(e, file, env, c, a1);
    match e {
        ExprV::Call { callee, args, off } => {
            lemma_args_grows(args, 0, file, env, c, a1, Seq::empty());
            let (r, c1) = eval_args(args, 0, file, env, c, a1, Seq::empty());
            if r is Ok {
                lemma_call_grows(callee, r->Ok_0, site_at(file, off), c1, a1);
            }
            lemma_args_frame(args, 0, file, env, c, a1, a2, Seq::empty());
            if r is Ok {
                lemma_call_frame(callee, r->Ok_0, site_at(file, off), c1, a1, a2);
            }
        },
        ExprV::Binary { op, lhs, rhs } => {
            let (l, c1) = eval(*lhs, file, env, c, a1);
            lemma_eval_grows(*lhs, file, env, c, a1);
            lemma_eval_grows(*rhs, file, env, c1, a1);
            lemma_eval_frame(*lhs, file, env, c, a1, a2);
            if l is Ok && !(op == BinOp::And && !truthy(l->Ok_0)) && !(op == BinOp::Or && truthy(
                l->Ok_0,
            )) {
                lemma_eval_frame(*rhs, file, env, c1, a1, a2);
            }
        },
        ExprV::Unary { op, rhs } => {
            lemma_eval_frame(*rhs, file, env, c, a1, a2);
        },
        ExprV::Index { target, index } => {
            let (t, c1) = eval(*target, file, env, c, a1);
            lemma_eval_grows(*target, file, env, c, a1);
            lemma_eval_grows(*index, file, env, c1, a1);
            lemma_eval_frame(*target, file, env, c, a1, a2);
            if t is Ok {
                lemma_eval_frame(*index, file, env, c1, a1, a2);
            }
        },
        _ => {},
    }
}

pub proof fn lemma_args_frame(
    args: Seq<ExprV>,
    i: int,
    file: Seq<char>,
    env: EnvV,
    c: Seq<EffectCall>,
    a1: Seq<Seq<u8>>,
    a2: Seq<Seq<u8>>,
    acc: Seq<ValueV>,
)
    requires
        agree_on(a1, a2, c.len() as int, eval_args(args, i, file, env, c, a1, acc).1.len() as int),
    ensures
        eval_args(args, i, file, env, c, a2, acc) == eval_args(args, i, file, env, c, a1, acc),
    decreases args, args.len() - i,
{
    if 0 <= i < args.len() {
        let (r, c1) = eval(args[i], file, env, c, a1);
        lemma_eval_grows(args[i], file, env, c, a1);
        if r is Ok {
            lemma_args_grows(args, i + 1, file, env, c1, a1, acc.push(r->Ok_0));
        }
        lemma_eval_frame(args[i], file, env, c, a1, a2);
        if r is Ok {
            lemma_args_frame(args, i + 1, file, env, c1, a1, a2, acc.push(r->Ok_0));
        }
    }
}

} // verus!

verus! {

pub proof fn lemma_stmt_grows(s: StmtV, file: Seq<char>, st: St, ans: Seq<Seq<u8>>)
    ensures
        extends(st.calls, exec_spec(s, file, st, ans).1.calls),
    decreases st.steps, s, 0int,
{
    match s {
        StmtV::Let(n, e) => {
            lemma_eval_grows(e, file, st.env, st.calls, ans);
        },
        StmtV::If(cond, tb, eb) => {
            lemma_eval_grows(cond, file, st.env, st.calls, ans);
            let (r, c1) = eval(cond, file, st.env, st.calls, ans);
            let st1 = with_calls(st, c1);
            if r is Ok {
                if truthy(r->Ok_0) {
                    lemma_block_grows(tb, 0, file, st1, ans);
                    lemma_extends_trans(st.calls, c1, block_spec(tb, 0, file, st1, ans).1.calls);
                } else if eb is Some {
                    lemma_block_grows(eb->Some_0, 0, file, st1, ans);
                    lemma_extends_trans(st.calls, c1, block_spec(eb->Some_0, 0, file, st1, ans).1.calls);
                }
            }
        },
        StmtV::While(cond, body) => {
            lemma_while_grows(cond, body, file, st, ans);
        },
        StmtV::For(n, lo, hi, body) => {
            lemma_eval_grows(lo, file, st.env, st.calls, ans);
            let (a, c1) = eval(lo, file, st.env, st.calls, ans);
            if a is Ok {
                lemma_eval_grows(hi, file, st.env, c1, ans);
                let (b, c2) = eval(hi, file, st.env, c1, ans);
                lemma_extends_trans(st.calls, c1, c2);
                if b is Ok {
                    match (a->Ok_0, b->Ok_0) {
                        (ValueV::Int(x), ValueV::Int(y)) => {
                            lemma_for_grows(n, x, y, body, file, with_calls(st, c2), ans);
                            lemma_extends_trans(
                                st.calls,
                                c2,
                                for_spec(n, x, y, body, file, with_calls(st, c2), ans).1.calls,
                            );
                        },
                        _ => {},
                    }
                }
            }
        },
        StmtV::Return(e) => {
            if e is Some {
                lemma_eval_grows(e->Some_0, file, st.env, st.calls, ans);
            } else {
                assert(st.calls.take(st.calls.len() as int) =~= st.calls);
            }
        },
        StmtV::Expr(e) => {
            lemma_eval_grows(e, file, st.env, st.calls, ans);
        },
    }
}

pub proof fn lemma_block_grows(ss: Seq<StmtV>, i: int, file: Seq<char>, st: St, ans: Seq<Seq<u8>>)
    ensures
        extends(st.calls, block_spec(ss, i, file, st, ans).1.calls),
    decreases st.steps, ss, ss.len() - i,
{
    if i < 0 || i >= ss.len() {
        assert(st.calls.take(st.calls.len() as int) =~= st.calls);
    } else {
        lemma_stmt_grows(ss[i], file, st, ans);
        let (r, st1) = exec_spec(ss[i], file, st, ans);
        if r == Ok::<FlowV, ErrV>(FlowV::Normal) && st1.steps <= st.steps {
            lemma_block_grows(ss, i + 1, file, st1, ans);
            lemma_extends_trans(st.calls, st1.calls, block_spec(ss, i + 1, file, st1, ans).1.calls);
        }
    }
}

pub proof fn lemma_while_grows(cond: ExprV, body: Seq<StmtV>, file: Seq<char>, st: St, ans: Seq<Seq<u8>>)
    ensures
        extends(st.calls, while_spec(cond, body, file, st, ans).1.calls),
    decreases st.steps, body, 0int,
{
    lemma_eval_grows(cond, file, st.env, st.calls, ans);
    let (r, c1) = eval(cond, file, st.env, st.calls, ans);
    if r is Ok && truthy(r->Ok_0) && st.steps != 0 {
        let st2 = St { env: st.env, steps: (st.steps - 1) as u64, calls: c1 };
        lemma_block_grows(body, 0, file, st2, ans);
        let (b, st3) = block_spec(body, 0, file, st2, ans);
        lemma_extends_trans(st.calls, c1, st3.calls);
        if b == Ok::<FlowV, ErrV>(FlowV::Normal) && st3.steps < st.steps {
            lemma_while_grows(cond, body, file, st3, ans);
            lemma_extends_trans(st.calls, st3.calls, while_spec(cond, body, file, st3, ans).1.calls);
        }
    }
}

pub proof fn lemma_for_grows(
    name: Seq<char>,
    i: i64,
    hi: i64,
    body: Seq<StmtV>,
    file: Seq<char>,
    st: St,
    ans: Seq<Seq<u8>>,
)
    ensures
        extends(st.calls, for_spec(name, i, hi, body, file, st, ans).1.calls),
    decreases st.steps, body, hi - i + body.len() + 1,
{
    if i >= hi {
        assert(st.calls.take(st.calls.len() as int) =~= st.calls);
    } else {
        let env1 = env_bind_local(env_push(st.env), name, ValueV::Int(i));
        let st1 = St { env: env1, steps: st.steps, calls: st.calls };
        lemma_block_grows(body, 0, file, st1, ans);
        let (b, st2) = block_spec(body, 0, file, st1, ans);
        if b == Ok::<FlowV, ErrV>(FlowV::Normal) && st2.steps <= st.steps {
            let st3 = St { env: env_pop(st2.env), steps: st2.steps, calls: st2.calls };
            lemma_for_grows(name, (i + 1) as i64, hi, body, file, st3, ans);
            lemma_extends_trans(
                st.calls,
                st2.calls,
                for_spec(name, (i + 1) as i64, hi, body, file, st3, ans).1.calls,
            );
        }
    }
}

// ---------------------------------------------------------------------------
// a run goes on from where each of its parts left off

proof fn lemma_extends_refl(c: Seq<EffectCall>)
    ensures
        extends(c, c),
{
    assert(c.take(c.len() as int) =~= c);
}

/// A statement's run goes on from where evaluating its first expression
/// (the bound value, the condition, the lower bound, the returned or
/// evaluated expression) left off.
pub proof fn lemma_stmt_after_first(s: StmtV, file: Seq<char>, st: St, ans: Seq<Seq<u8>>)
    ensures
        match s {
            StmtV::Let(_, e) => extends(eval(e, file, st.env, st.calls, ans).1, exec_spec(s, file, st, ans).1.calls),
            StmtV::If(e, _, _) => extends(eval(e, file, st.env, st.calls, ans).1, exec_spec(s, file, st, ans).1.calls),
            StmtV::While(e, _) => extends(eval(e, file, st.env, st.calls, ans).1, exec_spec(s, file, st, ans).1.calls),
            StmtV::For(_, e, _, _) => extends(eval(e, file, st.env, st.calls, ans).1, exec_spec(s, file, st, ans).1.calls),
            StmtV::Return(Some(e)) => extends(eval(e, file, st.env, st.calls, ans).1, exec_spec(s, file, st, ans).1.calls),
            StmtV::Expr(e) => extends(eval(e, file, st.env, st.calls, ans).1, exec_spec(s, file, st, ans).1.calls),
            _ => true,
        },
{
    match s {
        StmtV::If(cond, tb, eb) => {
            let (r, c1) = eval(cond, file, st.env, st.calls, ans);
            let st1 = with_calls(st, c1);
            lemma_extends_refl(c1);
            if r is Ok {
                if truthy(r->Ok_0) {
                    lemma_block_grows(tb, 0, file, st1, ans);
                } else if eb is Some {
                    lemma_block_grows(eb->Some_0, 0, file, st1, ans);
                }
            }
        },
        StmtV::While(cond, body) => {
            lemma_while_after_cond(cond, body, file, st, ans);
        },
        StmtV::For(n, lo, hi, body) => {
            let (a, c1) = eval(lo, file, st.env, st.calls, ans);
            lemma_extends_refl(c1);
            if a is Ok {
                lemma_for_after_hi(n, lo, hi, body, file, st, ans);
                lemma_eval_grows(hi, file, st.env, c1, ans);
                lemma_extends_trans(c1, eval(hi, file, st.env, c1, ans).1, exec_spec(s, file, st, ans).1.calls);
            }
        },
        StmtV::Let(_, e) => {
            lemma_extends_refl(eval(e, file, st.env, st.calls, ans).1);
        },
        StmtV::Return(e) => {
            if e is Some {
                lemma_extends_refl(eval(e->Some_0, file, st.env, st.calls, ans).1);
            }
        },
        StmtV::Expr(e) => {
            lemma_extends_refl(eval(e, file, st.env, st.calls, ans).1);
        },
    }
}

/// A `for` goes on from where evaluating its upper bound left off.
pub proof fn lemma_for_after_hi(
    n: Seq<char>,
    lo: ExprV,
    hi: ExprV,
    body: Seq<StmtV>,
    file: Seq<char>,
    st: St,
    ans: Seq<Seq<u8>>,
)
    requires
        eval(lo, file, st.env, st.calls, ans).0 is Ok,
    ensures
        extends(
            eval(hi, file, st.env, eval(lo, file, st.env, st.calls, ans).1, ans).1,
            exec_spec(StmtV::For(n, lo, hi, body), file, st, ans).1.calls,
        ),
{
    let (a, c1) = eval(lo, file, st.env, st.calls, ans);
    let (b, c2) = eval(hi, file, st.env, c1, ans);
    lemma_extends_refl(c2);
    if b is Ok {
        match (a->Ok_0, b->Ok_0) {
            (ValueV::Int(x), ValueV::Int(y)) => {
                lemma_for_grows(n, x, y, body, file, with_calls(st, c2), ans);
            },
            _ => {},
        }
    }
}

/// A `while` goes on from where evaluating its condition left off.
pub proof fn lemma_while_after_cond(cond: ExprV, body: Seq<StmtV>, file: Seq<char>, st: St, ans: Seq<Seq<u8>>)
    ensures
        extends(eval(cond, file, st.env, st.calls, ans).1, while_spec(cond, body, file, st, ans).1.calls),
{
    let (r, c1) = eval(cond, file, st.env, st.calls, ans);
    lemma_extends_refl(c1);
    if r is Ok && truthy(r->Ok_0) && st.steps != 0 {
        let st2 = St { env: st.env, steps: (st.steps - 1) as u64, calls: c1 };
        lemma_while_after_body(cond, body, file, st, ans);
        lemma_block_grows(body, 0, file, st2, ans);
        lemma_extends_trans(c1, block_spec(body, 0, file, st2, ans).1.calls, while_spec(cond, body, file, st, ans).1.calls);
    }
}

/// A `while` goes on from where a pass through its body left off.
pub proof fn lemma_while_after_body(cond: ExprV, body: Seq<StmtV>, file: Seq<char>, st: St, ans: Seq<Seq<u8>>)
    requires
        eval(cond, file, st.env, st.calls, ans).0 matches Ok(v) && truthy(v),
        st.steps != 0,
    ensures
        extends(
            block_spec(
                body,
                0,
                file,
                St { env: st.env, steps: (st.steps - 1) as u64, calls: eval(cond, file, st.env, st.calls, ans).1 },
                ans,
            ).1.calls,
            while_spec(cond, body, file, st, ans).1.calls,
        ),
{
    let (r, c1) = eval(cond, file, st.env, st.calls, ans);
    let st2 = St { env: st.env, steps: (st.steps - 1) as u64, calls: c1 };
    let (b, st3) = block_spec(body, 0, file, st2, ans);
    lemma_extends_refl(st3.calls);
    if b == Ok::<FlowV, ErrV>(FlowV::Normal) && st3.steps < st.steps {
        lemma_while_grows(cond, body, file, st3, ans);
    }
}

/// A `for` goes on from where a pass through its body left off.
pub proof fn lemma_for_after_body(
    name: Seq<char>,
    i: i64,
    hi: i64,
    body: Seq<StmtV>,
    file: Seq<char>,
    st: St,
    ans: Seq<Seq<u8>>,
)
    requires
        i < hi,
    ensures
        extends(
            block_spec(
                body,
                0,
                file,
                St { env: env_bind_local(env_push(st.env), name, ValueV::Int(i)), steps: st.steps, calls: st.calls },
                ans,
            ).1.calls,
            for_spec(name, i, hi, body, file, st, ans).1.calls,
        ),
{
    let env1 = env_bind_local(env_push(st.env), name, ValueV::Int(i));
    let (b, st2) = block_spec(body, 0, file, St { env: env1, steps: st.steps, calls: st.calls }, ans);
    lemma_extends_refl(st2.calls);
    if b == Ok::<FlowV, ErrV>(FlowV::Normal) && st2.steps <= st.steps {
        let st3 = St { env: env_pop(st2.env), steps: st2.steps, calls: st2.calls };
        lemma_for_grows(name, (i + 1) as i64, hi, body, file, st3, ans);
    }
}

/// A block goes on from where its statement `i` left off.
pub proof fn lemma_block_after_stmt(ss: Seq<StmtV>, i: int, file: Seq<char>, st: St, ans: Seq<Seq<u8>>)
    requires
        0 <= i < ss.len(),
    ensures
        extends(exec_spec(ss[i], file, st, ans).1.calls, block_spec(ss, i, file, st, ans).1.calls),
{
    let (r, st1) = exec_spec(ss[i], file, st, ans);
    lemma_extends_refl(st1.calls);
    if r == Ok::<FlowV, ErrV>(FlowV::Normal) && st1.steps <= st.steps {
        lemma_block_grows(ss, i + 1, file, st1, ans);
    }
}

} // verus!

verus! {

pub proof fn lemma_stmt_frame(s: StmtV, file: Seq<char>, st: St, a1: Seq<Seq<u8>>, a2: Seq<Seq<u8>>)
    requires
        agree_on(a1, a2, st.calls.len() as int, exec_spec(s, file, st, a1).1.calls.len() as int),
    ensures
        exec_spec(s, file, st, a2) == exec_spec(s, file, st, a1),
    decreases st.steps, s, 0int,
{
    match s {
        StmtV::Let(n, e) => {
            lemma_eval_frame(e, file, st.env, st.calls, a1, a2);
        },
        StmtV::If(cond, tb, eb) => {
            lemma_eval_grows(cond, file, st.env, st.calls, a1);
            let (r, c1) = eval(cond, file, st.env, st.calls, a1);
            let st1 = with_calls(st, c1);
            if r is Ok {
                if truthy(r->Ok_0) {
                    lemma_block_grows(tb, 0, file, st1, a1);
                } else if eb is Some {
                    lemma_block_grows(eb->Some_0, 0, file, st1, a1);
                }
            }
            lemma_eval_frame(cond, file, st.env, st.calls, a1, a2);
            if r is Ok {
                if truthy(r->Ok_0) {
                    lemma_block_frame(tb, 0, file, st1, a1, a2);
                } else if eb is Some {
                    lemma_block_frame(eb->Some_0, 0, file, st1, a1, a2);
                }
            }
        },
        StmtV::While(cond, body) => {
            lemma_while_frame(cond, body, file, st, a1, a2);
        },
        StmtV::For(n, lo, hi, body) => {
            lemma_eval_grows(lo, file, st.env, st.calls, a1);
            let (a, c1) = eval(lo, file, st.env, st.calls, a1);
            if a is Ok {
                lemma_eval_grows(hi, file, st.env, c1, a1);
                let (b, c2) = eval(hi, file, st.env, c1, a1);
                if b is Ok {
                    match (a->Ok_0, b->Ok_0) {
                        (ValueV::Int(x), ValueV::Int(y)) => {
                            lemma_for_grows(n, x, y, body, file, with_calls(st, c2), a1);
                        },
                        _ => {},
                    }
                }
            }
            lemma_eval_frame(lo, file, st.env, st.calls, a1, a2);
            if a is Ok {
                let (b, c2) = eval(hi, file, st.env, c1, a1);
                lemma_eval_frame(hi, file, st.env, c1, a1, a2);
                if b is Ok {
                    match (a->Ok_0, b->Ok_0) {
                        (ValueV::Int(x), ValueV::Int(y)) => {
                            lemma_for_frame(n, x, y, body, file, with_calls(st, c2), a1, a2);
                        },
                        _ => {},
                    }
                }
            }
        },
        StmtV::Return(e) => {
            if e is Some {
                lemma_eval_frame(e->Some_0, file, st.env, st.calls, a1, a2);
            }
        },
        StmtV::Expr(e) => {
            lemma_eval_frame(e, file, st.env, st.calls, a1, a2);
        },
    }
}

pub proof fn lemma_block_frame(
    ss: Seq<StmtV>,
    i: int,
    file: Seq<char>,
    st: St,
    a1: Seq<Seq<u8>>,
    a2: Seq<Seq<u8>>,
)
    requires
        agree_on(a1, a2, st.calls.len() as int, block_spec(ss, i, file, st, a1).1.calls.len() as int),
    ensures
        block_spec(ss, i, file, st, a2) == block_spec(ss, i, file, st, a1),
    decreases st.steps, ss, ss.len() - i,
{
    if 0 <= i < ss.len() {
        lemma_stmt_grows(ss[i], file, st, a1);
        let (r, st1) = exec_spec(ss[i], file, st, a1);
        if r == Ok::<FlowV, ErrV>(FlowV::Normal) && st1.steps <= st.steps {
            lemma_block_grows(ss, i + 1, file, st1, a1);
        }
        lemma_stmt_frame(ss[i], file, st, a1, a2);
        if r == Ok::<FlowV, ErrV>(FlowV::Normal) && st1.steps <= st.steps {
            lemma_block_frame(ss, i + 1, file, st1, a1, a2);
        }
    }
}

pub proof fn lemma_while_frame(
    cond: ExprV,
    body: Seq<StmtV>,
    file: Seq<char>,
    st: St,
    a1: Seq<Seq<u8>>,
    a2: Seq<Seq<u8>>,
)
    requires
        agree_on(a1, a2, st.calls.len() as int, while_spec(cond, body, file, st, a1).1.calls.len() as int),
    ensures
        while_spec(cond, body, file, st, a2) == while_spec(cond, body, file, st, a1),
    decreases st.steps, body, 0int,
{
    lemma_eval_grows(cond, file, st.env, st.calls, a1);
    let (r, c1) = eval(cond, file, st.env, st.calls, a1);
    let go = r is Ok && truthy(r->Ok_0) && st.steps != 0;
    let st2 = St { env: st.env, steps: (st.steps - 1) as u64, calls: c1 };
    if go {
        lemma_block_grows(body, 0, file, st2, a1);
        let (b, st3) = block_spec(body, 0, file, st2, a1);
        if b == Ok::<FlowV, ErrV>(FlowV::Normal) && st3.steps < st.steps {
            lemma_while_grows(cond, body, file, st3, a1);
        }
    }
    lemma_eval_frame(cond, file, st.env, st.calls, a1, a2);
    if go {
        lemma_block_frame(body, 0, file, st2, a1, a2);
        let (b, st3) = block_spec(body, 0, file, st2, a1);
        if b == Ok::<FlowV, ErrV>(FlowV::Normal) && st3.steps < st.steps {
            lemma_while_frame(cond, body, file, st3, a1, a2);
        }
    }
}

pub proof fn lemma_for_frame(
    name: Seq<char>,
    i: i64,
    hi: i64,
    body: Seq<StmtV>,
    file: Seq<char>,
    st: St,
    a1: Seq<Seq<u8>>,
    a2: Seq<Seq<u8>>,
)
    requires
        agree_on(a1, a2, st.calls.len() as int, for_spec(name, i, hi, body, file, st, a1).1.calls.len() as int),
    ensures
        for_spec(name, i, hi, body, file, st, a2) == for_spec(name, i, hi, body, file, st, a1),
    decreases st.steps, body, hi - i + body.len() + 1,
{
    if i < hi {
        let env1 = env_bind_local(env_push(st.env), name, ValueV::Int(i));
        let st1 = St { env: env1, steps: st.steps, calls: st.calls };
        lemma_block_grows(body, 0, file, st1, a1);
        let (b, st2) = block_spec(body, 0, file, st1, a1);
        let st3 = St { env: env_pop(st2.env), steps: st2.steps, calls: st2.calls };
        let again = b == Ok::<FlowV, ErrV>(FlowV::Normal) && st2.steps <= st.steps;
        if again {
            lemma_for_grows(name, (i + 1) as i64, hi, body, file, st3, a1);
        }
        lemma_block_frame(body, 0, file, st1, a1, a2);
        if again {
            lemma_for_frame(name, (i + 1) as i64, hi, body, file, st3, a1, a2);
        }
    }
}

pub proof fn lemma_run_frame(prog: Seq<StmtV>, file: Seq<char>, st: St, a1: Seq<Seq<u8>>, a2: Seq<Seq<u8>>)
    requires
        agree_on(a1, a2, st.calls.len() as int, run_spec(prog, file, st, a1).1.calls.len() as int),
    ensures
        run_spec(prog, file, st, a2) == run_spec(prog, file, st, a1),
{
    lemma_block_frame(prog, 0, file, st, a1, a2);
}

/// A script reads nothing of its answers but the answers to the calls it
/// makes: given the same answers to those calls, it makes the same calls,
/// ends with the same result and leaves the same names bound.
pub proof fn law_run_reads_only_its_answers(
    prog: Seq<StmtV>,
    file: Seq<char>,
    st: St,
    a1: Seq<Seq<u8>>,
    a2: Seq<Seq<u8>>,
)
    requires
        forall|i: int|
            st.calls.len() <= i < run_spec(prog, file, st, a1).1.calls.len() ==> #[trigger] a1[i]
                == a2[i],
    ensures
        run_spec(prog, file, st, a2) == run_spec(prog, file, st, a1),
{
    lemma_run_frame(prog, file, st, a1, a2);
}

/// Replay reproduces a recorded script. Take a run of a script whose
/// calls, answered by a runtime, made the history `recorded`; and a
/// second run of the same script from the same state, answered from a
/// prefix `replayed` of that history (which is what replaying the
/// recording gives, call by call) that ran to its end. Then the two runs
/// are the same: the same calls, the same answers, the same result.
pub proof fn law_replay_reproduces(
    prog: Seq<StmtV>,
    file: Seq<char>,
    st: St,
    recorded: Seq<EffectCall>,
    replayed: Seq<EffectCall>,
)
    requires
        run_spec(prog, file, st, answers(recorded)).1.calls == recorded,
        run_spec(prog, file, st, answers(replayed)).1.calls == replayed,
        replayed.len() <= recorded.len(),
        recorded.take(replayed.len() as int) == replayed,
    ensures
        replayed == recorded,
        run_spec(prog, file, st, answers(replayed)) == run_spec(prog, file, st, answers(recorded)),
{
    assert forall|i: int|
        st.calls.len() <= i < run_spec(prog, file, st, answers(replayed)).1.calls.len() implies #[trigger] answers(replayed)[i]
            == answers(recorded)[i] by {
        assert(recorded.take(replayed.len() as int)[i] == recorded[i]);
    }
    lemma_run_frame(prog, file, st, answers(replayed), answers(recorded));
}

} // verus!
