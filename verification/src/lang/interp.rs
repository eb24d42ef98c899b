//! Tree-walking interpreter for the .tape language. The eight effect calls
//! go straight to the host `Runtime`, so the same trace machinery that
//! records and replays built-in programs records and replays scripts.
//!
//! Scope: one global scope, no user-defined functions, no closures. `let`
//! always writes the global scope, also inside a block, so that
//!
//! ```text
//! let name = env.get("NAME");
//! if name == "" { let name = "stranger"; }
//! io.write(name);
//! ```
//!
//! rebinds rather than shadows. A `for` loop pushes a scope of its own for
//! its variable and drops it after each pass.
//!
//! Every function here is proved against the semantics in `semantics`:
//! whatever the runtime answers, the value, the calls made and the names
//! left behind are what the semantics gives for those answers.
use crate::error::{is_replay_message, ReplayErr};
use crate::codec::{enc_bytes, enc_str, enc_str_bytes, enc_u64, lemma_u64_roundtrip, strings_view};
use crate::event::{EffectCall, EffectKind};
use crate::inspect::str_eq;
use crate::lang::ast::{
    ExprV,
    exprs_v, lemma_exprs_index, lemma_exprs_len, lemma_stmts_index, lemma_stmts_len, stmts_v, BinOp,
    Expr, Program, Stmt, StmtV,
};
use crate::lang::semantics::{
    agrees, answered, args_msg, as_int_spec, as_str_spec, byte_at_spec, call_spec, digits_val,
    eff_args, eff_env, eff_fwrite, eff_now, eff_random, eff_read, eff_sleep, eff_write,
    env_bind_local, env_let, env_lookup, env_pop, env_push, eval, eval_args, exec_spec,
    block_spec, extends, for_spec, frame_set, frames_get, int_spec, is_digit, last_index, all_digits, unsigned_part, len_spec,
    lemma_agrees_prefix, lemma_args_grows, lemma_block_grows, lemma_call_grows, lemma_eval_grows, lemma_extends_trans, lemma_last_index, lemma_stmt_grows, lemma_while_grows, lemma_for_grows, lemma_stmt_after_first, lemma_for_after_hi, lemma_while_after_body, lemma_for_after_body, lemma_block_after_stmt, parse_i64, run_spec, site_at, str_values, trim,
    while_spec, with_calls, EnvV, ErrV, FlowV, Frame, St,
};
use crate::lang::value::{
    apply_binop, apply_unop, index_of, lemma_values_index, lemma_values_len, lemma_values_push,
    truthy, values_v, Value, ValueV,
};
use crate::runtime::{failed_call, one_more_call, usable, Runtime};
use crate::text::{
    debug_str, lossy_string, push_dec, push_str, str_chars, string_of, trimmed_end, trimmed_start,
};
use crate::fnv_fold;
use vstd::prelude::*;

verus! {

/// Why a script stopped.
#[derive(Debug)]
pub enum InterpErr {
    /// the script itself went wrong: an unbound name, a bad operand, ...
    Runtime(String),
    /// the runtime refused a call: replay found that the script no longer
    /// does what the trace recorded.
    Replay(ReplayErr),
}

impl InterpErr {
    /// The error as a message.
    pub fn message(&self) -> (m: String)
        ensures
            match self {
                InterpErr::Runtime(s) => m@ == "runtime error: "@ + s@,
                InterpErr::Replay(e) => is_replay_message(*e, m@),
            },
    {
        match self {
            InterpErr::Runtime(s) => {
                let mut v = str_chars("runtime error: ");
                push_str(&mut v, s.as_str());
                string_of(v.as_slice())
            },
            InterpErr::Replay(e) => e.message(),
        }
    }
}

pub open spec fn err_v(e: InterpErr) -> ErrV {
    match e {
        InterpErr::Runtime(s) => ErrV::Runtime(s@),
        InterpErr::Replay(_) => ErrV::Replay,
    }
}

pub open spec fn is_replay<T>(r: Result<T, InterpErr>) -> bool {
    r matches Err(InterpErr::Replay(_))
}

pub open spec fn val_res(r: Result<Value, InterpErr>) -> Result<ValueV, ErrV> {
    match r {
        Ok(v) => Ok(v@),
        Err(e) => Err(err_v(e)),
    }
}

fn msg(s: &str) -> (m: String)
    ensures
        m@ == s@,
{
    string_of(str_chars(s).as_slice())
}

fn runtime_err(s: &str) -> (e: InterpErr)
    ensures
        e == InterpErr::Runtime(e->Runtime_0) && e->Runtime_0@ == s@,
{
    InterpErr::Runtime(msg(s))
}

// ---------------------------------------------------------------------------
// names

pub open spec fn frame_view(f: Seq<(String, Value)>) -> Frame {
    f.map_values(|p: (String, Value)| (p.0@, p.1@))
}

pub open spec fn locals_view(l: Seq<Vec<(String, Value)>>) -> Seq<Frame> {
    l.map_values(|f: Vec<(String, Value)>| frame_view(f@))
}

/// The names: the global scope, and a stack of loop scopes.
pub struct Env {
    globals: Vec<(String, Value)>,
    locals: Vec<Vec<(String, Value)>>,
}

impl View for Env {
    type V = EnvV;

    closed spec fn view(&self) -> EnvV {
        EnvV { globals: frame_view(self.globals@), locals: locals_view(self.locals@) }
    }
}

/// Where `k` was last bound in `f`.
fn frame_find(f: &Vec<(String, Value)>, k: &str) -> (r: Option<usize>)
    ensures
        match last_index(frame_view(f@), k@) {
            Some(j) => r matches Some(x) && x as int == j,
            None => r is None,
        },
        r matches Some(j) ==> j < f@.len(),
{
    let ghost fv = frame_view(f@);
    proof {
        lemma_last_index(fv, k@);
    }
    let mut j = f.len();
    assert(fv.take(j as int) =~= fv);
    while j > 0
        invariant
            j <= f@.len(),
            fv == frame_view(f@),
            fv.len() == f@.len(),
            last_index(fv, k@) == last_index(fv.take(j as int), k@),
        decreases j,
    {
        assert(fv.take(j as int).last() == fv[j - 1]);
        if str_eq(f[j - 1].0.as_str(), k) {
            return Some(j - 1);
        }
        assert(fv.take(j as int).drop_last() =~= fv.take(j - 1));
        j -= 1;
    }
    None
}

/// Bind `k` to `v` in `f`.
fn frame_put(f: &mut Vec<(String, Value)>, k: &str, v: Value)
    ensures
        frame_view(final(f)@) == frame_set(frame_view(old(f)@), k@, v@),
{
    let key = msg(k);
    match frame_find(f, k) {
        Some(j) => {
            f.set(j, (key, v));
            assert(frame_view(f@) =~= frame_view(old(f)@).update(j as int, (k@, v@)));
        },
        None => {
            f.push((key, v));
            assert(frame_view(f@) =~= frame_view(old(f)@).push((k@, v@)));
        },
    }
}

impl Env {
    fn new() -> (e: Self)
        ensures
            e@ == (EnvV { globals: Seq::empty(), locals: Seq::empty() }),
    {
        let e = Env { globals: Vec::new(), locals: Vec::new() };
        assert(e@.globals =~= Seq::<(Seq<char>, ValueV)>::empty());
        assert(e@.locals =~= Seq::<Frame>::empty());
        e
    }

    /// A new loop scope.
    fn push_scope(&mut self)
        ensures
            final(self)@ == env_push(old(self)@),
    {
        let fresh: Vec<(String, Value)> = Vec::new();
        assert(frame_view(fresh@) =~= Seq::<(Seq<char>, ValueV)>::empty());
        self.locals.push(fresh);
        assert(locals_view(self.locals@) =~= locals_view(old(self).locals@).push(Seq::empty()));
    }

    /// Drop the innermost loop scope.
    fn pop_scope(&mut self)
        ensures
            final(self)@ == env_pop(old(self)@),
    {
        if self.locals.len() > 0 {
            let _ = self.locals.pop();
            assert(locals_view(self.locals@) =~= locals_view(old(self).locals@).drop_last());
        }
    }

    /// `let`: bind in the global scope.
    fn set(&mut self, k: &str, v: Value)
        ensures
            final(self)@ == env_let(old(self)@, k@, v@),
    {
        frame_put(&mut self.globals, k, v);
    }

    /// Bind a loop variable in the innermost loop scope.
    fn bind_local(&mut self, k: &str, v: Value)
        ensures
            final(self)@ == env_bind_local(old(self)@, k@, v@),
    {
        match self.locals.pop() {
            Some(mut top) => {
                frame_put(&mut top, k, v);
                self.locals.push(top);
                assert(locals_view(self.locals@) =~= locals_view(old(self).locals@).update(
                    old(self).locals@.len() - 1,
                    frame_set(locals_view(old(self).locals@).last(), k@, v@),
                ));
            },
            None => {
                frame_put(&mut self.globals, k, v);
            },
        }
    }

    /// The value bound to `k`: innermost loop scope first, then globals.
    fn get(&self, k: &str) -> (r: Option<Value>)
        ensures
            match env_lookup(self@, k@) {
                Some(v) => r matches Some(x) && x@ == v,
                None => r is None,
            },
    {
        let ghost lv = locals_view(self.locals@);
        let mut i = self.locals.len();
        assert(lv.take(i as int) =~= lv);
        while i > 0
            invariant
                i <= self.locals@.len(),
                lv == locals_view(self.locals@),
                lv.len() == self.locals@.len(),
                env_lookup(self@, k@) == frames_get(lv.take(i as int), frame_view(self.globals@), k@),
            decreases i,
        {
            let fr = &self.locals[i - 1];
            assert(lv.take(i as int).last() == frame_view(fr@));
            match frame_find(fr, k) {
                Some(j) => {
                    return Some(fr[j].1.duplicate());
                },
                None => {},
            }
            assert(lv.take(i as int).drop_last() =~= lv.take(i - 1));
            i -= 1;
        }
        match frame_find(&self.globals, k) {
            Some(j) => Some(self.globals[j].1.duplicate()),
            None => None,
        }
    }
}

// ---------------------------------------------------------------------------
// sites

/// Stable u32 site id of one call expression: FNV-1a over the script's
/// path, then over the low and high halves of the call's byte offset, the
/// same hash family as the site ids of built-in programs.
pub fn site_id(file_path: &str, off: usize) -> (h: u32)
    ensures
        h == site_at(file_path@, off as int),
{
    let mut h = fnv_fold(0x811c_9dc5, file_path.as_bytes());
    let lo = ((off as u64) & 0xFFFF_FFFFu64) as u32;
    let hi = ((off as u64) >> 32u64) as u32;
    h = (h ^ lo).wrapping_mul(0x0100_0193);
    (h ^ hi).wrapping_mul(0x0100_0193)
}

// ---------------------------------------------------------------------------
// argument checks and the pure built-ins

fn require_args(name: &str, vals: &Vec<Value>, n: usize) -> (r: Result<(), String>)
    ensures
        match r {
            Ok(_) => vals@.len() == n,
            Err(m) => vals@.len() != n && m@ == args_msg(name@, n as nat, vals@.len()),
        },
{
    if vals.len() != n {
        let mut m = str_chars(name);
        push_str(&mut m, ": expected ");
        push_dec(&mut m, n as u64);
        push_str(&mut m, " args, got ");
        push_dec(&mut m, vals.len() as u64);
        Err(string_of(m.as_slice()))
    } else {
        Ok(())
    }
}

fn as_int(v: &Value, ctx: &str) -> (r: Result<i64, String>)
    ensures
        match as_int_spec(v@, ctx@) {
            Ok(n) => r == Ok::<i64, String>(n),
            Err(m) => r matches Err(x) && x@ == m,
        },
{
    match v {
        Value::Int(n) => Ok(*n),
        _ => {
            let mut m = str_chars(ctx);
            push_str(&mut m, ": expected int");
            Err(string_of(m.as_slice()))
        },
    }
}

fn as_str(v: &Value, ctx: &str) -> (r: Result<String, String>)
    ensures
        match as_str_spec(v@, ctx@) {
            Ok(s) => r matches Ok(x) && x@ == s,
            Err(m) => r matches Err(x) && x@ == m,
        },
{
    match v {
        Value::Str(s) => Ok(msg(s.as_str())),
        Value::Bytes(b) => Ok(lossy_string(b.as_slice())),
        _ => {
            let mut m = str_chars(ctx);
            push_str(&mut m, ": expected string");
            Err(string_of(m.as_slice()))
        },
    }
}

proof fn lemma_digits_grow(d: Seq<char>, k: int)
    requires
        0 <= k <= d.len(),
        forall|i: int| 0 <= i < d.len() ==> is_digit(#[trigger] d[i]),
    ensures
        digits_val(d.take(k)) <= digits_val(d),
        0 <= digits_val(d.take(k)),
    decreases d.len() - k,
{
    if k < d.len() {
        lemma_digits_grow(d, k + 1);
        assert(d.take(k + 1).drop_last() =~= d.take(k));
    } else {
        assert(d.take(k) =~= d);
    }
    lemma_digits_nonneg(d.take(k));
}

proof fn lemma_digits_nonneg(d: Seq<char>)
    requires
        forall|i: int| 0 <= i < d.len() ==> is_digit(#[trigger] d[i]),
    ensures
        0 <= digits_val(d),
    decreases d.len(),
{
    if d.len() > 0 {
        assert forall|i: int| 0 <= i < d.drop_last().len() implies is_digit(#[trigger] d.drop_last()[i]) by {
            assert(d.drop_last()[i] == d[i]);
        }
        lemma_digits_nonneg(d.drop_last());
        assert(is_digit(d[d.len() - 1]));
    }
}

/// `str::parse::<i64>` on the characters of a string.
fn parse_int(s: &[char]) -> (r: Option<i64>)
    ensures
        r == parse_i64(s@),
{
    let n = s.len();
    if n == 0 {
        return None;
    }
    let neg = s[0] == '-';
    let start: usize = if s[0] == '-' || s[0] == '+' {
        1
    } else {
        0
    };
    let ghost d = unsigned_part(s@);
    assert(d =~= s@.skip(start as int));
    if start >= n {
        return None;
    }
    let mut acc: u128 = 0;
    let mut i = start;
    assert(d.take(0) =~= Seq::<char>::empty());
    while i < n
        invariant
            start <= i <= n,
            n == s@.len(),
            d == s@.skip(start as int),
            d == unsigned_part(s@),
            neg == (s@.len() > 0 && s@[0] == '-'),
            forall|j: int| 0 <= j < i - start ==> is_digit(#[trigger] d[j]),
            acc == digits_val(d.take(i - start)),
            acc <= 0x8000_0000_0000_0000u128,
        decreases n - i,
    {
        let c = s[i];
        let u = c as u32;
        assert(d[i - start] == c);
        if !(48 <= u && u <= 57) {
            assert(!is_digit(d[i - start]));
            assert(!all_digits(d));
            return None;
        }
        assert(d.take(i - start + 1).drop_last() =~= d.take(i - start));
        acc = acc * 10 + (u - 48) as u128;
        if acc > 0x8000_0000_0000_0000u128 {
            proof {
                if all_digits(d) {
                    lemma_digits_grow(d, i - start + 1);
                }
            }
            return None;
        }
        i += 1;
    }
    assert(d.take(n - start) =~= d);
    if neg {
        let v: i128 = -(acc as i128);
        Some(v as i64)
    } else if acc <= 0x7FFF_FFFF_FFFF_FFFFu128 {
        Some(acc as i64)
    } else {
        None
    }
}

fn len_of(v: &Value) -> (r: Result<Value, String>)
    ensures
        match len_spec(v@) {
            Ok(x) => r matches Ok(y) && y@ == x,
            Err(m) => r matches Err(y) && y@ == m,
        },
{
    match v {
        Value::Str(s) => Ok(Value::Int(s.as_str().len() as i64)),
        Value::Bytes(b) => Ok(Value::Int(b.len() as i64)),
        Value::List(l) => {
            proof {
                lemma_values_len(l@);
            }
            Ok(Value::Int(l.len() as i64))
        },
        _ => Err(msg("len: unsupported type")),
    }
}

fn int_of(v: &Value) -> (r: Result<Value, String>)
    ensures
        match int_spec(v@) {
            Ok(x) => r matches Ok(y) && y@ == x,
            Err(m) => r matches Err(y) && y@ == m,
        },
{
    match v {
        Value::Int(n) => Ok(Value::Int(*n)),
        Value::Bool(b) => Ok(
            Value::Int(
                if *b {
                    1
                } else {
                    0
                },
            ),
        ),
        Value::Str(s) => {
            let cs = str_chars(s.as_str());
            let t1 = trimmed_end(cs.as_slice());
            let t = trimmed_start(t1.as_slice());
            assert(t@ == trim(s@));
            match parse_int(t.as_slice()) {
                Some(n) => Ok(Value::Int(n)),
                None => {
                    let mut m = str_chars("int: cannot parse ");
                    let d = debug_str(s.as_str());
                    push_str(&mut m, d.as_str());
                    Err(string_of(m.as_slice()))
                },
            }
        },
        _ => Err(msg("int: unsupported type")),
    }
}

fn byte_at_of(t: &Value, i: &Value) -> (r: Result<Value, String>)
    ensures
        match byte_at_spec(t@, i@) {
            Ok(x) => r matches Ok(y) && y@ == x,
            Err(m) => r matches Err(y) && y@ == m,
        },
{
    let n = match as_int(i, "byte_at index") {
        Ok(n) => n,
        Err(m) => return Err(m),
    };
    let k = n as usize;
    match t {
        Value::Bytes(b) => if k < b.len() {
            Ok(Value::Int(b[k] as i64))
        } else {
            Err(msg("byte_at: out of range"))
        },
        Value::Str(s) => {
            let bytes = s.as_str().as_bytes();
            if k < bytes.len() {
                Ok(Value::Int(bytes[k] as i64))
            } else {
                Err(msg("byte_at: out of range"))
            }
        },
        _ => Err(msg("byte_at: need bytes or string")),
    }
}

// ---------------------------------------------------------------------------
// effect calls

proof fn lemma_one_more(
    h0: Seq<EffectCall>,
    h1: Seq<EffectCall>,
    site: u32,
    kind: EffectKind,
    args: Seq<u8>,
    ans: Seq<Seq<u8>>,
)
    requires
        one_more_call(h0, h1, site, kind, args),
        agrees(ans, h1),
    ensures
        extends(h0, h1),
        ans[h0.len() as int] == h1.last().result,
        answered(h0, ans, site, kind, args) == h1,
{
    assert(h1.take(h0.len() as int) =~= h1.drop_last());
    assert(h1[h0.len() as int] == h1.last());
    assert(ans[h0.len() as int] == h1[h0.len() as int].result);
    assert(h1.last() == EffectCall { site, kind, args, result: ans[h0.len() as int] });
    assert(answered(h0, ans, site, kind, args) =~= h1);
}

proof fn lemma_one_more_extends(
    h0: Seq<EffectCall>,
    h1: Seq<EffectCall>,
    site: u32,
    kind: EffectKind,
    args: Seq<u8>,
)
    requires
        failed_call(h0, h1, site, kind, args),
    ensures
        extends(h0, h1),
{
    assert(h0.take(h0.len() as int) =~= h0);
    if h1 != h0 {
        assert(h1.take(h0.len() as int) =~= h1.drop_last());
    }
}

/// A replay error comes from the runtime: the last call it answered since
/// `h0` got an answer that cannot be used, or there is a call it does not
/// take.
pub open spec fn replay_failed<R: Runtime>(h0: Seq<EffectCall>, rt: R) -> bool {
    ||| (rt.history().len() > h0.len() && !usable(rt.history().last()))
    ||| exists|site: u32, kind: EffectKind, args: Seq<u8>| !rt.accepts(site, kind, args)
}

/// The model's calls `calls` run past the runtime's history with a call the
/// runtime, as it is, does not take: the run stopped there, refused.
pub open spec fn stopped_at<R: Runtime>(rt: R, calls: Seq<EffectCall>) -> bool {
    let h = rt.history();
    &&& h.len() < calls.len()
    &&& calls.take(h.len() as int) == h
    &&& !rt.accepts(calls[h.len() as int].site, calls[h.len() as int].kind, calls[h.len() as int].args)
}

/// A run that goes on from where it was refused was refused too.
proof fn lemma_stopped_grows<R: Runtime>(rt: R, c1: Seq<EffectCall>, c2: Seq<EffectCall>)
    requires
        stopped_at(rt, c1),
        c2 == c1 || (c1.len() <= c2.len() && c2.take(c1.len() as int) == c1),
    ensures
        stopped_at(rt, c2),
{
    if c2 != c1 {
        let n = rt.history().len() as int;
        assert(c2.take(n) =~= c1.take(n));
        assert(c2[n] == c2.take(c1.len() as int)[n]);
    }
}

/// A call the runtime did not take, at the end of its history.
proof fn lemma_refused<R: Runtime>(rt: R, site: u32, kind: EffectKind, args: Seq<u8>, ans: Seq<Seq<u8>>)
    requires
        !rt.accepts(site, kind, args),
    ensures
        stopped_at(rt, answered(rt.history(), ans, site, kind, args)),
{
    let h = rt.history();
    assert(answered(h, ans, site, kind, args).take(h.len() as int) =~= h);
}

/// A model `m` of an evaluation that failed with `x`, leaving the runtime
/// `rt`: the model fails the same way with the same calls, or (on a replay
/// error) it runs into a call the runtime did not take.
pub open spec fn eval_failed_as<R: Runtime>(rt: R, m: (Result<ValueV, ErrV>, Seq<EffectCall>), x: InterpErr) -> bool {
    m == (Err::<ValueV, ErrV>(err_v(x)), rt.history()) || (x is Replay && stopped_at(rt, m.1))
}

/// The same for a statement's model, which leaves the state `st`.
pub open spec fn stmt_failed_as<R: Runtime>(rt: R, m: (Result<FlowV, ErrV>, St), x: InterpErr, st: St) -> bool {
    m == (Err::<FlowV, ErrV>(err_v(x)), st) || (x is Replay && stopped_at(rt, m.1.calls))
}

/// The expression a statement evaluates first.
pub open spec fn first_expr(s: StmtV) -> Option<ExprV> {
    match s {
        StmtV::Let(_, e) => Some(e),
        StmtV::If(e, _, _) => Some(e),
        StmtV::While(e, _) => Some(e),
        StmtV::For(_, e, _, _) => Some(e),
        StmtV::Return(Some(e)) => Some(e),
        StmtV::Expr(e) => Some(e),
        _ => None,
    }
}

/// A statement whose first expression failed fails the same way.
proof fn lemma_first_failed<R: Runtime>(rt: R, s: StmtV, f: Seq<char>, st: St, x: InterpErr)
    requires
        first_expr(s) is Some,
        forall|ans: Seq<Seq<u8>>| #[trigger] agrees(ans, rt.history()) ==> eval_failed_as(
            rt,
            eval(first_expr(s)->Some_0, f, st.env, st.calls, ans),
            x,
        ),
    ensures
        forall|ans: Seq<Seq<u8>>| #[trigger] agrees(ans, rt.history()) ==> stmt_failed_as(
            rt,
            exec_spec(s, f, st, ans),
            x,
            with_calls(st, rt.history()),
        ),
{
    assert forall|ans: Seq<Seq<u8>>| #[trigger] agrees(ans, rt.history()) implies stmt_failed_as(
        rt,
        exec_spec(s, f, st, ans),
        x,
        with_calls(st, rt.history()),
    ) by {
        let m = eval(first_expr(s)->Some_0, f, st.env, st.calls, ans);
        lemma_stmt_after_first(s, f, st, ans);
        if m != (Err::<ValueV, ErrV>(err_v(x)), rt.history()) {
            lemma_stopped_grows(rt, m.1, exec_spec(s, f, st, ans).1.calls);
        }
    }
}

/// A `for` whose upper bound failed fails the same way.
proof fn lemma_for_hi_failed<R: Runtime>(
    rt: R,
    n: Seq<char>,
    lo: ExprV,
    hi: ExprV,
    body: Seq<StmtV>,
    f: Seq<char>,
    st: St,
    a: ValueV,
    c1: Seq<EffectCall>,
    x: InterpErr,
)
    requires
        forall|ans: Seq<Seq<u8>>| #[trigger] agrees(ans, rt.history()) ==> eval(lo, f, st.env, st.calls, ans) == (
            Ok::<ValueV, ErrV>(a),
            c1,
        ),
        forall|ans: Seq<Seq<u8>>| #[trigger] agrees(ans, rt.history()) ==> eval_failed_as(
            rt,
            eval(hi, f, st.env, c1, ans),
            x,
        ),
    ensures
        forall|ans: Seq<Seq<u8>>| #[trigger] agrees(ans, rt.history()) ==> stmt_failed_as(
            rt,
            exec_spec(StmtV::For(n, lo, hi, body), f, st, ans),
            x,
            with_calls(st, rt.history()),
        ),
{
    assert forall|ans: Seq<Seq<u8>>| #[trigger] agrees(ans, rt.history()) implies stmt_failed_as(
        rt,
        exec_spec(StmtV::For(n, lo, hi, body), f, st, ans),
        x,
        with_calls(st, rt.history()),
    ) by {
        let m = eval(hi, f, st.env, c1, ans);
        lemma_for_after_hi(n, lo, hi, body, f, st, ans);
        if m != (Err::<ValueV, ErrV>(err_v(x)), rt.history()) {
            lemma_stopped_grows(rt, m.1, exec_spec(StmtV::For(n, lo, hi, body), f, st, ans).1.calls);
        }
    }
}

/// A `while` whose body failed, after its condition held, fails the same way.
proof fn lemma_while_body_failed<R: Runtime>(
    rt: R,
    cond: ExprV,
    body: Seq<StmtV>,
    f: Seq<char>,
    st: St,
    v: ValueV,
    c1: Seq<EffectCall>,
    x: InterpErr,
    fin: St,
)
    requires
        truthy(v),
        st.steps != 0,
        forall|ans: Seq<Seq<u8>>| #[trigger] agrees(ans, rt.history()) ==> eval(cond, f, st.env, st.calls, ans) == (
            Ok::<ValueV, ErrV>(v),
            c1,
        ),
        forall|ans: Seq<Seq<u8>>| #[trigger] agrees(ans, rt.history()) ==> stmt_failed_as(
            rt,
            block_spec(body, 0, f, St { env: st.env, steps: (st.steps - 1) as u64, calls: c1 }, ans),
            x,
            fin,
        ),
    ensures
        forall|ans: Seq<Seq<u8>>| #[trigger] agrees(ans, rt.history()) ==> stmt_failed_as(
            rt,
            while_spec(cond, body, f, st, ans),
            x,
            fin,
        ),
{
    assert forall|ans: Seq<Seq<u8>>| #[trigger] agrees(ans, rt.history()) implies stmt_failed_as(
        rt,
        while_spec(cond, body, f, st, ans),
        x,
        fin,
    ) by {
        let st2 = St { env: st.env, steps: (st.steps - 1) as u64, calls: c1 };
        let m = block_spec(body, 0, f, st2, ans);
        lemma_while_after_body(cond, body, f, st, ans);
        if m != (Err::<FlowV, ErrV>(err_v(x)), fin) {
            lemma_stopped_grows(rt, m.1.calls, while_spec(cond, body, f, st, ans).1.calls);
        }
    }
}

/// A `for` whose body failed fails the same way.
proof fn lemma_for_body_failed<R: Runtime>(
    rt: R,
    name: Seq<char>,
    i: i64,
    hi: i64,
    body: Seq<StmtV>,
    f: Seq<char>,
    st: St,
    x: InterpErr,
    fin: St,
)
    requires
        i < hi,
        forall|ans: Seq<Seq<u8>>| #[trigger] agrees(ans, rt.history()) ==> stmt_failed_as(
            rt,
            block_spec(
                body,
                0,
                f,
                St { env: env_bind_local(env_push(st.env), name, ValueV::Int(i)), steps: st.steps, calls: st.calls },
                ans,
            ),
            x,
            fin,
        ),
    ensures
        forall|ans: Seq<Seq<u8>>| #[trigger] agrees(ans, rt.history()) ==> stmt_failed_as(
            rt,
            for_spec(name, i, hi, body, f, st, ans),
            x,
            fin,
        ),
{
    assert forall|ans: Seq<Seq<u8>>| #[trigger] agrees(ans, rt.history()) implies stmt_failed_as(
        rt,
        for_spec(name, i, hi, body, f, st, ans),
        x,
        fin,
    ) by {
        let st1 = St { env: env_bind_local(env_push(st.env), name, ValueV::Int(i)), steps: st.steps, calls: st.calls };
        let m = block_spec(body, 0, f, st1, ans);
        lemma_for_after_body(name, i, hi, body, f, st, ans);
        if m != (Err::<FlowV, ErrV>(err_v(x)), fin) {
            lemma_stopped_grows(rt, m.1.calls, for_spec(name, i, hi, body, f, st, ans).1.calls);
        }
    }
}

/// A block whose statement `i` failed fails the same way.
proof fn lemma_block_stmt_failed<R: Runtime>(
    rt: R,
    ss: Seq<StmtV>,
    i: int,
    f: Seq<char>,
    st: St,
    x: InterpErr,
    fin: St,
)
    requires
        0 <= i < ss.len(),
        forall|ans: Seq<Seq<u8>>| #[trigger] agrees(ans, rt.history()) ==> stmt_failed_as(
            rt,
            exec_spec(ss[i], f, st, ans),
            x,
            fin,
        ),
    ensures
        forall|ans: Seq<Seq<u8>>| #[trigger] agrees(ans, rt.history()) ==> stmt_failed_as(
            rt,
            block_spec(ss, i, f, st, ans),
            x,
            fin,
        ),
{
    assert forall|ans: Seq<Seq<u8>>| #[trigger] agrees(ans, rt.history()) implies stmt_failed_as(
        rt,
        block_spec(ss, i, f, st, ans),
        x,
        fin,
    ) by {
        let m = exec_spec(ss[i], f, st, ans);
        lemma_block_after_stmt(ss, i, f, st, ans);
        if m != (Err::<FlowV, ErrV>(err_v(x)), fin) {
            lemma_stopped_grows(rt, m.1.calls, block_spec(ss, i, f, st, ans).1.calls);
        }
    }
}

proof fn lemma_same(h: Seq<EffectCall>)
    ensures
        extends(h, h),
{
    assert(h.take(h.len() as int) =~= h);
}

fn effect_now<R: Runtime>(rt: &mut R, site: u32) -> (r: Result<Value, InterpErr>)
    ensures
        extends(old(rt).history(), final(rt).history()),
        final(rt).recorded() == old(rt).recorded(),
        is_replay(r) ==> replay_failed(old(rt).history(), *final(rt)),
        forall|ans: Seq<Seq<u8>>|
            #[trigger] agrees(ans, final(rt).history()) ==> eff_now(site, old(rt).history(), ans)
                == (val_res(r), final(rt).history()) || (is_replay(r) && stopped_at(
                *final(rt),
                eff_now(site, old(rt).history(), ans).1,
            )),
{
    let ghost h0 = rt.history();
    match rt.now(site) {
        Ok(t) => {
            let ghost h1 = rt.history();
            assert forall|ans: Seq<Seq<u8>>| agrees(ans, h1) implies #[trigger] eff_now(site, h0, ans)
                == (val_res(Ok::<Value, InterpErr>(Value::Int(t as i64))), h1) by {
                lemma_one_more(h0, h1, site, EffectKind::ClockNow, Seq::empty(), ans);
            }
            proof { lemma_one_more_extends(h0, h1, site, EffectKind::ClockNow, Seq::empty()); }
            Ok(Value::Int(t as i64))
        },
        Err(e) => {
            proof { lemma_one_more_extends(h0, rt.history(), site, EffectKind::ClockNow, Seq::empty()); }
            let ghost h1 = rt.history();
            assert forall|ans: Seq<Seq<u8>>| agrees(ans, h1) implies #[trigger] eff_now(site, h0, ans)
                == (val_res(Err::<Value, InterpErr>(InterpErr::Replay(e))), h1) || stopped_at(*rt, eff_now(site, h0, ans).1) by {
                if h1 == h0 {
                    lemma_refused(*rt, site, EffectKind::ClockNow, Seq::empty(), ans);
                } else {
                    lemma_one_more(h0, h1, site, EffectKind::ClockNow, Seq::empty(), ans);
                }
            }
            Err(InterpErr::Replay(e))
        },
    }
}

fn effect_random<R: Runtime>(rt: &mut R, site: u32, len: usize) -> (r: Result<Value, InterpErr>)
    ensures
        extends(old(rt).history(), final(rt).history()),
        final(rt).recorded() == old(rt).recorded(),
        is_replay(r) ==> replay_failed(old(rt).history(), *final(rt)),
        forall|ans: Seq<Seq<u8>>|
            #[trigger] agrees(ans, final(rt).history()) ==> eff_random(site, len, old(rt).history(), ans)
                == (val_res(r), final(rt).history()) || (is_replay(r) && stopped_at(
                *final(rt),
                eff_random(site, len, old(rt).history(), ans).1,
            )),
{
    let ghost h0 = rt.history();
    match rt.random_bits(site, len) {
        Ok(b) => {
            let ghost h1 = rt.history();
            let ghost k = EffectKind::RandomBits;
            assert forall|ans: Seq<Seq<u8>>| agrees(ans, h1) implies #[trigger] eff_random(site, len, h0, ans)
                == (val_res(Ok::<Value, InterpErr>(Value::Bytes(b))), h1) by {
                lemma_one_more(h0, h1, site, k, enc_u64(len as u64), ans);
            }
            proof { lemma_one_more_extends(h0, h1, site, k, enc_u64(len as u64)); }
            Ok(Value::Bytes(b))
        },
        Err(e) => {
            proof { lemma_one_more_extends(h0, rt.history(), site, EffectKind::RandomBits, enc_u64(len as u64)); }
            let ghost h1 = rt.history();
            assert forall|ans: Seq<Seq<u8>>| agrees(ans, h1) implies #[trigger] eff_random(site, len, h0, ans)
                == (val_res(Err::<Value, InterpErr>(InterpErr::Replay(e))), h1) || stopped_at(*rt, eff_random(site, len, h0, ans).1) by {
                if h1 == h0 {
                    lemma_refused(*rt, site, EffectKind::RandomBits, enc_u64(len as u64), ans);
                } else {
                    lemma_one_more(h0, h1, site, EffectKind::RandomBits, enc_u64(len as u64), ans);
                    lemma_u64_roundtrip(len as u64, Seq::empty());
                    assert(enc_u64(len as u64) + Seq::<u8>::empty() =~= enc_u64(len as u64));
                }
            }
            Err(InterpErr::Replay(e))
        },
    }
}

fn effect_write<R: Runtime>(rt: &mut R, site: u32, buf: &[u8]) -> (r: Result<Value, InterpErr>)
    ensures
        extends(old(rt).history(), final(rt).history()),
        final(rt).recorded() == old(rt).recorded(),
        is_replay(r) ==> replay_failed(old(rt).history(), *final(rt)),
        forall|ans: Seq<Seq<u8>>|
            #[trigger] agrees(ans, final(rt).history()) ==> eff_write(site, buf@, old(rt).history(), ans)
                == (val_res(r), final(rt).history()) || (is_replay(r) && stopped_at(
                *final(rt),
                eff_write(site, buf@, old(rt).history(), ans).1,
            )),
{
    let ghost h0 = rt.history();
    match rt.io_write(site, buf) {
        Ok(n) => {
            let ghost h1 = rt.history();
            let ghost k = EffectKind::IoWrite;
            assert forall|ans: Seq<Seq<u8>>| agrees(ans, h1) implies #[trigger] eff_write(site, buf@, h0, ans)
                == (val_res(Ok::<Value, InterpErr>(Value::Int(n as i64))), h1) by {
                lemma_one_more(h0, h1, site, k, enc_bytes(buf@), ans);
            }
            proof { lemma_one_more_extends(h0, h1, site, k, enc_bytes(buf@)); }
            Ok(Value::Int(n as i64))
        },
        Err(e) => {
            proof { lemma_one_more_extends(h0, rt.history(), site, EffectKind::IoWrite, enc_bytes(buf@)); }
            let ghost h1 = rt.history();
            assert forall|ans: Seq<Seq<u8>>| agrees(ans, h1) implies #[trigger] eff_write(site, buf@, h0, ans)
                == (val_res(Err::<Value, InterpErr>(InterpErr::Replay(e))), h1) || stopped_at(*rt, eff_write(site, buf@, h0, ans).1) by {
                if h1 == h0 {
                    lemma_refused(*rt, site, EffectKind::IoWrite, enc_bytes(buf@), ans);
                } else {
                    lemma_one_more(h0, h1, site, EffectKind::IoWrite, enc_bytes(buf@), ans);
                }
            }
            Err(InterpErr::Replay(e))
        },
    }
}

/// `prefix(arg): text` as the message of a failed fs call.
fn fs_msg(prefix: &str, arg: &str, text: &str) -> (m: String)
    ensures
        m@ == prefix@ + arg@ + "): "@ + text@,
{
    let mut v = str_chars(prefix);
    push_str(&mut v, arg);
    push_str(&mut v, "): ");
    push_str(&mut v, text);
    assert(v@ =~= prefix@ + arg@ + "): "@ + text@);
    string_of(v.as_slice())
}

fn effect_read<R: Runtime>(rt: &mut R, site: u32, path: &str) -> (r: Result<Value, InterpErr>)
    ensures
        extends(old(rt).history(), final(rt).history()),
        final(rt).recorded() == old(rt).recorded(),
        is_replay(r) ==> replay_failed(old(rt).history(), *final(rt)),
        forall|ans: Seq<Seq<u8>>|
            #[trigger] agrees(ans, final(rt).history()) ==> eff_read(site, path@, old(rt).history(), ans)
                == (val_res(r), final(rt).history()) || (is_replay(r) && stopped_at(
                *final(rt),
                eff_read(site, path@, old(rt).history(), ans).1,
            )),
{
    let ghost h0 = rt.history();
    let ghost k = EffectKind::FsRead;
    match rt.fs_read(site, path) {
        Ok(v) => {
            let ghost h1 = rt.history();
            proof { lemma_one_more_extends(h0, h1, site, k, enc_str(path@)); }
            let r = match v {
                Ok(b) => Ok(Value::Bytes(b)),
                Err(e) => Err(InterpErr::Runtime(fs_msg("fs.read(", path, e.as_str()))),
            };
            assert forall|ans: Seq<Seq<u8>>| agrees(ans, h1) implies #[trigger] eff_read(site, path@, h0, ans)
                == (val_res(r), h1) by {
                lemma_one_more(h0, h1, site, k, enc_str(path@), ans);
            }
            r
        },
        Err(e) => {
            proof { lemma_one_more_extends(h0, rt.history(), site, k, enc_str(path@)); }
            let ghost h1 = rt.history();
            assert forall|ans: Seq<Seq<u8>>| agrees(ans, h1) implies #[trigger] eff_read(site, path@, h0, ans)
                == (val_res(Err::<Value, InterpErr>(InterpErr::Replay(e))), h1) || stopped_at(*rt, eff_read(site, path@, h0, ans).1) by {
                if h1 == h0 {
                    lemma_refused(*rt, site, k, enc_str(path@), ans);
                } else {
                    lemma_one_more(h0, h1, site, k, enc_str(path@), ans);
                }
            }
            Err(InterpErr::Replay(e))
        },
    }
}

fn effect_fwrite<R: Runtime>(rt: &mut R, site: u32, path: &str, buf: &[u8]) -> (r: Result<Value, InterpErr>)
    ensures
        extends(old(rt).history(), final(rt).history()),
        final(rt).recorded() == old(rt).recorded(),
        is_replay(r) ==> replay_failed(old(rt).history(), *final(rt)),
        forall|ans: Seq<Seq<u8>>|
            #[trigger] agrees(ans, final(rt).history()) ==> eff_fwrite(site, path@, buf@, old(rt).history(), ans)
                == (val_res(r), final(rt).history()) || (is_replay(r) && stopped_at(
                *final(rt),
                eff_fwrite(site, path@, buf@, old(rt).history(), ans).1,
            )),
{
    let ghost h0 = rt.history();
    let ghost k = EffectKind::FsWrite;
    match rt.fs_write(site, path, buf) {
        Ok(v) => {
            let ghost h1 = rt.history();
            proof { lemma_one_more_extends(h0, h1, site, k, enc_str_bytes(path@, buf@)); }
            let r = match v {
                Ok(n) => Ok(Value::Int(n as i64)),
                Err(e) => Err(InterpErr::Runtime(fs_msg("fs.write(", path, e.as_str()))),
            };
            assert forall|ans: Seq<Seq<u8>>| agrees(ans, h1) implies #[trigger] eff_fwrite(site, path@, buf@, h0, ans)
                == (val_res(r), h1) by {
                lemma_one_more(h0, h1, site, k, enc_str_bytes(path@, buf@), ans);
            }
            r
        },
        Err(e) => {
            proof { lemma_one_more_extends(h0, rt.history(), site, k, enc_str_bytes(path@, buf@)); }
            let ghost h1 = rt.history();
            assert forall|ans: Seq<Seq<u8>>| agrees(ans, h1) implies #[trigger] eff_fwrite(site, path@, buf@, h0, ans)
                == (val_res(Err::<Value, InterpErr>(InterpErr::Replay(e))), h1) || stopped_at(*rt, eff_fwrite(site, path@, buf@, h0, ans).1) by {
                if h1 == h0 {
                    lemma_refused(*rt, site, k, enc_str_bytes(path@, buf@), ans);
                } else {
                    lemma_one_more(h0, h1, site, k, enc_str_bytes(path@, buf@), ans);
                }
            }
            Err(InterpErr::Replay(e))
        },
    }
}

fn effect_env<R: Runtime>(rt: &mut R, site: u32, name: &str) -> (r: Result<Value, InterpErr>)
    ensures
        extends(old(rt).history(), final(rt).history()),
        final(rt).recorded() == old(rt).recorded(),
        is_replay(r) ==> replay_failed(old(rt).history(), *final(rt)),
        forall|ans: Seq<Seq<u8>>|
            #[trigger] agrees(ans, final(rt).history()) ==> eff_env(site, name@, old(rt).history(), ans)
                == (val_res(r), final(rt).history()) || (is_replay(r) && stopped_at(
                *final(rt),
                eff_env(site, name@, old(rt).history(), ans).1,
            )),
{
    let ghost h0 = rt.history();
    let ghost k = EffectKind::EnvGet;
    match rt.env_get(site, name) {
        Ok(v) => {
            let ghost h1 = rt.history();
            proof { lemma_one_more_extends(h0, h1, site, k, enc_str(name@)); }
            let r: Result<Value, InterpErr> = match v {
                Some(s) => Ok(Value::Str(s)),
                None => Ok(Value::Str(msg(""))),
            };
            proof {
                reveal_strlit("");
                assert(""@ =~= Seq::<char>::empty());
            }
            assert forall|ans: Seq<Seq<u8>>| agrees(ans, h1) implies #[trigger] eff_env(site, name@, h0, ans)
                == (val_res(r), h1) by {
                lemma_one_more(h0, h1, site, k, enc_str(name@), ans);
            }
            r
        },
        Err(e) => {
            proof { lemma_one_more_extends(h0, rt.history(), site, k, enc_str(name@)); }
            let ghost h1 = rt.history();
            assert forall|ans: Seq<Seq<u8>>| agrees(ans, h1) implies #[trigger] eff_env(site, name@, h0, ans)
                == (val_res(Err::<Value, InterpErr>(InterpErr::Replay(e))), h1) || stopped_at(*rt, eff_env(site, name@, h0, ans).1) by {
                if h1 == h0 {
                    lemma_refused(*rt, site, k, enc_str(name@), ans);
                } else {
                    lemma_one_more(h0, h1, site, k, enc_str(name@), ans);
                }
            }
            Err(InterpErr::Replay(e))
        },
    }
}

fn effect_args<R: Runtime>(rt: &mut R, site: u32) -> (r: Result<Value, InterpErr>)
    ensures
        extends(old(rt).history(), final(rt).history()),
        final(rt).recorded() == old(rt).recorded(),
        is_replay(r) ==> replay_failed(old(rt).history(), *final(rt)),
        forall|ans: Seq<Seq<u8>>|
            #[trigger] agrees(ans, final(rt).history()) ==> eff_args(site, old(rt).history(), ans)
                == (val_res(r), final(rt).history()) || (is_replay(r) && stopped_at(
                *final(rt),
                eff_args(site, old(rt).history(), ans).1,
            )),
{
    let ghost h0 = rt.history();
    let ghost k = EffectKind::ArgsGet;
    match rt.args_get(site) {
        Ok(v) => {
            let ghost h1 = rt.history();
            let ghost sv = strings_view(v@);
            proof { lemma_one_more_extends(h0, h1, site, k, Seq::empty()); }
            let mut items: Vec<Value> = Vec::new();
            let mut i: usize = 0;
            while i < v.len()
                invariant
                    i <= v@.len(),
                    sv == strings_view(v@),
                    values_v(items@) == str_values(sv).take(i as int),
                decreases v@.len() - i,
            {
                let item = Value::Str(msg(v[i].as_str()));
                proof {
                    lemma_values_push(items@, item);
                    assert(str_values(sv).take(i + 1) =~= str_values(sv).take(i as int).push(item@));
                }
                items.push(item);
                i += 1;
            }
            assert(str_values(sv).take(v@.len() as int) =~= str_values(sv));
            let r: Result<Value, InterpErr> = Ok(Value::List(items));
            assert forall|ans: Seq<Seq<u8>>| agrees(ans, h1) implies #[trigger] eff_args(site, h0, ans)
                == (val_res(r), h1) by {
                lemma_one_more(h0, h1, site, k, Seq::empty(), ans);
            }
            r
        },
        Err(e) => {
            proof { lemma_one_more_extends(h0, rt.history(), site, k, Seq::empty()); }
            let ghost h1 = rt.history();
            assert forall|ans: Seq<Seq<u8>>| agrees(ans, h1) implies #[trigger] eff_args(site, h0, ans)
                == (val_res(Err::<Value, InterpErr>(InterpErr::Replay(e))), h1) || stopped_at(*rt, eff_args(site, h0, ans).1) by {
                if h1 == h0 {
                    lemma_refused(*rt, site, k, Seq::empty(), ans);
                } else {
                    lemma_one_more(h0, h1, site, k, Seq::empty(), ans);
                }
            }
            Err(InterpErr::Replay(e))
        },
    }
}

fn effect_sleep<R: Runtime>(rt: &mut R, site: u32, millis: u64) -> (r: Result<Value, InterpErr>)
    ensures
        extends(old(rt).history(), final(rt).history()),
        final(rt).recorded() == old(rt).recorded(),
        is_replay(r) ==> replay_failed(old(rt).history(), *final(rt)),
        forall|ans: Seq<Seq<u8>>|
            #[trigger] agrees(ans, final(rt).history()) ==> eff_sleep(site, millis, old(rt).history(), ans)
                == (val_res(r), final(rt).history()) || (is_replay(r) && stopped_at(
                *final(rt),
                eff_sleep(site, millis, old(rt).history(), ans).1,
            )),
{
    let ghost h0 = rt.history();
    let ghost k = EffectKind::TimeSleep;
    match rt.time_sleep(site, millis) {
        Ok(_) => {
            let ghost h1 = rt.history();
            proof { lemma_one_more_extends(h0, h1, site, k, enc_u64(millis)); }
            let r: Result<Value, InterpErr> = Ok(Value::Nil);
            assert forall|ans: Seq<Seq<u8>>| agrees(ans, h1) implies #[trigger] eff_sleep(site, millis, h0, ans)
                == (val_res(r), h1) by {
                lemma_one_more(h0, h1, site, k, enc_u64(millis), ans);
            }
            r
        },
        Err(e) => {
            proof { lemma_one_more_extends(h0, rt.history(), site, k, enc_u64(millis)); }
            let ghost h1 = rt.history();
            assert forall|ans: Seq<Seq<u8>>| agrees(ans, h1) implies #[trigger] eff_sleep(site, millis, h0, ans)
                == (val_res(Err::<Value, InterpErr>(InterpErr::Replay(e))), h1) || stopped_at(*rt, eff_sleep(site, millis, h0, ans).1) by {
                if h1 == h0 {
                    lemma_refused(*rt, site, k, enc_u64(millis), ans);
                } else {
                    lemma_one_more(h0, h1, site, k, enc_u64(millis), ans);
                }
            }
            Err(InterpErr::Replay(e))
        },
    }
}

// ---------------------------------------------------------------------------
// dispatch

fn pure_err(m: String) -> (r: Result<Value, InterpErr>)
    ensures
        r matches Err(InterpErr::Runtime(x)) && x@ == m@,
{
    Err(InterpErr::Runtime(m))
}

fn pure_res(r: Result<Value, String>) -> (out: Result<Value, InterpErr>)
    ensures
        match r {
            Ok(v) => out matches Ok(w) && w@ == v@,
            Err(m) => out matches Err(InterpErr::Runtime(x)) && x@ == m@,
        },
{
    match r {
        Ok(v) => Ok(v),
        Err(m) => Err(InterpErr::Runtime(m)),
    }
}

/// Call the built-in `name` on evaluated arguments, at `site`: the eight
/// effect calls go to the runtime; `print` writes its argument and a
/// newline; `len`, `int`, `str`, `byte_at` are computed here.
#[verifier::rlimit(30)]
fn call_builtin<R: Runtime>(rt: &mut R, name: &str, vals: &Vec<Value>, site: u32) -> (r: Result<
    Value,
    InterpErr,
>)
    ensures
        extends(old(rt).history(), final(rt).history()),
        final(rt).recorded() == old(rt).recorded(),
        is_replay(r) ==> replay_failed(old(rt).history(), *final(rt)),
        forall|ans: Seq<Seq<u8>>|
            #[trigger] agrees(ans, final(rt).history()) ==> call_spec(
                name@,
                values_v(vals@),
                site,
                old(rt).history(),
                ans,
            ) == (val_res(r), final(rt).history()) || (is_replay(r) && stopped_at(
                *final(rt),
                call_spec(name@, values_v(vals@), site, old(rt).history(), ans).1,
            )),
{
    let ghost h0 = rt.history();
    let ghost vv = values_v(vals@);
    proof {
        lemma_values_len(vals@);
        lemma_same(h0);
        if vals@.len() > 0 {
            lemma_values_index(vals@, 0);
        }
        if vals@.len() > 1 {
            lemma_values_index(vals@, 1);
        }
    }
    if str_eq(name, "clock.now") {
        if let Err(m) = require_args(name, vals, 0) {
            return pure_err(m);
        }
        effect_now(rt, site)
    } else if str_eq(name, "random.bits") {
        if let Err(m) = require_args(name, vals, 1) {
            return pure_err(m);
        }
        match as_int(&vals[0], "random.bits len") {
            Ok(n) => effect_random(rt, site, n as usize),
            Err(m) => pure_err(m),
        }
    } else if str_eq(name, "io.write") {
        if let Err(m) = require_args(name, vals, 1) {
            return pure_err(m);
        }
        let buf = vals[0].to_bytes();
        effect_write(rt, site, buf.as_slice())
    } else if str_eq(name, "fs.read") {
        if let Err(m) = require_args(name, vals, 1) {
            return pure_err(m);
        }
        match as_str(&vals[0], "fs.read path") {
            Ok(p) => effect_read(rt, site, p.as_str()),
            Err(m) => pure_err(m),
        }
    } else if str_eq(name, "fs.write") {
        if let Err(m) = require_args(name, vals, 2) {
            return pure_err(m);
        }
        match as_str(&vals[0], "fs.write path") {
            Ok(p) => {
                let buf = vals[1].to_bytes();
                effect_fwrite(rt, site, p.as_str(), buf.as_slice())
            },
            Err(m) => pure_err(m),
        }
    } else if str_eq(name, "env.get") {
        if let Err(m) = require_args(name, vals, 1) {
            return pure_err(m);
        }
        match as_str(&vals[0], "env.get name") {
            Ok(k) => effect_env(rt, site, k.as_str()),
            Err(m) => pure_err(m),
        }
    } else if str_eq(name, "args.get") {
        if let Err(m) = require_args(name, vals, 0) {
            return pure_err(m);
        }
        effect_args(rt, site)
    } else if str_eq(name, "time.sleep") {
        if let Err(m) = require_args(name, vals, 1) {
            return pure_err(m);
        }
        match as_int(&vals[0], "time.sleep millis") {
            Ok(ms) => effect_sleep(rt, site, ms as u64),
            Err(m) => pure_err(m),
        }
    } else if str_eq(name, "print") {
        if let Err(m) = require_args(name, vals, 1) {
            return pure_err(m);
        }
        let mut buf = vals[0].to_bytes();
        buf.push(10u8);
        effect_write(rt, site, buf.as_slice())
    } else if str_eq(name, "len") {
        if let Err(m) = require_args(name, vals, 1) {
            return pure_err(m);
        }
        pure_res(len_of(&vals[0]))
    } else if str_eq(name, "int") {
        if let Err(m) = require_args(name, vals, 1) {
            return pure_err(m);
        }
        pure_res(int_of(&vals[0]))
    } else if str_eq(name, "str") {
        if let Err(m) = require_args(name, vals, 1) {
            return pure_err(m);
        }
        Ok(Value::Str(vals[0].to_display()))
    } else if str_eq(name, "byte_at") {
        if let Err(m) = require_args(name, vals, 2) {
            return pure_err(m);
        }
        pure_res(byte_at_of(&vals[0], &vals[1]))
    } else {
        let mut m = str_chars("unknown function: ");
        push_str(&mut m, name);
        pure_err(string_of(m.as_slice()))
    }
}

// ---------------------------------------------------------------------------
// the interpreter

proof fn lemma_prefix_all(h1: Seq<EffectCall>, h2: Seq<EffectCall>)
    requires
        extends(h1, h2),
    ensures
        forall|ans: Seq<Seq<u8>>| #[trigger] agrees(ans, h2) ==> agrees(ans, h1),
{
    assert forall|ans: Seq<Seq<u8>>| #[trigger] agrees(ans, h2) implies agrees(ans, h1) by {
        lemma_agrees_prefix(ans, h1, h2);
    }
}

/// How a statement or block finished.
pub enum Flow {
    Normal,
    Return(Value),
}

pub open spec fn flow_res(r: Result<Flow, InterpErr>) -> Result<FlowV, ErrV> {
    match r {
        Ok(Flow::Normal) => Ok(FlowV::Normal),
        Ok(Flow::Return(v)) => Ok(FlowV::Return(v@)),
        Err(e) => Err(err_v(e)),
    }
}

pub open spec fn vals_res(r: Result<Vec<Value>, InterpErr>) -> Result<Seq<ValueV>, ErrV> {
    match r {
        Ok(v) => Ok(values_v(v@)),
        Err(e) => Err(err_v(e)),
    }
}

pub open spec fn code_res(r: Result<i32, InterpErr>) -> Result<i32, ErrV> {
    match r {
        Ok(n) => Ok(n),
        Err(e) => Err(err_v(e)),
    }
}

/// The interpreter of one script: its path (what site ids hash), its
/// names, and what is left of its loop budget.
pub struct Interp {
    file_path: String,
    env: Env,
    steps: u64,
}

impl Interp {
    /// The script's path.
    pub closed spec fn file(&self) -> Seq<char> {
        self.file_path@
    }

    /// The names bound so far.
    pub closed spec fn env(&self) -> EnvV {
        self.env@
    }

    /// How many more passes through `while` bodies are allowed.
    pub closed spec fn budget(&self) -> u64 {
        self.steps
    }

    /// The state the semantics speaks of, with `h` the calls made so far.
    pub open spec fn state(&self, h: Seq<EffectCall>) -> St {
        St { env: self.env(), steps: self.budget(), calls: h }
    }

    /// A fresh interpreter for the script at `file_path`: nothing bound,
    /// the full loop budget.
    pub fn new(file_path: String) -> (it: Self)
        ensures
            it.file() == file_path@,
            it.env() == (EnvV { globals: Seq::empty(), locals: Seq::empty() }),
            it.budget() == u64::MAX,
    {
        Interp { file_path, env: Env::new(), steps: u64::MAX }
    }

    /// Evaluate an expression.
    fn eval_expr<R: Runtime>(&self, rt: &mut R, e: &Expr) -> (r: Result<Value, InterpErr>)
        ensures
            extends(old(rt).history(), final(rt).history()),
            final(rt).recorded() == old(rt).recorded(),
            is_replay(r) ==> replay_failed(old(rt).history(), *final(rt)),
            forall|ans: Seq<Seq<u8>>|
                #[trigger] agrees(ans, final(rt).history()) ==> eval(
                    e@,
                    self.file(),
                    self.env(),
                    old(rt).history(),
                    ans,
                ) == (val_res(r), final(rt).history()) || (is_replay(r) && stopped_at(
                    *final(rt),
                    eval(e@, self.file(), self.env(), old(rt).history(), ans).1,
                )),
        decreases e,
    {
        let ghost h0 = rt.history();
        let ghost f = self.file();
        let ghost env = self.env();
        proof {
            lemma_same(h0);
        }
        match e {
            Expr::Nil => Ok(Value::Nil),
            Expr::Bool(b) => Ok(Value::Bool(*b)),
            Expr::Int(n) => Ok(Value::Int(*n)),
            Expr::Str(s) => Ok(Value::Str(msg(s.as_str()))),
            Expr::Ident(name) => match self.env.get(name.as_str()) {
                Some(v) => Ok(v),
                None => {
                    let mut m = str_chars("unbound name: ");
                    push_str(&mut m, name.as_str());
                    pure_err(string_of(m.as_slice()))
                },
            },
            Expr::Call { callee, args, off } => {
                let vals = self.eval_args(rt, args);
                let vals = match vals {
                    Ok(v) => v,
                    Err(x) => {
                        proof {
                            assert forall|ans: Seq<Seq<u8>>| #[trigger] agrees(ans, rt.history()) implies eval(e@, f, env, h0, ans)
                                == (val_res(Err::<Value, InterpErr>(x)), rt.history()) || (is_replay(Err::<Value, InterpErr>(x))
                                && stopped_at(*rt, eval(e@, f, env, h0, ans).1)) by {
                                let m = eval_args(exprs_v(args@), 0, f, env, h0, ans, Seq::empty());
                                if m != (vals_res(Err::<Vec<Value>, InterpErr>(x)), rt.history()) {
                                    assert(e@ == ExprV::Call { callee: callee@, args: exprs_v(args@), off: *off as int });
                                    if m.0 is Ok {
                                        lemma_call_grows(callee@, m.0->Ok_0, site_at(f, *off as int), m.1, ans);
                                    }
                                    lemma_stopped_grows(*rt, m.1, eval(e@, f, env, h0, ans).1);
                                }
                            }
                        }
                        return Err(x);
                    },
                };
                let ghost h1 = rt.history();
                let site = site_id(self.file_path.as_str(), *off);
                let r = call_builtin(rt, callee.as_str(), &vals, site);
                proof {
                    lemma_prefix_all(h1, rt.history());
                    lemma_extends_trans(h0, h1, rt.history());
                }
                r
            },
            Expr::Binary { op, lhs, rhs } => {
                let l = self.eval_expr(rt, lhs);
                let l = match l {
                    Ok(v) => v,
                    Err(x) => {
                        proof {
                            assert forall|ans: Seq<Seq<u8>>| #[trigger] agrees(ans, rt.history()) implies eval(e@, f, env, h0, ans)
                                == (val_res(Err::<Value, InterpErr>(x)), rt.history()) || (is_replay(Err::<Value, InterpErr>(x))
                                && stopped_at(*rt, eval(e@, f, env, h0, ans).1)) by {
                                let m = eval((*lhs)@, f, env, h0, ans);
                                if m != (val_res(Err::<Value, InterpErr>(x)), rt.history()) {
                                    lemma_eval_grows((*rhs)@, f, env, m.1, ans);
                                    assert(e@ == ExprV::Binary { op: *op, lhs: Box::new((*lhs)@), rhs: Box::new((*rhs)@) });
                                    lemma_stopped_grows(*rt, m.1, eval(e@, f, env, h0, ans).1);
                                }
                            }
                        }
                        return Err(x);
                    },
                };
                let ghost h1 = rt.history();
                let lt = l.truthy();
                if *op == BinOp::And && !lt {
                    return Ok(Value::Bool(false));
                }
                if *op == BinOp::Or && lt {
                    return Ok(Value::Bool(true));
                }
                let r = self.eval_expr(rt, rhs);
                proof {
                    lemma_prefix_all(h1, rt.history());
                    lemma_extends_trans(h0, h1, rt.history());
                }
                let rv = match r {
                    Ok(v) => v,
                    Err(x) => return Err(x),
                };
                if *op == BinOp::And || *op == BinOp::Or {
                    Ok(Value::Bool(rv.truthy()))
                } else {
                    pure_res(apply_binop(*op, l, rv))
                }
            },
            Expr::Unary { op, rhs } => {
                let v = self.eval_expr(rt, rhs);
                let v = match v {
                    Ok(v) => v,
                    Err(x) => return Err(x),
                };
                pure_res(apply_unop(*op, v))
            },
            Expr::Index { target, index } => {
                let t = self.eval_expr(rt, target);
                let t = match t {
                    Ok(v) => v,
                    Err(x) => {
                        proof {
                            assert forall|ans: Seq<Seq<u8>>| #[trigger] agrees(ans, rt.history()) implies eval(e@, f, env, h0, ans)
                                == (val_res(Err::<Value, InterpErr>(x)), rt.history()) || (is_replay(Err::<Value, InterpErr>(x))
                                && stopped_at(*rt, eval(e@, f, env, h0, ans).1)) by {
                                let m = eval((*target)@, f, env, h0, ans);
                                if m != (val_res(Err::<Value, InterpErr>(x)), rt.history()) {
                                    assert(e@ == ExprV::Index { target: Box::new((*target)@), index: Box::new((*index)@) });
                                    lemma_eval_grows((*index)@, f, env, m.1, ans);
                                    lemma_stopped_grows(*rt, m.1, eval(e@, f, env, h0, ans).1);
                                }
                            }
                        }
                        return Err(x);
                    },
                };
                let ghost h1 = rt.history();
                let i = self.eval_expr(rt, index);
                proof {
                    lemma_prefix_all(h1, rt.history());
                    lemma_extends_trans(h0, h1, rt.history());
                }
                match i {
                    Ok(iv) => pure_res(index_of(&t, &iv)),
                    Err(x) => Err(x),
                }
            },
        }
    }

    /// Evaluate call arguments left to right.
    fn eval_args<R: Runtime>(&self, rt: &mut R, args: &Vec<Expr>) -> (r: Result<Vec<Value>, InterpErr>)
        ensures
            extends(old(rt).history(), final(rt).history()),
            final(rt).recorded() == old(rt).recorded(),
            is_replay(r) ==> replay_failed(old(rt).history(), *final(rt)),
            forall|ans: Seq<Seq<u8>>|
                #[trigger] agrees(ans, final(rt).history()) ==> eval_args(
                    exprs_v(args@),
                    0,
                    self.file(),
                    self.env(),
                    old(rt).history(),
                    ans,
                    Seq::empty(),
                ) == (vals_res(r), final(rt).history()) || (is_replay(r) && stopped_at(
                    *final(rt),
                    eval_args(exprs_v(args@), 0, self.file(), self.env(), old(rt).history(), ans, Seq::empty()).1,
                )),
        decreases args,
    {
        let ghost h0 = rt.history();
        let ghost av = exprs_v(args@);
        let ghost f = self.file();
        let ghost env = self.env();
        proof {
            lemma_same(h0);
            lemma_exprs_len(args@);
        }
        let mut vals: Vec<Value> = Vec::new();
        let mut i: usize = 0;
        assert(values_v(vals@) =~= Seq::<ValueV>::empty());
        while i < args.len()
            invariant
                i <= args@.len(),
                av == exprs_v(args@),
                av.len() == args@.len(),
                h0 == old(rt).history(),
                f == self.file(),
                env == self.env(),
                extends(h0, rt.history()),
                rt.recorded() == old(rt).recorded(),
                forall|ans: Seq<Seq<u8>>|
                    #[trigger] agrees(ans, rt.history()) ==> eval_args(av, 0, f, env, h0, ans, Seq::empty())
                        == eval_args(av, i as int, f, env, rt.history(), ans, values_v(vals@)),
            decreases args@.len() - i,
        {
            let ghost hc = rt.history();
            proof {
                lemma_exprs_index(args@, i as int);
            }
            let v = self.eval_expr(rt, &args[i]);
            proof {
                lemma_prefix_all(hc, rt.history());
                lemma_extends_trans(h0, hc, rt.history());
            }
            let v = match v {
                Ok(v) => v,
                Err(x) => {
                    proof {
                        assert forall|ans: Seq<Seq<u8>>| #[trigger] agrees(ans, rt.history()) implies eval_args(av, 0, f, env, h0, ans, Seq::empty())
                            == (vals_res(Err::<Vec<Value>, InterpErr>(x)), rt.history()) || (is_replay(Err::<Vec<Value>, InterpErr>(x))
                            && stopped_at(*rt, eval_args(av, 0, f, env, h0, ans, Seq::empty()).1)) by {
                            let m = eval(av[i as int], f, env, hc, ans);
                            assert(agrees(ans, hc));
                            assert(eval_args(av, 0, f, env, h0, ans, Seq::empty()) == eval_args(av, i as int, f, env, hc, ans, values_v(vals@)));
                            if m != (val_res(Err::<Value, InterpErr>(x)), rt.history()) {
                                if m.0 is Ok {
                                    lemma_args_grows(av, i + 1, f, env, m.1, ans, values_v(vals@).push(m.0->Ok_0));
                                }
                                lemma_stopped_grows(*rt, m.1, eval_args(av, 0, f, env, h0, ans, Seq::empty()).1);
                            }
                        }
                    }
                    return Err(x);
                },
            };
            proof {
                lemma_values_push(vals@, v);
            }
            vals.push(v);
            i += 1;
        }
        Ok(vals)
    }

    /// Execute one statement.
    #[verifier::loop_isolation(false)]
    #[verifier::rlimit(40)]
    fn exec_stmt<R: Runtime>(&mut self, rt: &mut R, s: &Stmt) -> (r: Result<Flow, InterpErr>)
        ensures
            final(self).file() == old(self).file(),
            final(self).budget() <= old(self).budget(),
            extends(old(rt).history(), final(rt).history()),
            final(rt).recorded() == old(rt).recorded(),
            is_replay(r) ==> replay_failed(old(rt).history(), *final(rt)),
            forall|ans: Seq<Seq<u8>>|
                #[trigger] agrees(ans, final(rt).history()) ==> exec_spec(
                    s@,
                    old(self).file(),
                    old(self).state(old(rt).history()),
                    ans,
                ) == (flow_res(r), final(self).state(final(rt).history())) || (is_replay(r) && stopped_at(
                    *final(rt),
                    exec_spec(s@, old(self).file(), old(self).state(old(rt).history()), ans).1.calls,
                )),
        decreases old(self).budget(), s,
    {
        let ghost h0 = rt.history();
        let ghost st0 = self.state(h0);
        let ghost f = self.file();
        proof {
            lemma_same(h0);
        }
        match s {
            Stmt::Let(name, e) => {
                let v = self.eval_expr(rt, e);
                let v = match v {
                    Ok(v) => v,
                    Err(x) => {
                        proof { lemma_first_failed(*rt, s@, f, st0, x); }
                        return Err(x);
                    },
                };
                self.env.set(name.as_str(), v);
                Ok(Flow::Normal)
            },
            Stmt::If(cond, tb, eb) => {
                let c = self.eval_expr(rt, cond);
                let c = match c {
                    Ok(v) => v,
                    Err(x) => {
                        proof { lemma_first_failed(*rt, s@, f, st0, x); }
                        return Err(x);
                    },
                };
                let ghost h1 = rt.history();
                if c.truthy() {
                    let r = self.exec_block(rt, tb);
                    proof {
                        lemma_prefix_all(h1, rt.history());
                        lemma_extends_trans(h0, h1, rt.history());
                    }
                    r
                } else {
                    match eb {
                        Some(b) => {
                            let r = self.exec_block(rt, b);
                            proof {
                                lemma_prefix_all(h1, rt.history());
                                lemma_extends_trans(h0, h1, rt.history());
                            }
                            r
                        },
                        None => Ok(Flow::Normal),
                    }
                }
            },
            Stmt::While(cond, body) => {
                loop
                    invariant
                        self.file() == f,
                        self.budget() <= st0.steps,
                        extends(h0, rt.history()),
                        rt.recorded() == old(rt).recorded(),
                        forall|ans: Seq<Seq<u8>>|
                            #[trigger] agrees(ans, rt.history()) ==> exec_spec(s@, f, st0, ans)
                                == while_spec(cond@, stmts_v(body@), f, self.state(rt.history()), ans),
                    decreases self.budget(),
                {
                    let ghost hc = rt.history();
                    let ghost stc = self.state(hc);
                    let c = self.eval_expr(rt, cond);
                    let ghost h1 = rt.history();
                    proof {
                        lemma_prefix_all(hc, h1);
                        lemma_extends_trans(h0, hc, h1);
                    }
                    let c = match c {
                        Ok(v) => v,
                        Err(x) => {
                            proof { lemma_first_failed(*rt, StmtV::While(cond@, stmts_v(body@)), f, stc, x); }
                            return Err(x);
                        },
                    };
                    if !c.truthy() {
                        break;
                    }
                    if self.steps == 0 {
                        return Err(runtime_err("step limit reached"));
                    }
                    self.steps = self.steps - 1;
                    let ghost stb = self.state(h1);
                    assert(stb == St { env: stc.env, steps: (stc.steps - 1) as u64, calls: h1 });
                    let res = self.exec_block(rt, body);
                    proof {
                        lemma_prefix_all(h1, rt.history());
                        lemma_extends_trans(h0, h1, rt.history());
                    }
                    match res {
                        Ok(Flow::Normal) => {},
                        Err(x) => {
                            proof {
                                let fin = self.state(rt.history());
                                assert forall|ans: Seq<Seq<u8>>| #[trigger] agrees(ans, rt.history()) implies stmt_failed_as(
                                    *rt,
                                    block_spec(stmts_v(body@), 0, f, stb, ans),
                                    x,
                                    fin,
                                ) by {}
                                lemma_while_body_failed(*rt, cond@, stmts_v(body@), f, stc, c@, h1, x, fin);
                            }
                            return Err(x);
                        },
                        other => return other,
                    }
                }
                Ok(Flow::Normal)
            },
            Stmt::For(name, lo, hi, body) => {
                let a = self.eval_expr(rt, lo);
                let a = match a {
                    Ok(v) => v,
                    Err(x) => {
                        proof { lemma_first_failed(*rt, s@, f, st0, x); }
                        return Err(x);
                    },
                };
                let ghost h1 = rt.history();
                let b = self.eval_expr(rt, hi);
                let ghost h2 = rt.history();
                proof {
                    lemma_prefix_all(h1, h2);
                    lemma_extends_trans(h0, h1, h2);
                }
                let b = match b {
                    Ok(v) => v,
                    Err(x) => {
                        proof {
                            lemma_for_hi_failed(*rt, name@, lo@, hi@, stmts_v(body@), f, st0, a@, h1, x);
                        }
                        return Err(x);
                    },
                };
                let (x, y) = match (a, b) {
                    (Value::Int(x), Value::Int(y)) => (x, y),
                    _ => return Err(runtime_err("for range needs ints")),
                };
                let mut i = x;
                while i < y
                    invariant
                        self.file() == f,
                        self.budget() <= st0.steps,
                        extends(h0, rt.history()),
                        rt.recorded() == old(rt).recorded(),
                        forall|ans: Seq<Seq<u8>>|
                            #[trigger] agrees(ans, rt.history()) ==> exec_spec(s@, f, st0, ans)
                                == for_spec(name@, i, y, stmts_v(body@), f, self.state(rt.history()), ans),
                    decreases y - i,
                {
                    let ghost hc = rt.history();
                    let ghost stc = self.state(hc);
                    self.env.push_scope();
                    self.env.bind_local(name.as_str(), Value::Int(i));
                    let res = self.exec_block(rt, body);
                    proof {
                        lemma_prefix_all(hc, rt.history());
                        lemma_extends_trans(h0, hc, rt.history());
                    }
                    let flow = match res {
                        Ok(fl) => fl,
                        Err(e) => {
                            proof {
                                lemma_for_body_failed(*rt, name@, i, y, stmts_v(body@), f, stc, e, self.state(rt.history()));
                            }
                            return Err(e);
                        },
                    };
                    self.env.pop_scope();
                    match flow {
                        Flow::Normal => {},
                        Flow::Return(v) => return Ok(Flow::Return(v)),
                    }
                    i += 1;
                }
                Ok(Flow::Normal)
            },
            Stmt::Return(e) => match e {
                Some(x) => match self.eval_expr(rt, x) {
                    Ok(v) => Ok(Flow::Return(v)),
                    Err(err) => {
                        proof { lemma_first_failed(*rt, s@, f, st0, err); }
                        Err(err)
                    },
                },
                None => Ok(Flow::Return(Value::Nil)),
            },
            Stmt::Expr(e) => match self.eval_expr(rt, e) {
                Ok(_) => Ok(Flow::Normal),
                Err(x) => {
                    proof { lemma_first_failed(*rt, s@, f, st0, x); }
                    Err(x)
                },
            },
        }
    }

    /// Execute statements in order, stopping at the first `return` or error.
    fn exec_block<R: Runtime>(&mut self, rt: &mut R, ss: &Vec<Stmt>) -> (r: Result<Flow, InterpErr>)
        ensures
            final(self).file() == old(self).file(),
            final(self).budget() <= old(self).budget(),
            extends(old(rt).history(), final(rt).history()),
            final(rt).recorded() == old(rt).recorded(),
            is_replay(r) ==> replay_failed(old(rt).history(), *final(rt)),
            forall|ans: Seq<Seq<u8>>|
                #[trigger] agrees(ans, final(rt).history()) ==> block_spec(
                    stmts_v(ss@),
                    0,
                    old(self).file(),
                    old(self).state(old(rt).history()),
                    ans,
                ) == (flow_res(r), final(self).state(final(rt).history())) || (is_replay(r) && stopped_at(
                    *final(rt),
                    block_spec(stmts_v(ss@), 0, old(self).file(), old(self).state(old(rt).history()), ans).1.calls,
                )),
        decreases old(self).budget(), ss,
    {
        let ghost h0 = rt.history();
        let ghost st0 = self.state(h0);
        let ghost f = self.file();
        let ghost sv = stmts_v(ss@);
        proof {
            lemma_same(h0);
            lemma_stmts_len(ss@);
        }
        let mut i: usize = 0;
        while i < ss.len()
            invariant
                i <= ss@.len(),
                sv == stmts_v(ss@),
                sv.len() == ss@.len(),
                h0 == old(rt).history(),
                st0 == old(self).state(h0),
                f == old(self).file(),
                self.file() == f,
                self.budget() <= st0.steps,
                st0.steps == old(self).budget(),
                extends(h0, rt.history()),
                rt.recorded() == old(rt).recorded(),
                forall|ans: Seq<Seq<u8>>|
                    #[trigger] agrees(ans, rt.history()) ==> block_spec(sv, 0, f, st0, ans)
                        == block_spec(sv, i as int, f, self.state(rt.history()), ans),
            decreases ss@.len() - i,
        {
            let ghost hc = rt.history();
            let ghost stc = self.state(hc);
            proof {
                lemma_stmts_index(ss@, i as int);
            }
            let r = self.exec_stmt(rt, &ss[i]);
            proof {
                lemma_prefix_all(hc, rt.history());
                lemma_extends_trans(h0, hc, rt.history());
            }
            match r {
                Ok(Flow::Normal) => {},
                Err(x) => {
                    proof {
                        let fin = self.state(rt.history());
                        assert forall|ans: Seq<Seq<u8>>| #[trigger] agrees(ans, rt.history()) implies stmt_failed_as(
                            *rt,
                            exec_spec(sv[i as int], f, stc, ans),
                            x,
                            fin,
                        ) by {}
                        lemma_block_stmt_failed(*rt, sv, i as int, f, stc, x, fin);
                    }
                    return Err(x);
                },
                other => return other,
            }
            i += 1;
        }
        Ok(Flow::Normal)
    }

    /// Run a whole program. The exit code is what the program returns, if
    /// it returns an integer (taken as an `i32`), and 0 otherwise.
    pub fn run<R: Runtime>(&mut self, rt: &mut R, prog: &Program) -> (r: Result<i32, InterpErr>)
        ensures
            final(self).file() == old(self).file(),
            extends(old(rt).history(), final(rt).history()),
            final(rt).recorded() == old(rt).recorded(),
            is_replay(r) ==> replay_failed(old(rt).history(), *final(rt)),
            forall|ans: Seq<Seq<u8>>|
                #[trigger] agrees(ans, final(rt).history()) ==> run_spec(
                    stmts_v(prog.stmts@),
                    old(self).file(),
                    old(self).state(old(rt).history()),
                    ans,
                ) == (code_res(r), final(self).state(final(rt).history())) || (is_replay(r) && stopped_at(
                    *final(rt),
                    run_spec(stmts_v(prog.stmts@), old(self).file(), old(self).state(old(rt).history()), ans).1.calls,
                )),
    {
        match self.exec_block(rt, &prog.stmts) {
            Ok(Flow::Return(Value::Int(n))) => Ok(n as i32),
            Ok(_) => Ok(0),
            Err(x) => Err(x),
        }
    }
}

} // verus!
