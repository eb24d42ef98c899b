//! Scripting frontend: lexes and parses a .tape source file and walks the
//! syntax tree against a `Runtime`, so the same record / replay path used by
//! built-in programs also drives user scripts.
//!
//! The language is small on purpose: literals, ints, strings, bytes, lists,
//! `let`, `if/else`, `while`, `for ... in lo..hi`, the usual operators, and a
//! fixed set of host calls that map one-to-one to `Runtime` methods. No
//! user-defined functions, no closures, no module system.
pub mod ast;
pub mod interp;
pub mod lexer;
pub mod parser;
pub mod semantics;
pub mod value;

pub use ast::{Expr, Program, Stmt};
pub use interp::{site_id, Interp, InterpErr};
pub use lexer::{lex, LexErr, Tok, Token};
pub use parser::{ParseErr, Parser};
pub use value::Value;

use crate::event::{calls_of, EffectCall, Trace};
use crate::recording::{Host, Recording};
use crate::replaying::{replay_step, Replaying};
use crate::lang::ast::stmts_v;
use crate::lang::interp::{err_v, replay_failed, stopped_at};
use crate::lang::lexer::{lex_spec, LexOut};
use crate::lang::parser::parse_spec;
use crate::lang::semantics::{agrees, answers, extends, run_spec, EnvV, ErrV, St};
use crate::runtime::Runtime;
use crate::text::{dec_nat, push_dec, push_str, str_chars, string_of};
use vstd::prelude::*;
use vstd::string::StringSliceAdditionalSpecFns;

verus! {

/// Why `run_source` gave up: the source did not lex, did not parse, or
/// stopped with an error while running.
#[derive(Debug)]
pub enum ScriptErr {
    Lex(LexErr),
    Parse(ParseErr),
    Interp(InterpErr),
}

/// `"{what} error at byte {off}: {msg}"`.
pub open spec fn at_byte(what: Seq<char>, off: nat, msg: Seq<char>) -> Seq<char> {
    what + " error at byte "@ + dec_nat(off) + ": "@ + msg
}

fn at_byte_msg(what: &str, off: usize, msg: &str) -> (m: String)
    ensures
        m@ == at_byte(what@, off as nat, msg@),
{
    let mut v = str_chars(what);
    push_str(&mut v, " error at byte ");
    push_dec(&mut v, off as u64);
    push_str(&mut v, ": ");
    push_str(&mut v, msg);
    string_of(v.as_slice())
}

impl LexErr {
    /// `lex error at byte {off}: {msg}`.
    pub fn message(&self) -> (m: String)
        ensures
            m@ == at_byte("lex"@, self.off as nat, self.msg@),
    {
        at_byte_msg("lex", self.off, self.msg.as_str())
    }
}

impl ParseErr {
    /// `parse error at byte {off}: {msg}`.
    pub fn message(&self) -> (m: String)
        ensures
            m@ == at_byte("parse"@, self.off as nat, self.msg@),
    {
        at_byte_msg("parse", self.off, self.msg.as_str())
    }
}

impl ScriptErr {
    /// The message of the error inside.
    pub fn message(&self) -> (m: String)
        ensures
            match self {
                ScriptErr::Lex(e) => m@ == at_byte("lex"@, e.off as nat, e.msg@),
                ScriptErr::Parse(e) => m@ == at_byte("parse"@, e.off as nat, e.msg@),
                ScriptErr::Interp(InterpErr::Runtime(s)) => m@ == "runtime error: "@ + s@,
                ScriptErr::Interp(InterpErr::Replay(e)) => crate::error::is_replay_message(*e, m@),
            },
    {
        match self {
            ScriptErr::Lex(e) => e.message(),
            ScriptErr::Parse(e) => e.message(),
            ScriptErr::Interp(e) => e.message(),
        }
    }
}

/// The state a script starts in: nothing bound, the full loop budget, the
/// calls made so far `h`.
pub open spec fn fresh_state(h: Seq<EffectCall>) -> St {
    St { env: EnvV { globals: Seq::empty(), locals: Seq::empty() }, steps: u64::MAX, calls: h }
}

/// A run's result as the model of the program gives it (a source that does
/// not lex or parse never reaches the model).
pub open spec fn script_res(r: Result<i32, ScriptErr>) -> Result<i32, ErrV> {
    match r {
        Ok(n) => Ok(n),
        Err(ScriptErr::Interp(e)) => Err(err_v(e)),
        Err(_) => Err(ErrV::Replay),
    }
}

/// What running the script `src` (at `file`) does to a runtime, from
/// `before` to `after`, with result `r`. A source that does not lex or
/// parse makes no call and gives its error. Otherwise, for any answers
/// that agree with the calls made, the run is the model's run of the
/// program from a fresh state: the same result and the same calls; or the
/// run stopped with a replay error at a call the runtime did not take. A
/// replay error always comes from the runtime (`replay_failed`).
pub open spec fn script_ran<R: Runtime>(
    file: Seq<char>,
    src: Seq<u8>,
    before: R,
    after: R,
    r: Result<i32, ScriptErr>,
) -> bool {
    &&& extends(before.history(), after.history())
    &&& after.recorded() == before.recorded()
    &&& (r matches Err(ScriptErr::Interp(InterpErr::Replay(_))) ==> replay_failed(before.history(), after))
    &&& match lex_spec(src) {
        LexOut::Fail(o, m) => r matches Err(ScriptErr::Lex(e)) && e.off == o && e.msg@ == m
            && after.history() == before.history(),
        LexOut::Done(ts) => match parse_spec(ts) {
            Err((o, m)) => r matches Err(ScriptErr::Parse(e)) && e.off == o && e.msg@ == m
                && after.history() == before.history(),
            Ok(prog) => (r is Ok || r matches Err(ScriptErr::Interp(_))) && forall|ans: Seq<Seq<u8>>|
                #[trigger] agrees(ans, after.history()) ==> {
                    let (code, st) = run_spec(prog, file, fresh_state(before.history()), ans);
                    ||| code == script_res(r) && st.calls == after.history()
                    ||| r matches Err(ScriptErr::Interp(InterpErr::Replay(_))) && stopped_at(after, st.calls)
                },
        },
        LexOut::Stuck => false,
    }
}

/// Lex, parse and run `src` against `rt`: the program's exit code (0 if it
/// ends without an explicit `return N;`), or the first error.
///
/// `file_path` is what site ids hash: pass the path the user wrote, so that
/// record and replay produce identical site ids.
///
/// Lexing stops early on a source where looking for a two-byte operator
/// would slice inside a multi-byte character; `lexable` tells such sources
/// apart.
pub fn run_source<R: Runtime>(rt: &mut R, file_path: &str, src: &str) -> (r: Result<i32, ScriptErr>)
    requires
        !(lex_spec(src.spec_bytes()) is Stuck),
    ensures
        script_ran(file_path@, src.spec_bytes(), *old(rt), *final(rt), r),
{
    let ghost h0 = rt.history();
    proof {
        assert(h0.take(h0.len() as int) =~= h0);
    }
    let toks = match lex(src) {
        Ok(t) => t,
        Err(e) => return Err(ScriptErr::Lex(e)),
    };
    let mut p = Parser::new(toks);
    let prog = match p.parse_program() {
        Ok(pr) => pr,
        Err(e) => return Err(ScriptErr::Parse(e)),
    };
    let mut it = Interp::new(string_of(str_chars(file_path).as_slice()));
    match it.run(rt, &prog) {
        Ok(n) => Ok(n),
        Err(e) => Err(ScriptErr::Interp(e)),
    }
}

/// Two runs of a script end the same way: the same exit code, or the same
/// lex, parse or runtime error.
pub open spec fn same_end(r1: Result<i32, ScriptErr>, r2: Result<i32, ScriptErr>) -> bool {
    match (r1, r2) {
        (Ok(a), Ok(b)) => a == b,
        (Err(ScriptErr::Lex(a)), Err(ScriptErr::Lex(b))) => a.off == b.off && a.msg@ == b.msg@,
        (Err(ScriptErr::Parse(a)), Err(ScriptErr::Parse(b))) => a.off == b.off && a.msg@ == b.msg@,
        (
            Err(ScriptErr::Interp(InterpErr::Runtime(a))),
            Err(ScriptErr::Interp(InterpErr::Runtime(b))),
        ) => a@ == b@,
        _ => false,
    }
}

/// Record a script, then replay the recording: the recording never stops
/// the script with a replay error; the replay answers every call the
/// script makes, with the same calls and the same answers, consumes the
/// whole trace, and ends the same way as the recorded run.
pub proof fn law_script_record_then_replay<H: Host>(
    file: Seq<char>,
    src: Seq<u8>,
    rec0: Recording<H>,
    rec1: Recording<H>,
    r1: Result<i32, ScriptErr>,
    trace: Trace,
    rep0: Replaying,
    rep1: Replaying,
    r2: Result<i32, ScriptErr>,
)
    requires
        rec0.events().len() == 0,
        rec1.answers_usable(),
        script_ran(file, src, rec0, rec1, r1),
        trace.events@ == rec1.events(),
        rep0.trace() == trace,
        rep0.pos() == 0,
        rep1.pos() <= rep1.trace().events@.len(),
        script_ran(file, src, rep0, rep1, r2),
    ensures
        !(r1 matches Err(ScriptErr::Interp(InterpErr::Replay(_)))),
        !(r2 matches Err(ScriptErr::Interp(InterpErr::Replay(_)))),
        same_end(r1, r2),
        rep1.history() == rec1.history(),
        rep1.pos() == trace.events@.len(),
{
    let rec = rec1.history();
    let evs = rep1.trace().events@;
    let p = rep1.pos() as int;
    assert(rec0.history() =~= Seq::<EffectCall>::empty());
    Replaying::lemma_history(rep0);
    Replaying::lemma_history(rep1);
    assert(rep0.history() =~= Seq::<EffectCall>::empty());
    assert(calls_of(evs) == rec);
    let h2 = rep1.history();
    assert(h2 =~= rec.take(p));
    if r1 matches Err(ScriptErr::Interp(InterpErr::Replay(_))) {
        if rec.len() > 0 {
            assert(rec.last() == rec[rec.len() - 1]);
        }
    }
    let ans = answers(rec);
    assert(agrees(ans, rec));
    assert(agrees(ans, h2)) by {
        assert forall|i: int| 0 <= i < h2.len() implies ans[i] == #[trigger] h2[i].result by {
            assert(h2[i] == rec[i]);
        }
    }
    match lex_spec(src) {
        LexOut::Done(ts) => match parse_spec(ts) {
            Ok(prog) => {
                let (code, st) = run_spec(prog, file, fresh_state(Seq::empty()), ans);
                assert(code == script_res(r1) && st.calls == rec);
                if p < rec.len() {
                    assert(replay_step(evs, p, rec[p].site, rec[p].kind, rec[p].args) is Ok);
                    assert(rep1.accepts(rec[p].site, rec[p].kind, rec[p].args));
                } else {
                    assert(h2 =~= rec);
                }
            },
            _ => {
                assert(calls_of(trace.events@).len() == 0);
            },
        },
        _ => {
            assert(calls_of(trace.events@).len() == 0);
        },
    }
}

} // verus!
