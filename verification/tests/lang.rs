//! The .tape scripting frontend: lexing, parsing, running scripts through
//! record and replay, site stability, drift.

use std::collections::HashMap;
use tape::event::EffectKind;
use tape::lang::{lex, run_source, site_id, Expr, Interp, InterpErr, Parser, ScriptErr, Stmt, Tok};
use tape::{Host, Recording, ReplayErr, Replaying};

/// A host with a fixed clock, a fixed random pattern, captured stdout, an
/// in-memory environment and no file system.
struct ScriptHost {
    clock: u64,
    out: Vec<u8>,
    env: HashMap<String, String>,
}

impl ScriptHost {
    fn new() -> Self {
        ScriptHost { clock: 1_700_000_000, out: Vec::new(), env: HashMap::new() }
    }
}

impl Host for ScriptHost {
    fn clock_now(&mut self) -> u64 {
        self.clock
    }
    fn random_fill(&mut self, len: usize) -> Option<Vec<u8>> {
        Some((0..len).map(|i| (i as u8).wrapping_mul(17).wrapping_add(5)).collect())
    }
    fn process_id(&mut self) -> u32 {
        7
    }
    fn stdout_write(&mut self, buf: &[u8]) -> usize {
        self.out.extend_from_slice(buf);
        buf.len()
    }
    fn read_file(&mut self, path: &str) -> Result<Vec<u8>, String> {
        Err(format!("no such file: {path}"))
    }
    fn write_file(&mut self, _path: &str, _buf: &[u8]) -> Result<(), String> {
        Err("read-only".to_string())
    }
    fn env_var(&mut self, name: &str) -> Option<String> {
        self.env.get(name).cloned()
    }
    fn argv(&mut self) -> Vec<String> {
        vec!["tape".to_string(), "script".to_string()]
    }
    fn sleep_ms(&mut self, _millis: u64) {}
}

fn record(src: &str) -> (Result<i32, ScriptErr>, Vec<u8>, tape::Trace) {
    let mut rec = Recording::new(ScriptHost::new());
    let r = run_source(&mut rec, "tests/scripts/t.tape", src);
    let trace = rec.into_trace();
    let writes: Vec<u8> = trace
        .events
        .iter()
        .filter(|e| e.kind == EffectKind::IoWrite)
        .flat_map(|e| bincode::deserialize::<Vec<u8>>(&e.args).expect("decode"))
        .collect();
    (r, writes, trace)
}

fn runtime_message(r: Result<i32, ScriptErr>) -> String {
    match r {
        Err(ScriptErr::Interp(InterpErr::Runtime(m))) => m,
        other => panic!("expected a runtime error, got {:?}", other),
    }
}

#[test]
fn lexer_round_trips_basic_tokens() {
    let src = r#"let x = 1; if x == 0 { return; } "hi\n""#;
    let toks = lex(src).expect("lex ok");
    let kinds: Vec<&Tok> = toks.iter().map(|t| &t.tok).collect();
    let expected = vec![
        Tok::Let,
        Tok::Ident("x".into()),
        Tok::Assign,
        Tok::Int(1),
        Tok::Semicolon,
        Tok::If,
        Tok::Ident("x".into()),
        Tok::Eq,
        Tok::Int(0),
        Tok::LBrace,
        Tok::Return,
        Tok::Semicolon,
        Tok::RBrace,
        Tok::Str("hi\n".into()),
    ];
    let expected_refs: Vec<&Tok> = expected.iter().collect();
    assert_eq!(kinds, expected_refs);
}

#[test]
fn lexer_skips_comments_and_recognises_dotted_ident() {
    let src = "# this is a comment\nclock.now()";
    let toks = lex(src).expect("lex ok");
    assert_eq!(toks.len(), 3);
    assert_eq!(toks[0].tok, Tok::Ident("clock.now".into()));
    assert_eq!(toks[1].tok, Tok::LParen);
    assert_eq!(toks[2].tok, Tok::RParen);
}

#[test]
fn lexer_two_char_operators() {
    let src = "a == b != c <= d >= e && f || g ..";
    let toks = lex(src).expect("lex ok");
    let ops: Vec<&Tok> = toks.iter().map(|t| &t.tok).filter(|t| !matches!(t, Tok::Ident(_))).collect();
    let want = [Tok::Eq, Tok::Neq, Tok::Le, Tok::Ge, Tok::AndAnd, Tok::OrOr, Tok::DotDot];
    let want_refs: Vec<&Tok> = want.iter().collect();
    assert_eq!(ops, want_refs);
}

#[test]
fn lexer_string_escapes() {
    let toks = lex(r#""a\tb\nc\"d\\e""#).expect("lex ok");
    assert_eq!(toks.len(), 1);
    assert_eq!(toks[0].tok, Tok::Str("a\tb\nc\"d\\e".into()));
}

#[test]
fn lexer_rejects_unterminated_string() {
    assert!(lex("\"oops").is_err());
}

#[test]
fn parser_accepts_tiny_program() {
    let src = r#"let x = 1 + 2; if x == 3 { io.write("ok"); }"#;
    let toks = lex(src).expect("lex ok");
    let mut p = Parser::new(toks);
    let prog = p.parse_program().expect("parse ok");
    assert_eq!(prog.stmts.len(), 2);
    match &prog.stmts[0] {
        Stmt::Let(n, _) => assert_eq!(n, "x"),
        other => panic!("expected let, got {:?}", other),
    }
    match &prog.stmts[1] {
        Stmt::If(_, then_b, _) => {
            assert_eq!(then_b.len(), 1);
            match &then_b[0] {
                Stmt::Expr(Expr::Call { callee, args, .. }) => {
                    assert_eq!(callee, "io.write");
                    assert_eq!(args.len(), 1);
                }
                other => panic!("expected call, got {:?}", other),
            }
        }
        other => panic!("expected if, got {:?}", other),
    }
}

const HAPPY_SRC: &str = r#"
let x = 1 + 2;
io.write("answer: ");
io.write(str(x));
io.write("\n");
"#;

#[test]
fn record_then_replay_is_byte_identical() {
    let path = "tests/scripts/happy.tape";

    let mut rec = Recording::new(ScriptHost::new());
    run_source(&mut rec, path, HAPPY_SRC).expect("script ran");
    let trace = rec.into_trace();

    let recorded_writes: Vec<Vec<u8>> = trace
        .events
        .iter()
        .filter(|e| e.kind == EffectKind::IoWrite)
        .map(|e| bincode::deserialize::<Vec<u8>>(&e.args).expect("decode"))
        .collect();

    let mut rep = Replaying::new(trace).expect("replay accept");
    run_source(&mut rep, path, HAPPY_SRC).expect("replay ran");
    assert_eq!(rep.position(), rep.len(), "consumed every event");

    assert_eq!(recorded_writes[0], b"answer: ");
    assert_eq!(recorded_writes[1], b"3");
    assert_eq!(recorded_writes[2], b"\n");
}

#[test]
fn site_ids_are_stable_across_two_parses() {
    let src = "let x = clock.now(); io.write(\"hi\");";
    let path = "tests/scripts/stability.tape";

    let toks_a = lex(src).expect("lex");
    let mut pa = Parser::new(toks_a);
    let prog_a = pa.parse_program().expect("parse");

    let toks_b = lex(src).expect("lex");
    let mut pb = Parser::new(toks_b);
    let prog_b = pb.parse_program().expect("parse");

    fn call_offsets(prog: &tape::lang::Program) -> Vec<usize> {
        let mut out = Vec::new();
        for s in &prog.stmts {
            collect(s, &mut out);
        }
        out
    }
    fn collect(s: &Stmt, out: &mut Vec<usize>) {
        match s {
            Stmt::Let(_, e) => walk(e, out),
            Stmt::Expr(e) => walk(e, out),
            Stmt::If(c, t, el) => {
                walk(c, out);
                for s in t {
                    collect(s, out);
                }
                if let Some(b) = el {
                    for s in b {
                        collect(s, out);
                    }
                }
            }
            Stmt::While(c, b) => {
                walk(c, out);
                for s in b {
                    collect(s, out);
                }
            }
            Stmt::For(_, lo, hi, b) => {
                walk(lo, out);
                walk(hi, out);
                for s in b {
                    collect(s, out);
                }
            }
            Stmt::Return(Some(e)) => walk(e, out),
            Stmt::Return(None) => {}
        }
    }
    fn walk(e: &Expr, out: &mut Vec<usize>) {
        match e {
            Expr::Call { args, off, .. } => {
                out.push(*off);
                for a in args {
                    walk(a, out);
                }
            }
            Expr::Binary { lhs, rhs, .. } => {
                walk(lhs, out);
                walk(rhs, out);
            }
            Expr::Unary { rhs, .. } => walk(rhs, out),
            Expr::Index { target, index } => {
                walk(target, out);
                walk(index, out);
            }
            _ => {}
        }
    }

    let offs_a = call_offsets(&prog_a);
    let offs_b = call_offsets(&prog_b);
    assert_eq!(offs_a, offs_b, "call offsets must match across parses");
    assert!(!offs_a.is_empty());
    for off in &offs_a {
        let s1 = site_id(path, *off);
        let s2 = site_id(path, *off);
        assert_eq!(s1, s2);
    }
}

#[test]
fn drift_at_a_call_site_is_caught_by_replay() {
    let path = "tests/scripts/drift.tape";
    let src = "let t = clock.now();";

    let mut rec = Recording::new(ScriptHost::new());
    run_source(&mut rec, path, src).expect("ran");
    let mut trace = rec.into_trace();

    assert_eq!(trace.events.len(), 1);
    trace.events[0].site = trace.events[0].site.wrapping_add(1);

    let mut rep = Replaying::new(trace).expect("replay accept");
    let real_site = site_id(path, "let t = ".len() + "clock.now".len());
    let err = rep.next_event(real_site, EffectKind::ClockNow, &[]).unwrap_err();
    match err {
        ReplayErr::SiteMismatch { .. } => {}
        other => panic!("expected SiteMismatch, got {:?}", other),
    }
}

#[test]
fn replaying_a_drifted_script_stops_with_a_replay_error() {
    let path = "tests/scripts/drift.tape";
    let mut rec = Recording::new(ScriptHost::new());
    run_source(&mut rec, path, "let t = clock.now();").expect("ran");
    let trace = rec.into_trace();
    let mut rep = Replaying::new(trace).expect("replay accept");
    let r = run_source(&mut rep, path, "let t =  clock.now();");
    assert!(matches!(r, Err(ScriptErr::Interp(InterpErr::Replay(ReplayErr::SiteMismatch { .. })))));
}

#[test]
fn script_exit_code_and_arithmetic() {
    let (r, out, _) = record("let a = 7; let b = a * 6 - 2; print(b / 5); print(b % 5); return b;");
    assert_eq!(r.expect("ran"), 40);
    assert_eq!(out, b"8\n0\n");
}

#[test]
fn script_for_loop_binds_its_variable_per_pass() {
    let (r, out, trace) = record("for i in 0..3 { io.write(str(i)); } return 0;");
    assert_eq!(r.expect("ran"), 0);
    assert_eq!(out, b"012");
    assert_eq!(trace.events.len(), 3);
}

#[test]
fn script_let_in_a_block_rebinds_the_global() {
    let (r, out, _) = record(r#"let name = env.get("NAME"); if name == "" { let name = "stranger"; } io.write(name);"#);
    assert_eq!(r.expect("ran"), 0);
    assert_eq!(out, b"stranger");
}

#[test]
fn script_while_loop_and_short_circuit() {
    let (r2, out2, _) = record("let k = 0; while k < 4 { let k = k + 1; } if k == 4 || boom() { print(k); } return k;");
    assert_eq!(r2.expect("ran"), 4);
    assert_eq!(out2, b"4\n");
}

#[test]
fn script_strings_lists_and_indexing() {
    let (r, out, _) = record(r#"let s = "abc" + 1; let a = args.get(); print(s); print(len(a)); print(a[1]); print(byte_at("A", 0)); print("xyz"[2]); print(int(" -42 ") + 1); print(str(true) + "!");"#);
    assert_eq!(r.expect("ran"), 0);
    assert_eq!(out, b"abc1\n2\nscript\n65\n122\n-41\ntrue!\n");
}

#[test]
fn script_random_bits_are_recorded_and_replayed() {
    let src = "let b = random.bits(4); print(len(b)); return b[1];";
    let mut rec = Recording::new(ScriptHost::new());
    let code = run_source(&mut rec, "r.tape", src).expect("ran");
    assert_eq!(code, 22);
    let trace = rec.into_trace();
    let mut rep = Replaying::new(trace).expect("accept");
    let again = run_source(&mut rep, "r.tape", src).expect("replayed");
    assert_eq!(again, 22);
    assert_eq!(rep.position(), rep.len());
}

#[test]
fn script_runtime_errors_carry_their_messages() {
    assert_eq!(runtime_message(record("print(nope);").0), "unbound name: nope");
    assert_eq!(runtime_message(record("print(1 / 0);").0), "division by zero");
    assert_eq!(runtime_message(record("print(1 % 0);").0), "mod by zero");
    assert_eq!(runtime_message(record("print(1 - \"a\");").0), "arithmetic: need ints");
    assert_eq!(runtime_message(record("print(1 < \"a\");").0), "comparison: incompatible types");
    assert_eq!(runtime_message(record("print(9223372036854775807 + 1);").0), "integer overflow");
    assert_eq!(runtime_message(record("print(-\"a\");").0), "bad unary operand");
    assert_eq!(runtime_message(record("print(\"ab\"[5]);").0), "index out of range");
    assert_eq!(runtime_message(record("print(1[0]);").0), "cannot index this value");
    assert_eq!(runtime_message(record("print(\"ab\"[\"x\"]);").0), "index must be int");
    assert_eq!(runtime_message(record("for i in 0..\"a\" { }").0), "for range needs ints");
    assert_eq!(runtime_message(record("clock.now(1);").0), "clock.now: expected 0 args, got 1");
    assert_eq!(runtime_message(record("random.bits(\"x\");").0), "random.bits len: expected int");
    assert_eq!(runtime_message(record("fs.read(1);").0), "fs.read path: expected string");
    assert_eq!(runtime_message(record("fs.read(\"/none\");").0), "fs.read(/none): no such file: /none");
    assert_eq!(runtime_message(record("frobnicate();").0), "unknown function: frobnicate");
    assert_eq!(runtime_message(record("int(\"12x\");").0), "int: cannot parse \"12x\"");
    assert_eq!(runtime_message(record("len(1);").0), "len: unsupported type");
    assert_eq!(runtime_message(record("byte_at(\"a\", 3);").0), "byte_at: out of range");
}

#[test]
fn script_lex_and_parse_errors() {
    match record("let x = @;").0 {
        Err(ScriptErr::Lex(e)) => assert_eq!(e.off, 8),
        other => panic!("expected a lex error, got {:?}", other),
    }
    match record("let = 3;").0 {
        Err(ScriptErr::Parse(e)) => {
            assert_eq!(e.off, 4);
            assert_eq!(e.msg, "expected identifier after let");
            assert_eq!(ScriptErr::Parse(e).message(), "parse error at byte 4: expected identifier after let");
        }
        other => panic!("expected a parse error, got {:?}", other),
    }
    match record("if 1 { print(2);").0 {
        Err(ScriptErr::Parse(e)) => assert_eq!(e.msg, "unterminated block"),
        other => panic!("expected a parse error, got {:?}", other),
    }
}

#[test]
fn interp_runs_a_parsed_program_directly() {
    let toks = lex("let x = 5; return x * x;").expect("lex");
    let prog = Parser::new(toks).parse_program().expect("parse");
    let mut it = Interp::new("direct.tape".to_string());
    let mut rec = Recording::new(ScriptHost::new());
    assert_eq!(it.run(&mut rec, &prog).expect("ran"), 25);
}

#[test]
fn replay_ends_a_failing_script_the_same_way() {
    let src = "let t = clock.now(); io.write(\"x\"); let y = nope + 1;";
    let path = "tests/scripts/fails.tape";
    let mut rec = Recording::new(ScriptHost::new());
    let r1 = run_source(&mut rec, path, src);
    let trace = rec.into_trace();
    assert_eq!(trace.events.len(), 2);
    let mut rep = Replaying::new(trace).expect("replay accept");
    let r2 = run_source(&mut rep, path, src);
    assert_eq!(rep.position(), 2);
    match (r1, r2) {
        (Err(ScriptErr::Interp(InterpErr::Runtime(a))), Err(ScriptErr::Interp(InterpErr::Runtime(b)))) => {
            assert_eq!(a, "unbound name: nope");
            assert_eq!(a, b);
        }
        other => panic!("unexpected results: {other:?}"),
    }
}

#[test]
fn lexer_offsets_point_at_tokens_in_order() {
    let src = "  let x = \"a b\"; # note\n x == 12";
    let toks = lex(src).expect("lex");
    let offs: Vec<usize> = toks.iter().map(|t| t.off).collect();
    assert_eq!(offs, vec![2, 6, 8, 10, 15, 25, 27, 30]);
    for w in offs.windows(2) {
        assert!(w[0] < w[1]);
    }
}
