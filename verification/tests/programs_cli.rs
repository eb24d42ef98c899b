//! The demo programs record and replay; the command line's own parsing.

use tape::cli::{
    bench_load, filter_from_args, has_flag, parse_bench_effect, parse_named_arg, parse_u32_flexible, parse_u64,
    traces_identical, BenchEffect,
};
use tape::programs::{catalog, lookup, Demo};
use tape::{EffectKind, Host, Recording, ReplayErr, Replaying};

struct DemoHost {
    out: Vec<u8>,
}

impl Host for DemoHost {
    fn clock_now(&mut self) -> u64 {
        1234
    }
    fn random_fill(&mut self, len: usize) -> Option<Vec<u8>> {
        Some((0..len).map(|i| (i as u8).wrapping_add(10)).collect())
    }
    fn process_id(&mut self) -> u32 {
        5
    }
    fn stdout_write(&mut self, buf: &[u8]) -> usize {
        self.out.extend_from_slice(buf);
        buf.len()
    }
    fn read_file(&mut self, _path: &str) -> Result<Vec<u8>, String> {
        Err("none".to_string())
    }
    fn write_file(&mut self, _path: &str, _buf: &[u8]) -> Result<(), String> {
        Err("none".to_string())
    }
    fn env_var(&mut self, _name: &str) -> Option<String> {
        None
    }
    fn argv(&mut self) -> Vec<String> {
        Vec::new()
    }
    fn sleep_ms(&mut self, _millis: u64) {}
}

fn writes(trace: &tape::Trace) -> Vec<u8> {
    trace
        .events
        .iter()
        .filter(|e| e.kind == EffectKind::IoWrite)
        .flat_map(|e| bincode::deserialize::<Vec<u8>>(&e.args).unwrap())
        .collect()
}

fn args(v: &[&str]) -> Vec<String> {
    v.iter().map(|s| s.to_string()).collect()
}

#[test]
fn lookup_finds_every_catalogued_program() {
    for (name, _) in catalog() {
        let d = lookup(name).expect("listed program");
        assert_eq!(d.name(), name);
    }
    assert_eq!(lookup("nope"), None);
    assert_eq!(lookup("dice"), Some(Demo::Dice));
}

#[test]
fn dice_writes_its_roll_and_replays() {
    let mut rec = Recording::new(DemoHost { out: Vec::new() });
    assert_eq!(Demo::Dice.run(&mut rec).unwrap(), 0);
    let trace = rec.into_trace();
    // the random byte is 10: 10 % 6 + 1 = 5
    assert_eq!(writes(&trace), b"at 1234s you rolled a 5\n");
    let mut rep = Replaying::new(trace).unwrap();
    assert_eq!(Demo::Dice.run(&mut rep).unwrap(), 0);
    assert_eq!(rep.position(), rep.len());
}

#[test]
fn counter_counts_to_five() {
    let mut rec = Recording::new(DemoHost { out: Vec::new() });
    assert_eq!(Demo::Counter.run(&mut rec).unwrap(), 0);
    let trace = rec.into_trace();
    assert_eq!(writes(&trace), b"count 1\ncount 2\ncount 3\ncount 4\ncount 5\n");
}

#[test]
fn entropy_sums_its_bytes() {
    let mut rec = Recording::new(DemoHost { out: Vec::new() });
    assert_eq!(Demo::Entropy.run(&mut rec).unwrap(), 0);
    let trace = rec.into_trace();
    // bytes 10..=73 sum to 64 * 10 + 63 * 64 / 2
    assert_eq!(writes(&trace), b"64 random bytes summed to 2656\n");
}

#[test]
fn replaying_another_program_is_refused() {
    let mut rec = Recording::new(DemoHost { out: Vec::new() });
    Demo::Counter.run(&mut rec).unwrap();
    let trace = rec.into_trace();
    let mut rep = Replaying::new(trace).unwrap();
    assert!(matches!(Demo::Dice.run(&mut rep), Err(ReplayErr::SiteMismatch { .. })));
}

#[test]
fn named_arguments_in_both_spellings() {
    let a = args(&["prog", "--out", "x.bin", "--trace=t.bin", "--json"]);
    assert_eq!(parse_named_arg(&a, "--out"), Some("x.bin".to_string()));
    assert_eq!(parse_named_arg(&a, "--trace"), Some("t.bin".to_string()));
    assert_eq!(parse_named_arg(&a, "--limit"), None);
    assert_eq!(parse_named_arg(&args(&["--out"]), "--out"), None);
    assert!(has_flag(&a, "--json"));
    assert!(!has_flag(&a, "--yaml"));
}

#[test]
fn numbers_in_decimal_and_hex() {
    assert_eq!(parse_u32_flexible("0xA0000001"), Some(0xA000_0001));
    assert_eq!(parse_u32_flexible("0Xff"), Some(255));
    assert_eq!(parse_u32_flexible("2684354561"), Some(2_684_354_561));
    assert_eq!(parse_u32_flexible("4294967296"), None);
    assert_eq!(parse_u32_flexible("0x"), None);
    assert_eq!(parse_u32_flexible("12a"), None);
    assert_eq!(parse_u32_flexible("+7"), Some(7));
    assert_eq!(parse_u64("18446744073709551615"), Some(u64::MAX));
    assert_eq!(parse_u64("18446744073709551616"), None);
    assert_eq!(parse_u64(""), None);
    assert_eq!(parse_u64("-1"), None);
}

#[test]
fn inspect_filters_from_arguments() {
    let f = filter_from_args(&args(&["t.bin", "--filter", "io.write", "--site", "0xB", "--since=2", "--limit", "5"])).unwrap();
    assert_eq!(f.kind, Some(EffectKind::IoWrite));
    assert_eq!(f.site, Some(0xB));
    assert_eq!(f.since, Some(2));
    assert_eq!(f.limit, Some(5));
    assert_eq!(
        filter_from_args(&args(&["--filter", "bogus"])).unwrap_err(),
        "tape inspect: unknown --filter kind: bogus"
    );
    assert_eq!(
        filter_from_args(&args(&["--site", "zz"])).unwrap_err(),
        "tape inspect: bad --site value: zz (try 0xA0000001 or 2684354561)"
    );
    assert_eq!(filter_from_args(&args(&["--since", "x"])).unwrap_err(), "tape inspect: bad --since value: x");
}

#[test]
fn identical_traces_compare_equal() {
    let mut rec = Recording::new(DemoHost { out: Vec::new() });
    Demo::Dice.run(&mut rec).unwrap();
    let a = rec.into_trace();
    let mut b = a.clone();
    assert!(traces_identical(&a, &b));
    b.events[1].result.push(0);
    assert!(!traces_identical(&a, &b));
}

#[test]
fn bench_load_records_and_replays_n_calls() {
    assert_eq!(parse_bench_effect("write"), Some(BenchEffect::Write));
    assert_eq!(parse_bench_effect("disk"), None);
    let mut rec = Recording::new(DemoHost { out: Vec::new() });
    bench_load(&mut rec, BenchEffect::Random, 25).unwrap();
    let trace = rec.into_trace();
    assert_eq!(trace.events.len(), 25);
    assert!(trace.events.iter().all(|e| e.site == 0xBEEF_0002 && e.kind == EffectKind::RandomBits));
    let mut rep = Replaying::new(trace).unwrap();
    bench_load(&mut rep, BenchEffect::Random, 25).unwrap();
    assert!(matches!(bench_load(&mut rep, BenchEffect::Random, 1), Err(ReplayErr::EndOfTrace { .. })));
}

#[test]
fn replay_errors_read_as_messages() {
    let e = ReplayErr::SiteMismatch { seq: 3, expected: 0xA, got: 0xB };
    assert_eq!(e.message(), "at seq 3: site mismatch — trace recorded 0x0000000a, program now at 0x0000000b");
    let e = ReplayErr::EndOfTrace { seq: 2, site: 1, kind: EffectKind::IoWrite };
    assert_eq!(e.message(), "trace ended at seq 2, but the program then called io.write at site 0x00000001");
    let e = ReplayErr::UnsupportedSchema { expected: 1, got: 999 };
    assert_eq!(e.message(), "trace schema 999 not supported (this build expects 1)");
    let e = ReplayErr::KindMismatch { seq: 0, site: 16, expected: EffectKind::ClockNow, got: EffectKind::EnvGet };
    assert_eq!(e.message(), "at seq 0, site 0x00000010: kind mismatch — trace has clock.now, program now calls env.get");
    let e = ReplayErr::CodeHashMismatch { expected: [0xBB; 32], got: [0xAA; 32] };
    assert_eq!(
        e.message(),
        "code hash mismatch — trace recorded against aaaaaaaaaaaaaaaa…, this build is bbbbbbbbbbbbbbbb…. you have edited a source file since the recording."
    );
}

#[test]
fn every_demo_replays_its_own_recording() {
    for d in [Demo::Dice, Demo::Counter, Demo::Entropy] {
        let mut rec = Recording::new(DemoHost { out: Vec::new() });
        assert_eq!(d.run(&mut rec).unwrap(), 0);
        let trace = rec.into_trace();
        let n = trace.events.len();
        let mut rep = Replaying::new(trace).unwrap();
        assert_eq!(d.run(&mut rep).unwrap(), 0);
        assert_eq!(rep.position(), n);
        assert_eq!(rep.len(), n);
    }
}

#[test]
fn bench_load_of_zero_calls_succeeds_and_calls_nothing() {
    let mut rec = Recording::new(DemoHost { out: Vec::new() });
    assert!(bench_load(&mut rec, BenchEffect::Write, 0).is_ok());
    assert_eq!(rec.into_trace().events.len(), 0);
}

#[test]
fn replay_output_is_what_the_program_wrote() {
    let mut rec = Recording::new(DemoHost { out: Vec::new() });
    Demo::Counter.run(&mut rec).unwrap();
    let trace = rec.into_trace();
    let mut rep = Replaying::new(trace).unwrap();
    assert_eq!(rep.output(), b"");
    Demo::Counter.run(&mut rep).unwrap();
    assert_eq!(rep.output(), b"count 1\ncount 2\ncount 3\ncount 4\ncount 5\n");
}

#[test]
fn position_counts_successful_next_event_calls() {
    let mut rec = Recording::new(DemoHost { out: Vec::new() });
    Demo::Dice.run(&mut rec).unwrap();
    let trace = rec.into_trace();
    let first = trace.events[0].clone();
    let second = trace.events[1].clone();
    let mut rep = Replaying::new(trace).unwrap();
    assert!(rep.next_event(first.site, first.kind, &first.args).is_ok());
    assert!(rep.next_event(first.site, first.kind, &first.args).is_err());
    assert!(rep.next_event(second.site, second.kind, &second.args).is_ok());
    assert_eq!(rep.position(), 2);
    assert_eq!(rep.len(), 3);
}
