//! `tape::diff::render`: when two traces should match but don't, it points
//! at the first divergence with a useful explanation.

use tape::{diff, site_hash, Host, Recording, Runtime, Trace};

/// A host whose clock and random bytes the test chooses.
struct FixedHost {
    clock: u64,
    byte: u8,
}

impl Host for FixedHost {
    fn clock_now(&mut self) -> u64 {
        self.clock
    }
    fn random_fill(&mut self, len: usize) -> Option<Vec<u8>> {
        Some(vec![self.byte; len])
    }
    fn process_id(&mut self) -> u32 {
        1
    }
    fn stdout_write(&mut self, buf: &[u8]) -> usize {
        buf.len()
    }
    fn read_file(&mut self, _path: &str) -> Result<Vec<u8>, String> {
        Err("none".to_string())
    }
    fn write_file(&mut self, _path: &str, _buf: &[u8]) -> Result<(), String> {
        Err("none".to_string())
    }
    fn env_var(&mut self, _name: &str) -> Option<String> {
        None
    }
    fn argv(&mut self) -> Vec<String> {
        Vec::new()
    }
    fn sleep_ms(&mut self, _millis: u64) {}
}

fn record_dice_at(clock: u64, byte: u8) -> Trace {
    let mut rec = Recording::new(FixedHost { clock, byte });
    let _ = rec.now(site_hash("tests/diff.rs", 8, 20));
    let _ = rec.random_bits(site_hash("tests/diff.rs", 9, 20), 1);
    rec.io_write(site_hash("tests/diff.rs", 10, 5), b"hello\n").unwrap();
    rec.into_trace()
}

fn record_dice() -> Trace {
    record_dice_at(1_000, 4)
}

#[test]
fn identical_traces_report_no_divergence() {
    let t = record_dice();
    let s = diff::render(&t, &t, "a", "b");
    assert!(s.contains("no divergence"), "got: {s}");
    assert!(s.contains("3 events"));
}

#[test]
fn different_traces_pinpoint_first_divergence() {
    // two recordings of the same code that differ at the clock (and at the
    // random byte): the first divergence is at seq 0.
    let a = record_dice_at(1_000, 4);
    let b = record_dice_at(1_002, 5);

    let s = diff::render(&a, &b, "a", "b");
    assert!(s.contains("first divergence at seq"), "got: {s}");
    assert!(
        s.contains("different result") || s.contains("different sites") || s.contains("different effect kinds"),
        "diff must explain the kind of divergence; got: {s}"
    );
}

#[test]
fn unequal_lengths_show_which_side_has_extras() {
    let a = record_dice();
    let mut rec = Recording::new(FixedHost { clock: 1_000, byte: 4 });
    let _ = rec.now(site_hash("tests/diff.rs", 8, 20));
    let b = rec.into_trace();

    let s = diff::render(&a, &b, "a", "b");
    assert!(s.contains("extra event"), "got: {s}");
}

#[test]
fn diff_report_is_exact() {
    let a = record_dice_at(1_000, 4);
    let b = record_dice_at(1_002, 4);
    let s = diff::render(&a, &b, "left", "r");
    let site = site_hash("tests/diff.rs", 8, 20);
    let want = format!(
        "first divergence at seq 0:\n  left  clock.now site={site:#010x} args=0b result=8b\n     r  clock.now site={site:#010x} args=0b result=8b\n  (same kind/site/args, different result — outside world answered differently)\n"
    );
    assert_eq!(s, want);
}

#[test]
fn diff_of_identical_traces_is_one_line() {
    let t = record_dice();
    assert_eq!(diff::render(&t, &t, "x", "y"), "no divergence. 3 events match byte-for-byte.\n");
}

#[test]
fn diff_names_the_side_with_an_extra_event() {
    let a = record_dice();
    let mut b = a.clone();
    b.events.pop();
    let s = diff::render(&a, &b, "aa", "b");
    let site = site_hash("tests/diff.rs", 10, 5);
    assert_eq!(s, format!("  aa has extra event at seq 2: io.write site={site:#010x}\n"));
    let s2 = diff::render(&b, &a, "a", "bb");
    assert_eq!(s2, format!("  bb has extra event at seq 2: io.write site={site:#010x}\n"));
}

#[test]
fn diff_suppresses_after_five_differences() {
    let mut a = Trace::empty();
    let mut b = Trace::empty();
    for i in 0..7u64 {
        a.events.push(tape::Event { seq: i, site: 1, kind: tape::EffectKind::ClockNow, args: vec![], result: vec![1] });
        b.events.push(tape::Event { seq: i, site: 1, kind: tape::EffectKind::ClockNow, args: vec![], result: vec![2] });
    }
    let s = diff::render(&a, &b, "a", "b");
    assert!(s.ends_with("(suppressing further differences after 5 shown)\n"), "got: {s}");
    assert_eq!(s.matches("different result").count(), 5);
    assert!(!s.contains("no divergence"));
}

#[test]
fn diff_warns_when_the_builds_differ() {
    let a = record_dice();
    let mut b = a.clone();
    b.header.code_hash = [0xab; 32];
    let s = diff::render(&a, &b, "a", "b");
    assert!(s.starts_with("⚠ code_hash differs — these traces were recorded against different builds.\n"), "got: {s}");
    assert!(s.contains("  b: abababababababab…\n\n"));
    assert!(s.ends_with("no divergence. 3 events match byte-for-byte.\n"));
}

#[test]
fn diff_explains_each_kind_of_divergence() {
    let base = record_dice();
    let mut kind = base.clone();
    kind.events[0].kind = tape::EffectKind::EnvGet;
    assert!(diff::render(&base, &kind, "a", "b").contains("(different effect kinds — programs took different control-flow branches)"));
    let mut site = base.clone();
    site.events[0].site ^= 1;
    assert!(diff::render(&base, &site, "a", "b").contains("(same kind, different sites — code edited between recordings)"));
    let mut args = base.clone();
    args.events[1].args = bincode::serialize(&2u64).unwrap();
    assert!(diff::render(&base, &args, "a", "b").contains("(same site, different args — programs computed different arguments)"));
}
