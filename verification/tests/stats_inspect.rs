//! Renderer tests for `tape inspect`: construct a trace by hand and check
//! the output strings.

use tape::event::{EffectKind, Event, Trace};
use tape::event::Outcome;
use tape::{inspect, stats};

fn ev(seq: u64, site: u32, kind: EffectKind) -> Event {
    Event { seq, site, kind, args: vec![0u8; 4], result: vec![0u8; 8] }
}

fn fixture() -> Trace {
    let mut t = Trace::empty();
    t.events.push(ev(0, 0xA, EffectKind::ClockNow));
    t.events.push(ev(1, 0xB, EffectKind::IoWrite));
    t.events.push(ev(2, 0xB, EffectKind::IoWrite));
    t.events.push(ev(3, 0xC, EffectKind::RandomBits));
    t
}

#[test]
fn inspect_filter_by_kind_drops_other_events() {
    let f = inspect::Filter { kind: Some(EffectKind::IoWrite), ..Default::default() };
    let out = inspect::render_filtered(&fixture(), &f);
    assert!(out.contains("(2 of 4 events shown)"));
    assert!(out.contains("io.write"));
    assert!(!out.contains("clock.now"));
    assert!(!out.contains("random.bits"));
}

#[test]
fn inspect_filter_by_site_and_since() {
    let f = inspect::Filter { site: Some(0xB), since: Some(2), ..Default::default() };
    let out = inspect::render_filtered(&fixture(), &f);
    assert!(out.contains("(1 of 4 events shown)"));
}

#[test]
fn inspect_limit_truncates() {
    let f = inspect::Filter { limit: Some(2), ..Default::default() };
    let out = inspect::render_filtered(&fixture(), &f);
    assert!(out.contains("(2 of 4 events shown)"));
}

#[test]
fn parse_kind_round_trips_every_variant() {
    for k in [
        EffectKind::ClockNow,
        EffectKind::RandomBits,
        EffectKind::IoWrite,
        EffectKind::FsRead,
        EffectKind::FsWrite,
        EffectKind::EnvGet,
        EffectKind::ArgsGet,
    ] {
        assert_eq!(inspect::parse_kind(k.name()), Some(k));
    }
    assert_eq!(inspect::parse_kind("nonsense"), None);
}

#[test]
fn stats_json_counts_kinds_and_finds_hot_site() {
    let out = stats::render_json(&fixture());
    assert!(out.contains("\"events\":4"));
    assert!(out.contains("io.write"));
    assert!(out.contains("clock.now"));
    assert!(out.contains("random.bits"));
    // io.write appears twice -> it ranks above clock.now in by-kind
    let io_pos = out.find("io.write").unwrap();
    let clock_pos = out.find("clock.now").unwrap();
    assert!(io_pos < clock_pos, "io.write (2 calls) should rank above clock.now (1 call) in by-kind");
    // hot site is 0xB (io.write x2)
    assert!(out.contains("0x0000000b"));
}

#[test]
fn stats_json_is_exact() {
    let out = stats::render_json(&fixture());
    assert_eq!(
        out,
        "{\"schema_version\":1,\"started_at\":0,\"events\":4,\"outcome\":{\"kind\":\"aborted\"},\
\"by_kind\":[{\"kind\":\"io.write\",\"count\":2,\"bytes\":24},{\"kind\":\"clock.now\",\"count\":1,\"bytes\":12},{\"kind\":\"random.bits\",\"count\":1,\"bytes\":12}],\
\"top_sites\":[{\"site\":\"0x0000000b\",\"kind\":\"io.write\",\"count\":2},{\"site\":\"0x0000000a\",\"kind\":\"clock.now\",\"count\":1},{\"site\":\"0x0000000c\",\"kind\":\"random.bits\",\"count\":1}]}"
    );
}

#[test]
fn stats_tallies_rank_by_count_then_first_occurrence() {
    let t = fixture();
    let kinds = stats::by_kind(&t);
    let order: Vec<(EffectKind, usize, usize)> = kinds.iter().map(|r| (r.key, r.count, r.first)).collect();
    assert_eq!(order, vec![(EffectKind::IoWrite, 2, 1), (EffectKind::ClockNow, 1, 0), (EffectKind::RandomBits, 1, 3)]);
    let sites = stats::by_site(&t);
    assert_eq!(sites[0].key, (0xB, EffectKind::IoWrite));
    assert_eq!(sites.len(), 3);
    assert_eq!(stats::totals(&t), (16, 32));
}

#[test]
fn stats_json_lists_at_most_ten_sites() {
    let mut t = Trace::empty();
    for i in 0..12u32 {
        t.events.push(ev(i as u64, i, EffectKind::ClockNow));
    }
    let out = stats::render_json(&t);
    assert_eq!(out.matches("\"site\":").count(), 10);
    assert_eq!(stats::by_site(&t).len(), 12);
}

#[test]
fn stats_json_escapes_panic_text() {
    let mut t = Trace::empty();
    t.footer.outcome = Outcome::Panic { message: "a \"b\"\n\u{1}".to_string(), location: "x\\y".to_string() };
    let out = stats::render_json(&t);
    assert!(out.contains("\"outcome\":{\"kind\":\"panic\",\"message\":\"a \\\"b\\\"\\n\\u0001\",\"location\":\"x\\\\y\"}"), "got: {out}");
    t.footer.outcome = Outcome::Exit(-3);
    assert!(stats::render_json(&t).contains("\"outcome\":{\"kind\":\"exit\",\"code\":-3}"));
}

#[test]
fn outcomes_read_as_text() {
    assert_eq!(inspect::format_outcome(&Outcome::Exit(0)), "exit 0");
    assert_eq!(inspect::format_outcome(&Outcome::Aborted), "aborted");
    assert_eq!(
        inspect::format_outcome(&Outcome::Panic { message: "boom".to_string(), location: "src/foo.rs:10".to_string() }),
        "panic: boom at src/foo.rs:10"
    );
}
