//! Record + replay along the happy path, and every flavour of drift between
//! record and replay caught: never tolerated, never silent.

use std::time::{SystemTime, UNIX_EPOCH};
use tape::{site_hash, EffectKind, Host, Recording, ReplayErr, Replaying, Runtime};

/// A host for tests: the real clock, a fixed byte pattern for randomness,
/// and no file system, environment or sleeping.
struct TestHost {
    counter: u8,
}

impl Host for TestHost {
    fn clock_now(&mut self) -> u64 {
        SystemTime::now().duration_since(UNIX_EPOCH).map(|d| d.as_secs()).unwrap_or(0)
    }
    fn random_fill(&mut self, len: usize) -> Option<Vec<u8>> {
        let mut v = Vec::with_capacity(len);
        for _ in 0..len {
            self.counter = self.counter.wrapping_mul(31).wrapping_add(7);
            v.push(self.counter);
        }
        Some(v)
    }
    fn process_id(&mut self) -> u32 {
        1
    }
    fn stdout_write(&mut self, buf: &[u8]) -> usize {
        buf.len()
    }
    fn read_file(&mut self, _path: &str) -> Result<Vec<u8>, String> {
        Err("no file system in tests".to_string())
    }
    fn write_file(&mut self, _path: &str, _buf: &[u8]) -> Result<(), String> {
        Err("no file system in tests".to_string())
    }
    fn env_var(&mut self, _name: &str) -> Option<String> {
        None
    }
    fn argv(&mut self) -> Vec<String> {
        vec!["tape-test".to_string()]
    }
    fn sleep_ms(&mut self, _millis: u64) {}
}

fn new_recording() -> Recording<TestHost> {
    Recording::new(TestHost { counter: 3 })
}

// the fixed program both record and replay run. the values it returns depend
// on the runtime's effect responses, so identical record→replay must produce
// identical outputs.
fn sample_program<R: Runtime>(rt: &mut R) -> (u64, Vec<u8>, usize) {
    let t = rt.now(site_hash("tests/kernel.rs", 54, 13)).unwrap();
    let r = rt.random_bits(site_hash("tests/kernel.rs", 55, 13), 8).unwrap();
    let n = rt.io_write(site_hash("tests/kernel.rs", 56, 13), b"tape\n").unwrap();
    (t, r, n)
}

#[test]
fn happy_path_record_then_replay_is_byte_identical() {
    let mut rec = new_recording();
    let original = sample_program(&mut rec);
    let trace = rec.into_trace();
    let trace2 = trace.clone();

    let mut rep = Replaying::new(trace2).expect("schema accepted");
    let replayed = sample_program(&mut rep);

    assert_eq!(original, replayed, "record and replay diverged");
    assert_eq!(rep.position(), rep.len(), "replay didn't consume the full trace");
}

#[test]
fn end_of_trace_error_when_program_calls_more_than_recorded() {
    let trace = new_recording().into_trace();
    let mut rep = Replaying::new(trace).unwrap();
    match rep.next_event(0xDEAD, EffectKind::ClockNow, &[]) {
        Err(ReplayErr::EndOfTrace { seq, site, kind }) => {
            assert_eq!(seq, 0);
            assert_eq!(site, 0xDEAD);
            assert_eq!(kind, EffectKind::ClockNow);
        }
        other => panic!("expected EndOfTrace, got {:?}", other),
    }
}

#[test]
fn site_mismatch_when_a_call_moves_to_a_different_source_location() {
    let mut rec = new_recording();
    rec.now(0xAAAA_AAAA).unwrap();
    let trace = rec.into_trace();

    let mut rep = Replaying::new(trace).unwrap();
    match rep.next_event(0xBBBB_BBBB, EffectKind::ClockNow, &[]) {
        Err(ReplayErr::SiteMismatch { expected, got, .. }) => {
            assert_eq!(expected, 0xAAAA_AAAA);
            assert_eq!(got, 0xBBBB_BBBB);
        }
        other => panic!("expected SiteMismatch, got {:?}", other),
    }
}

#[test]
fn kind_mismatch_when_program_calls_a_different_effect_at_the_same_site() {
    let mut rec = new_recording();
    rec.now(0xC0DE_C0DE).unwrap(); // recorded as ClockNow
    let trace = rec.into_trace();

    let args = bincode::serialize(&8u64).unwrap();
    let mut rep = Replaying::new(trace).unwrap();
    match rep.next_event(0xC0DE_C0DE, EffectKind::RandomBits, &args) {
        Err(ReplayErr::KindMismatch { expected, got, .. }) => {
            assert_eq!(expected, EffectKind::ClockNow);
            assert_eq!(got, EffectKind::RandomBits);
        }
        other => panic!("expected KindMismatch, got {:?}", other),
    }
}

#[test]
fn args_mismatch_when_call_at_same_site_now_passes_different_args() {
    let mut rec = new_recording();
    rec.random_bits(0x1234_5678, 8).unwrap(); // recorded with args = 8
    let trace = rec.into_trace();

    let mut rep = Replaying::new(trace).unwrap();
    let bigger_args = bincode::serialize(&100u64).unwrap();
    match rep.next_event(0x1234_5678, EffectKind::RandomBits, &bigger_args) {
        Err(ReplayErr::ArgsMismatch { kind, .. }) => {
            assert_eq!(kind, EffectKind::RandomBits);
        }
        other => panic!("expected ArgsMismatch, got {:?}", other),
    }
}

#[test]
fn code_hash_mismatch_is_rejected_at_load_time() {
    let mut trace = tape::Trace::empty();
    trace.header.version = tape::Trace::SCHEMA_VERSION;
    trace.header.code_hash = [0xAA; 32]; // not all-zero, not the real hash
    match Replaying::new(trace) {
        Err(ReplayErr::CodeHashMismatch { expected, got }) => {
            assert_eq!(got, [0xAA; 32]);
            assert_eq!(expected, tape::code_hash_bytes());
        }
        other => panic!("expected CodeHashMismatch, got {:?}", other),
    }
}

#[test]
fn unsupported_schema_is_rejected_at_load_time() {
    let mut bogus = tape::Trace::empty();
    bogus.header.version = 999;
    match Replaying::new(bogus) {
        Err(ReplayErr::UnsupportedSchema { expected, got }) => {
            assert_eq!(expected, tape::Trace::SCHEMA_VERSION);
            assert_eq!(got, 999);
        }
        other => panic!("expected UnsupportedSchema, got {:?}", other),
    }
}

#[test]
fn editing_the_program_to_call_an_extra_effect_breaks_replay() {
    let mut rec = new_recording();
    rec.now(0x1111).unwrap();
    rec.now(0x2222).unwrap();
    let trace = rec.into_trace();

    let mut rep = Replaying::new(trace).unwrap();
    rep.next_event(0x1111, EffectKind::ClockNow, &[]).unwrap();
    rep.next_event(0x2222, EffectKind::ClockNow, &[]).unwrap();

    match rep.next_event(0x3333, EffectKind::ClockNow, &[]) {
        Err(ReplayErr::EndOfTrace { seq, .. }) => {
            assert_eq!(seq, 2, "third call should look for event at index 2");
        }
        other => panic!("expected EndOfTrace at step 3, got {:?}", other),
    }
}
