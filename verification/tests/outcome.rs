//! The trace footer captures how the recorded program ended: clean exit,
//! panic, or aborted.

use tape::event::Outcome;
use tape::{Host, Recording, Runtime};

struct TestHost;

impl Host for TestHost {
    fn clock_now(&mut self) -> u64 {
        1_700_000_000
    }
    fn random_fill(&mut self, len: usize) -> Option<Vec<u8>> {
        Some(vec![7u8; len])
    }
    fn process_id(&mut self) -> u32 {
        1
    }
    fn stdout_write(&mut self, buf: &[u8]) -> usize {
        buf.len()
    }
    fn read_file(&mut self, _path: &str) -> Result<Vec<u8>, String> {
        Err("none".to_string())
    }
    fn write_file(&mut self, _path: &str, _buf: &[u8]) -> Result<(), String> {
        Err("none".to_string())
    }
    fn env_var(&mut self, _name: &str) -> Option<String> {
        None
    }
    fn argv(&mut self) -> Vec<String> {
        Vec::new()
    }
    fn sleep_ms(&mut self, _millis: u64) {}
}

#[test]
fn into_trace_without_set_outcome_records_aborted() {
    let rec = Recording::new(TestHost);
    let trace = rec.into_trace();
    assert_eq!(trace.footer.outcome, Outcome::Aborted);
    assert_eq!(trace.footer.last_seq, 0);
}

#[test]
fn set_outcome_exit_is_persisted_in_trace_footer() {
    let mut rec = Recording::new(TestHost);
    rec.set_outcome(Outcome::Exit(42));
    let trace = rec.into_trace();
    assert_eq!(trace.footer.outcome, Outcome::Exit(42));
}

#[test]
fn set_outcome_panic_carries_message_and_location() {
    let mut rec = Recording::new(TestHost);
    rec.set_outcome(Outcome::Panic {
        message: "boom".to_string(),
        location: "src/foo.rs:10".to_string(),
    });
    let trace = rec.into_trace();
    match trace.footer.outcome {
        Outcome::Panic { message, location } => {
            assert_eq!(message, "boom");
            assert_eq!(location, "src/foo.rs:10");
        }
        other => panic!("expected Panic, got {:?}", other),
    }
}

#[test]
fn last_seq_in_footer_matches_event_count() {
    let mut rec = Recording::new(TestHost);
    rec.now(0xC0DE_0001).unwrap();
    rec.now(0xC0DE_0002).unwrap();
    rec.now(0xC0DE_0003).unwrap();
    rec.set_outcome(Outcome::Exit(0));
    let trace = rec.into_trace();
    assert_eq!(trace.footer.last_seq, 3);
    assert_eq!(trace.events.len(), 3);
}

#[test]
fn started_at_comes_from_the_host_clock() {
    let trace = Recording::new(TestHost).into_trace();
    assert_eq!(trace.header.started_at, 1_700_000_000);
    assert_eq!(trace.header.code_hash, tape::code_hash_bytes());
}
