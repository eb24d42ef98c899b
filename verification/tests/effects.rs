//! The effects round-trip through record + replay byte for byte; replay
//! never touches the host (for fs.write that is the point: a destructive
//! replay would be a footgun).

use std::cell::RefCell;
use std::collections::HashMap;
use std::rc::Rc;
use tape::{EffectKind, Host, Recording, ReplayErr, Replaying, Runtime};

const SITE_FS_READ: u32 = 0xA000_0001;
const SITE_FS_WRITE: u32 = 0xA000_0002;
const SITE_ENV: u32 = 0xA000_0003;
const SITE_ARGS: u32 = 0xA000_0004;
const SITE_RANDOM: u32 = 0xA000_0005;

/// A host whose file system and environment live in memory, so a test can
/// change them between record and replay.
struct MemHost {
    files: Rc<RefCell<HashMap<String, Vec<u8>>>>,
    env: HashMap<String, String>,
}

impl MemHost {
    fn new() -> Self {
        MemHost { files: Rc::new(RefCell::new(HashMap::new())), env: HashMap::new() }
    }
}

impl Host for MemHost {
    fn clock_now(&mut self) -> u64 {
        42
    }
    fn random_fill(&mut self, len: usize) -> Option<Vec<u8>> {
        Some(vec![9u8; len])
    }
    fn process_id(&mut self) -> u32 {
        3
    }
    fn stdout_write(&mut self, buf: &[u8]) -> usize {
        buf.len()
    }
    fn read_file(&mut self, path: &str) -> Result<Vec<u8>, String> {
        self.files.borrow().get(path).cloned().ok_or_else(|| "not found".to_string())
    }
    fn write_file(&mut self, path: &str, buf: &[u8]) -> Result<(), String> {
        self.files.borrow_mut().insert(path.to_string(), buf.to_vec());
        Ok(())
    }
    fn env_var(&mut self, name: &str) -> Option<String> {
        self.env.get(name).cloned()
    }
    fn argv(&mut self) -> Vec<String> {
        vec!["tape-test".to_string(), "--flag".to_string()]
    }
    fn sleep_ms(&mut self, _millis: u64) {}
}

#[test]
fn fs_read_returns_recorded_bytes_even_if_file_disappears() {
    let mut host = MemHost::new();
    host.files.borrow_mut().insert("/tmp/tape-test-fsread.txt".to_string(), b"hello tape".to_vec());
    let path_str = "/tmp/tape-test-fsread.txt".to_string();

    let mut rec = Recording::new(host);
    let recorded = rec.fs_read(SITE_FS_READ, &path_str).expect("read ok").expect("file present");
    assert_eq!(recorded, b"hello tape");

    let trace = rec.into_trace();
    let mut rep = Replaying::new(trace).unwrap();
    let replayed = rep.fs_read(SITE_FS_READ, &path_str).expect("replay ok").expect("recorded bytes");
    assert_eq!(replayed, b"hello tape", "replay must use recorded bytes, not the real (now-missing) file");
}

#[test]
fn fs_write_during_replay_does_not_touch_the_filesystem() {
    let path_str = "/tmp/tape-test-fswrite.txt".to_string();
    let host = MemHost::new();
    let files = host.files.clone();
    let mut rec = Recording::new(host);
    let n = rec.fs_write(SITE_FS_WRITE, &path_str, b"recorded payload").expect("write ok");
    assert_eq!(n, Ok("recorded payload".len()));
    assert_eq!(files.borrow().get(&path_str).map(|v| v.as_slice()), Some(&b"recorded payload"[..]), "recording must actually write");

    // delete the file, then replay. the file must stay deleted.
    files.borrow_mut().remove(&path_str);
    let trace = rec.into_trace();
    let mut rep = Replaying::new(trace).unwrap();
    let n = rep.fs_write(SITE_FS_WRITE, &path_str, b"recorded payload").unwrap();
    assert_eq!(n, Ok("recorded payload".len()));
    assert!(files.borrow().get(&path_str).is_none(), "replay must not recreate the file");
}

#[test]
fn env_get_replays_recorded_value_even_if_env_changes() {
    let mut host = MemHost::new();
    host.env.insert("TAPE_TEST_ENV".to_string(), "first".to_string());
    let mut rec = Recording::new(host);
    let v1 = rec.env_get(SITE_ENV, "TAPE_TEST_ENV").unwrap();
    assert_eq!(v1.as_deref(), Some("first"));
    let trace = rec.into_trace();

    let mut rep = Replaying::new(trace).unwrap();
    let v2 = rep.env_get(SITE_ENV, "TAPE_TEST_ENV").unwrap();
    assert_eq!(v2.as_deref(), Some("first"), "replay must see the recorded value");
}

#[test]
fn args_get_round_trips_argv() {
    let mut rec = Recording::new(MemHost::new());
    let recorded = rec.args_get(SITE_ARGS).unwrap();
    let trace = rec.into_trace();

    let mut rep = Replaying::new(trace).unwrap();
    let replayed = rep.args_get(SITE_ARGS).unwrap();
    assert_eq!(recorded, replayed, "argv must round-trip byte-identically");
    assert!(!replayed.is_empty(), "test runner always has at least argv[0]");
}

#[test]
fn random_bits_args_mismatch_on_size_change() {
    let mut rec = Recording::new(MemHost::new());
    rec.random_bits(SITE_RANDOM, 8).unwrap();
    let trace = rec.into_trace();

    let mut rep = Replaying::new(trace).unwrap();
    let bigger_args = bincode::serialize(&16u64).unwrap();
    match rep.next_event(SITE_RANDOM, EffectKind::RandomBits, &bigger_args) {
        Err(ReplayErr::ArgsMismatch { .. }) => {}
        other => panic!("expected ArgsMismatch, got {:?}", other),
    }
}

#[test]
fn fs_read_error_is_recorded_and_replayed() {
    let mut rec = Recording::new(MemHost::new());
    let r = rec.fs_read(SITE_FS_READ, "/missing").unwrap();
    assert_eq!(r, Err("not found".to_string()));
    let trace = rec.into_trace();
    let mut rep = Replaying::new(trace).unwrap();
    assert_eq!(rep.fs_read(SITE_FS_READ, "/missing").unwrap(), Err("not found".to_string()));
}

#[test]
fn time_sleep_is_recorded_with_its_duration() {
    let mut rec = Recording::new(MemHost::new());
    rec.time_sleep(0xA000_0006, 250).unwrap();
    let trace = rec.into_trace();
    assert_eq!(trace.events.len(), 1);
    assert_eq!(trace.events[0].kind, EffectKind::TimeSleep);
    assert_eq!(bincode::deserialize::<u64>(&trace.events[0].args).unwrap(), 250);
    let mut rep = Replaying::new(trace).unwrap();
    assert!(rep.time_sleep(0xA000_0006, 250).is_ok());
    assert!(matches!(rep.time_sleep(0xA000_0006, 250), Err(ReplayErr::EndOfTrace { .. })));
}

#[test]
fn recorded_args_and_results_are_bincode_encodings() {
    let mut rec = Recording::new(MemHost::new());
    assert_eq!(rec.now(1).unwrap(), 42);
    assert_eq!(rec.random_bits(2, 3).unwrap(), vec![9u8, 9, 9]);
    assert_eq!(rec.io_write(3, b"hi").unwrap(), 2);
    let trace = rec.into_trace();
    assert_eq!(trace.events[0].result, bincode::serialize(&42u64).unwrap());
    assert_eq!(trace.events[1].args, bincode::serialize(&3u64).unwrap());
    assert_eq!(trace.events[1].result, bincode::serialize(&vec![9u8, 9, 9]).unwrap());
    assert_eq!(trace.events[2].args, bincode::serialize(&b"hi".to_vec()).unwrap());
    assert_eq!(trace.events[2].result, bincode::serialize(&2u64).unwrap());
}
