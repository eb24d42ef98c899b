use crate::codec::{
    enc_bytes, enc_opt_str, enc_res_bytes, enc_res_u64, enc_str, enc_str_bytes, enc_strs,
    enc_u64, framed_bytes, lemma_bytes_roundtrip, lemma_opt_str_roundtrip,
    lemma_res_bytes_roundtrip, lemma_res_u64_roundtrip, lemma_strs_roundtrip, lemma_u64_roundtrip,
    opt_str_bytes, opt_str_view, res_bytes_bytes, res_bytes_view, res_u64_bytes, res_u64_view,
    str_and_bytes, str_bytes, strings_view, strs_bytes, u64_bytes, utf8_len,
};
use crate::error::ReplayErr;
use crate::event::{calls_of, EffectCall, EffectKind, Event, Footer, Header, Outcome, Trace};
use crate::runtime::{usable, Runtime};
use vstd::prelude::*;
use vstd::utf8::encode_utf8;

verus! {

/// The side of a recording that talks to the real world: the clock, the
/// random source, stdout, the file system, the environment. A recording
/// asks its host, then writes the answer into the trace. Nothing is
/// assumed of the answers.
pub trait Host {
    /// seconds since the unix epoch (0 if the clock reads earlier).
    fn clock_now(&mut self) -> u64;

    /// `len` bytes from the system random source, or `None` if it cannot be read.
    fn random_fill(&mut self, len: usize) -> Option<Vec<u8>>;

    /// the id of the running process.
    fn process_id(&mut self) -> u32;

    /// write to stdout and flush; the count the write reported (0 on error).
    fn stdout_write(&mut self, buf: &[u8]) -> usize;

    /// the file's bytes, or the error's message.
    fn read_file(&mut self, path: &str) -> Result<Vec<u8>, String>;

    /// replace the file's bytes, or the error's message.
    fn write_file(&mut self, path: &str, buf: &[u8]) -> Result<(), String>;

    /// the variable's value, if it is set and unicode.
    fn env_var(&mut self, name: &str) -> Option<String>;

    /// the process's argument vector.
    fn argv(&mut self) -> Vec<String>;

    /// block for `millis` milliseconds.
    fn sleep_ms(&mut self, millis: u64);
}

/// Seed of the fallback random source: the process id and the call's seq, mixed.
pub open spec fn fallback_seed(pid: u32, seq: u64) -> u64 {
    (pid as u64).wrapping_mul(0x9E37_79B9_7F4A_7C15) ^ seq.wrapping_mul(0xD1B5_4A32_D192_ED03)
}

/// The fallback random bytes: the seed's eight bytes, repeated.
pub open spec fn fallback_bytes(seed: u64, len: nat) -> Seq<u8> {
    Seq::new(len, |i: int| ((seed >> ((i % 8) * 8) as u64) & 0xff) as u8)
}

/// Bytes used when the system random source cannot be read. Not
/// cryptographic, but the trace captures them, so replay reproduces them.
pub fn fallback_random(pid: u32, seq: u64, len: usize) -> (buf: Vec<u8>)
    ensures
        buf@ == fallback_bytes(fallback_seed(pid, seq), len as nat),
{
    let seed = (pid as u64).wrapping_mul(0x9E37_79B9_7F4A_7C15) ^ seq.wrapping_mul(
        0xD1B5_4A32_D192_ED03,
    );
    let mut buf: Vec<u8> = Vec::new();
    let mut i: usize = 0;
    while i < len
        invariant
            0 <= i <= len,
            seed == fallback_seed(pid, seq),
            buf@ =~= fallback_bytes(seed, len as nat).take(i as int),
        decreases len - i,
    {
        let sh: u64 = ((i % 8) * 8) as u64;
        buf.push(((seed >> sh) & 0xff) as u8);
        i += 1;
    }
    buf
}

/// The events of a recording, numbered 0, 1, 2, ... in the order made.
pub struct EventLog {
    next_seq: u64,
    events: Vec<Event>,
}

impl EventLog {
    #[verifier::type_invariant]
    spec fn inv(&self) -> bool {
        &&& self.next_seq == self.events@.len()
        &&& forall|i: int| 0 <= i < self.events@.len() ==> #[trigger] self.events@[i].seq == i
        &&& forall|i: int| 0 <= i < self.events@.len() ==> usable(#[trigger] calls_of(self.events@)[i])
    }

    pub closed spec fn events(&self) -> Seq<Event> {
        self.events@
    }

    pub fn new() -> (log: Self)
        ensures
            log.events().len() == 0,
    {
        EventLog { next_seq: 0, events: Vec::new() }
    }

    /// the seq the next event will get.
    pub fn next_seq(&self) -> (n: u64)
        ensures
            n == self.events().len(),
    {
        proof { use_type_invariant(self); }
        self.next_seq
    }

    /// the events, each with its seq equal to its position.
    pub fn into_events(self) -> (r: (Vec<Event>, u64))
        ensures
            r.0@ == self.events(),
            r.1 == self.events().len(),
            forall|i: int| 0 <= i < r.0@.len() ==> #[trigger] r.0@[i].seq == i,
    {
        proof { use_type_invariant(&self); }
        (self.events, self.next_seq)
    }

    /// append an event with the next seq.
    pub fn record(self, site: u32, kind: EffectKind, args: Vec<u8>, result: Vec<u8>) -> (log: Self)
        requires
            usable(EffectCall { site, kind, args: args@, result: result@ }),
        ensures
            log.events().len() == self.events().len() + 1,
            log.events().drop_last() == self.events(),
            log.events().last().site == site,
            log.events().last().kind == kind,
            log.events().last().args@ == args@,
            log.events().last().result@ == result@,
            log.events().last().seq == self.events().len(),
            calls_of(log.events()) == calls_of(self.events()).push(
                EffectCall { site, kind, args: args@, result: result@ },
            ),
            calls_of(log.events()).drop_last() == calls_of(self.events()),
    {
        proof { use_type_invariant(&self); }
        let ghost old_events = self.events@;
        let EventLog { next_seq, events } = self;
        let mut events = events;
        let ev = Event { seq: next_seq, site, kind, args, result };
        events.push(ev);
        let _len = events.len();
        assert(events@.drop_last() =~= old_events);
        assert(calls_of(events@) =~= calls_of(old_events).push(
            EffectCall { site, kind, args: ev.args@, result: ev.result@ },
        ));
        assert(calls_of(events@).drop_last() =~= calls_of(old_events));
        assert forall|i: int| 0 <= i < events@.len() implies usable(#[trigger] calls_of(events@)[i]) by {
            if i < old_events.len() {
                assert(calls_of(events@)[i] == calls_of(old_events)[i]);
            }
        }
        EventLog { next_seq: next_seq + 1, events }
    }
}

/// Runtime that asks the real world (through its host) for every effect
/// and saves each call into a growing trace. When the program returns,
/// `into_trace` hands over the trace: the artifact replay needs.
pub struct Recording<H: Host> {
    log: EventLog,
    started_at: i64,
    outcome: Option<Outcome>,
    host: H,
}

impl<H: Host> Recording<H> {
    /// the events recorded so far.
    pub closed spec fn events(&self) -> Seq<Event> {
        self.log.events()
    }

    /// Every answer a recording holds can be used: it is what the host
    /// said, encoded. Every recording keeps this (its log's invariant).
    pub open spec fn answers_usable(&self) -> bool {
        forall|i: int| 0 <= i < self.events().len() ==> usable(#[trigger] calls_of(self.events())[i])
    }

    /// the declared outcome, if any.
    pub closed spec fn outcome(&self) -> Option<Outcome> {
        self.outcome
    }

    /// when the recording started, in seconds since the unix epoch.
    pub closed spec fn started_at(&self) -> i64 {
        self.started_at
    }

    /// Start a recording; its start time is read from the host's clock.
    pub fn new(host: H) -> (r: Self)
        ensures
            r.events().len() == 0,
            r.outcome() is None,
    {
        let mut host = host;
        let t = host.clock_now();
        Recording { log: EventLog::new(), started_at: t as i64, outcome: None, host }
    }

    /// Declare how the recorded program ended. Without it the trace records
    /// `Outcome::Aborted`.
    pub fn set_outcome(&mut self, outcome: Outcome)
        ensures
            final(self).outcome() == Some(outcome),
            final(self).events() == old(self).events(),
            final(self).started_at() == old(self).started_at(),
    {
        self.outcome = Some(outcome);
    }

    /// Finish recording and return the trace.
    pub fn into_trace(self) -> (t: Trace)
        ensures
            t.header.version == Trace::SCHEMA_VERSION,
            t.header.started_at == self.started_at(),
            t.header.code_hash@ == crate::build_hash(),
            t.events@ == self.events(),
            forall|i: int| 0 <= i < t.events@.len() ==> #[trigger] t.events@[i].seq == i,
            t.footer.last_seq == t.events@.len(),
            t.footer.outcome == match self.outcome() {
                Some(o) => o,
                None => Outcome::Aborted,
            },
    {
        let (events, last_seq) = self.log.into_events();
        let outcome = match self.outcome {
            Some(o) => o,
            None => Outcome::Aborted,
        };
        Trace {
            header: Header {
                version: Trace::SCHEMA_VERSION,
                started_at: self.started_at,
                code_hash: crate::code_hash_bytes(),
            },
            events,
            footer: Footer { outcome, last_seq },
        }
    }

    /// append an event with the next seq.
    fn record(&mut self, site: u32, kind: EffectKind, args: Vec<u8>, result: Vec<u8>)
        requires
            usable(EffectCall { site, kind, args: args@, result: result@ }),
        ensures
            final(self).events().len() == old(self).events().len() + 1,
            final(self).events().drop_last() == old(self).events(),
            final(self).events().last().site == site,
            final(self).events().last().kind == kind,
            final(self).events().last().args@ == args@,
            final(self).events().last().result@ == result@,
            final(self).events().last().seq == old(self).events().len(),
            calls_of(final(self).events()) == calls_of(old(self).events()).push(
                EffectCall { site, kind, args: args@, result: result@ },
            ),
            calls_of(final(self).events()).drop_last() == calls_of(old(self).events()),
            final(self).outcome() == old(self).outcome(),
            final(self).started_at() == old(self).started_at(),
    {
        let mut log = EventLog::new();
        std::mem::swap(&mut log, &mut self.log);
        self.log = log.record(site, kind, args, result);
    }
}

impl<H: Host> Runtime for Recording<H> {
    open spec fn history(&self) -> Seq<EffectCall> {
        calls_of(self.events())
    }

    /// A recording takes every call.
    open spec fn accepts(&self, site: u32, kind: EffectKind, args: Seq<u8>) -> bool {
        true
    }

    /// A recording asks the world; it answers from no recorded calls.
    open spec fn recorded(&self) -> Seq<EffectCall> {
        Seq::empty()
    }

    fn now(&mut self, site: u32) -> (r: Result<u64, ReplayErr>)
        ensures
            r matches Ok(t) && final(self).events().last().result@ == enc_u64(t),
    {
        let t = self.host.clock_now();
        let result = u64_bytes(t);
        proof { lemma_u64_roundtrip(t, Seq::empty()); assert(enc_u64(t) + Seq::<u8>::empty() =~= enc_u64(t)); }
        let args: Vec<u8> = Vec::new();
        assert(args@ =~= Seq::<u8>::empty());
        self.record(site, EffectKind::ClockNow, args, result);
        Ok(t)
    }

    fn random_bits(&mut self, site: u32, len: usize) -> (r: Result<Vec<u8>, ReplayErr>)
        ensures
            r matches Ok(b) && final(self).events().last().result@ == enc_bytes(b@) && b@.len()
                == len,
    {
        let seq = self.log.next_seq();
        let buf = match self.host.random_fill(len) {
            Some(v) => if v.len() == len {
                v
            } else {
                let pid = self.host.process_id();
                fallback_random(pid, seq, len)
            },
            None => {
                let pid = self.host.process_id();
                fallback_random(pid, seq, len)
            },
        };
        let args = u64_bytes(len as u64);
        let result = framed_bytes(buf.as_slice());
        proof {
            lemma_bytes_roundtrip(buf@, Seq::empty());
            assert(enc_bytes(buf@) + Seq::<u8>::empty() =~= enc_bytes(buf@));
        }
        self.record(site, EffectKind::RandomBits, args, result);
        Ok(buf)
    }

    fn io_write(&mut self, site: u32, buf: &[u8]) -> (r: Result<usize, ReplayErr>)
        ensures
            r matches Ok(n) && final(self).events().last().result@ == enc_u64(n as u64),
    {
        let n = self.host.stdout_write(buf);
        let args = framed_bytes(buf);
        let result = u64_bytes(n as u64);
        proof {
            lemma_u64_roundtrip(n as u64, Seq::empty());
            assert(enc_u64(n as u64) + Seq::<u8>::empty() =~= enc_u64(n as u64));
        }
        self.record(site, EffectKind::IoWrite, args, result);
        Ok(n)
    }

    fn fs_read(&mut self, site: u32, path: &str) -> (r: Result<Result<Vec<u8>, String>, ReplayErr>)
        ensures
            r matches Ok(v) && final(self).events().last().result@ == enc_res_bytes(
                res_bytes_view(v),
            ),
    {
        let v = self.host.read_file(path);
        let args = str_bytes(path);
        let result = res_bytes_bytes(&v);
        let _fits = match &v {
            Ok(b) => b.len(),
            Err(s) => utf8_len(s.as_str()),
        };
        proof {
            lemma_res_bytes_roundtrip(res_bytes_view(v), Seq::empty());
            assert(enc_res_bytes(res_bytes_view(v)) + Seq::<u8>::empty() =~= enc_res_bytes(
                res_bytes_view(v),
            ));
        }
        self.record(site, EffectKind::FsRead, args, result);
        Ok(v)
    }

    fn fs_write(&mut self, site: u32, path: &str, buf: &[u8]) -> (r: Result<Result<usize, String>, ReplayErr>)
        ensures
            r matches Ok(v) && final(self).events().last().result@ == enc_res_u64(
                match v {
                    Ok(n) => Ok(n as u64),
                    Err(s) => Err(s@),
                },
            ),
    {
        let w = self.host.write_file(path, buf);
        let v: Result<usize, String> = match w {
            Ok(()) => Ok(buf.len()),
            Err(s) => Err(s),
        };
        let enc: Result<u64, String> = match &v {
            Ok(n) => Ok(*n as u64),
            Err(s) => Err(s.clone()),
        };
        let _fits = match &v {
            Ok(_) => 0,
            Err(s) => utf8_len(s.as_str()),
        };
        let args = str_and_bytes(path, buf);
        let result = res_u64_bytes(&enc);
        proof {
            lemma_res_u64_roundtrip(res_u64_view(enc), Seq::empty());
            assert(enc_res_u64(res_u64_view(enc)) + Seq::<u8>::empty() =~= enc_res_u64(
                res_u64_view(enc),
            ));
        }
        self.record(site, EffectKind::FsWrite, args, result);
        Ok(v)
    }

    fn env_get(&mut self, site: u32, name: &str) -> (r: Result<Option<String>, ReplayErr>)
        ensures
            r matches Ok(v) && final(self).events().last().result@ == enc_opt_str(opt_str_view(v)),
    {
        let v = self.host.env_var(name);
        let _fits = match &v {
            None => 0,
            Some(s) => utf8_len(s.as_str()),
        };
        let args = str_bytes(name);
        let result = opt_str_bytes(&v);
        proof {
            lemma_opt_str_roundtrip(opt_str_view(v), Seq::empty());
            assert(enc_opt_str(opt_str_view(v)) + Seq::<u8>::empty() =~= enc_opt_str(
                opt_str_view(v),
            ));
        }
        self.record(site, EffectKind::EnvGet, args, result);
        Ok(v)
    }

    fn args_get(&mut self, site: u32) -> (r: Result<Vec<String>, ReplayErr>)
        ensures
            r matches Ok(v) && final(self).events().last().result@ == enc_strs(strings_view(v@)),
    {
        let v = self.host.argv();
        let mut i: usize = 0;
        while i < v.len()
            invariant
                0 <= i <= v@.len(),
                forall|j: int| 0 <= j < i ==> encode_utf8(#[trigger] strings_view(v@)[j]).len()
                    <= usize::MAX,
            decreases v@.len() - i,
        {
            let _n = utf8_len(v[i].as_str());
            i += 1;
        }
        let args: Vec<u8> = Vec::new();
        assert(args@ =~= Seq::<u8>::empty());
        let result = strs_bytes(&v);
        proof {
            lemma_strs_roundtrip(strings_view(v@), Seq::empty());
            assert(enc_strs(strings_view(v@)) + Seq::<u8>::empty() =~= enc_strs(strings_view(v@)));
        }
        self.record(site, EffectKind::ArgsGet, args, result);
        Ok(v)
    }

    fn time_sleep(&mut self, site: u32, millis: u64) -> (r: Result<(), ReplayErr>)
        ensures
            r is Ok && final(self).events().last().result@ == Seq::<u8>::empty(),
    {
        self.host.sleep_ms(millis);
        let args = u64_bytes(millis);
        let result: Vec<u8> = Vec::new();
        self.record(site, EffectKind::TimeSleep, args, result);
        Ok(())
    }
}

} // verus!
