use crate::codec::{
    decode_bytes, decode_opt_str, decode_res_bytes, decode_res_u64, decode_strs, decode_u64,
    enc_bytes, enc_str, enc_str_bytes, enc_u64, framed_bytes, opt_str_view, res_bytes_view,
    str_and_bytes, str_bytes, strings_view, take_bytes, take_opt_str, take_res_bytes, take_res_u64,
    take_strs, take_u64, u64_bytes, value_of, lemma_u64_roundtrip,
};
use crate::error::ReplayErr;
use crate::event::{calls_of, call_of, EffectCall, EffectKind, Event, Trace};
use crate::runtime::Runtime;
use vstd::prelude::*;

verus! {

/// What the next call at `site`, of `kind`, with `args` meets in a trace
/// whose first `idx` events have been consumed: the recorded answer, or the
/// drift that stops replay.
pub open spec fn replay_step(
    events: Seq<Event>,
    idx: int,
    site: u32,
    kind: EffectKind,
    args: Seq<u8>,
) -> Result<Seq<u8>, ReplayErr> {
    if idx >= events.len() {
        Err(ReplayErr::EndOfTrace { seq: idx as u64, site, kind })
    } else if events[idx].site != site {
        Err(ReplayErr::SiteMismatch { seq: events[idx].seq, expected: events[idx].site, got: site })
    } else if events[idx].kind != kind {
        Err(
            ReplayErr::KindMismatch {
                seq: events[idx].seq,
                site,
                expected: events[idx].kind,
                got: kind,
            },
        )
    } else if events[idx].args@ != args {
        Err(ReplayErr::ArgsMismatch { seq: events[idx].seq, site, kind })
    } else {
        Ok(events[idx].result@)
    }
}

/// Why `Replaying::new` refuses a trace, if it does.
pub open spec fn admission(trace: Trace) -> Option<ReplayErr> {
    if trace.header.version != Trace::SCHEMA_VERSION {
        Some(
            ReplayErr::UnsupportedSchema {
                expected: Trace::SCHEMA_VERSION,
                got: trace.header.version,
            },
        )
    } else if trace.header.code_hash@ != Seq::new(32, |i: int| 0u8) && trace.header.code_hash@
        != crate::build_hash() {
        Some(
            ReplayErr::CodeHashMismatch {
                expected: choose|a: [u8; 32]| a@ == crate::build_hash(),
                got: trace.header.code_hash,
            },
        )
    } else {
        None
    }
}

/// Runtime that does not touch the outside world: every effect call is
/// matched against the next event in the trace, and any drift (site, kind,
/// args) stops replay with a `ReplayErr`. Each effect method returns that
/// error to its caller; it never panics, so a program sees drift as an
/// `Err` and can stop on it.
#[derive(Debug)]
pub struct Replaying {
    trace: Trace,
    idx: usize,
}

impl Replaying {
    #[verifier::type_invariant]
    spec fn inv(&self) -> bool {
        self.idx <= self.trace.events@.len()
    }

    /// the trace being replayed.
    pub closed spec fn trace(&self) -> Trace {
        self.trace
    }

    /// how many events have been consumed.
    pub closed spec fn pos(&self) -> nat {
        self.idx as nat
    }

    /// Build a replayer from a trace. The schema version and the build
    /// identity are checked up front: a trace whose schema or code is wrong
    /// is refused before the first call.
    pub fn new(trace: Trace) -> (r: Result<Self, ReplayErr>)
        ensures
            match r {
                Ok(rep) => admission(trace) is None && rep.trace() == trace && rep.pos() == 0,
                Err(e) => match e {
                    ReplayErr::CodeHashMismatch { expected, got } => admission(trace) matches Some(
                        ReplayErr::CodeHashMismatch { got: g, .. },
                    ) && g == got && expected@ == crate::build_hash(),
                    _ => admission(trace) == Some(e),
                },
            },
    {
        if trace.header.version != Trace::SCHEMA_VERSION {
            return Err(
                ReplayErr::UnsupportedSchema {
                    expected: Trace::SCHEMA_VERSION,
                    got: trace.header.version,
                },
            );
        }
        let expected_hash = crate::code_hash_bytes();
        let zero = all_zero(&trace.header.code_hash);
        let same = same_bytes(&trace.header.code_hash, &expected_hash);
        if !zero && !same {
            return Err(ReplayErr::CodeHashMismatch { expected: expected_hash, got: trace.header.code_hash });
        }
        Ok(Replaying { trace, idx: 0 })
    }

    /// The heart of replay: advance to the next event and check that the
    /// program's call matches what the recording made. On success, return
    /// the recorded result bytes so the caller can decode them.
    pub fn next_event(&mut self, site: u32, kind: EffectKind, args: &[u8]) -> (r: Result<
        &[u8],
        ReplayErr,
    >)
        ensures
            final(self).trace() == old(self).trace(),
            match replay_step(old(self).trace().events@, old(self).pos() as int, site, kind, args@) {
                Ok(res) => r matches Ok(b) && b@ == res && final(self).pos() == old(self).pos() + 1,
                Err(e) => r == Err::<&[u8], ReplayErr>(e) && final(self).pos() == old(self).pos(),
            },
            next_event_step(*old(self), *final(self), r is Ok),
    {
        proof { use_type_invariant(&*self); }
        if self.idx >= self.trace.events.len() {
            return Err(ReplayErr::EndOfTrace { seq: self.idx as u64, site, kind });
        }
        let i = self.idx;
        let ev = &self.trace.events[i];
        if ev.site != site {
            return Err(ReplayErr::SiteMismatch { seq: ev.seq, expected: ev.site, got: site });
        }
        if ev.kind != kind {
            return Err(ReplayErr::KindMismatch { seq: ev.seq, site, expected: ev.kind, got: kind });
        }
        if !same_slice(ev.args.as_slice(), args) {
            return Err(ReplayErr::ArgsMismatch { seq: ev.seq, site, kind });
        }
        self.idx = i + 1;
        Ok(self.trace.events[i].result.as_slice())
    }

    /// number of events the replayer has consumed so far.
    pub fn position(&self) -> (n: usize)
        ensures
            n == self.pos(),
            n <= self.trace().events@.len(),
    {
        proof { use_type_invariant(self); }
        self.idx
    }

    /// total number of events in the trace.
    pub fn len(&self) -> (n: usize)
        ensures
            n == self.trace().events@.len(),
    {
        self.trace.events.len()
    }

    /// the calls answered so far: the consumed prefix of the trace.
    pub closed spec fn answered(&self) -> Seq<EffectCall> {
        calls_of(self.trace.events@.take(self.idx as int))
    }

    pub fn is_empty(&self) -> (b: bool)
        ensures
            b == (self.trace().events@.len() == 0),
    {
        self.trace.events.len() == 0
    }
}

/// What a replayed call returns, given what the trace holds for it and how
/// its answer decodes.
pub open spec fn replay_outcome<T>(
    step: Result<Seq<u8>, ReplayErr>,
    decoded: spec_fn(Seq<u8>) -> Option<T>,
    r: Result<T, ReplayErr>,
) -> bool {
    match step {
        Err(e) => r == Err::<T, ReplayErr>(e),
        Ok(res) => match decoded(res) {
            Some(v) => r == Ok::<T, ReplayErr>(v),
            None => r is Err && (r matches Err(ReplayErr::Decode(_))),
        },
    }
}

impl Replaying {
    proof fn lemma_advance(old_rep: Replaying, new_rep: Replaying, site: u32, kind: EffectKind, args: Seq<u8>)
        requires
            old_rep.idx <= old_rep.trace.events@.len(),
            new_rep.trace == old_rep.trace,
            replay_step(old_rep.trace.events@, old_rep.idx as int, site, kind, args) is Ok,
            new_rep.idx == old_rep.idx + 1,
        ensures
            new_rep.answered() == old_rep.answered().push(
                call_of(old_rep.trace.events@[old_rep.idx as int]),
            ),
            new_rep.answered().last().site == site,
            new_rep.answered().last().kind == kind,
            new_rep.answered().last().args == args,
            new_rep.answered().last().result == old_rep.trace.events@[old_rep.idx as int].result@,
            new_rep.answered().len() == old_rep.answered().len() + 1,
            new_rep.answered().drop_last() == old_rep.answered(),
    {
        lemma_calls_step(old_rep.trace.events@, old_rep.idx as int);
    }
}

/// One call of `next_event`, from `before` to `after`: the trace is kept,
/// and the position moves on by one exactly when the call succeeded.
pub open spec fn next_event_step(before: Replaying, after: Replaying, ok: bool) -> bool {
    &&& after.trace() == before.trace()
    &&& after.pos() == before.pos() + if ok {
        1nat
    } else {
        0nat
    }
}

/// How many of `oks` are true.
pub open spec fn successes(oks: Seq<bool>) -> nat
    decreases oks.len(),
{
    if oks.len() == 0 {
        0
    } else {
        successes(oks.drop_last()) + if oks.last() {
            1nat
        } else {
            0nat
        }
    }
}

/// Over any run of `next_event` calls on a fresh replayer (`reps[i]` before
/// call `i`, `oks[i]` whether it succeeded), the position is the number of
/// calls that succeeded, and the trace, so the length, never changes.
pub proof fn law_position_counts_successes(reps: Seq<Replaying>, oks: Seq<bool>)
    requires
        reps.len() == oks.len() + 1,
        reps[0].pos() == 0,
        forall|i: int| 0 <= i < oks.len() ==> next_event_step(#[trigger] reps[i], reps[i + 1], oks[i]),
    ensures
        reps.last().pos() == successes(oks),
        reps.last().trace() == reps[0].trace(),
    decreases oks.len(),
{
    if oks.len() > 0 {
        let r2 = reps.drop_last();
        let o2 = oks.drop_last();
        assert forall|i: int| 0 <= i < o2.len() implies next_event_step(#[trigger] r2[i], r2[i + 1], o2[i]) by {
            assert(r2[i] == reps[i] && r2[i + 1] == reps[i + 1] && o2[i] == oks[i]);
        }
        law_position_counts_successes(r2, o2);
        assert(next_event_step(reps[oks.len() - 1], reps[oks.len() as int], oks[oks.len() - 1]));
    }
}

/// The bytes a program wrote, as the calls `h` record them: the buffers of
/// its io.write calls, in order (a buffer that does not decode counts as
/// nothing).
pub open spec fn written(h: Seq<EffectCall>) -> Seq<u8>
    decreases h.len(),
{
    if h.len() == 0 {
        Seq::empty()
    } else {
        written(h.drop_last()) + if h.last().kind == EffectKind::IoWrite {
            match value_of(take_bytes(h.last().args)) {
                Some(b) => b,
                None => Seq::empty(),
            }
        } else {
            Seq::empty()
        }
    }
}

impl Replaying {
    /// What the replayed program has written so far: the buffers of the
    /// io.write calls answered, in order. Replay does not write them
    /// itself; its caller shows them.
    pub fn output(&self) -> (out: Vec<u8>)
        ensures
            out@ == written(self.history()),
    {
        proof { use_type_invariant(self); }
        let mut out: Vec<u8> = Vec::new();
        let mut i: usize = 0;
        assert(calls_of(self.trace.events@.take(0)) =~= Seq::<EffectCall>::empty());
        while i < self.idx
            invariant
                i <= self.idx <= self.trace.events@.len(),
                out@ == written(calls_of(self.trace.events@.take(i as int))),
            decreases self.idx - i,
        {
            let ev = &self.trace.events[i];
            proof {
                lemma_calls_step(self.trace.events@, i as int);
                let h = calls_of(self.trace.events@.take(i + 1));
                assert(h.drop_last() == calls_of(self.trace.events@.take(i as int)));
            }
            if ev.kind == EffectKind::IoWrite {
                match decode_bytes(ev.args.as_slice()) {
                    Ok(b) => {
                        let mut k: usize = 0;
                        let ghost start = out@;
                        while k < b.len()
                            invariant
                                k <= b@.len(),
                                out@ == start + b@.take(k as int),
                            decreases b@.len() - k,
                        {
                            out.push(b[k]);
                            k += 1;
                            assert(b@.take(k as int) =~= b@.take(k - 1).push(b@[k - 1]));
                        }
                        assert(b@.take(b@.len() as int) =~= b@);
                    },
                    Err(_) => {},
                }
            }
            i += 1;
        }
        out
    }

    /// The calls a replayer has answered are the first `pos()` calls of its trace.
    pub proof fn lemma_history(rep: Replaying)
        ensures
            rep.history() == calls_of(rep.trace().events@.take(rep.pos() as int)),
    {
    }
}

impl Runtime for Replaying {
    open spec fn history(&self) -> Seq<EffectCall> {
        self.answered()
    }

    /// A replayer takes only the call the trace recorded next.
    open spec fn accepts(&self, site: u32, kind: EffectKind, args: Seq<u8>) -> bool {
        replay_step(self.trace().events@, self.pos() as int, site, kind, args) is Ok
    }

    /// A replayer answers from the calls of its trace.
    open spec fn recorded(&self) -> Seq<EffectCall> {
        calls_of(self.trace().events@)
    }

    fn now(&mut self, site: u32) -> (r: Result<u64, ReplayErr>)
        ensures
            final(self).trace() == old(self).trace(),
            replay_outcome(
                replay_step(old(self).trace().events@, old(self).pos() as int, site, EffectKind::ClockNow, Seq::empty()),
                |b: Seq<u8>| value_of(take_u64(b)),
                r,
            ),
    {
        proof { use_type_invariant(&*self); }
        let ghost old_rep = *self;
        let args: Vec<u8> = Vec::new();
        assert(args@ =~= Seq::<u8>::empty());
        let res = self.next_event(site, EffectKind::ClockNow, args.as_slice());
        match res {
            Ok(bytes) => {
                let decoded = decode_u64(bytes);
                proof { Replaying::lemma_advance(old_rep, *self, site, EffectKind::ClockNow, args@); }
                match decoded {
                    Ok(t) => Ok(t),
                    Err(e) => Err(ReplayErr::Decode(e)),
                }
            },
            Err(e) => Err(e),
        }
    }

    /// The recorded bytes, when there are exactly `len` of them. A recorded
    /// answer of another length is refused with `ReplayErr::Malformed`
    /// rather than handed over: every runtime promises `len` bytes, and a
    /// program may index them.
    fn random_bits(&mut self, site: u32, len: usize) -> (r: Result<Vec<u8>, ReplayErr>)
        ensures
            final(self).trace() == old(self).trace(),
            match replay_step(old(self).trace().events@, old(self).pos() as int, site, EffectKind::RandomBits, enc_u64(len as u64)) {
                Err(e) => r == Err::<Vec<u8>, ReplayErr>(e),
                Ok(res) => match value_of(take_bytes(res)) {
                    Some(v) => if v.len() == len {
                        r matches Ok(b) && b@ == v
                    } else {
                        r == Err::<Vec<u8>, ReplayErr>(ReplayErr::Malformed {
                            seq: old(self).trace().events@[old(self).pos() as int].seq,
                            kind: EffectKind::RandomBits,
                        })
                    },
                    None => r matches Err(ReplayErr::Decode(_)),
                },
            },
    {
        proof { use_type_invariant(&*self); }
        let ghost old_rep = *self;
        let args = u64_bytes(len as u64);
        let res = self.next_event(site, EffectKind::RandomBits, args.as_slice());
        match res {
            Ok(bytes) => {
                let decoded = decode_bytes(bytes);
                proof { Replaying::lemma_advance(old_rep, *self, site, EffectKind::RandomBits, args@); }
                match decoded {
                    Ok(v) => {
                        if v.len() == len {
                            Ok(v)
                        } else {
                            let seq = self.trace.events[self.idx - 1].seq;
                            proof {
                                lemma_u64_roundtrip(len as u64, Seq::empty());
                                assert(enc_u64(len as u64) + Seq::<u8>::empty() =~= enc_u64(len as u64));
                            }
                            Err(ReplayErr::Malformed { seq, kind: EffectKind::RandomBits })
                        }
                    },
                    Err(e) => Err(ReplayErr::Decode(e)),
                }
            },
            Err(e) => Err(e),
        }
    }

    fn io_write(&mut self, site: u32, buf: &[u8]) -> (r: Result<usize, ReplayErr>)
        ensures
            final(self).trace() == old(self).trace(),
            replay_outcome(
                replay_step(old(self).trace().events@, old(self).pos() as int, site, EffectKind::IoWrite, enc_bytes(buf@)),
                |b: Seq<u8>| match value_of(take_u64(b)) { Some(x) => Some(x as usize), None => None },
                r,
            ),
    {
        proof { use_type_invariant(&*self); }
        let ghost old_rep = *self;
        let args = framed_bytes(buf);
        let res = self.next_event(site, EffectKind::IoWrite, args.as_slice());
        match res {
            Ok(bytes) => {
                let decoded = decode_u64(bytes);
                proof { Replaying::lemma_advance(old_rep, *self, site, EffectKind::IoWrite, args@); }
                match decoded {
                    Ok(n) => Ok(n as usize),
                    Err(e) => Err(ReplayErr::Decode(e)),
                }
            },
            Err(e) => Err(e),
        }
    }

    fn fs_read(&mut self, site: u32, path: &str) -> (r: Result<Result<Vec<u8>, String>, ReplayErr>)
        ensures
            final(self).trace() == old(self).trace(),
            match replay_step(old(self).trace().events@, old(self).pos() as int, site, EffectKind::FsRead, enc_str(path@)) {
                Err(e) => r == Err::<Result<Vec<u8>, String>, ReplayErr>(e),
                Ok(res) => match value_of(take_res_bytes(res)) {
                    Some(v) => r matches Ok(x) && res_bytes_view(x) == v,
                    None => r matches Err(ReplayErr::Decode(_)),
                },
            },
    {
        proof { use_type_invariant(&*self); }
        let ghost old_rep = *self;
        let args = str_bytes(path);
        let res = self.next_event(site, EffectKind::FsRead, args.as_slice());
        match res {
            Ok(bytes) => {
                let decoded = decode_res_bytes(bytes);
                proof { Replaying::lemma_advance(old_rep, *self, site, EffectKind::FsRead, args@); }
                match decoded {
                    Ok(v) => Ok(v),
                    Err(e) => Err(ReplayErr::Decode(e)),
                }
            },
            Err(e) => Err(e),
        }
    }

    fn fs_write(&mut self, site: u32, path: &str, buf: &[u8]) -> (r: Result<Result<usize, String>, ReplayErr>)
        ensures
            final(self).trace() == old(self).trace(),
            match replay_step(old(self).trace().events@, old(self).pos() as int, site, EffectKind::FsWrite, enc_str_bytes(path@, buf@)) {
                Err(e) => r == Err::<Result<usize, String>, ReplayErr>(e),
                Ok(res) => match value_of(take_res_u64(res)) {
                    Some(Ok(n)) => if n <= usize::MAX {
                        r matches Ok(Ok(m)) && m == n
                    } else {
                        r matches Err(ReplayErr::Malformed { .. })
                    },
                    Some(Err(s)) => r matches Ok(Err(m)) && m@ == s,
                    None => r matches Err(ReplayErr::Decode(_)),
                },
            },
    {
        proof { use_type_invariant(&*self); }
        let ghost old_rep = *self;
        let args = str_and_bytes(path, buf);
        let res = self.next_event(site, EffectKind::FsWrite, args.as_slice());
        match res {
            Ok(bytes) => {
                let decoded = decode_res_u64(bytes);
                proof { Replaying::lemma_advance(old_rep, *self, site, EffectKind::FsWrite, args@); }
                match decoded {
                    Ok(Ok(n)) => {
                        if n <= usize::MAX as u64 {
                            Ok(Ok(n as usize))
                        } else {
                            let seq = self.trace.events[self.idx - 1].seq;
                            Err(ReplayErr::Malformed { seq, kind: EffectKind::FsWrite })
                        }
                    },
                    Ok(Err(s)) => Ok(Err(s)),
                    Err(e) => Err(ReplayErr::Decode(e)),
                }
            },
            Err(e) => Err(e),
        }
    }

    fn env_get(&mut self, site: u32, name: &str) -> (r: Result<Option<String>, ReplayErr>)
        ensures
            final(self).trace() == old(self).trace(),
            match replay_step(old(self).trace().events@, old(self).pos() as int, site, EffectKind::EnvGet, enc_str(name@)) {
                Err(e) => r == Err::<Option<String>, ReplayErr>(e),
                Ok(res) => match value_of(take_opt_str(res)) {
                    Some(v) => r matches Ok(x) && opt_str_view(x) == v,
                    None => r matches Err(ReplayErr::Decode(_)),
                },
            },
    {
        proof { use_type_invariant(&*self); }
        let ghost old_rep = *self;
        let args = str_bytes(name);
        let res = self.next_event(site, EffectKind::EnvGet, args.as_slice());
        match res {
            Ok(bytes) => {
                let decoded = decode_opt_str(bytes);
                proof { Replaying::lemma_advance(old_rep, *self, site, EffectKind::EnvGet, args@); }
                match decoded {
                    Ok(v) => Ok(v),
                    Err(e) => Err(ReplayErr::Decode(e)),
                }
            },
            Err(e) => Err(e),
        }
    }

    fn args_get(&mut self, site: u32) -> (r: Result<Vec<String>, ReplayErr>)
        ensures
            final(self).trace() == old(self).trace(),
            match replay_step(old(self).trace().events@, old(self).pos() as int, site, EffectKind::ArgsGet, Seq::empty()) {
                Err(e) => r == Err::<Vec<String>, ReplayErr>(e),
                Ok(res) => match value_of(take_strs(res)) {
                    Some(v) => r matches Ok(x) && strings_view(x@) == v,
                    None => r matches Err(ReplayErr::Decode(_)),
                },
            },
    {
        proof { use_type_invariant(&*self); }
        let ghost old_rep = *self;
        let args: Vec<u8> = Vec::new();
        assert(args@ =~= Seq::<u8>::empty());
        let res = self.next_event(site, EffectKind::ArgsGet, args.as_slice());
        match res {
            Ok(bytes) => {
                let decoded = decode_strs(bytes);
                proof { Replaying::lemma_advance(old_rep, *self, site, EffectKind::ArgsGet, args@); }
                match decoded {
                    Ok(v) => Ok(v),
                    Err(e) => Err(ReplayErr::Decode(e)),
                }
            },
            Err(e) => Err(e),
        }
    }

    fn time_sleep(&mut self, site: u32, millis: u64) -> (r: Result<(), ReplayErr>)
        ensures
            final(self).trace() == old(self).trace(),
            match replay_step(old(self).trace().events@, old(self).pos() as int, site, EffectKind::TimeSleep, enc_u64(millis)) {
                Err(e) => r == Err::<(), ReplayErr>(e),
                Ok(_) => r is Ok,
            },
    {
        proof { use_type_invariant(&*self); }
        let ghost old_rep = *self;
        let args = u64_bytes(millis);
        let res = self.next_event(site, EffectKind::TimeSleep, args.as_slice());
        match res {
            Ok(_) => {
                proof { Replaying::lemma_advance(old_rep, *self, site, EffectKind::TimeSleep, args@); }
                Ok(())
            },
            Err(e) => Err(e),
        }
    }
}

proof fn lemma_calls_step(events: Seq<Event>, i: int)
    requires
        0 <= i < events.len(),
    ensures
        calls_of(events.take(i + 1)) == calls_of(events.take(i)).push(call_of(events[i])),
{
    assert(calls_of(events.take(i + 1)) =~= calls_of(events.take(i)).push(call_of(events[i])));
}

fn all_zero(a: &[u8; 32]) -> (r: bool)
    ensures
        r == (a@ == Seq::new(32, |i: int| 0u8)),
{
    let mut i: usize = 0;
    while i < 32
        invariant
            0 <= i <= 32,
            a@.len() == 32,
            forall|j: int| 0 <= j < i ==> a@[j] == 0u8,
        decreases 32 - i,
    {
        if a[i] != 0 {
            assert(a@[i as int] != Seq::new(32, |i: int| 0u8)[i as int]);
            return false;
        }
        i += 1;
    }
    assert(a@ =~= Seq::new(32, |i: int| 0u8));
    true
}

fn same_bytes(a: &[u8; 32], b: &[u8; 32]) -> (r: bool)
    ensures
        r == (a@ == b@),
{
    same_slice(a.as_slice(), b.as_slice())
}

pub fn same_slice(a: &[u8], b: &[u8]) -> (r: bool)
    ensures
        r == (a@ == b@),
{
    if a.len() != b.len() {
        return false;
    }
    let mut i: usize = 0;
    while i < a.len()
        invariant
            0 <= i <= a@.len(),
            a@.len() == b@.len(),
            forall|j: int| 0 <= j < i ==> a@[j] == b@[j],
        decreases a@.len() - i,
    {
        if a[i] != b[i] {
            return false;
        }
        i += 1;
    }
    assert(a@ =~= b@);
    true
}

} // verus!
