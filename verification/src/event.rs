use vstd::prelude::*;

verus! {

/// Every kind of "ask the world a question" the runtime exposes.
/// Adding a new effect = adding a variant here + a method on `Runtime` +
/// implementations in `Recording` and `Replaying`. The order of the variants
/// is part of the on-disk trace format and must never change.
#[derive(Debug, Clone, Copy, PartialEq, Eq, Hash, Structural)]
pub enum EffectKind {
    ClockNow,
    RandomBits,
    IoWrite,
    FsRead,
    FsWrite,
    EnvGet,
    ArgsGet,
    TimeSleep,
}

/// The dotted name of an effect kind, as scripts and `tape inspect` spell it.
pub open spec fn kind_name(k: EffectKind) -> Seq<char> {
    match k {
        EffectKind::ClockNow => "clock.now"@,
        EffectKind::RandomBits => "random.bits"@,
        EffectKind::IoWrite => "io.write"@,
        EffectKind::FsRead => "fs.read"@,
        EffectKind::FsWrite => "fs.write"@,
        EffectKind::EnvGet => "env.get"@,
        EffectKind::ArgsGet => "args.get"@,
        EffectKind::TimeSleep => "time.sleep"@,
    }
}

impl EffectKind {
    pub fn name(&self) -> (r: &'static str)
        ensures
            r@ == kind_name(*self),
    {
        match self {
            EffectKind::ClockNow => "clock.now",
            EffectKind::RandomBits => "random.bits",
            EffectKind::IoWrite => "io.write",
            EffectKind::FsRead => "fs.read",
            EffectKind::FsWrite => "fs.write",
            EffectKind::EnvGet => "env.get",
            EffectKind::ArgsGet => "args.get",
            EffectKind::TimeSleep => "time.sleep",
        }
    }
}

/// One effect call, recorded.
#[derive(Debug, Clone)]
pub struct Event {
    pub seq: u64,
    pub site: u32,
    pub kind: EffectKind,
    pub args: Vec<u8>,
    pub result: Vec<u8>,
}

#[derive(Debug, Clone)]
pub struct Header {
    pub version: u32,
    pub started_at: i64,
    /// identity of the build that recorded the trace; all zeros means "unchecked".
    pub code_hash: [u8; 32],
}

/// How the recorded program ended.
#[derive(Debug, Clone, PartialEq, Eq)]
pub enum Outcome {
    Exit(i32),
    Panic { message: String, location: String },
    Aborted,
}

#[derive(Debug, Clone)]
pub struct Footer {
    pub outcome: Outcome,
    /// number of events the recording emitted (the next seq it would have used).
    pub last_seq: u64,
}

#[derive(Debug, Clone)]
pub struct Trace {
    pub header: Header,
    pub events: Vec<Event>,
    pub footer: Footer,
}

/// An effect call as the abstract history of a runtime sees it: where it was
/// made, what was asked, and the encoded answer.
pub ghost struct EffectCall {
    pub site: u32,
    pub kind: EffectKind,
    pub args: Seq<u8>,
    pub result: Seq<u8>,
}

pub open spec fn call_of(ev: Event) -> EffectCall {
    EffectCall { site: ev.site, kind: ev.kind, args: ev.args@, result: ev.result@ }
}

/// The calls recorded in the first `n` events of `events`.
pub open spec fn calls_of(events: Seq<Event>) -> Seq<EffectCall> {
    events.map_values(|ev: Event| call_of(ev))
}

impl Trace {
    pub const SCHEMA_VERSION: u32 = 1;

    pub fn empty() -> (t: Self)
        ensures
            t.header.version == Trace::SCHEMA_VERSION,
            t.header.started_at == 0,
            forall|i: int| 0 <= i < 32 ==> t.header.code_hash[i] == 0u8,
            t.events@.len() == 0,
            t.footer.outcome == Outcome::Aborted,
            t.footer.last_seq == 0,
    {
        Trace {
            header: Header { version: Trace::SCHEMA_VERSION, started_at: 0, code_hash: [0u8; 32] },
            events: Vec::new(),
            footer: Footer { outcome: Outcome::Aborted, last_seq: 0 },
        }
    }
}

} // verus!
