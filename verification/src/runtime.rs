use crate::codec::{
    enc_bytes, enc_str, enc_str_bytes, enc_u64, opt_str_view, res_bytes_view, strings_view, take_bytes,
    take_opt_str, take_res_bytes, take_res_u64, take_strs, take_u64, value_of,
};
use crate::error::ReplayErr;
use crate::event::{EffectCall, EffectKind};
use vstd::prelude::*;

verus! {

/// `h1` is `h0` with one more call appended, made at `site`, of `kind`, with `args`.
pub open spec fn one_more_call(
    h0: Seq<EffectCall>,
    h1: Seq<EffectCall>,
    site: u32,
    kind: EffectKind,
    args: Seq<u8>,
) -> bool {
    &&& h1.len() == h0.len() + 1
    &&& h1.drop_last() == h0
    &&& h1.last().site == site
    &&& h1.last().kind == kind
    &&& h1.last().args == args
}

/// How a call that failed may leave the history: untouched (the call was
/// refused), or with the call consumed but its recorded answer unusable.
pub open spec fn failed_call(
    h0: Seq<EffectCall>,
    h1: Seq<EffectCall>,
    site: u32,
    kind: EffectKind,
    args: Seq<u8>,
) -> bool {
    h1 == h0 || one_more_call(h0, h1, site, kind, args)
}

/// Whether the answer recorded for a call can be used: it decodes as the
/// call's result type, random bytes come in the number asked for, and a
/// written-byte count fits a `usize`.
pub open spec fn usable(c: EffectCall) -> bool {
    match c.kind {
        EffectKind::ClockNow => value_of(take_u64(c.result)) is Some,
        EffectKind::RandomBits => value_of(take_bytes(c.result)) matches Some(b) && value_of(
            take_u64(c.args),
        ) matches Some(n) && b.len() == n,
        EffectKind::IoWrite => value_of(take_u64(c.result)) is Some,
        EffectKind::FsRead => value_of(take_res_bytes(c.result)) is Some,
        EffectKind::FsWrite => value_of(take_res_u64(c.result)) matches Some(x) && (x matches Ok(
            n,
        ) ==> n <= usize::MAX),
        EffectKind::EnvGet => value_of(take_opt_str(c.result)) is Some,
        EffectKind::ArgsGet => value_of(take_strs(c.result)) is Some,
        EffectKind::TimeSleep => true,
    }
}

/// Why a call failed, given the history before (`h0`) and after (`h1`) it
/// and whether the runtime, as the call left it, would take the call: a
/// call that left the history untouched was refused, and one that was
/// taken got an answer that cannot be used.
pub open spec fn failure_reason(h0: Seq<EffectCall>, h1: Seq<EffectCall>, takes_call: bool) -> bool {
    if h1 == h0 {
        !takes_call
    } else {
        !usable(h1.last())
    }
}

/// The runtime contract. Anything a tape program does that depends on the
/// outside world goes through here. Recording captures it, replaying
/// replays it.
///
/// Every runtime keeps a history: the calls it has answered so far, each
/// with its site, kind, encoded args and encoded answer. A successful call
/// appends exactly one entry, and the value it returns is what that entry's
/// answer decodes to. A failed call (replay drift) appends at most one.
pub trait Runtime {
    spec fn history(&self) -> Seq<EffectCall>;

    /// Whether the runtime, as it is now, takes a call made at `site`, of
    /// `kind`, with `args` (a replayer takes only the recorded next call).
    spec fn accepts(&self, site: u32, kind: EffectKind, args: Seq<u8>) -> bool;

    /// The recorded calls a runtime answers from (a replayer's trace); empty
    /// for a runtime that asks the world. No call changes them.
    spec fn recorded(&self) -> Seq<EffectCall>;

    /// wall-clock seconds since the unix epoch. args: none.
    fn now(&mut self, site: u32) -> (r: Result<u64, ReplayErr>)
        ensures
            final(self).recorded() == old(self).recorded(),
            match r {
                Ok(t) => one_more_call(
                    old(self).history(),
                    final(self).history(),
                    site,
                    EffectKind::ClockNow,
                    Seq::empty(),
                ) && value_of(take_u64(final(self).history().last().result)) == Some(t),
                Err(_) => failed_call(
                    old(self).history(),
                    final(self).history(),
                    site,
                    EffectKind::ClockNow,
                    Seq::empty(),
                ) && failure_reason(
                    old(self).history(),
                    final(self).history(),
                    final(self).accepts(site, EffectKind::ClockNow, Seq::empty()),
                ),
            },
    ;

    /// `len` bytes of randomness. args: `len`, so changing the requested
    /// size between record and replay is caught.
    fn random_bits(&mut self, site: u32, len: usize) -> (r: Result<Vec<u8>, ReplayErr>)
        ensures
            final(self).recorded() == old(self).recorded(),
            match r {
                Ok(b) => one_more_call(
                    old(self).history(),
                    final(self).history(),
                    site,
                    EffectKind::RandomBits,
                    enc_u64(len as u64),
                ) && value_of(take_bytes(final(self).history().last().result)) == Some(b@)
                    && b@.len() == len,
                Err(_) => failed_call(
                    old(self).history(),
                    final(self).history(),
                    site,
                    EffectKind::RandomBits,
                    enc_u64(len as u64),
                ) && failure_reason(
                    old(self).history(),
                    final(self).history(),
                    final(self).accepts(site, EffectKind::RandomBits, enc_u64(len as u64)),
                ),
            },
    ;

    /// write the buffer to stdout; returns the number of bytes the recorded
    /// write reported. args: the buffer.
    fn io_write(&mut self, site: u32, buf: &[u8]) -> (r: Result<usize, ReplayErr>)
        ensures
            final(self).recorded() == old(self).recorded(),
            match r {
                Ok(n) => one_more_call(
                    old(self).history(),
                    final(self).history(),
                    site,
                    EffectKind::IoWrite,
                    enc_bytes(buf@),
                ) && (value_of(take_u64(final(self).history().last().result)) matches Some(x) && n
                    == x as usize),
                Err(_) => failed_call(
                    old(self).history(),
                    final(self).history(),
                    site,
                    EffectKind::IoWrite,
                    enc_bytes(buf@),
                ) && failure_reason(
                    old(self).history(),
                    final(self).history(),
                    final(self).accepts(site, EffectKind::IoWrite, enc_bytes(buf@)),
                ),
            },
    ;

    /// read a whole file. args: the path.
    fn fs_read(&mut self, site: u32, path: &str) -> (r: Result<Result<Vec<u8>, String>, ReplayErr>)
        ensures
            final(self).recorded() == old(self).recorded(),
            match r {
                Ok(v) => one_more_call(
                    old(self).history(),
                    final(self).history(),
                    site,
                    EffectKind::FsRead,
                    enc_str(path@),
                ) && value_of(take_res_bytes(final(self).history().last().result)) == Some(
                    res_bytes_view(v),
                ),
                Err(_) => failed_call(
                    old(self).history(),
                    final(self).history(),
                    site,
                    EffectKind::FsRead,
                    enc_str(path@),
                ) && failure_reason(
                    old(self).history(),
                    final(self).history(),
                    final(self).accepts(site, EffectKind::FsRead, enc_str(path@)),
                ),
            },
    ;

    /// write a whole file; returns the number of bytes written. args: path and bytes.
    fn fs_write(&mut self, site: u32, path: &str, buf: &[u8]) -> (r: Result<
        Result<usize, String>,
        ReplayErr,
    >)
        ensures
            final(self).recorded() == old(self).recorded(),
            match r {
                Ok(v) => one_more_call(
                    old(self).history(),
                    final(self).history(),
                    site,
                    EffectKind::FsWrite,
                    enc_str_bytes(path@, buf@),
                ) && (value_of(take_res_u64(final(self).history().last().result)) matches Some(x)
                    && match (x, v) {
                    (Ok(a), Ok(b)) => b == a,
                    (Err(a), Err(b)) => b@ == a,
                    _ => false,
                }),
                Err(_) => failed_call(
                    old(self).history(),
                    final(self).history(),
                    site,
                    EffectKind::FsWrite,
                    enc_str_bytes(path@, buf@),
                ) && failure_reason(
                    old(self).history(),
                    final(self).history(),
                    final(self).accepts(site, EffectKind::FsWrite, enc_str_bytes(path@, buf@)),
                ),
            },
    ;

    /// look up an environment variable. args: its name.
    fn env_get(&mut self, site: u32, name: &str) -> (r: Result<Option<String>, ReplayErr>)
        ensures
            final(self).recorded() == old(self).recorded(),
            match r {
                Ok(v) => one_more_call(
                    old(self).history(),
                    final(self).history(),
                    site,
                    EffectKind::EnvGet,
                    enc_str(name@),
                ) && value_of(take_opt_str(final(self).history().last().result)) == Some(
                    opt_str_view(v),
                ),
                Err(_) => failed_call(
                    old(self).history(),
                    final(self).history(),
                    site,
                    EffectKind::EnvGet,
                    enc_str(name@),
                ) && failure_reason(
                    old(self).history(),
                    final(self).history(),
                    final(self).accepts(site, EffectKind::EnvGet, enc_str(name@)),
                ),
            },
    ;

    /// the process's argument vector. args: none.
    fn args_get(&mut self, site: u32) -> (r: Result<Vec<String>, ReplayErr>)
        ensures
            final(self).recorded() == old(self).recorded(),
            match r {
                Ok(v) => one_more_call(
                    old(self).history(),
                    final(self).history(),
                    site,
                    EffectKind::ArgsGet,
                    Seq::empty(),
                ) && value_of(take_strs(final(self).history().last().result)) == Some(
                    strings_view(v@),
                ),
                Err(_) => failed_call(
                    old(self).history(),
                    final(self).history(),
                    site,
                    EffectKind::ArgsGet,
                    Seq::empty(),
                ) && failure_reason(
                    old(self).history(),
                    final(self).history(),
                    final(self).accepts(site, EffectKind::ArgsGet, Seq::empty()),
                ),
            },
    ;

    /// pause for `millis` milliseconds. args: `millis`; no answer.
    fn time_sleep(&mut self, site: u32, millis: u64) -> (r: Result<(), ReplayErr>)
        ensures
            final(self).recorded() == old(self).recorded(),
            match r {
                Ok(_) => one_more_call(
                    old(self).history(),
                    final(self).history(),
                    site,
                    EffectKind::TimeSleep,
                    enc_u64(millis),
                ),
                Err(_) => failed_call(
                    old(self).history(),
                    final(self).history(),
                    site,
                    EffectKind::TimeSleep,
                    enc_u64(millis),
                ) && failure_reason(
                    old(self).history(),
                    final(self).history(),
                    final(self).accepts(site, EffectKind::TimeSleep, enc_u64(millis)),
                ),
            },
    ;
}

} // verus!
