//! tape: a deterministic record + replay runtime.
//!
//! A program in this model is a deterministic function from its code and
//! the sequence of values it received from the runtime's effect calls. We
//! record that sequence into a trace, then replay against the trace and
//! check that every effect call lands at the same site, with the same kind,
//! with the same args. If any of those drift, replay stops with an error.
pub mod cli;
pub mod codec;
pub mod diff;
pub mod error;
pub mod event;
pub mod inspect;
pub mod lang;
pub mod programs;
pub mod recording;
pub mod replaying;
pub mod runtime;
pub mod stats;
pub mod text;

pub use error::ReplayErr;
pub use event::{EffectKind, Event, Header, Trace};
pub use recording::{Host, Recording};
pub use replaying::Replaying;
pub use runtime::Runtime;

use vstd::prelude::*;
use vstd::string::StringSliceAdditionalSpecFns;

verus! {

/// Hex identity of this build, which recording writes into the trace
/// header and replay compares against (a trace whose identity is all zeros
/// is accepted by every build). It is a fixed value: nothing recomputes it
/// from the source, so an edited build still accepts traces recorded before
/// the edit unless this value is changed along with it.
pub const CODE_HASH_HEX: &'static str = "34df0578424ec7bcfc97e5fd371a4724cc2873ac1bd16e00304d7028715c9c40";

/// The value of one hex digit; anything else counts as zero.
pub open spec fn nibble(c: u8) -> u8 {
    if 48 <= c <= 57 {
        (c - 48) as u8
    } else if 97 <= c <= 102 {
        (c - 87) as u8
    } else if 65 <= c <= 70 {
        (c - 55) as u8
    } else {
        0
    }
}

/// The 32 bytes spelled by the first 64 hex digits of `s`.
pub open spec fn hex_decode32(s: Seq<u8>) -> Seq<u8> {
    Seq::new(32, |i: int| (nibble(s[2 * i]) * 16 + nibble(s[2 * i + 1])) as u8)
}

/// The build identity, as bytes.
pub open spec fn build_hash() -> Seq<u8> {
    hex_decode32(CODE_HASH_HEX.spec_bytes())
}

fn hex_nibble(c: u8) -> (r: u8)
    ensures
        r == nibble(c),
        r < 16,
{
    if 48 <= c && c <= 57 {
        c - 48
    } else if 97 <= c && c <= 102 {
        c - 87
    } else if 65 <= c && c <= 70 {
        c - 55
    } else {
        0
    }
}

/// `CODE_HASH_HEX` decoded into 32 raw bytes. Used by recording and replay.
pub fn code_hash_bytes() -> (out: [u8; 32])
    ensures
        out@ == build_hash(),
{
    let mut out = [0u8; 32];
    let s = CODE_HASH_HEX.as_bytes();
    proof {
        reveal_strlit("34df0578424ec7bcfc97e5fd371a4724cc2873ac1bd16e00304d7028715c9c40");
        vstd::string::is_ascii_spec_bytes(CODE_HASH_HEX);
    }
    assert(s@.len() == 64);
    let mut i: usize = 0;
    while i < 32
        invariant
            0 <= i <= 32,
            s@ == CODE_HASH_HEX.spec_bytes(),
            s@.len() == 64,
            out@.len() == 32,
            forall|j: int| 0 <= j < i ==> out@[j] == build_hash()[j],
        decreases 32 - i,
    {
        let hi = hex_nibble(s[i * 2]);
        let lo = hex_nibble(s[i * 2 + 1]);
        out[i] = hi * 16 + lo;
        i += 1;
    }
    assert(out@ =~= build_hash());
    out
}

/// One FNV-1a 32-bit mixing step.
pub open spec fn fnv_mix(h: u32, x: u32) -> u32 {
    (h ^ x).wrapping_mul(0x0100_0193)
}

/// FNV-1a 32-bit over a byte sequence, starting from `h`.
pub open spec fn fnv_bytes(h: u32, b: Seq<u8>) -> u32
    decreases b.len(),
{
    if b.len() == 0 {
        h
    } else {
        fnv_mix(fnv_bytes(h, b.drop_last()), b.last() as u32)
    }
}

/// Site identifier of a call written at `file:line:column`.
pub open spec fn site_of(file: Seq<u8>, line: u32, column: u32) -> u32 {
    fnv_mix(fnv_mix(fnv_bytes(0x811c_9dc5, file), line), column)
}

/// FNV-1a over the bytes of `b`, continuing from `h`.
pub fn fnv_fold(h: u32, b: &[u8]) -> (r: u32)
    ensures
        r == fnv_bytes(h, b@),
{
    let mut acc = h;
    let mut i: usize = 0;
    while i < b.len()
        invariant
            0 <= i <= b@.len(),
            acc == fnv_bytes(h, b@.take(i as int)),
        decreases b@.len() - i,
    {
        assert(b@.take(i as int + 1).drop_last() =~= b@.take(i as int));
        acc = (acc ^ b[i] as u32).wrapping_mul(0x0100_0193);
        i += 1;
    }
    assert(b@.take(i as int) =~= b@);
    acc
}

/// Site identifier hashed from a source position. Stable within one build
/// of one source tree, and unstable across edits to it: that instability is
/// what catches "you changed the program and tried to replay an old trace".
pub fn site_hash(file: &str, line: u32, column: u32) -> (h: u32)
    ensures
        h == site_of(file.spec_bytes(), line, column),
{
    let bytes = file.as_bytes();
    let mut h = fnv_fold(0x811c_9dc5, bytes);
    h = (h ^ line).wrapping_mul(0x0100_0193);
    (h ^ column).wrapping_mul(0x0100_0193)
}

} // verus!
