use crate::event::{kind_name, EffectKind};
use crate::inspect::{short_hex, short_hex_chars};
use crate::text::{dec_nat, hex_site, push_chars, push_dec, push_site, push_str, string_of};
use vstd::prelude::*;

verus! {

/// Every way replay can detect that the program is no longer faithful to
/// the recorded trace. Each variant carries enough context to print a
/// useful message: which seq, which site, what was expected, what we got.
#[derive(Debug)]
#[allow(inconsistent_fields)]
pub enum ReplayErr {
    /// the trace ran out of events but the program tried to make another call.
    EndOfTrace { seq: u64, site: u32, kind: EffectKind },
    /// the program made its next call at a different source location than
    /// the recording: usually the code was edited between record and replay.
    SiteMismatch { seq: u64, expected: u32, got: u32 },
    /// right step, right site, but a different kind of effect.
    KindMismatch { seq: u64, site: u32, expected: EffectKind, got: EffectKind },
    /// site and kind match but the args differ: the program asks a different
    /// question, so the recorded answer is no longer valid.
    ArgsMismatch { seq: u64, site: u32, kind: EffectKind },
    /// the trace's schema version is not the one this build supports.
    UnsupportedSchema { expected: u32, got: u32 },
    /// the trace was recorded against a different build of the program:
    /// `expected` is this build's identity, `got` the trace's.
    CodeHashMismatch { expected: [u8; 32], got: [u8; 32] },
    /// the recorded result bytes do not decode as the call's result type.
    Decode(bincode::Error),
    /// the recorded result decodes, but does not have the shape the call
    /// needs (fewer or more random bytes than were asked for).
    Malformed { seq: u64, kind: EffectKind },
}

/// The message of a replay error, where it is this library's own text.
/// The text of a decode error comes from `bincode`.
pub open spec fn replay_msg(e: ReplayErr) -> Option<Seq<char>> {
    match e {
        ReplayErr::EndOfTrace { seq, site, kind } => Some(
            "trace ended at seq "@ + dec_nat(seq as nat) + ", but the program then called "@
                + kind_name(kind) + " at site "@ + hex_site(site),
        ),
        ReplayErr::SiteMismatch { seq, expected, got } => Some(
            "at seq "@ + dec_nat(seq as nat) + ": site mismatch — trace recorded "@ + hex_site(
                expected,
            ) + ", program now at "@ + hex_site(got),
        ),
        ReplayErr::KindMismatch { seq, site, expected, got } => Some(
            "at seq "@ + dec_nat(seq as nat) + ", site "@ + hex_site(site)
                + ": kind mismatch — trace has "@ + kind_name(expected) + ", program now calls "@
                + kind_name(got),
        ),
        ReplayErr::ArgsMismatch { seq, site, kind } => Some(
            "at seq "@ + dec_nat(seq as nat) + ", site "@ + hex_site(site) + ", kind "@
                + kind_name(kind) + ": args differ from the recorded call"@,
        ),
        ReplayErr::UnsupportedSchema { expected, got } => Some(
            "trace schema "@ + dec_nat(got as nat) + " not supported (this build expects "@
                + dec_nat(expected as nat) + ")"@,
        ),
        ReplayErr::CodeHashMismatch { expected, got } => Some(
            "code hash mismatch — trace recorded against "@ + short_hex(got@)
                + ", this build is "@ + short_hex(expected@)
                + ". you have edited a source file since the recording."@,
        ),
        ReplayErr::Decode(_) => None,
        ReplayErr::Malformed { seq, kind } => Some(
            "at seq "@ + dec_nat(seq as nat) + ": the recorded "@ + kind_name(kind)
                + " answer does not have the shape the call needs"@,
        ),
    }
}

/// `m` is the message of `e`: this library's text, or for a decode error
/// `"decode error: "` followed by `bincode`'s description.
pub open spec fn is_replay_message(e: ReplayErr, m: Seq<char>) -> bool {
    match replay_msg(e) {
        Some(s) => m == s,
        None => m.len() >= 14 && m.take(14) == "decode error: "@,
    }
}

/// `bincode`'s own description of a decode error (its `Display`).
/// Nothing is claimed of the text.
#[verifier::external_body]
fn bincode_text(e: &bincode::Error) -> String {
    format!("{e}")
}

impl ReplayErr {
    /// The error as a message.
    pub fn message(&self) -> (m: String)
        ensures
            match replay_msg(*self) {
                Some(s) => m@ == s,
                None => m@.len() >= 14 && m@.take(14) == "decode error: "@,
            },
            is_replay_message(*self, m@),
    {
        let mut v: Vec<char> = Vec::new();
        match self {
            ReplayErr::EndOfTrace { seq, site, kind } => {
                push_str(&mut v, "trace ended at seq ");
                push_dec(&mut v, *seq);
                push_str(&mut v, ", but the program then called ");
                push_str(&mut v, kind.name());
                push_str(&mut v, " at site ");
                push_site(&mut v, *site);
            },
            ReplayErr::SiteMismatch { seq, expected, got } => {
                push_str(&mut v, "at seq ");
                push_dec(&mut v, *seq);
                push_str(&mut v, ": site mismatch — trace recorded ");
                push_site(&mut v, *expected);
                push_str(&mut v, ", program now at ");
                push_site(&mut v, *got);
            },
            ReplayErr::KindMismatch { seq, site, expected, got } => {
                push_str(&mut v, "at seq ");
                push_dec(&mut v, *seq);
                push_str(&mut v, ", site ");
                push_site(&mut v, *site);
                push_str(&mut v, ": kind mismatch — trace has ");
                push_str(&mut v, expected.name());
                push_str(&mut v, ", program now calls ");
                push_str(&mut v, got.name());
            },
            ReplayErr::ArgsMismatch { seq, site, kind } => {
                push_str(&mut v, "at seq ");
                push_dec(&mut v, *seq);
                push_str(&mut v, ", site ");
                push_site(&mut v, *site);
                push_str(&mut v, ", kind ");
                push_str(&mut v, kind.name());
                push_str(&mut v, ": args differ from the recorded call");
            },
            ReplayErr::UnsupportedSchema { expected, got } => {
                push_str(&mut v, "trace schema ");
                push_dec(&mut v, *got as u64);
                push_str(&mut v, " not supported (this build expects ");
                push_dec(&mut v, *expected as u64);
                push_str(&mut v, ")");
            },
            ReplayErr::CodeHashMismatch { expected, got } => {
                push_str(&mut v, "code hash mismatch — trace recorded against ");
                let a = short_hex_chars(got.as_slice());
                push_chars(&mut v, a.as_slice());
                push_str(&mut v, ", this build is ");
                let b = short_hex_chars(expected.as_slice());
                push_chars(&mut v, b.as_slice());
                push_str(&mut v, ". you have edited a source file since the recording.");
            },
            ReplayErr::Decode(e) => {
                push_str(&mut v, "decode error: ");
                let t = bincode_text(e);
                push_str(&mut v, t.as_str());
            },
            ReplayErr::Malformed { seq, kind } => {
                push_str(&mut v, "at seq ");
                push_dec(&mut v, *seq);
                push_str(&mut v, ": the recorded ");
                push_str(&mut v, kind.name());
                push_str(&mut v, " answer does not have the shape the call needs");
            },
        }
        proof {
            reveal_strlit("decode error: ");
        }
        let s = string_of(v.as_slice());
        s
    }
}

} // verus!
