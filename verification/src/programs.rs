//! Demo programs the CLI can record and replay. Each exercises a different
//! mix of effects, so a viewer of the trace can tell at a glance whether
//! record + replay preserves the right shape of work.
//!
//! Adding a program: a new variant of `Demo`, its body below, and an entry
//! in `lookup` and `catalog`.
use crate::codec::{enc_bytes, enc_u64, lemma_u64_roundtrip, take_bytes, take_u64, value_of};
use crate::error::ReplayErr;
use crate::event::{calls_of, EffectCall, EffectKind, Trace};
use crate::recording::{Host, Recording};
use crate::replaying::{replay_step, Replaying};
use crate::lang::semantics::extends;
use crate::runtime::{usable, Runtime};
use crate::text::{dec_nat, push_dec, push_str, str_chars, string_of};
use crate::{site_hash, site_of};
use vstd::prelude::*;
use vstd::string::StrSliceExecFns;
use vstd::utf8::*;

verus! {

/// The built-in programs.
#[derive(Debug, Clone, Copy, PartialEq, Eq, Structural)]
pub enum Demo {
    Dice,
    Counter,
    Entropy,
}

/// The program a name on the command line stands for.
pub open spec fn demo_named(s: Seq<char>) -> Option<Demo> {
    if s == "dice"@ {
        Some(Demo::Dice)
    } else if s == "counter"@ {
        Some(Demo::Counter)
    } else if s == "entropy"@ {
        Some(Demo::Entropy)
    } else {
        None
    }
}

/// The name of a program.
pub open spec fn demo_name(d: Demo) -> Seq<char> {
    match d {
        Demo::Dice => "dice"@,
        Demo::Counter => "counter"@,
        Demo::Entropy => "entropy"@,
    }
}

/// Each program is found again by its name.
pub proof fn law_lookup_by_name(d: Demo)
    ensures
        demo_named(demo_name(d)) == Some(d),
{
    reveal_strlit("dice");
    reveal_strlit("counter");
    reveal_strlit("entropy");
    assert("counter"@ != "dice"@) by {
        assert("counter"@.len() != "dice"@.len());
    }
    assert("entropy"@ != "dice"@) by {
        assert("entropy"@.len() != "dice"@.len());
    }
    assert("entropy"@ != "counter"@) by {
        assert("entropy"@[0] != "counter"@[0]);
    }
}

/// Every program advertised on the CLI: its name and a one-line description.
pub fn catalog() -> (c: [(&'static str, &'static str); 3])
    ensures
        c[0].0@ == "dice"@,
        c[0].1@ == "roll a 6-sided die using clock + random + write"@,
        c[1].0@ == "counter"@,
        c[1].1@ == "count 1..5 to stdout via io.write"@,
        c[2].0@ == "entropy"@,
        c[2].1@ == "draw 64 bytes of randomness, hash via sum, print"@,
{
    [
        ("dice", "roll a 6-sided die using clock + random + write"),
        ("counter", "count 1..5 to stdout via io.write"),
        ("entropy", "draw 64 bytes of randomness, hash via sum, print"),
    ]
}

/// The program named `name`, if there is one.
pub fn lookup(name: &str) -> (d: Option<Demo>)
    ensures
        d == demo_named(name@),
{
    if crate::inspect::str_eq(name, "dice") {
        Some(Demo::Dice)
    } else if crate::inspect::str_eq(name, "counter") {
        Some(Demo::Counter)
    } else if crate::inspect::str_eq(name, "entropy") {
        Some(Demo::Entropy)
    } else {
        None
    }
}

/// The site id of a call written in this file at `line:column`.
pub open spec fn demo_site(line: u32, column: u32) -> u32 {
    site_of(encode_utf8("src/programs.rs"@), line, column)
}

fn demo_site_id(line: u32, column: u32) -> (s: u32)
    ensures
        s == demo_site(line, column),
{
    site_hash("src/programs.rs", line, column)
}

/// The line the dice program writes for time `t` and random byte `b`.
pub open spec fn dice_line(t: u64, b: u8) -> Seq<char> {
    "at "@ + dec_nat(t as nat) + "s you rolled a "@ + dec_nat((b % 6 + 1) as nat) + "\n"@
}

pub open spec fn counter_line(i: nat) -> Seq<char> {
    "count "@ + dec_nat(i) + "\n"@
}

pub open spec fn byte_sum(b: Seq<u8>) -> nat
    decreases b.len(),
{
    if b.len() == 0 {
        0
    } else {
        byte_sum(b.drop_last()) + b.last() as nat
    }
}

pub open spec fn entropy_line(b: Seq<u8>) -> Seq<char> {
    "64 random bytes summed to "@ + dec_nat(byte_sum(b)) + "\n"@
}

/// The calls the dice program made, from `h0` to `h1`: the clock, one
/// random byte, and the line built from their answers.
pub open spec fn dice_made(h0: Seq<EffectCall>, h1: Seq<EffectCall>) -> bool {
    let n = h0.len() as int;
    &&& h1.len() == n + 3
    &&& h1.take(n) == h0
    &&& h1[n].site == demo_site(33, 20) && h1[n].kind == EffectKind::ClockNow && h1[n].args
        == Seq::<u8>::empty()
    &&& h1[n + 1].site == demo_site(34, 28) && h1[n + 1].kind == EffectKind::RandomBits && h1[n
        + 1].args == enc_u64(1)
    &&& value_of(take_u64(h1[n].result)) matches Some(t) && value_of(take_bytes(h1[n + 1].result))
        matches Some(b) && b.len() == 1 && h1[n + 2].site == demo_site(37, 17) && h1[n + 2].kind
        == EffectKind::IoWrite && h1[n + 2].args == enc_bytes(encode_utf8(dice_line(t, b[0])))
}

/// The calls the counter program made: five writes, "count 1" to "count 5".
pub open spec fn counter_made(h0: Seq<EffectCall>, h1: Seq<EffectCall>) -> bool {
    let n = h0.len() as int;
    &&& h1.len() == n + 5
    &&& h1.take(n) == h0
    &&& forall|i: int|
        0 <= i < 5 ==> (#[trigger] h1[n + i]).site == demo_site(44, 21) && h1[n + i].kind
            == EffectKind::IoWrite && h1[n + i].args == enc_bytes(
            encode_utf8(counter_line((i + 1) as nat)),
        )
}

/// The calls the entropy program made: 64 random bytes, then their sum.
pub open spec fn entropy_made(h0: Seq<EffectCall>, h1: Seq<EffectCall>) -> bool {
    let n = h0.len() as int;
    &&& h1.len() == n + 2
    &&& h1.take(n) == h0
    &&& h1[n].site == demo_site(50, 32) && h1[n].kind == EffectKind::RandomBits && h1[n].args
        == enc_u64(64)
    &&& value_of(take_bytes(h1[n].result)) matches Some(b) && b.len() == 64 && h1[n + 1].site
        == demo_site(56, 17) && h1[n + 1].kind == EffectKind::IoWrite && h1[n + 1].args == enc_bytes(
        encode_utf8(entropy_line(b)),
    )
}

/// The call a program makes next, given the calls it has made so far and
/// their answers: its site, kind and args; `None` once it is done. A
/// program is a function of its code and the answers it got.
pub open spec fn next_call(d: Demo, h: Seq<EffectCall>) -> Option<(u32, EffectKind, Seq<u8>)> {
    match d {
        Demo::Dice => if h.len() == 0 {
            Some((demo_site(33, 20), EffectKind::ClockNow, Seq::empty()))
        } else if h.len() == 1 {
            Some((demo_site(34, 28), EffectKind::RandomBits, enc_u64(1)))
        } else if h.len() == 2 {
            match (value_of(take_u64(h[0].result)), value_of(take_bytes(h[1].result))) {
                (Some(t), Some(b)) => Some(
                    (demo_site(37, 17), EffectKind::IoWrite, enc_bytes(encode_utf8(dice_line(t, b[0])))),
                ),
                _ => None,
            }
        } else {
            None
        },
        Demo::Counter => if h.len() < 5 {
            Some(
                (
                    demo_site(44, 21),
                    EffectKind::IoWrite,
                    enc_bytes(encode_utf8(counter_line(h.len() + 1))),
                ),
            )
        } else {
            None
        },
        Demo::Entropy => if h.len() == 0 {
            Some((demo_site(50, 32), EffectKind::RandomBits, enc_u64(64)))
        } else if h.len() == 1 {
            match value_of(take_bytes(h[0].result)) {
                Some(b) => Some(
                    (demo_site(56, 17), EffectKind::IoWrite, enc_bytes(encode_utf8(entropy_line(b)))),
                ),
                None => None,
            }
        } else {
            None
        },
    }
}

/// Each call in `h` is the one the program makes after the calls before it.
pub open spec fn follows(d: Demo, h: Seq<EffectCall>) -> bool {
    forall|k: int|
        0 <= k < h.len() ==> #[trigger] next_call(d, h.take(k)) == Some(
            (h[k].site, h[k].kind, h[k].args),
        )
}

/// `h` is a whole run of the program: each call the one it makes next,
/// each answer usable, and nothing left to call.
pub open spec fn complete_run(d: Demo, h: Seq<EffectCall>) -> bool {
    &&& follows(d, h)
    &&& forall|k: int| 0 <= k < h.len() ==> usable(#[trigger] h[k])
    &&& next_call(d, h) is None
}

/// What a run of `d` does to a runtime, from `before` to `after`, with
/// result `r`: the calls it adds follow the program, every answer but
/// perhaps the last is usable, and the run either completes with exit
/// code 0, or stops at an unusable answer, or stops at a call the
/// runtime does not take.
pub open spec fn demo_ran<R: Runtime>(d: Demo, before: R, after: R, r: Result<i32, ReplayErr>) -> bool {
    let h0 = before.history();
    let made = after.history().skip(h0.len() as int);
    &&& after.recorded() == before.recorded()
    &&& extends(h0, after.history())
    &&& follows(d, made)
    &&& forall|k: int| 0 <= k < made.len() - 1 ==> usable(#[trigger] made[k])
    &&& match r {
        Ok(c) => c == 0 && complete_run(d, made),
        Err(_) => (made.len() > 0 && !usable(made.last())) || (next_call(d, made) matches Some(c)
            && !after.accepts(c.0, c.1, c.2)),
    }
}

/// The calls a run made, from `h0` on, with every answer usable.
pub open spec fn made_usable(made: Seq<EffectCall>) -> bool {
    forall|k: int| 0 <= k < made.len() ==> usable(#[trigger] made[k])
}

/// One more call at the end of a history is one more call at the end of
/// what the run made.
proof fn lemma_skip_push(h0: Seq<EffectCall>, mid: Seq<EffectCall>, h1: Seq<EffectCall>)
    requires
        extends(h0, mid),
        h1.len() == mid.len() + 1,
        h1.drop_last() == mid,
    ensures
        extends(h0, h1),
        h1.skip(h0.len() as int) == mid.skip(h0.len() as int).push(h1.last()),
{
    let n = h0.len() as int;
    assert(h1.take(mid.len() as int) =~= h1.drop_last());
    assert(h1.take(n) =~= mid.take(n));
    assert(h1.skip(n) =~= mid.skip(n).push(h1.last()));
}

/// Following the program, then making its next call, is following it.
proof fn lemma_follows_push(d: Demo, m0: Seq<EffectCall>, c: EffectCall)
    requires
        follows(d, m0),
        next_call(d, m0) == Some((c.site, c.kind, c.args)),
    ensures
        follows(d, m0.push(c)),
{
    let m1 = m0.push(c);
    assert forall|k: int| 0 <= k < m1.len() implies #[trigger] next_call(d, m1.take(k)) == Some(
        (m1[k].site, m1[k].kind, m1[k].args),
    ) by {
        if k < m0.len() {
            assert(m1.take(k) =~= m0.take(k));
            assert(next_call(d, m0.take(k)) == Some((m0[k].site, m0[k].kind, m0[k].args)));
        } else {
            assert(m1.take(k) =~= m0);
        }
    }
}

/// A run that made the calls `h0 -> mid` so far, following the program with
/// usable answers, makes the program's next call and gets a usable answer.
proof fn lemma_call_made(
    d: Demo,
    h0: Seq<EffectCall>,
    mid: Seq<EffectCall>,
    h1: Seq<EffectCall>,
    site: u32,
    kind: EffectKind,
    args: Seq<u8>,
)
    requires
        extends(h0, mid),
        follows(d, mid.skip(h0.len() as int)),
        made_usable(mid.skip(h0.len() as int)),
        next_call(d, mid.skip(h0.len() as int)) == Some((site, kind, args)),
        crate::runtime::one_more_call(mid, h1, site, kind, args),
        usable(h1.last()),
    ensures
        extends(h0, h1),
        h1.skip(h0.len() as int) == mid.skip(h0.len() as int).push(h1.last()),
        follows(d, h1.skip(h0.len() as int)),
        made_usable(h1.skip(h0.len() as int)),
{
    let n = h0.len() as int;
    lemma_skip_push(h0, mid, h1);
    lemma_follows_push(d, mid.skip(n), h1.last());
    let m0 = mid.skip(n);
    let m1 = h1.skip(n);
    assert forall|k: int| 0 <= k < m1.len() implies usable(#[trigger] m1[k]) by {
        if k < m0.len() {
            assert(usable(m0[k]));
        }
    }
}

/// A run that made the calls `h0 -> mid` so far, following the program with
/// usable answers, stops at the program's next call, which failed.
proof fn lemma_call_failed<R: Runtime>(
    d: Demo,
    before: R,
    mid: Seq<EffectCall>,
    after: R,
    r: Result<i32, ReplayErr>,
    site: u32,
    kind: EffectKind,
    args: Seq<u8>,
)
    requires
        r is Err,
        after.recorded() == before.recorded(),
        extends(before.history(), mid),
        follows(d, mid.skip(before.history().len() as int)),
        made_usable(mid.skip(before.history().len() as int)),
        next_call(d, mid.skip(before.history().len() as int)) == Some((site, kind, args)),
        crate::runtime::failed_call(mid, after.history(), site, kind, args),
        crate::runtime::failure_reason(mid, after.history(), after.accepts(site, kind, args)),
    ensures
        demo_ran(d, before, after, r),
{
    let h0 = before.history();
    let n = h0.len() as int;
    let m0 = mid.skip(n);
    let h1 = after.history();
    if h1 != mid {
        lemma_skip_push(h0, mid, h1);
        lemma_follows_push(d, m0, h1.last());
        let m1 = h1.skip(n);
        assert forall|k: int| 0 <= k < m1.len() - 1 implies usable(#[trigger] m1[k]) by {
            assert(m1[k] == m0[k]);
        }
    }
}

/// A run that made the calls `h0 -> h1`, following the program with usable
/// answers, until the program had nothing left to call, completed.
proof fn lemma_run_done<R: Runtime>(d: Demo, before: R, after: R)
    requires
        after.recorded() == before.recorded(),
        extends(before.history(), after.history()),
        follows(d, after.history().skip(before.history().len() as int)),
        made_usable(after.history().skip(before.history().len() as int)),
        next_call(d, after.history().skip(before.history().len() as int)) is None,
    ensures
        demo_ran(d, before, after, Ok(0)),
{
}

/// Nothing made yet: an empty run follows every program.
proof fn lemma_run_start(d: Demo, h0: Seq<EffectCall>)
    ensures
        extends(h0, h0),
        h0.skip(h0.len() as int) == Seq::<EffectCall>::empty(),
        follows(d, h0.skip(h0.len() as int)),
        made_usable(h0.skip(h0.len() as int)),
{
    assert(h0.take(h0.len() as int) =~= h0);
    assert(h0.skip(h0.len() as int) =~= Seq::<EffectCall>::empty());
}

proof fn lemma_grow(h0: Seq<EffectCall>, h1: Seq<EffectCall>)
    requires
        h1.len() == h0.len() + 1,
        h1.drop_last() == h0,
    ensures
        extends(h0, h1),
        forall|i: int| 0 <= i < h0.len() ==> h1[i] == h0[i],
        h1[h0.len() as int] == h1.last(),
{
    assert(h1.take(h0.len() as int) =~= h0);
}

proof fn lemma_stay(h0: Seq<EffectCall>, h1: Seq<EffectCall>)
    requires
        h1 == h0 || (h1.len() == h0.len() + 1 && h1.drop_last() == h0),
    ensures
        extends(h0, h1),
{
    assert(h0.take(h0.len() as int) =~= h0);
    assert(h1.len() > h0.len() ==> h1.take(h0.len() as int) =~= h1.drop_last());
}

fn dice<R: Runtime>(rt: &mut R) -> (r: Result<i32, ReplayErr>)
    ensures
        extends(old(rt).history(), final(rt).history()),
        r is Ok ==> r == Ok::<i32, ReplayErr>(0) && dice_made(old(rt).history(), final(rt).history()),
        demo_ran(Demo::Dice, *old(rt), *final(rt), r),
{
    let ghost before = *rt;
    let ghost h0 = rt.history();
    let ghost n = h0.len() as int;
    proof { lemma_run_start(Demo::Dice, h0); }
    let t = match rt.now(demo_site_id(33, 20)) {
        Ok(t) => t,
        Err(e) => {
            proof {
                lemma_call_failed(Demo::Dice, before, h0, *rt, Err(e), demo_site(33, 20),
                    EffectKind::ClockNow, Seq::empty());
            }
            return Err(e);
        },
    };
    let ghost h1 = rt.history();
    proof {
        lemma_grow(h0, h1);
        lemma_call_made(Demo::Dice, h0, h0, h1, demo_site(33, 20), EffectKind::ClockNow, Seq::empty());
    }
    let bits = match rt.random_bits(demo_site_id(34, 28), 1) {
        Ok(b) => b,
        Err(e) => {
            proof {
                lemma_call_failed(Demo::Dice, before, h1, *rt, Err(e), demo_site(34, 28),
                    EffectKind::RandomBits, enc_u64(1));
            }
            return Err(e);
        },
    };
    let ghost h2 = rt.history();
    proof {
        lemma_grow(h1, h2);
        lemma_u64_roundtrip(1, Seq::empty());
        assert(enc_u64(1) + Seq::<u8>::empty() =~= enc_u64(1));
        lemma_call_made(Demo::Dice, h0, h1, h2, demo_site(34, 28), EffectKind::RandomBits, enc_u64(1));
    }
    let r = bits[0];
    let face = r % 6 + 1;
    let mut line = str_chars("at ");
    push_dec(&mut line, t);
    push_str(&mut line, "s you rolled a ");
    push_dec(&mut line, face as u64);
    push_str(&mut line, "\n");
    let text = string_of(line.as_slice());
    assert(text@ == dice_line(t, r));
    let ghost args = enc_bytes(encode_utf8(dice_line(t, r)));
    proof {
        assert(h2.skip(n) =~= seq![h1.last(), h2.last()]);
        assert(next_call(Demo::Dice, h2.skip(n)) == Some((demo_site(37, 17), EffectKind::IoWrite, args)));
    }
    let res = rt.io_write(demo_site_id(37, 17), text.as_str().as_bytes());
    proof {
        lemma_stay(h2, rt.history());
        crate::lang::semantics::lemma_extends_trans(h0, h1, h2);
        crate::lang::semantics::lemma_extends_trans(h0, h2, rt.history());
    }
    match res {
        Ok(_) => {
            proof {
                lemma_grow(h2, rt.history());
                assert(rt.history().take(h0.len() as int) == h0);
                assert(rt.history()[h0.len() as int] == h1.last());
                assert(rt.history()[h0.len() as int + 1] == h2.last());
                lemma_call_made(Demo::Dice, h0, h2, rt.history(), demo_site(37, 17), EffectKind::IoWrite, args);
                lemma_run_done(Demo::Dice, before, *rt);
            }
            Ok(0)
        },
        Err(e) => {
            proof {
                lemma_call_failed(Demo::Dice, before, h2, *rt, Err(e), demo_site(37, 17),
                    EffectKind::IoWrite, args);
            }
            Err(e)
        },
    }
}

fn counter<R: Runtime>(rt: &mut R) -> (r: Result<i32, ReplayErr>)
    ensures
        extends(old(rt).history(), final(rt).history()),
        r is Ok ==> r == Ok::<i32, ReplayErr>(0) && counter_made(old(rt).history(), final(rt).history()),
        demo_ran(Demo::Counter, *old(rt), *final(rt), r),
{
    let ghost before = *rt;
    let ghost h0 = rt.history();
    let ghost n = h0.len() as int;
    proof { lemma_run_start(Demo::Counter, h0); }
    let mut i: u64 = 1;
    while i <= 5
        invariant
            1 <= i <= 6,
            h0 == old(rt).history(),
            before == *old(rt),
            rt.recorded() == before.recorded(),
            n == h0.len(),
            extends(h0, rt.history()),
            rt.history().len() == n + i - 1,
            follows(Demo::Counter, rt.history().skip(n)),
            made_usable(rt.history().skip(n)),
            forall|k: int|
                0 <= k < i - 1 ==> (#[trigger] rt.history()[n + k]).site == demo_site(44, 21)
                    && rt.history()[n + k].kind == EffectKind::IoWrite && rt.history()[n + k].args
                    == enc_bytes(encode_utf8(counter_line((k + 1) as nat))),
        decreases 6 - i,
    {
        let mut line = str_chars("count ");
        push_dec(&mut line, i);
        push_str(&mut line, "\n");
        let text = string_of(line.as_slice());
        assert(text@ == counter_line(i as nat));
        let ghost hc = rt.history();
        let ghost args = enc_bytes(encode_utf8(counter_line(i as nat)));
        assert(next_call(Demo::Counter, hc.skip(n)) == Some((demo_site(44, 21), EffectKind::IoWrite, args)));
        let res = rt.io_write(demo_site_id(44, 21), text.as_str().as_bytes());
        proof {
            lemma_stay(hc, rt.history());
            crate::lang::semantics::lemma_extends_trans(h0, hc, rt.history());
        }
        match res {
            Ok(_) => {
                proof {
                    lemma_grow(hc, rt.history());
                    lemma_call_made(Demo::Counter, h0, hc, rt.history(), demo_site(44, 21), EffectKind::IoWrite, args);
                    assert forall|k: int| 0 <= k < i implies (#[trigger] rt.history()[n + k]).site
                        == demo_site(44, 21) && rt.history()[n + k].kind == EffectKind::IoWrite
                        && rt.history()[n + k].args == enc_bytes(encode_utf8(counter_line((k + 1) as nat))) by {
                        if k < i - 1 {
                            assert(rt.history()[n + k] == hc[n + k]);
                        }
                    }
                }
            },
            Err(e) => {
                proof {
                    lemma_call_failed(Demo::Counter, before, hc, *rt, Err(e), demo_site(44, 21),
                        EffectKind::IoWrite, args);
                }
                return Err(e);
            },
        }
        i += 1;
    }
    proof {
        assert(rt.history().take(n) =~= h0) by {
            assert(rt.history().take(h0.len() as int) == h0);
        }
        lemma_run_done(Demo::Counter, before, *rt);
    }
    Ok(0)
}

fn entropy<R: Runtime>(rt: &mut R) -> (r: Result<i32, ReplayErr>)
    ensures
        extends(old(rt).history(), final(rt).history()),
        r is Ok ==> r == Ok::<i32, ReplayErr>(0) && entropy_made(old(rt).history(), final(rt).history()),
        demo_ran(Demo::Entropy, *old(rt), *final(rt), r),
{
    let ghost before = *rt;
    let ghost h0 = rt.history();
    let ghost n = h0.len() as int;
    proof { lemma_run_start(Demo::Entropy, h0); }
    let bytes = match rt.random_bits(demo_site_id(50, 32), 64) {
        Ok(b) => b,
        Err(e) => {
            proof {
                lemma_call_failed(Demo::Entropy, before, h0, *rt, Err(e), demo_site(50, 32),
                    EffectKind::RandomBits, enc_u64(64));
            }
            return Err(e);
        },
    };
    let ghost h1 = rt.history();
    proof {
        lemma_grow(h0, h1);
        lemma_u64_roundtrip(64, Seq::empty());
        assert(enc_u64(64) + Seq::<u8>::empty() =~= enc_u64(64));
        lemma_call_made(Demo::Entropy, h0, h0, h1, demo_site(50, 32), EffectKind::RandomBits, enc_u64(64));
    }
    let mut sum: u64 = 0;
    let mut i: usize = 0;
    while i < bytes.len()
        invariant
            i <= bytes@.len(),
            bytes@.len() == 64,
            sum == byte_sum(bytes@.take(i as int)),
            sum <= 255 * i,
        decreases bytes@.len() - i,
    {
        assert(bytes@.take(i + 1).drop_last() =~= bytes@.take(i as int));
        sum = sum + bytes[i] as u64;
        i += 1;
    }
    assert(bytes@.take(64) =~= bytes@);
    let mut line = str_chars("64 random bytes summed to ");
    push_dec(&mut line, sum);
    push_str(&mut line, "\n");
    let text = string_of(line.as_slice());
    assert(text@ == entropy_line(bytes@));
    let ghost args = enc_bytes(encode_utf8(entropy_line(bytes@)));
    proof {
        assert(h1.skip(n) =~= seq![h1.last()]);
        assert(next_call(Demo::Entropy, h1.skip(n)) == Some((demo_site(56, 17), EffectKind::IoWrite, args)));
    }
    let res = rt.io_write(demo_site_id(56, 17), text.as_str().as_bytes());
    proof {
        lemma_stay(h1, rt.history());
        crate::lang::semantics::lemma_extends_trans(h0, h1, rt.history());
    }
    match res {
        Ok(_) => {
            proof {
                lemma_grow(h1, rt.history());
                assert(rt.history()[h0.len() as int] == h1.last());
                lemma_call_made(Demo::Entropy, h0, h1, rt.history(), demo_site(56, 17), EffectKind::IoWrite, args);
                lemma_run_done(Demo::Entropy, before, *rt);
            }
            Ok(0)
        },
        Err(e) => {
            proof {
                lemma_call_failed(Demo::Entropy, before, h1, *rt, Err(e), demo_site(56, 17),
                    EffectKind::IoWrite, args);
            }
            Err(e)
        },
    }
}

/// Replaying a whole recorded run of a program reproduces it: started at
/// the beginning of a trace whose calls are a complete run of `d`, a
/// replayer answers every call `d` makes; `d` exits with 0 having made
/// exactly the recorded calls, and the whole trace is consumed.
pub proof fn law_replay_of_complete_run(
    d: Demo,
    before: Replaying,
    after: Replaying,
    r: Result<i32, ReplayErr>,
)
    requires
        before.pos() == 0,
        after.pos() <= after.trace().events@.len(),
        complete_run(d, calls_of(before.trace().events@)),
        demo_ran(d, before, after, r),
    ensures
        r == Ok::<i32, ReplayErr>(0),
        after.history() == calls_of(before.trace().events@),
        after.pos() == before.trace().events@.len(),
{
    let rec = calls_of(before.trace().events@);
    let evs = after.trace().events@;
    let p = after.pos() as int;
    Replaying::lemma_history(before);
    Replaying::lemma_history(after);
    assert(before.history() =~= Seq::<EffectCall>::empty());
    let made = after.history().skip(0);
    assert(made =~= after.history());
    assert(calls_of(evs) == rec);
    assert(made =~= rec.take(p));
    if p < rec.len() {
        assert(next_call(d, rec.take(p)) == Some((rec[p].site, rec[p].kind, rec[p].args)));
        assert(replay_step(evs, p, rec[p].site, rec[p].kind, rec[p].args) is Ok);
        assert(after.accepts(rec[p].site, rec[p].kind, rec[p].args));
    } else {
        assert(made =~= rec);
    }
    if made.len() > 0 {
        assert(made.last() == rec[p - 1]);
        assert(usable(rec[p - 1]));
    }
}

/// A run of `d` against a runtime that, as the run left it, takes every
/// call and has given only usable answers, completes: `d` exits with 0, and
/// its calls are a complete run of `d`.
pub proof fn law_demo_completes<R: Runtime>(d: Demo, before: R, after: R, r: Result<i32, ReplayErr>)
    requires
        forall|site: u32, kind: EffectKind, args: Seq<u8>| after.accepts(site, kind, args),
        forall|i: int|
            before.history().len() <= i < after.history().len() ==> usable(#[trigger] after.history()[i]),
        demo_ran(d, before, after, r),
    ensures
        r == Ok::<i32, ReplayErr>(0),
        complete_run(d, after.history().skip(before.history().len() as int)),
{
    let h0 = before.history();
    let h1 = after.history();
    let made = h1.skip(h0.len() as int);
    if made.len() > 0 {
        assert(made.last() == h1[h1.len() - 1]);
        assert(usable(h1[h1.len() - 1]));
    }
    if next_call(d, made) is Some {
        let c = next_call(d, made)->Some_0;
        assert(after.accepts(c.0, c.1, c.2));
    }
}

/// A recording never stops a program: run against a recording, `d` exits
/// with 0, and the calls it recorded are a complete run of `d`.
pub proof fn law_recording_completes<H: Host>(
    d: Demo,
    before: Recording<H>,
    after: Recording<H>,
    r: Result<i32, ReplayErr>,
)
    requires
        after.answers_usable(),
        demo_ran(d, before, after, r),
    ensures
        r == Ok::<i32, ReplayErr>(0),
        complete_run(d, after.history().skip(before.history().len() as int)),
{
    let h0 = before.history();
    let h1 = after.history();
    let made = h1.skip(h0.len() as int);
    if made.len() > 0 {
        assert(made.last() == h1[h1.len() - 1]);
        assert(usable(h1[h1.len() - 1]));
    }
}

/// Record a program, then replay the recording: the recording lets the
/// program finish, and the replay answers every call, exits as the
/// recorded run did, makes the same calls with the same answers, and
/// consumes the whole trace. Record once, replay the same run every time.
pub proof fn law_record_then_replay<H: Host>(
    d: Demo,
    rec0: Recording<H>,
    rec1: Recording<H>,
    r1: Result<i32, ReplayErr>,
    trace: Trace,
    rep0: Replaying,
    rep1: Replaying,
    r2: Result<i32, ReplayErr>,
)
    requires
        rec0.events().len() == 0,
        rec1.answers_usable(),
        demo_ran(d, rec0, rec1, r1),
        trace.events@ == rec1.events(),
        rep0.trace() == trace,
        rep0.pos() == 0,
        rep1.pos() <= rep1.trace().events@.len(),
        demo_ran(d, rep0, rep1, r2),
    ensures
        r1 == Ok::<i32, ReplayErr>(0),
        r2 == r1,
        rep1.history() == rec1.history(),
        rep1.pos() == trace.events@.len(),
{
    law_recording_completes(d, rec0, rec1, r1);
    assert(rec0.history() =~= Seq::<EffectCall>::empty());
    assert(rec1.history().skip(0) =~= rec1.history());
    law_replay_of_complete_run(d, rep0, rep1, r2);
}

impl Demo {
    /// The name `lookup` knows the program by.
    pub fn name(&self) -> (s: &'static str)
        ensures
            s@ == demo_name(*self),
    {
        match self {
            Demo::Dice => "dice",
            Demo::Counter => "counter",
            Demo::Entropy => "entropy",
        }
    }

    /// Run the program against `rt`: its exit code, or the replay error
    /// that stopped it.
    pub fn run<R: Runtime>(&self, rt: &mut R) -> (r: Result<i32, ReplayErr>)
        ensures
            extends(old(rt).history(), final(rt).history()),
            demo_ran(*self, *old(rt), *final(rt), r),
            r is Ok ==> r == Ok::<i32, ReplayErr>(0) && match self {
                Demo::Dice => dice_made(old(rt).history(), final(rt).history()),
                Demo::Counter => counter_made(old(rt).history(), final(rt).history()),
                Demo::Entropy => entropy_made(old(rt).history(), final(rt).history()),
            },
    {
        match self {
            Demo::Dice => dice(rt),
            Demo::Counter => counter(rt),
            Demo::Entropy => entropy(rt),
        }
    }
}

} // verus!
