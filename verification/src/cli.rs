//! The decisions of the `tape` command line that do not touch the outside
//! world: reading named arguments and numbers, building an inspect filter,
//! telling two traces apart, and the synthetic load `tape bench` puts on a
//! runtime.
use crate::codec::{enc_bytes, enc_u64, lemma_u64_roundtrip, take_u64, value_of};
use crate::diff::same_event;
use crate::error::ReplayErr;
use crate::event::{EffectCall, EffectKind, Trace};
use crate::inspect::{chars_eq, kind_named, parse_kind, str_eq, Filter};
use crate::lang::semantics::extends;
use crate::runtime::{usable, Runtime};
use crate::text::{push_chars, push_str, str_chars, string_of};
use vstd::prelude::*;

verus! {

// ---------------------------------------------------------------------------
// named arguments

/// `--name VALUE` or `--name=VALUE`, the first one from position `i` on.
pub open spec fn named_from(args: Seq<Seq<char>>, name: Seq<char>, i: int) -> Option<Seq<char>>
    decreases args.len() - i,
{
    if i < 0 || i >= args.len() {
        None
    } else if args[i] == name {
        if i + 1 < args.len() {
            Some(args[i + 1])
        } else {
            None
        }
    } else if args[i].len() > name.len() && args[i].take(name.len() as int + 1) == name.push('=') {
        Some(args[i].skip(name.len() as int + 1))
    } else {
        named_from(args, name, i + 1)
    }
}

pub open spec fn strings(v: Seq<String>) -> Seq<Seq<char>> {
    v.map_values(|s: String| s@)
}

/// Pull `--name VALUE` (or `--name=VALUE`) out of the arguments, ignoring
/// everything else.
pub fn parse_named_arg(args: &Vec<String>, name: &str) -> (r: Option<String>)
    ensures
        match named_from(strings(args@), name@, 0) {
            Some(v) => r matches Some(x) && x@ == v,
            None => r is None,
        },
{
    let ghost sv = strings(args@);
    let nm = str_chars(name);
    let mut prefix = str_chars(name);
    prefix.push('=');
    let mut i: usize = 0;
    while i < args.len()
        invariant
            i <= args@.len(),
            sv == strings(args@),
            nm@ == name@,
            prefix@ == name@.push('='),
            named_from(sv, name@, 0) == named_from(sv, name@, i as int),
        decreases args@.len() - i,
    {
        let a = str_chars(args[i].as_str());
        if chars_eq(a.as_slice(), nm.as_slice()) {
            if i + 1 < args.len() {
                return Some(string_of(str_chars(args[i + 1].as_str()).as_slice()));
            } else {
                return None;
            }
        }
        if a.len() > nm.len() && chars_eq(&a.as_slice()[0..prefix.len()], prefix.as_slice()) {
            assert(a@.subrange(0, prefix@.len() as int) =~= a@.take(name@.len() as int + 1));
            let rest = string_of(&a.as_slice()[prefix.len()..a.len()]);
            assert(a@.subrange(prefix@.len() as int, a@.len() as int) =~= a@.skip(name@.len() as int + 1));
            return Some(rest);
        }
        proof {
            if a@.len() > nm@.len() {
                assert(a@.subrange(0, prefix@.len() as int) =~= a@.take(name@.len() as int + 1));
            }
        }
        i += 1;
    }
    None
}

/// Is `name` one of the arguments?
pub fn has_flag(args: &Vec<String>, name: &str) -> (b: bool)
    ensures
        b == strings(args@).contains(name@),
{
    let ghost sv = strings(args@);
    let mut i: usize = 0;
    while i < args.len()
        invariant
            i <= args@.len(),
            sv == strings(args@),
            forall|j: int| 0 <= j < i ==> sv[j] != name@,
        decreases args@.len() - i,
    {
        if str_eq(args[i].as_str(), name) {
            assert(sv[i as int] == name@);
            return true;
        }
        i += 1;
    }
    false
}

// ---------------------------------------------------------------------------
// numbers

/// The value of one digit in base 10 or 16 (either case).
pub open spec fn digit_val(c: char, radix: nat) -> Option<nat> {
    let u = c as u32;
    if 48 <= u <= 57 && ((u - 48) as nat) < radix {
        Some((u - 48) as nat)
    } else if radix == 16 && 97 <= u <= 102 {
        Some((u - 87) as nat)
    } else if radix == 16 && 65 <= u <= 70 {
        Some((u - 55) as nat)
    } else {
        None
    }
}

pub open spec fn radix_value(d: Seq<char>, radix: nat) -> Option<nat>
    decreases d.len(),
{
    if d.len() == 0 {
        Some(0)
    } else {
        match (radix_value(d.drop_last(), radix), digit_val(d.last(), radix)) {
            (Some(v), Some(x)) => Some(v * radix + x),
            _ => None,
        }
    }
}

/// `from_str_radix` for an unsigned type whose largest value is `max`: an
/// optional `+`, then one or more digits, the value at most `max`.
/// The characters after a leading `+`.
pub open spec fn plus_free(s: Seq<char>) -> Seq<char> {
    if s.len() > 0 && s[0] == '+' {
        s.drop_first()
    } else {
        s
    }
}

pub open spec fn parse_unsigned(s: Seq<char>, radix: nat, max: nat) -> Option<nat> {
    let d = plus_free(s);
    if d.len() == 0 {
        None
    } else {
        match radix_value(d, radix) {
            Some(v) => if v <= max {
                Some(v)
            } else {
                None
            },
            None => None,
        }
    }
}

fn digit_of(c: char, radix: u32) -> (r: Option<u32>)
    requires
        radix == 10 || radix == 16,
    ensures
        match digit_val(c, radix as nat) {
            Some(v) => r == Some(v as u32),
            None => r is None,
        },
{
    let u = c as u32;
    if 48 <= u && u <= 57 && u - 48 < radix {
        Some(u - 48)
    } else if radix == 16 && 97 <= u && u <= 102 {
        Some(u - 87)
    } else if radix == 16 && 65 <= u && u <= 70 {
        Some(u - 55)
    } else {
        None
    }
}

proof fn lemma_radix_grow(d: Seq<char>, radix: nat, k: int)
    requires
        0 <= k <= d.len(),
        radix >= 1,
        radix_value(d, radix) is Some,
    ensures
        radix_value(d.take(k), radix) is Some,
        radix_value(d.take(k), radix)->Some_0 <= radix_value(d, radix)->Some_0,
    decreases d.len() - k,
{
    if k < d.len() {
        lemma_radix_grow(d, radix, k + 1);
        assert(d.take(k + 1).drop_last() =~= d.take(k));
        let v = radix_value(d.take(k), radix)->Some_0;
        let w = radix_value(d.take(k + 1), radix)->Some_0;
        assert(v <= v * radix) by (nonlinear_arith)
            requires
                radix >= 1,
        ;
        assert(w >= v * radix);
    } else {
        assert(d.take(k) =~= d);
    }
}

/// Parse an unsigned number in base 10 or 16, at most `max`.
pub fn parse_radix(s: &[char], radix: u32, max: u64) -> (r: Option<u64>)
    requires
        radix == 10 || radix == 16,
    ensures
        match parse_unsigned(s@, radix as nat, max as nat) {
            Some(v) => r == Some(v as u64),
            None => r is None,
        },
{
    let n = s.len();
    let start: usize = if n > 0 && s[0] == '+' {
        1
    } else {
        0
    };
    let ghost d = plus_free(s@);
    assert(d =~= s@.skip(start as int));
    if start >= n {
        return None;
    }
    let mut acc: u128 = 0;
    let mut i = start;
    assert(d.take(0) =~= Seq::<char>::empty());
    while i < n
        invariant
            start <= i <= n,
            n == s@.len(),
            radix == 10 || radix == 16,
            d == s@.skip(start as int),
            d == plus_free(s@),
            radix_value(d.take(i - start), radix as nat) == Some(acc as nat),
            acc <= max,
        decreases n - i,
    {
        assert(d[i - start] == s@[i as int]);
        assert(d.take(i - start + 1).drop_last() =~= d.take(i - start));
        let x = match digit_of(s[i], radix) {
            Some(x) => x,
            None => {
                proof {
                    if radix_value(d, radix as nat) is Some {
                        lemma_radix_grow(d, radix as nat, i - start + 1);
                    }
                }
                return None;
            },
        };
        acc = acc * (radix as u128) + (x as u128);
        if acc > max as u128 {
            proof {
                if radix_value(d, radix as nat) is Some {
                    lemma_radix_grow(d, radix as nat, i - start + 1);
                }
            }
            return None;
        }
        i += 1;
    }
    assert(d.take(n - start) =~= d);
    Some(acc as u64)
}

/// A `u32` written in decimal, or in hex after `0x` / `0X`.
pub open spec fn site_arg(s: Seq<char>) -> Option<nat> {
    if s.len() >= 2 && s[0] == '0' && (s[1] == 'x' || s[1] == 'X') {
        parse_unsigned(s.skip(2), 16, u32::MAX as nat)
    } else {
        parse_unsigned(s, 10, u32::MAX as nat)
    }
}

/// A site given on the command line: decimal, or hex after `0x` / `0X`.
pub fn parse_u32_flexible(s: &str) -> (r: Option<u32>)
    ensures
        match site_arg(s@) {
            Some(v) => r == Some(v as u32),
            None => r is None,
        },
{
    let cs = str_chars(s);
    if cs.len() >= 2 && cs[0] == '0' && (cs[1] == 'x' || cs[1] == 'X') {
        let rest = &cs.as_slice()[2..cs.len()];
        assert(rest@ =~= s@.skip(2));
        match parse_radix(rest, 16, 0xFFFF_FFFF) {
            Some(v) => Some(v as u32),
            None => None,
        }
    } else {
        match parse_radix(cs.as_slice(), 10, 0xFFFF_FFFF) {
            Some(v) => Some(v as u32),
            None => None,
        }
    }
}

/// `str::parse::<u64>`.
pub fn parse_u64(s: &str) -> (r: Option<u64>)
    ensures
        match parse_unsigned(s@, 10, u64::MAX as nat) {
            Some(v) => r == Some(v as u64),
            None => r is None,
        },
{
    let cs = str_chars(s);
    parse_radix(cs.as_slice(), 10, u64::MAX)
}

// ---------------------------------------------------------------------------
// inspect filters

/// Why `tape inspect` refuses its arguments, if it does: the first option
/// whose value it cannot read.
pub open spec fn filter_error(args: Seq<Seq<char>>) -> Option<Seq<char>> {
    let pre = "tape inspect: "@;
    let k = named_from(args, "--filter"@, 0);
    let si = named_from(args, "--site"@, 0);
    let sn = named_from(args, "--since"@, 0);
    let li = named_from(args, "--limit"@, 0);
    if k is Some && kind_named(k->Some_0) is None {
        Some(pre + "unknown --filter kind: "@ + k->Some_0)
    } else if si is Some && site_arg(si->Some_0) is None {
        Some(pre + "bad --site value: "@ + si->Some_0 + " (try 0xA0000001 or 2684354561)"@)
    } else if sn is Some && parse_unsigned(sn->Some_0, 10, u64::MAX as nat) is None {
        Some(pre + "bad --since value: "@ + sn->Some_0)
    } else if li is Some && !(parse_unsigned(li->Some_0, 10, u64::MAX as nat) matches Some(n) && n
        <= usize::MAX) {
        Some(pre + "bad --limit value: "@ + li->Some_0)
    } else {
        None
    }
}

/// The filter `tape inspect` builds from `--filter KIND`, `--site N`,
/// `--since N` and `--limit N`, or the message of the first option it
/// cannot read.
pub fn filter_from_args(args: &Vec<String>) -> (r: Result<Filter, String>)
    ensures
        match filter_error(strings(args@)) {
            Some(m) => r matches Err(x) && x@ == m,
            None => r matches Ok(f) && {
                &&& (match named_from(strings(args@), "--filter"@, 0) {
                    Some(k) => kind_named(k) matches Some(x) && f.kind == Some(x),
                    None => f.kind is None,
                })
                &&& (match named_from(strings(args@), "--site"@, 0) {
                    Some(v) => site_arg(v) matches Some(n) && f.site == Some(n as u32),
                    None => f.site is None,
                })
                &&& (match named_from(strings(args@), "--since"@, 0) {
                    Some(v) => parse_unsigned(v, 10, u64::MAX as nat) matches Some(n) && f.since
                        == Some(n as u64),
                    None => f.since is None,
                })
                &&& (match named_from(strings(args@), "--limit"@, 0) {
                    Some(v) => parse_unsigned(v, 10, u64::MAX as nat) matches Some(n) && f.limit
                        == Some(n as usize),
                    None => f.limit is None,
                })
            },
        },
{
    let mut kind: Option<EffectKind> = None;
    let mut site: Option<u32> = None;
    let mut since: Option<u64> = None;
    let mut limit: Option<usize> = None;
    if let Some(k) = parse_named_arg(args, "--filter") {
        match parse_kind(k.as_str()) {
            Some(x) => kind = Some(x),
            None => return Err(arg_msg("unknown --filter kind: ", k.as_str(), "")),
        }
    }
    if let Some(s) = parse_named_arg(args, "--site") {
        match parse_u32_flexible(s.as_str()) {
            Some(v) => site = Some(v),
            None => return Err(arg_msg("bad --site value: ", s.as_str(), " (try 0xA0000001 or 2684354561)")),
        }
    }
    if let Some(s) = parse_named_arg(args, "--since") {
        match parse_u64(s.as_str()) {
            Some(v) => since = Some(v),
            None => return Err(arg_msg("bad --since value: ", s.as_str(), "")),
        }
    }
    if let Some(s) = parse_named_arg(args, "--limit") {
        match parse_u64(s.as_str()) {
            Some(v) => {
                if v as u128 > usize::MAX as u128 {
                    return Err(arg_msg("bad --limit value: ", s.as_str(), ""));
                }
                limit = Some(v as usize);
            },
            None => return Err(arg_msg("bad --limit value: ", s.as_str(), "")),
        }
    }
    Ok(Filter { kind, site, since, limit })
}

fn arg_msg(head: &str, value: &str, tail: &str) -> (m: String)
    ensures
        m@ == "tape inspect: "@ + head@ + value@ + tail@,
        tail@ == ""@ ==> m@ == "tape inspect: "@ + head@ + value@,
{
    let mut v = str_chars("tape inspect: ");
    push_str(&mut v, head);
    push_str(&mut v, value);
    push_str(&mut v, tail);
    proof {
        reveal_strlit("");
    }
    assert(tail@ == ""@ ==> v@ =~= "tape inspect: "@ + head@ + value@);
    string_of(v.as_slice())
}

// ---------------------------------------------------------------------------
// comparing traces

/// The two traces hold the same events, byte for byte.
pub open spec fn same_events(a: Trace, b: Trace) -> bool {
    a.events@.len() == b.events@.len() && forall|i: int|
        0 <= i < a.events@.len() ==> same_event(#[trigger] a.events@[i], b.events@[i])
}

/// Do the traces hold the same events? (`tape diff` exits 0 exactly then.)
pub fn traces_identical(a: &Trace, b: &Trace) -> (r: bool)
    ensures
        r == same_events(*a, *b),
{
    if a.events.len() != b.events.len() {
        return false;
    }
    let mut i: usize = 0;
    while i < a.events.len()
        invariant
            i <= a.events@.len(),
            a.events@.len() == b.events@.len(),
            forall|j: int| 0 <= j < i ==> same_event(#[trigger] a.events@[j], b.events@[j]),
        decreases a.events@.len() - i,
    {
        let x = &a.events[i];
        let y = &b.events[i];
        if !(x.kind == y.kind && x.site == y.site && crate::replaying::same_slice(x.args.as_slice(), y.args.as_slice())
            && crate::replaying::same_slice(x.result.as_slice(), y.result.as_slice())) {
            return false;
        }
        i += 1;
    }
    true
}

// ---------------------------------------------------------------------------
// the synthetic load of `tape bench`

/// The effect `tape bench` repeats.
#[derive(Debug, Clone, Copy, PartialEq, Eq, Structural)]
pub enum BenchEffect {
    Clock,
    Random,
    Write,
}

/// The effect named on the command line: "clock", "random" or "write".
pub open spec fn bench_named(s: Seq<char>) -> Option<BenchEffect> {
    if s == "clock"@ {
        Some(BenchEffect::Clock)
    } else if s == "random"@ {
        Some(BenchEffect::Random)
    } else if s == "write"@ {
        Some(BenchEffect::Write)
    } else {
        None
    }
}

pub fn parse_bench_effect(s: &str) -> (r: Option<BenchEffect>)
    ensures
        r == bench_named(s@),
{
    if str_eq(s, "clock") {
        Some(BenchEffect::Clock)
    } else if str_eq(s, "random") {
        Some(BenchEffect::Random)
    } else if str_eq(s, "write") {
        Some(BenchEffect::Write)
    } else {
        None
    }
}

/// The site and the call of one step of the load.
pub open spec fn bench_call(e: BenchEffect) -> (u32, EffectKind, Seq<u8>) {
    match e {
        BenchEffect::Clock => (0xBEEF_0001, EffectKind::ClockNow, Seq::empty()),
        BenchEffect::Random => (0xBEEF_0002, EffectKind::RandomBits, enc_u64(8)),
        BenchEffect::Write => (0xBEEF_0003, EffectKind::IoWrite, enc_bytes(seq![46u8])),
    }
}

/// Every call in `made` is the load's call, and every answer but perhaps
/// the last is usable.
pub open spec fn bench_made(effect: BenchEffect, made: Seq<EffectCall>) -> bool {
    let (site, kind, args) = bench_call(effect);
    &&& forall|i: int|
        0 <= i < made.len() ==> (#[trigger] made[i]).site == site && made[i].kind == kind
            && made[i].args == args
    &&& forall|i: int| 0 <= i < made.len() - 1 ==> usable(#[trigger] made[i])
}

/// Make `n` calls of the effect against `rt`, each at the effect's fixed
/// site: the clock, 8 random bytes, or a one-byte write of ".". The load
/// stops at the first call that fails: one the runtime does not take, or
/// one whose answer cannot be used.
pub fn bench_load<R: Runtime>(rt: &mut R, effect: BenchEffect, n: usize) -> (r: Result<(), ReplayErr>)
    ensures
        extends(old(rt).history(), final(rt).history()),
        final(rt).recorded() == old(rt).recorded(),
        bench_made(effect, final(rt).history().skip(old(rt).history().len() as int)),
        n == 0 ==> r is Ok,
        r is Ok ==> final(rt).history().len() == old(rt).history().len() + n && forall|i: int|
            old(rt).history().len() <= i < final(rt).history().len() ==> usable(
                #[trigger] final(rt).history()[i],
            ),
        r is Err ==> {
            let made = final(rt).history().skip(old(rt).history().len() as int);
            let (site, kind, args) = bench_call(effect);
            ||| made.len() > 0 && !usable(made.last())
            ||| !final(rt).accepts(site, kind, args)
        },
{
    let ghost h0 = rt.history();
    let ghost n0 = h0.len() as int;
    proof {
        assert(h0.take(h0.len() as int) =~= h0);
        assert(h0.skip(n0) =~= Seq::<EffectCall>::empty());
        lemma_u64_roundtrip(8, Seq::empty());
        assert(enc_u64(8) + Seq::<u8>::empty() =~= enc_u64(8));
    }
    let dot: [u8; 1] = [46u8];
    assert(dot@ =~= seq![46u8]);
    let mut k: usize = 0;
    while k < n
        invariant
            k <= n,
            h0 == old(rt).history(),
            n0 == h0.len(),
            dot@ == seq![46u8],
            value_of(take_u64(enc_u64(8))) == Some(8u64),
            extends(h0, rt.history()),
            rt.recorded() == old(rt).recorded(),
            rt.history().len() == h0.len() + k,
            bench_made(effect, rt.history().skip(n0)),
            forall|i: int| n0 <= i < rt.history().len() ==> usable(#[trigger] rt.history()[i]),
        decreases n - k,
    {
        let ghost hc = rt.history();
        let res: Result<(), ReplayErr> = match effect {
            BenchEffect::Clock => match rt.now(0xBEEF_0001) {
                Ok(_) => Ok(()),
                Err(e) => Err(e),
            },
            BenchEffect::Random => match rt.random_bits(0xBEEF_0002, 8) {
                Ok(_) => Ok(()),
                Err(e) => Err(e),
            },
            BenchEffect::Write => match rt.io_write(0xBEEF_0003, dot.as_slice()) {
                Ok(_) => Ok(()),
                Err(e) => Err(e),
            },
        };
        proof {
            let h1 = rt.history();
            let m0 = hc.skip(n0);
            let m1 = h1.skip(n0);
            if h1 != hc {
                assert(h1.take(hc.len() as int) =~= h1.drop_last());
                assert(h1.take(n0) =~= hc.take(n0));
                assert(m1 =~= m0.push(h1.last()));
                assert forall|i: int| 0 <= i < m1.len() implies ((#[trigger] m1[i]).site == bench_call(effect).0
                    && m1[i].kind == bench_call(effect).1 && m1[i].args == bench_call(effect).2) by {
                    if i < m0.len() {
                        assert(m1[i] == m0[i]);
                    }
                }
                assert forall|i: int| 0 <= i < m1.len() - 1 implies usable(#[trigger] m1[i]) by {
                    assert(m1[i] == hc[n0 + i]);
                }
                if res is Ok {
                    assert forall|i: int| n0 <= i < h1.len() implies usable(#[trigger] h1[i]) by {
                        if i < hc.len() {
                            assert(h1[i] == hc[i]);
                        }
                    }
                }
            }
        }
        if let Err(e) = res {
            return Err(e);
        }
        k += 1;
    }
    Ok(())
}

} // verus!
