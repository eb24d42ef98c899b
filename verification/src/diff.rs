//! Diff two traces. The use case: a CI run records a failing test, you pull
//! the trace, replay it locally, and also record a fresh local run of the
//! same code. The two traces should be identical; when they are not,
//! `tape diff ci.tape local.tape` shows exactly where the divergence starts.
//!
//! This is also how to answer "did anything change between two versions of
//! my program?": record on each, diff.
use crate::event::{kind_name, Event, Trace};
use crate::inspect::{short_hex, short_hex_chars};
use crate::replaying::same_slice;
use crate::text::{
    dec_nat, hex_site, pad_left, push_chars, push_dec, push_pad_left, push_site, push_str,
    str_chars, string_of,
};
use crate::codec::utf8_len;
use vstd::prelude::*;
use vstd::utf8::*;

verus! {

/// How many differing events are shown before the rest are suppressed.
pub const MAX_SHOWN: usize = 5;

/// Two events record the same call with the same answer.
pub open spec fn same_event(x: Event, y: Event) -> bool {
    x.kind == y.kind && x.site == y.site && x.args@ == y.args@ && x.result@ == y.result@
}

/// Why two events differ, judged in order: kind, site, args, result.
pub open spec fn explain(x: Event, y: Event) -> Seq<char> {
    if x.kind != y.kind {
        "(different effect kinds — programs took different control-flow branches)"@
    } else if x.site != y.site {
        "(same kind, different sites — code edited between recordings)"@
    } else if x.args@ != y.args@ {
        "(same site, different args — programs computed different arguments)"@
    } else {
        "(same kind/site/args, different result — outside world answered differently)"@
    }
}

/// One side of a divergence: label, kind, site and the sizes of args and result.
pub open spec fn event_line(label: Seq<char>, pad: nat, x: Event) -> Seq<char> {
    "  "@ + pad_left(label, pad) + "  "@ + kind_name(x.kind) + " site="@ + hex_site(x.site)
        + " args="@ + dec_nat(x.args@.len()) + "b result="@ + dec_nat(x.result@.len()) + "b\n"@
}

/// An event only one side has.
pub open spec fn extra_line(label: Seq<char>, pad: nat, i: nat, x: Event) -> Seq<char> {
    "  "@ + pad_left(label, pad) + " has extra event at seq "@ + dec_nat(i) + ": "@ + kind_name(
        x.kind,
    ) + " site="@ + hex_site(x.site) + "\n"@
}

/// The report on a differing pair at `i`.
pub open spec fn divergence(
    la: Seq<char>,
    lb: Seq<char>,
    pad: nat,
    i: nat,
    first: bool,
    x: Event,
    y: Event,
) -> Seq<char> {
    (if first {
        "first divergence at seq "@ + dec_nat(i) + ":\n"@
    } else {
        Seq::empty()
    }) + event_line(la, pad, x) + event_line(lb, pad, y) + "  "@ + explain(x, y) + "\n"@
}

/// The report on the events from `i` on, given whether a divergence was
/// already seen and how many were shown; and whether one has been seen by
/// the end.
pub open spec fn diff_from(
    ea: Seq<Event>,
    eb: Seq<Event>,
    la: Seq<char>,
    lb: Seq<char>,
    pad: nat,
    i: nat,
    diverged: bool,
    shown: nat,
) -> (Seq<char>, bool)
    decreases ea.len() + eb.len() - 2 * i,
{
    if i < ea.len() && i < eb.len() {
        let x = ea[i as int];
        let y = eb[i as int];
        if same_event(x, y) {
            diff_from(ea, eb, la, lb, pad, i + 1, diverged, shown)
        } else {
            let rows = divergence(la, lb, pad, i, !diverged, x, y);
            if shown + 1 >= MAX_SHOWN {
                (
                    rows + "(suppressing further differences after "@ + dec_nat(shown + 1)
                        + " shown)\n"@,
                    true,
                )
            } else {
                let (rest, d) = diff_from(ea, eb, la, lb, pad, i + 1, true, shown + 1);
                (rows + rest, d)
            }
        }
    } else if i < ea.len() {
        (extra_line(la, pad, i, ea[i as int]), diverged)
    } else if i < eb.len() {
        (extra_line(lb, pad, i, eb[i as int]), diverged)
    } else {
        (Seq::empty(), diverged)
    }
}

/// The warning shown when the traces come from different builds.
pub open spec fn hash_warning(a: Trace, b: Trace, la: Seq<char>, lb: Seq<char>) -> Seq<char> {
    if a.header.code_hash@ != b.header.code_hash@ {
        "⚠ code_hash differs — these traces were recorded against different builds.\n"@ + "  "@
            + la + ": "@ + short_hex(a.header.code_hash@) + "\n  "@ + lb + ": "@ + short_hex(
            b.header.code_hash@,
        ) + "\n\n"@
    } else {
        Seq::empty()
    }
}

/// Labels are right-aligned to the longer one's length in bytes.
pub open spec fn label_pad(la: Seq<char>, lb: Seq<char>) -> nat {
    let x = encode_utf8(la).len();
    let y = encode_utf8(lb).len();
    if x >= y {
        x
    } else {
        y
    }
}

/// The whole report.
pub open spec fn diff_report(a: Trace, b: Trace, la: Seq<char>, lb: Seq<char>) -> Seq<char> {
    let (rows, diverged) = diff_from(a.events@, b.events@, la, lb, label_pad(la, lb), 0, false, 0);
    hash_warning(a, b, la, lb) + rows + if !diverged && a.events@.len() == b.events@.len() {
        "no divergence. "@ + dec_nat(a.events@.len()) + " events match byte-for-byte.\n"@
    } else {
        Seq::empty()
    }
}

fn same_event_exec(x: &Event, y: &Event) -> (r: bool)
    ensures
        r == same_event(*x, *y),
{
    x.kind == y.kind && x.site == y.site && same_slice(x.args.as_slice(), y.args.as_slice())
        && same_slice(x.result.as_slice(), y.result.as_slice())
}

fn explain_divergence(x: &Event, y: &Event) -> (s: &'static str)
    ensures
        s@ == explain(*x, *y),
{
    if x.kind != y.kind {
        "(different effect kinds — programs took different control-flow branches)"
    } else if x.site != y.site {
        "(same kind, different sites — code edited between recordings)"
    } else if !same_slice(x.args.as_slice(), y.args.as_slice()) {
        "(same site, different args — programs computed different arguments)"
    } else {
        "(same kind/site/args, different result — outside world answered differently)"
    }
}

fn push_event_line(out: &mut Vec<char>, label: &[char], pad: usize, x: &Event)
    ensures
        final(out)@ == old(out)@ + event_line(label@, pad as nat, *x),
{
    push_str(out, "  ");
    push_pad_left(out, label, pad);
    push_str(out, "  ");
    push_str(out, x.kind.name());
    push_str(out, " site=");
    push_site(out, x.site);
    push_str(out, " args=");
    push_dec(out, x.args.len() as u64);
    push_str(out, "b result=");
    push_dec(out, x.result.len() as u64);
    push_str(out, "b\n");
    assert(final(out)@ =~= old(out)@ + event_line(label@, pad as nat, *x));
}

fn push_extra_line(out: &mut Vec<char>, label: &[char], pad: usize, i: usize, x: &Event)
    ensures
        final(out)@ == old(out)@ + extra_line(label@, pad as nat, i as nat, *x),
{
    push_str(out, "  ");
    push_pad_left(out, label, pad);
    push_str(out, " has extra event at seq ");
    push_dec(out, i as u64);
    push_str(out, ": ");
    push_str(out, x.kind.name());
    push_str(out, " site=");
    push_site(out, x.site);
    push_str(out, "\n");
    assert(final(out)@ =~= old(out)@ + extra_line(label@, pad as nat, i as nat, *x));
}

fn push_hash_warning(out: &mut Vec<char>, a: &Trace, b: &Trace, la: &[char], lb: &[char])
    ensures
        final(out)@ == old(out)@ + hash_warning(*a, *b, la@, lb@),
{
    if !same_slice(a.header.code_hash.as_slice(), b.header.code_hash.as_slice()) {
        push_str(out, "⚠ code_hash differs — these traces were recorded against different builds.\n");
        push_str(out, "  ");
        push_chars(out, la);
        push_str(out, ": ");
        let ha = short_hex_chars(a.header.code_hash.as_slice());
        push_chars(out, ha.as_slice());
        push_str(out, "\n  ");
        push_chars(out, lb);
        push_str(out, ": ");
        let hb = short_hex_chars(b.header.code_hash.as_slice());
        push_chars(out, hb.as_slice());
        push_str(out, "\n\n");
    }
    assert(final(out)@ =~= old(out)@ + hash_warning(*a, *b, la@, lb@));
}

fn push_divergence(
    out: &mut Vec<char>,
    la: &[char],
    lb: &[char],
    pad: usize,
    i: usize,
    first: bool,
    x: &Event,
    y: &Event,
)
    ensures
        final(out)@ == old(out)@ + divergence(la@, lb@, pad as nat, i as nat, first, *x, *y),
{
    if first {
        push_str(out, "first divergence at seq ");
        push_dec(out, i as u64);
        push_str(out, ":\n");
    }
    push_event_line(out, la, pad, x);
    push_event_line(out, lb, pad, y);
    push_str(out, "  ");
    push_str(out, explain_divergence(x, y));
    push_str(out, "\n");
    assert(final(out)@ =~= old(out)@ + divergence(la@, lb@, pad as nat, i as nat, first, *x, *y));
}

fn push_suppressed(out: &mut Vec<char>, shown: usize)
    ensures
        final(out)@ == old(out)@ + "(suppressing further differences after "@ + dec_nat(shown as nat)
            + " shown)\n"@,
{
    push_str(out, "(suppressing further differences after ");
    push_dec(out, shown as u64);
    push_str(out, " shown)\n");
}

/// Render where two traces first differ, labelling their sides `label_a`
/// and `label_b`: up to five differing events, each explained, or the
/// first event only one side has, or "no divergence".
#[verifier::rlimit(80)]
#[verifier::spinoff_prover]
pub fn render(a: &Trace, b: &Trace, label_a: &str, label_b: &str) -> (s: String)
    ensures
        s@ == diff_report(*a, *b, label_a@, label_b@),
{
    let la = str_chars(label_a);
    let lb = str_chars(label_b);
    let mut out: Vec<char> = Vec::new();
    push_hash_warning(&mut out, a, b, la.as_slice(), lb.as_slice());
    let ghost head = out@;
    let xa = utf8_len(label_a);
    let xb = utf8_len(label_b);
    let pad = if xa >= xb {
        xa
    } else {
        xb
    };
    let ghost ea = a.events@;
    let ghost eb = b.events@;
    let ghost total = diff_from(ea, eb, la@, lb@, pad as nat, 0, false, 0);
    let na = a.events.len();
    let nb = b.events.len();
    let mut diverged = false;
    let mut shown: usize = 0;
    let mut i: usize = 0;
    loop
        invariant_except_break
            la@ == label_a@,
            lb@ == label_b@,
            ea == a.events@,
            eb == b.events@,
            na == ea.len(),
            nb == eb.len(),
            pad as nat == label_pad(la@, lb@),
            total == diff_from(ea, eb, la@, lb@, pad as nat, 0, false, 0),
            shown < MAX_SHOWN,
            i <= na && i <= nb,
            out@ + diff_from(ea, eb, la@, lb@, pad as nat, i as nat, diverged, shown as nat).0
                == head + total.0,
            diff_from(ea, eb, la@, lb@, pad as nat, i as nat, diverged, shown as nat).1 == total.1,
        ensures
            la@ == label_a@,
            lb@ == label_b@,
            na == a.events@.len(),
            nb == b.events@.len(),
            out@ == head + total.0,
            diverged == total.1,
            total == diff_from(a.events@, b.events@, la@, lb@, pad as nat, 0, false, 0),
            pad as nat == label_pad(la@, lb@),
        decreases na + nb - 2 * i,
    {
        if i < na && i < nb {
            let x = &a.events[i];
            let y = &b.events[i];
            let ghost old_diverged = diverged;
            if !same_event_exec(x, y) {
                let ghost before = out@;
                push_divergence(&mut out, la.as_slice(), lb.as_slice(), pad, i, !diverged, x, y);
                diverged = true;
                shown += 1;
                if shown >= MAX_SHOWN {
                    push_suppressed(&mut out, shown);
                    break;
                }
                proof {
                    assert(before + divergence(la@, lb@, pad as nat, i as nat, !old_diverged, *x, *y) + diff_from(ea, eb, la@, lb@, pad as nat, i as nat + 1, true, shown as nat).0 =~= before + (divergence(la@, lb@, pad as nat, i as nat, !old_diverged, *x, *y) + diff_from(ea, eb, la@, lb@, pad as nat, i as nat + 1, true, shown as nat).0));
                }
            }
            i += 1;
        } else if i < na {
            push_extra_line(&mut out, la.as_slice(), pad, i, &a.events[i]);
            assert(out@ =~= head + total.0);
            break;
        } else if i < nb {
            push_extra_line(&mut out, lb.as_slice(), pad, i, &b.events[i]);
            assert(out@ =~= head + total.0);
            break;
        } else {
            assert(out@ =~= head + total.0);
            break;
        }
    }
    if !diverged && na == nb {
        push_str(&mut out, "no divergence. ");
        push_dec(&mut out, na as u64);
        push_str(&mut out, " events match byte-for-byte.\n");
    }
    assert(out@ =~= diff_report(*a, *b, label_a@, label_b@));
    string_of(out.as_slice())
}

proof fn lemma_diff_self(e: Seq<Event>, la: Seq<char>, lb: Seq<char>, pad: nat, i: nat)
    ensures
        diff_from(e, e, la, lb, pad, i, false, 0) == (Seq::<char>::empty(), false),
    decreases e.len() - i,
{
    if i < e.len() {
        lemma_diff_self(e, la, lb, pad, i + 1);
    }
}

/// A trace diffed against itself shows no divergence: the report is the
/// "no divergence" line alone, with the number of events.
pub proof fn law_diff_identical(t: Trace, la: Seq<char>, lb: Seq<char>)
    ensures
        diff_report(t, t, la, lb) == "no divergence. "@ + dec_nat(t.events@.len())
            + " events match byte-for-byte.\n"@,
{
    lemma_diff_self(t.events@, la, lb, label_pad(la, lb), 0);
    assert(diff_report(t, t, la, lb) =~= "no divergence. "@ + dec_nat(t.events@.len())
        + " events match byte-for-byte.\n"@);
}

proof fn lemma_diff_first(
    ea: Seq<Event>,
    eb: Seq<Event>,
    la: Seq<char>,
    lb: Seq<char>,
    pad: nat,
    i: nat,
    k: nat,
)
    requires
        i <= k < ea.len(),
        k < eb.len(),
        !same_event(ea[k as int], eb[k as int]),
        forall|j: int| i <= j < k ==> same_event(ea[j], eb[j]),
    ensures
        diff_from(ea, eb, la, lb, pad, i, false, 0).0.take(
            divergence(la, lb, pad, k, true, ea[k as int], eb[k as int]).len() as int,
        ) == divergence(la, lb, pad, k, true, ea[k as int], eb[k as int]),
        diff_from(ea, eb, la, lb, pad, i, false, 0).1,
    decreases k - i,
{
    if i < k {
        assert(same_event(ea[i as int], eb[i as int]));
        lemma_diff_first(ea, eb, la, lb, pad, i + 1, k);
    } else {
        let rows = divergence(la, lb, pad, k, true, ea[k as int], eb[k as int]);
        let (rest, d) = diff_from(ea, eb, la, lb, pad, k + 1, true, 1);
        lemma_diff_diverged(ea, eb, la, lb, pad, k + 1, 1);
        assert((rows + rest).take(rows.len() as int) =~= rows);
    }
}

proof fn lemma_diff_diverged(ea: Seq<Event>, eb: Seq<Event>, la: Seq<char>, lb: Seq<char>, pad: nat, i: nat, shown: nat)
    ensures
        diff_from(ea, eb, la, lb, pad, i, true, shown).1,
    decreases ea.len() + eb.len() - 2 * i,
{
    if i < ea.len() && i < eb.len() {
        lemma_diff_diverged(ea, eb, la, lb, pad, i + 1, shown);
        lemma_diff_diverged(ea, eb, la, lb, pad, i + 1, shown + 1);
    }
}

/// When two traces from the same build differ in an event both have, the
/// report begins with the first such event: "first divergence at seq k",
/// both sides, and why they differ; and it does not claim "no divergence".
pub proof fn law_diff_first_divergence(a: Trace, b: Trace, la: Seq<char>, lb: Seq<char>, k: nat)
    requires
        a.header.code_hash@ == b.header.code_hash@,
        k < a.events@.len(),
        k < b.events@.len(),
        !same_event(a.events@[k as int], b.events@[k as int]),
        forall|j: int| 0 <= j < k ==> same_event(a.events@[j], b.events@[j]),
    ensures
        diff_report(a, b, la, lb).take(
            divergence(la, lb, label_pad(la, lb), k, true, a.events@[k as int], b.events@[k as int]).len() as int,
        ) == divergence(la, lb, label_pad(la, lb), k, true, a.events@[k as int], b.events@[k as int]),
        diff_from(a.events@, b.events@, la, lb, label_pad(la, lb), 0, false, 0).1,
{
    let pad = label_pad(la, lb);
    lemma_diff_first(a.events@, b.events@, la, lb, pad, 0, k);
    let d = divergence(la, lb, pad, k, true, a.events@[k as int], b.events@[k as int]);
    let (rows, dv) = diff_from(a.events@, b.events@, la, lb, pad, 0, false, 0);
    assert(hash_warning(a, b, la, lb) =~= Seq::<char>::empty());
    assert(diff_report(a, b, la, lb) =~= rows + Seq::<char>::empty());
    assert(rows.take(d.len() as int) == d);
}

/// From position `i` on, with nothing seen yet: when both sides have the
/// same number of events, the rows end with nothing diverged exactly when
/// every remaining pair is the same, and then there are no rows.
proof fn lemma_diff_clean(ea: Seq<Event>, eb: Seq<Event>, la: Seq<char>, lb: Seq<char>, pad: nat, i: nat)
    requires
        ea.len() == eb.len(),
        i <= ea.len(),
    ensures
        !diff_from(ea, eb, la, lb, pad, i, false, 0).1 <==> (forall|j: int|
            i <= j < ea.len() ==> same_event(ea[j], eb[j])),
        (forall|j: int| i <= j < ea.len() ==> same_event(ea[j], eb[j])) ==> diff_from(
            ea,
            eb,
            la,
            lb,
            pad,
            i,
            false,
            0,
        ).0 == Seq::<char>::empty(),
    decreases ea.len() - i,
{
    if i < ea.len() {
        lemma_diff_clean(ea, eb, la, lb, pad, i + 1);
        if !same_event(ea[i as int], eb[i as int]) {
            lemma_diff_diverged(ea, eb, la, lb, pad, i + 1, 1);
        }
    }
}

/// The report says "no divergence" (after the build warning, if any, and
/// nothing else) exactly when both traces hold the same events, pair by
/// pair: same kind, site, args and result; otherwise it has no such line.
pub proof fn law_diff_no_divergence_iff_same(a: Trace, b: Trace, la: Seq<char>, lb: Seq<char>)
    ensures
        crate::cli::same_events(a, b) ==> diff_report(a, b, la, lb) == hash_warning(a, b, la, lb)
            + "no divergence. "@ + dec_nat(a.events@.len()) + " events match byte-for-byte.\n"@,
        !crate::cli::same_events(a, b) ==> diff_report(a, b, la, lb) == hash_warning(a, b, la, lb)
            + diff_from(a.events@, b.events@, la, lb, label_pad(la, lb), 0, false, 0).0,
{
    let pad = label_pad(la, lb);
    let ea = a.events@;
    let eb = b.events@;
    if ea.len() == eb.len() {
        lemma_diff_clean(ea, eb, la, lb, pad, 0);
    }
    let (rows, d) = diff_from(ea, eb, la, lb, pad, 0, false, 0);
    if crate::cli::same_events(a, b) {
        assert(rows == Seq::<char>::empty());
        assert(diff_report(a, b, la, lb) =~= hash_warning(a, b, la, lb) + "no divergence. "@ + dec_nat(
            ea.len(),
        ) + " events match byte-for-byte.\n"@);
    } else {
        assert(d || ea.len() != eb.len());
        assert(diff_report(a, b, la, lb) =~= hash_warning(a, b, la, lb) + rows);
    }
}

/// Past a common prefix of identical events, the first event only the
/// longer side has is the whole of what is left to report.
proof fn lemma_diff_extra(ea: Seq<Event>, eb: Seq<Event>, la: Seq<char>, lb: Seq<char>, pad: nat, i: nat)
    requires
        i <= eb.len() < ea.len(),
        forall|j: int| i <= j < eb.len() ==> same_event(ea[j], eb[j]),
    ensures
        diff_from(ea, eb, la, lb, pad, i, false, 0) == (
            extra_line(la, pad, eb.len(), ea[eb.len() as int]),
            false,
        ),
        diff_from(eb, ea, lb, la, pad, i, false, 0) == (
            extra_line(la, pad, eb.len(), ea[eb.len() as int]),
            false,
        ),
    decreases eb.len() - i,
{
    if i < eb.len() {
        assert(same_event(ea[i as int], eb[i as int]));
        assert(same_event(eb[i as int], ea[i as int]));
        lemma_diff_extra(ea, eb, la, lb, pad, i + 1);
    }
}

/// When one trace is longer and every event both hold is the same, the
/// report (after the build warning, if any) is the one line naming the
/// longer side's first extra event: "{label} has extra event at seq {n}".
pub proof fn law_diff_extra_event(a: Trace, b: Trace, la: Seq<char>, lb: Seq<char>)
    requires
        a.events@.len() != b.events@.len(),
        forall|j: int|
            0 <= j < a.events@.len() && j < b.events@.len() ==> same_event(a.events@[j], b.events@[j]),
    ensures
        a.events@.len() > b.events@.len() ==> diff_report(a, b, la, lb) == hash_warning(a, b, la, lb)
            + extra_line(la, label_pad(la, lb), b.events@.len(), a.events@[b.events@.len() as int]),
        b.events@.len() > a.events@.len() ==> diff_report(a, b, la, lb) == hash_warning(a, b, la, lb)
            + extra_line(lb, label_pad(la, lb), a.events@.len(), b.events@[a.events@.len() as int]),
{
    let pad = label_pad(la, lb);
    let ea = a.events@;
    let eb = b.events@;
    if ea.len() > eb.len() {
        lemma_diff_extra(ea, eb, la, lb, pad, 0);
        assert(diff_report(a, b, la, lb) =~= hash_warning(a, b, la, lb) + extra_line(
            la,
            pad,
            eb.len(),
            ea[eb.len() as int],
        ));
    } else {
        lemma_diff_extra(eb, ea, lb, la, pad, 0);
        assert(diff_report(a, b, la, lb) =~= hash_warning(a, b, la, lb) + extra_line(
            lb,
            pad,
            ea.len(),
            eb[ea.len() as int],
        ));
    }
}

/// `ds` lists, in increasing order, exactly the positions from `i` on at
/// which both traces have an event and the two events differ.
pub open spec fn differing_from(ea: Seq<Event>, eb: Seq<Event>, i: int, ds: Seq<int>) -> bool {
    &&& forall|j: int, l: int| 0 <= j < l < ds.len() ==> #[trigger] ds[j] < #[trigger] ds[l]
    &&& forall|j: int|
        0 <= j < ds.len() ==> i <= #[trigger] ds[j] && ds[j] < ea.len() && ds[j] < eb.len() && !same_event(
            ea[ds[j]],
            eb[ds[j]],
        )
    &&& forall|p: int|
        i <= p < ea.len() && p < eb.len() && !same_event(ea[p], eb[p]) ==> exists|j: int|
            0 <= j < ds.len() && #[trigger] ds[j] == p
}

/// The explained pairs at the positions `ds`: only the first, when `first`,
/// carries the "first divergence at seq" header.
pub open spec fn pairs_text(
    ea: Seq<Event>,
    eb: Seq<Event>,
    la: Seq<char>,
    lb: Seq<char>,
    pad: nat,
    ds: Seq<int>,
    first: bool,
) -> Seq<char>
    decreases ds.len(),
{
    if ds.len() == 0 {
        Seq::empty()
    } else {
        divergence(la, lb, pad, ds[0] as nat, first, ea[ds[0]], eb[ds[0]]) + pairs_text(
            ea,
            eb,
            la,
            lb,
            pad,
            ds.skip(1),
            false,
        )
    }
}

/// What closes the rows: the suppression line when the limit was reached,
/// else the longer side's first extra event, else nothing.
pub open spec fn tail_text(ea: Seq<Event>, eb: Seq<Event>, la: Seq<char>, lb: Seq<char>, pad: nat, suppressed: bool) -> Seq<char> {
    if suppressed {
        "(suppressing further differences after "@ + dec_nat(MAX_SHOWN as nat) + " shown)\n"@
    } else if ea.len() > eb.len() {
        extra_line(la, pad, eb.len(), ea[eb.len() as int])
    } else if eb.len() > ea.len() {
        extra_line(lb, pad, ea.len(), eb[ea.len() as int])
    } else {
        Seq::empty()
    }
}

/// When position `i` differs, it heads `ds`, and the rest of `ds` lists the
/// differing positions after it.
proof fn lemma_differing_step(ea: Seq<Event>, eb: Seq<Event>, i: int, ds: Seq<int>)
    requires
        differing_from(ea, eb, i, ds),
        0 <= i < ea.len(),
        i < eb.len(),
    ensures
        same_event(ea[i], eb[i]) ==> differing_from(ea, eb, i + 1, ds),
        !same_event(ea[i], eb[i]) ==> ds.len() > 0 && ds[0] == i && differing_from(ea, eb, i + 1, ds.skip(1)),
{
    if same_event(ea[i], eb[i]) {
        assert forall|j: int| 0 <= j < ds.len() implies i + 1 <= #[trigger] ds[j] by {
            assert(ds[j] != i);
        }
    } else {
        let j0 = choose|j: int| 0 <= j < ds.len() && #[trigger] ds[j] == i;
        if j0 > 0 {
            assert(ds[0] < ds[j0]);
        }
        let rest = ds.skip(1);
        assert forall|p: int|
            i + 1 <= p < ea.len() && p < eb.len() && !same_event(ea[p], eb[p]) implies exists|j: int|
            0 <= j < rest.len() && #[trigger] rest[j] == p by {
            let j = choose|j: int| 0 <= j < ds.len() && #[trigger] ds[j] == p;
            assert(j != 0);
            assert(rest[j - 1] == p);
        }
        assert forall|j: int| 0 <= j < rest.len() implies i + 1 <= #[trigger] rest[j] by {
            assert(rest[j] == ds[j + 1]);
            assert(ds[0] < ds[j + 1]);
        }
        assert forall|j: int, l: int| 0 <= j < l < rest.len() implies #[trigger] rest[j] < #[trigger] rest[l] by {
            assert(rest[j] == ds[j + 1] && rest[l] == ds[l + 1]);
        }
    }
}

#[verifier::rlimit(40)]
proof fn lemma_diff_pairs(
    ea: Seq<Event>,
    eb: Seq<Event>,
    la: Seq<char>,
    lb: Seq<char>,
    pad: nat,
    i: nat,
    diverged: bool,
    shown: nat,
    ds: Seq<int>,
)
    requires
        shown < MAX_SHOWN,
        i <= ea.len(),
        i <= eb.len(),
        differing_from(ea, eb, i as int, ds),
    ensures
        ({
            let m = if ds.len() < MAX_SHOWN - shown {
                ds.len()
            } else {
                (MAX_SHOWN - shown) as nat
            };
            diff_from(ea, eb, la, lb, pad, i, diverged, shown) == (
                pairs_text(ea, eb, la, lb, pad, ds.take(m as int), !diverged) + tail_text(
                    ea,
                    eb,
                    la,
                    lb,
                    pad,
                    ds.len() >= MAX_SHOWN - shown,
                ),
                diverged || ds.len() > 0,
            )
        }),
    decreases ea.len() + eb.len() - 2 * i,
{
    let goal_m: int = if ds.len() < MAX_SHOWN - shown {
        ds.len() as int
    } else {
        (MAX_SHOWN - shown) as int
    };
    if i < ea.len() && i < eb.len() {
        lemma_differing_step(ea, eb, i as int, ds);
        if same_event(ea[i as int], eb[i as int]) {
            lemma_diff_pairs(ea, eb, la, lb, pad, i + 1, diverged, shown, ds);
        } else {
            let rest = ds.skip(1);
            let x = ea[i as int];
            let y = eb[i as int];
            let rows = divergence(la, lb, pad, i, !diverged, x, y);
            let t = ds.take(goal_m);
            assert(t[0] == i);
            if shown + 1 >= MAX_SHOWN {
                assert(t.len() == 1);
                assert(t.skip(1) =~= Seq::<int>::empty());
                assert(pairs_text(ea, eb, la, lb, pad, t.skip(1), false) == Seq::<char>::empty());
                assert(pairs_text(ea, eb, la, lb, pad, t, !diverged) == rows + Seq::<char>::empty());
                assert(rows + Seq::<char>::empty() =~= rows);
            } else {
                lemma_diff_pairs(ea, eb, la, lb, pad, i + 1, true, shown + 1, rest);
                assert(t.skip(1) =~= rest.take(goal_m - 1));
                let p1 = pairs_text(ea, eb, la, lb, pad, rest.take(goal_m - 1), false);
                let tl = tail_text(ea, eb, la, lb, pad, ds.len() >= MAX_SHOWN - shown);
                assert(pairs_text(ea, eb, la, lb, pad, t, !diverged) == rows + p1);
                assert((rows + p1) + tl =~= rows + (p1 + tl));
            }
        }
    } else {
        if ds.len() > 0 {
            assert(i <= ds[0]);
        }
        assert(ds.len() == 0);
        assert(ds.take(0) =~= Seq::<int>::empty());
        let tl = tail_text(ea, eb, la, lb, pad, false);
        assert(pairs_text(ea, eb, la, lb, pad, Seq::<int>::empty(), !diverged) + tl =~= tl);
    }
}

/// The whole report, given the positions `ds` at which the traces' shared
/// events differ: the build warning (if any); then the first five differing
/// pairs, each with both sides and its explanation (kinds, else sites, else
/// args, else result), the first alone headed "first divergence at seq";
/// then the suppression line if more pairs differ, or else the longer
/// side's first extra event; and "no divergence" exactly when nothing
/// differs and both traces are of one length.
pub proof fn law_diff_report(a: Trace, b: Trace, la: Seq<char>, lb: Seq<char>, ds: Seq<int>)
    requires
        differing_from(a.events@, b.events@, 0, ds),
    ensures
        diff_report(a, b, la, lb) == hash_warning(a, b, la, lb) + pairs_text(
            a.events@,
            b.events@,
            la,
            lb,
            label_pad(la, lb),
            ds.take(if ds.len() < MAX_SHOWN {
                ds.len() as int
            } else {
                MAX_SHOWN as int
            }),
            true,
        ) + tail_text(a.events@, b.events@, la, lb, label_pad(la, lb), ds.len() >= MAX_SHOWN) + if ds.len()
            == 0 && a.events@.len() == b.events@.len() {
            "no divergence. "@ + dec_nat(a.events@.len()) + " events match byte-for-byte.\n"@
        } else {
            Seq::<char>::empty()
        },
{
    lemma_diff_pairs(a.events@, b.events@, la, lb, label_pad(la, lb), 0, false, 0, ds);
    let (rows, d) = diff_from(a.events@, b.events@, la, lb, label_pad(la, lb), 0, false, 0);
    assert(diff_report(a, b, la, lb) =~= hash_warning(a, b, la, lb) + rows + if !d && a.events@.len()
        == b.events@.len() {
        "no divergence. "@ + dec_nat(a.events@.len()) + " events match byte-for-byte.\n"@
    } else {
        Seq::<char>::empty()
    });
}

/// The explanation of a differing pair names the first thing that
/// differs and claims sameness only of what is the same: it is the
/// different-kinds line exactly when the kinds differ, it begins
/// "(same kind" only when the kinds agree, "(same site" only when kind
/// and site agree, and "(same kind/site/args" only when the arguments
/// agree too. Which side is which does not matter.
pub proof fn law_explain(x: Event, y: Event)
    ensures
        explain(x, y) == explain(y, x),
        (explain(x, y) == "(different effect kinds — programs took different control-flow branches)"@)
            <==> x.kind != y.kind,
        explain(x, y).take(10) == "(same kind"@ ==> x.kind == y.kind,
        explain(x, y).take(10) == "(same site"@ ==> x.kind == y.kind && x.site == y.site,
        explain(x, y).take(20) == "(same kind/site/args"@ ==> x.kind == y.kind && x.site == y.site
            && x.args@ == y.args@,
{
    reveal_strlit("(different effect kinds — programs took different control-flow branches)");
    reveal_strlit("(same kind, different sites — code edited between recordings)");
    reveal_strlit("(same site, different args — programs computed different arguments)");
    reveal_strlit("(same kind/site/args, different result — outside world answered differently)");
    reveal_strlit("(same kind");
    reveal_strlit("(same site");
    reveal_strlit("(same kind/site/args");
    let d = "(different effect kinds — programs took different control-flow branches)"@;
    let s1 = "(same kind, different sites — code edited between recordings)"@;
    let s2 = "(same site, different args — programs computed different arguments)"@;
    let s3 = "(same kind/site/args, different result — outside world answered differently)"@;
    assert(d[1] == 'd' && s1[1] == 's' && s2[1] == 's' && s3[1] == 's');
    assert(s1[6] == 'k' && s2[6] == 's' && s3[6] == 'k');
    assert(s1[10] == ',' && s3[10] == '/');
    assert(d.take(10)[1] == 'd' && d.take(20)[1] == 'd');
    assert(s1.take(10) =~= "(same kind"@);
    assert(s2.take(10) =~= "(same site"@);
    assert(s3.take(10) =~= "(same kind"@);
    assert(s1.take(20)[10] == ',');
    assert(s2.take(20)[6] == 's');
    assert(s3.take(20) =~= "(same kind/site/args"@);
}

} // verus!
