//! Summary statistics over a trace, as `tape stats` shows them: how many
//! calls, of what kinds, against which sites, how big on the wire.
//!
//! Read-only: nothing here changes the trace or calls the OS. The text
//! report (which prints ratios as decimals) is assembled by the CLI from
//! the numbers computed here; the JSON report is rendered here.
use crate::event::{kind_name, EffectKind, Event, Outcome, Trace};
use crate::text::{dec_int, dec_nat, hex_site, hex_fixed, push_dec, push_hex, push_int, push_site, push_str, str_chars, string_of};
use vstd::prelude::*;
use vstd::seq_lib::{to_multiset_build, to_multiset_contains, to_multiset_insert};

verus! {

/// How many of the top sites the reports list.
pub const TOP_SITES: usize = 10;

/// One row of a tally: a key (a kind, or a site and kind), how many events
/// have it, their payload bytes (args + result), and where it first occurs.
#[derive(Debug, Clone, Copy)]
pub struct Tally<K> {
    pub key: K,
    pub count: usize,
    pub bytes: usize,
    pub first: usize,
}

pub open spec fn ev_bytes(e: Event) -> nat {
    e.args@.len() + e.result@.len()
}

/// Payload bytes of all events.
pub open spec fn payload(evs: Seq<Event>) -> nat
    decreases evs.len(),
{
    if evs.len() == 0 {
        0
    } else {
        payload(evs.drop_last()) + ev_bytes(evs.last())
    }
}

pub open spec fn args_bytes(evs: Seq<Event>) -> nat
    decreases evs.len(),
{
    if evs.len() == 0 {
        0
    } else {
        args_bytes(evs.drop_last()) + evs.last().args@.len()
    }
}

pub open spec fn result_bytes(evs: Seq<Event>) -> nat
    decreases evs.len(),
{
    if evs.len() == 0 {
        0
    } else {
        result_bytes(evs.drop_last()) + evs.last().result@.len()
    }
}

/// How many events have key `k`, under `key`.
pub open spec fn count_of<K>(evs: Seq<Event>, key: spec_fn(Event) -> K, k: K) -> nat
    decreases evs.len(),
{
    if evs.len() == 0 {
        0
    } else {
        count_of(evs.drop_last(), key, k) + if key(evs.last()) == k {
            1nat
        } else {
            0nat
        }
    }
}

/// Their payload bytes.
pub open spec fn bytes_of<K>(evs: Seq<Event>, key: spec_fn(Event) -> K, k: K) -> nat
    decreases evs.len(),
{
    if evs.len() == 0 {
        0
    } else {
        bytes_of(evs.drop_last(), key, k) + if key(evs.last()) == k {
            ev_bytes(evs.last())
        } else {
            0nat
        }
    }
}

/// Where the first event with key `k` is (meaningful when there is one).
pub open spec fn first_of<K>(evs: Seq<Event>, key: spec_fn(Event) -> K, k: K) -> int
    decreases evs.len(),
{
    if evs.len() == 0 {
        0
    } else if count_of(evs.drop_last(), key, k) > 0 {
        first_of(evs.drop_last(), key, k)
    } else {
        evs.len() - 1
    }
}

/// Rows are ordered by count, highest first; equal counts by first
/// occurrence, earliest first.
pub open spec fn before<K>(a: Tally<K>, b: Tally<K>) -> bool {
    a.count > b.count || (a.count == b.count && a.first < b.first)
}

pub open spec fn ranked<K>(s: Seq<Tally<K>>) -> bool {
    forall|i: int, j: int| 0 <= i < j < s.len() ==> before(#[trigger] s[i], #[trigger] s[j])
}

/// `rows` is the tally of `evs` under `key`: one row for each key that
/// occurs, with its count, bytes and first occurrence, ranked.
pub open spec fn is_tally<K>(evs: Seq<Event>, key: spec_fn(Event) -> K, rows: Seq<Tally<K>>) -> bool {
    &&& forall|i: int|
        0 <= i < rows.len() ==> {
            &&& (#[trigger] rows[i]).count == count_of(evs, key, rows[i].key)
            &&& rows[i].bytes == bytes_of(evs, key, rows[i].key)
            &&& rows[i].first == first_of(evs, key, rows[i].key)
            &&& rows[i].count > 0
        }
    &&& forall|k: K| count_of(evs, key, k) > 0 ==> exists|i: int| 0 <= i < rows.len() && (#[trigger] rows[i]).key == k
    &&& forall|i: int, j: int| 0 <= i < j < rows.len() ==> (#[trigger] rows[i]).key != (#[trigger] rows[j]).key
    &&& ranked(rows)
}

// ---------------------------------------------------------------------------
// ranking

/// Sort rows into rank order. Rows are taken in order of first occurrence.
fn rank<K: Copy>(v: &Vec<Tally<K>>) -> (out: Vec<Tally<K>>)
    requires
        forall|i: int, j: int| 0 <= i < j < v@.len() ==> (#[trigger] v@[i]).first < (#[trigger] v@[j]).first,
    ensures
        ranked(out@),
        out@.to_multiset() == v@.to_multiset(),
        out@.len() == v@.len(),
{
    let mut out: Vec<Tally<K>> = Vec::new();
    let mut i: usize = 0;
    assert(out@ =~= v@.take(0));
    while i < v.len()
        invariant
            i <= v@.len(),
            out@.len() == i,
            ranked(out@),
            out@.to_multiset() == v@.take(i as int).to_multiset(),
            forall|a: int, b: int| 0 <= a < b < v@.len() ==> (#[trigger] v@[a]).first < (#[trigger] v@[b]).first,
            i < v@.len() ==> forall|k: int| 0 <= k < out@.len() ==> (#[trigger] out@[k]).first < v@[i as int].first,
        decreases v@.len() - i,
    {
        let e = v[i];
        let mut p: usize = 0;
        while p < out.len() && (out[p].count > e.count || (out[p].count == e.count && out[p].first < e.first))
            invariant
                p <= out@.len(),
                forall|k: int| 0 <= k < p ==> before(#[trigger] out@[k], e),
            decreases out@.len() - p,
        {
            p += 1;
        }
        proof {
            assert forall|k: int| p <= k < out@.len() implies before(e, #[trigger] out@[k]) by {
                if before(out@[k], e) {
                    assert(before(out@[p as int], out@[k]) || p == k);
                }
                assert(out@[k].first < e.first);
            }
            assert(v@.take(i + 1) =~= v@.take(i as int).push(e));
        }
        let ghost old_out = out@;
        out.insert(p, e);
        proof {
            assert(out@ == old_out.insert(p as int, e));
            to_multiset_insert(old_out, p as int, e);
            to_multiset_build(v@.take(i as int), e);
            assert forall|a: int, b: int| 0 <= a < b < out@.len() implies before(#[trigger] out@[a], #[trigger] out@[b]) by {
                if b < p {
                    assert(out@[a] == old_out[a] && out@[b] == old_out[b]);
                } else if b == p {
                    assert(out@[a] == old_out[a]);
                } else if a < p {
                    assert(out@[a] == old_out[a] && out@[b] == old_out[b - 1]);
                } else if a == p {
                    assert(out@[b] == old_out[b - 1]);
                } else {
                    assert(out@[a] == old_out[a - 1] && out@[b] == old_out[b - 1]);
                }
            }
            if i + 1 < v@.len() {
                assert forall|k: int| 0 <= k < out@.len() implies (#[trigger] out@[k]).first < v@[i + 1].first by {
                    if k < p {
                        assert(out@[k] == old_out[k]);
                    } else if k > p {
                        assert(out@[k] == old_out[k - 1]);
                    }
                }
            }
        }
        i += 1;
    }
    assert(v@.take(v@.len() as int) =~= v@);
    out
}

/// The key of a row of the tally by kind.
pub open spec fn kind_of() -> spec_fn(Event) -> EffectKind {
    |e: Event| e.kind
}

/// The key of a row of the tally by site.
pub open spec fn site_of() -> spec_fn(Event) -> (u32, EffectKind) {
    |e: Event| (e.site, e.kind)
}

/// `rows` tally `evs` under `key`, in order of first occurrence.
pub open spec fn tallied<K>(evs: Seq<Event>, key: spec_fn(Event) -> K, rows: Seq<Tally<K>>) -> bool {
    &&& forall|i: int|
        0 <= i < rows.len() ==> {
            &&& (#[trigger] rows[i]).count == count_of(evs, key, rows[i].key)
            &&& rows[i].bytes == bytes_of(evs, key, rows[i].key)
            &&& rows[i].first == first_of(evs, key, rows[i].key)
            &&& rows[i].count > 0
        }
    &&& forall|k: K| count_of(evs, key, k) > 0 ==> exists|i: int| 0 <= i < rows.len() && (#[trigger] rows[i]).key == k
    &&& forall|i: int, j: int| 0 <= i < j < rows.len() ==> (#[trigger] rows[i]).key != (#[trigger] rows[j]).key
    &&& forall|i: int, j: int| 0 <= i < j < rows.len() ==> (#[trigger] rows[i]).first < (#[trigger] rows[j]).first
}

proof fn lemma_take_step<K>(evs: Seq<Event>, key: spec_fn(Event) -> K, n: int)
    requires
        0 <= n < evs.len(),
    ensures
        forall|k: K| #[trigger] count_of(evs.take(n + 1), key, k) == count_of(evs.take(n), key, k) + if key(evs[n]) == k {
            1nat
        } else {
            0nat
        },
        forall|k: K| #[trigger] bytes_of(evs.take(n + 1), key, k) == bytes_of(evs.take(n), key, k) + if key(evs[n]) == k {
            ev_bytes(evs[n])
        } else {
            0nat
        },
        forall|k: K| #[trigger] first_of(evs.take(n + 1), key, k) == if count_of(evs.take(n), key, k) > 0 {
            first_of(evs.take(n), key, k)
        } else {
            n
        },
        payload(evs.take(n + 1)) == payload(evs.take(n)) + ev_bytes(evs[n]),
{
    assert(evs.take(n + 1).drop_last() =~= evs.take(n));
}

proof fn lemma_bytes_le<K>(s: Seq<Event>, key: spec_fn(Event) -> K, k: K)
    ensures
        bytes_of(s, key, k) <= payload(s),
        count_of(s, key, k) <= s.len(),
    decreases s.len(),
{
    if s.len() > 0 {
        lemma_bytes_le(s.drop_last(), key, k);
    }
}

proof fn lemma_zero_count<K>(s: Seq<Event>, key: spec_fn(Event) -> K, k: K)
    requires
        count_of(s, key, k) == 0,
    ensures
        bytes_of(s, key, k) == 0,
    decreases s.len(),
{
    if s.len() > 0 {
        lemma_zero_count(s.drop_last(), key, k);
    }
}

proof fn lemma_payload_prefix(evs: Seq<Event>, n: int)
    requires
        0 <= n <= evs.len(),
    ensures
        payload(evs.take(n)) <= payload(evs),
    decreases evs.len() - n,
{
    if n < evs.len() {
        lemma_payload_prefix(evs, n + 1);
        lemma_take_step(evs, kind_of(), n);
    } else {
        assert(evs.take(n) =~= evs);
    }
}

proof fn lemma_tally_update<K>(
    evs: Seq<Event>,
    key: spec_fn(Event) -> K,
    n: int,
    old_rows: Seq<Tally<K>>,
    rows: Seq<Tally<K>>,
    j: int,
)
    requires
        0 <= n < evs.len(),
        tallied(evs.take(n), key, old_rows),
        0 <= j < old_rows.len(),
        old_rows[j].key == key(evs[n]),
        rows == old_rows.update(
            j,
            Tally {
                key: old_rows[j].key,
                count: (old_rows[j].count + 1) as usize,
                bytes: (old_rows[j].bytes + ev_bytes(evs[n])) as usize,
                first: old_rows[j].first,
            },
        ),
        old_rows[j].count + 1 <= usize::MAX,
        old_rows[j].bytes + ev_bytes(evs[n]) <= usize::MAX,
    ensures
        tallied(evs.take(n + 1), key, rows),
{
    lemma_take_step(evs, key, n);
    let pre = evs.take(n);
    assert forall|i: int| 0 <= i < rows.len() implies {
        &&& (#[trigger] rows[i]).count == count_of(evs.take(n + 1), key, rows[i].key)
        &&& rows[i].bytes == bytes_of(evs.take(n + 1), key, rows[i].key)
        &&& rows[i].first == first_of(evs.take(n + 1), key, rows[i].key)
        &&& rows[i].count > 0
    } by {
        if i != j {
            assert(rows[i] == old_rows[i]);
            if i < j {
                assert(old_rows[i].key != old_rows[j].key);
            } else {
                assert(old_rows[j].key != old_rows[i].key);
            }
        }
    }
    assert forall|k: K| #[trigger] count_of(evs.take(n + 1), key, k) > 0 implies exists|i: int|
        0 <= i < rows.len() && (#[trigger] rows[i]).key == k by {
        if count_of(pre, key, k) > 0 {
            let i = choose|i: int| 0 <= i < old_rows.len() && (#[trigger] old_rows[i]).key == k;
            assert(rows[i].key == k);
        } else {
            assert(rows[j].key == k);
        }
    }
    assert forall|a: int, b: int| 0 <= a < b < rows.len() implies (#[trigger] rows[a]).key != (#[trigger] rows[b]).key
        && rows[a].first < rows[b].first by {
        assert(old_rows[a].key != old_rows[b].key);
        assert(old_rows[a].first < old_rows[b].first);
    }
}

proof fn lemma_tally_push<K>(
    evs: Seq<Event>,
    key: spec_fn(Event) -> K,
    n: int,
    old_rows: Seq<Tally<K>>,
    rows: Seq<Tally<K>>,
)
    requires
        0 <= n < evs.len(),
        tallied(evs.take(n), key, old_rows),
        forall|i: int| 0 <= i < old_rows.len() ==> (#[trigger] old_rows[i]).key != key(evs[n]),
        forall|i: int| 0 <= i < old_rows.len() ==> (#[trigger] old_rows[i]).first < n,
        ev_bytes(evs[n]) <= usize::MAX,
        n <= usize::MAX,
        rows == old_rows.push(
            Tally { key: key(evs[n]), count: 1, bytes: ev_bytes(evs[n]) as usize, first: n as usize },
        ),
    ensures
        tallied(evs.take(n + 1), key, rows),
{
    lemma_take_step(evs, key, n);
    let pre = evs.take(n);
    let kn = key(evs[n]);
    if count_of(pre, key, kn) > 0 {
        let i = choose|i: int| 0 <= i < old_rows.len() && (#[trigger] old_rows[i]).key == kn;
        assert(false);
    }
    lemma_zero_count(pre, key, kn);
    assert forall|i: int| 0 <= i < rows.len() implies {
        &&& (#[trigger] rows[i]).count == count_of(evs.take(n + 1), key, rows[i].key)
        &&& rows[i].bytes == bytes_of(evs.take(n + 1), key, rows[i].key)
        &&& rows[i].first == first_of(evs.take(n + 1), key, rows[i].key)
        &&& rows[i].count > 0
    } by {
        if i < old_rows.len() {
            assert(rows[i] == old_rows[i]);
        }
    }
    assert forall|k: K| #[trigger] count_of(evs.take(n + 1), key, k) > 0 implies exists|i: int|
        0 <= i < rows.len() && (#[trigger] rows[i]).key == k by {
        if count_of(pre, key, k) > 0 {
            let i = choose|i: int| 0 <= i < old_rows.len() && (#[trigger] old_rows[i]).key == k;
            assert(rows[i].key == k);
        } else {
            assert(rows[old_rows.len() as int].key == k);
        }
    }
    assert forall|a: int, b: int| 0 <= a < b < rows.len() implies (#[trigger] rows[a]).key != (#[trigger] rows[b]).key
        && rows[a].first < rows[b].first by {
        if b < old_rows.len() {
            assert(old_rows[a].key != old_rows[b].key);
            assert(old_rows[a].first < old_rows[b].first);
        } else {
            assert(rows[a] == old_rows[a]);
        }
    }
}

/// Tally events by kind, in order of first occurrence.
fn tally_kinds(evs: &Vec<Event>) -> (rows: Vec<Tally<EffectKind>>)
    requires
        payload(evs@) <= usize::MAX,
    ensures
        tallied(evs@, kind_of(), rows@),
{
    let mut rows: Vec<Tally<EffectKind>> = Vec::new();
    let mut n: usize = 0;
    assert(evs@.take(0) =~= Seq::<Event>::empty());
    while n < evs.len()
        invariant
            n <= evs@.len(),
            payload(evs@) <= usize::MAX,
            tallied(evs@.take(n as int), kind_of(), rows@),
            forall|i: int| 0 <= i < rows@.len() ==> (#[trigger] rows@[i]).first < n,
        decreases evs@.len() - n,
    {
        let e = &evs[n];
        let ghost pre = evs@.take(n as int);
        let ghost old_rows = rows@;
        proof {
            lemma_take_step(evs@, kind_of(), n as int);
            lemma_payload_prefix(evs@, n + 1);
            lemma_bytes_le(pre, kind_of(), e.kind);
        }
        let mut j: usize = 0;
        while j < rows.len() && rows[j].key != e.kind
            invariant
                j <= rows@.len(),
                forall|x: int| 0 <= x < j ==> (#[trigger] rows@[x]).key != e.kind,
            decreases rows@.len() - j,
        {
            j += 1;
        }
        let size = e.args.len() + e.result.len();
        if j < rows.len() {
            let old_row = rows[j];
            let row = Tally {
                key: old_row.key,
                count: old_row.count + 1,
                bytes: old_row.bytes + size,
                first: old_row.first,
            };
            rows.set(j, row);
            proof {
                lemma_tally_update(evs@, kind_of(), n as int, old_rows, rows@, j as int);
            }
        } else {
            rows.push(Tally { key: e.kind, count: 1, bytes: size, first: n });
            proof {
                lemma_tally_push(evs@, kind_of(), n as int, old_rows, rows@);
            }
        }
        n += 1;
    }
    assert(evs@.take(n as int) =~= evs@);
    rows
}

/// Tally events by site and kind, in order of first occurrence.
fn tally_sites(evs: &Vec<Event>) -> (rows: Vec<Tally<(u32, EffectKind)>>)
    requires
        payload(evs@) <= usize::MAX,
    ensures
        tallied(evs@, site_of(), rows@),
{
    let mut rows: Vec<Tally<(u32, EffectKind)>> = Vec::new();
    let mut n: usize = 0;
    assert(evs@.take(0) =~= Seq::<Event>::empty());
    while n < evs.len()
        invariant
            n <= evs@.len(),
            payload(evs@) <= usize::MAX,
            tallied(evs@.take(n as int), site_of(), rows@),
            forall|i: int| 0 <= i < rows@.len() ==> (#[trigger] rows@[i]).first < n,
        decreases evs@.len() - n,
    {
        let e = &evs[n];
        let ghost pre = evs@.take(n as int);
        let ghost old_rows = rows@;
        let ghost ek = (e.site, e.kind);
        proof {
            lemma_take_step(evs@, site_of(), n as int);
            lemma_payload_prefix(evs@, n + 1);
            lemma_bytes_le(pre, site_of(), ek);
        }
        let mut j: usize = 0;
        while j < rows.len() && !(rows[j].key.0 == e.site && rows[j].key.1 == e.kind)
            invariant
                j <= rows@.len(),
                ek == (e.site, e.kind),
                forall|x: int| 0 <= x < j ==> (#[trigger] rows@[x]).key != ek,
            decreases rows@.len() - j,
        {
            j += 1;
        }
        let size = e.args.len() + e.result.len();
        if j < rows.len() {
            let old_row = rows[j];
            let row = Tally {
                key: old_row.key,
                count: old_row.count + 1,
                bytes: old_row.bytes + size,
                first: old_row.first,
            };
            rows.set(j, row);
            proof {
                lemma_tally_update(evs@, site_of(), n as int, old_rows, rows@, j as int);
            }
        } else {
            rows.push(Tally { key: (e.site, e.kind), count: 1, bytes: size, first: n });
            proof {
                lemma_tally_push(evs@, site_of(), n as int, old_rows, rows@);
            }
        }
        n += 1;
    }
    assert(evs@.take(n as int) =~= evs@);
    rows
}

proof fn lemma_member<K>(v: Seq<Tally<K>>, out: Seq<Tally<K>>, t: Tally<K>)
    requires
        out.to_multiset() == v.to_multiset(),
    ensures
        out.contains(t) <==> v.contains(t),
{
    to_multiset_contains(out, t);
    to_multiset_contains(v, t);
}

/// A ranked rearrangement of a tally is the ranked tally.
proof fn lemma_rank_tally<K>(evs: Seq<Event>, key: spec_fn(Event) -> K, v: Seq<Tally<K>>, out: Seq<Tally<K>>)
    requires
        tallied(evs, key, v),
        ranked(out),
        out.to_multiset() == v.to_multiset(),
    ensures
        is_tally(evs, key, out),
{
    assert forall|i: int| 0 <= i < out.len() implies {
        &&& (#[trigger] out[i]).count == count_of(evs, key, out[i].key)
        &&& out[i].bytes == bytes_of(evs, key, out[i].key)
        &&& out[i].first == first_of(evs, key, out[i].key)
        &&& out[i].count > 0
    } by {
        assert(out.contains(out[i]));
        lemma_member(v, out, out[i]);
        let j = choose|j: int| 0 <= j < v.len() && v[j] == out[i];
        assert(v[j] == out[i]);
    }
    assert forall|k: K| #[trigger] count_of(evs, key, k) > 0 implies exists|i: int|
        0 <= i < out.len() && (#[trigger] out[i]).key == k by {
        let j = choose|j: int| 0 <= j < v.len() && (#[trigger] v[j]).key == k;
        assert(v.contains(v[j]));
        lemma_member(v, out, v[j]);
        let i = choose|i: int| 0 <= i < out.len() && out[i] == v[j];
        assert(out[i].key == k);
    }
    assert forall|a: int, b: int| 0 <= a < b < out.len() implies (#[trigger] out[a]).key != (#[trigger] out[b]).key by {
        assert(before(out[a], out[b]));
        assert(out.contains(out[a]));
        assert(out.contains(out[b]));
        lemma_member(v, out, out[a]);
        lemma_member(v, out, out[b]);
        let x = choose|x: int| 0 <= x < v.len() && v[x] == out[a];
        let y = choose|y: int| 0 <= y < v.len() && v[y] == out[b];
        if out[a].key == out[b].key {
            if x < y {
                assert(v[x].key != v[y].key);
            } else if y < x {
                assert(v[y].key != v[x].key);
            }
        }
    }
}

/// The tally by kind: for each kind that occurs, its number of events and
/// their payload bytes; most frequent first, ties in order of first
/// occurrence.
pub fn by_kind(trace: &Trace) -> (rows: Vec<Tally<EffectKind>>)
    requires
        payload(trace.events@) <= usize::MAX,
    ensures
        is_tally(trace.events@, kind_of(), rows@),
{
    let v = tally_kinds(&trace.events);
    let out = rank(&v);
    proof {
        lemma_rank_tally(trace.events@, kind_of(), v@, out@);
    }
    out
}

/// The tally by site (and kind), ranked the same way.
pub fn by_site(trace: &Trace) -> (rows: Vec<Tally<(u32, EffectKind)>>)
    requires
        payload(trace.events@) <= usize::MAX,
    ensures
        is_tally(trace.events@, site_of(), rows@),
{
    let v = tally_sites(&trace.events);
    let out = rank(&v);
    proof {
        lemma_rank_tally(trace.events@, site_of(), v@, out@);
    }
    out
}

/// `k` is the key of some row of `r`.
pub open spec fn has_key<K>(r: Seq<Tally<K>>, k: K) -> bool {
    exists|i: int| 0 <= i < r.len() && (#[trigger] r[i]).key == k
}

/// Two ranked sequences of rows, each key once, with the same keys and the
/// same row for each key, are the same sequence.
proof fn lemma_ranked_unique<K>(r1: Seq<Tally<K>>, r2: Seq<Tally<K>>)
    requires
        ranked(r1),
        ranked(r2),
        forall|i: int, j: int| 0 <= i < j < r1.len() ==> (#[trigger] r1[i]).key != (#[trigger] r1[j]).key,
        forall|i: int, j: int| 0 <= i < j < r2.len() ==> (#[trigger] r2[i]).key != (#[trigger] r2[j]).key,
        forall|k: K| has_key(r1, k) <==> has_key(r2, k),
        forall|i: int, j: int|
            0 <= i < r1.len() && 0 <= j < r2.len() && (#[trigger] r1[i]).key == (#[trigger] r2[j]).key
                ==> r1[i] == r2[j],
    ensures
        r1 == r2,
    decreases r1.len(),
{
    if r1.len() == 0 {
        if r2.len() > 0 {
            assert(has_key(r2, r2[0].key));
        }
        assert(r1 =~= r2);
    } else {
        assert(has_key(r1, r1[0].key));
        assert(has_key(r2, r1[0].key));
        let j = choose|j: int| 0 <= j < r2.len() && (#[trigger] r2[j]).key == r1[0].key;
        assert(has_key(r2, r2[0].key));
        assert(has_key(r1, r2[0].key));
        let i = choose|i: int| 0 <= i < r1.len() && (#[trigger] r1[i]).key == r2[0].key;
        if j != 0 {
            assert(i != 0);
            assert(before(r1[0], r1[i]));
            assert(before(r2[0], r2[j]));
            assert(r1[i] == r2[0]);
            assert(r1[0] == r2[j]);
        }
        assert(r1[0] == r2[0]);
        let s1 = r1.skip(1);
        let s2 = r2.skip(1);
        assert forall|k: K| has_key(s1, k) <==> has_key(s2, k) by {
            if has_key(s1, k) {
                let a = choose|a: int| 0 <= a < s1.len() && (#[trigger] s1[a]).key == k;
                assert(r1[a + 1].key == k);
                assert(k != r1[0].key);
                assert(has_key(r1, k));
                let b = choose|b: int| 0 <= b < r2.len() && (#[trigger] r2[b]).key == k;
                assert(b != 0);
                assert(s2[b - 1].key == k);
            }
            if has_key(s2, k) {
                let a = choose|a: int| 0 <= a < s2.len() && (#[trigger] s2[a]).key == k;
                assert(r2[a + 1].key == k);
                assert(k != r2[0].key);
                assert(has_key(r2, k));
                let b = choose|b: int| 0 <= b < r1.len() && (#[trigger] r1[b]).key == k;
                assert(b != 0);
                assert(s1[b - 1].key == k);
            }
        }
        assert forall|a: int, b: int| 0 <= a < b < s1.len() implies before(#[trigger] s1[a], #[trigger] s1[b]) by {
            assert(s1[a] == r1[a + 1] && s1[b] == r1[b + 1]);
        }
        assert forall|a: int, b: int| 0 <= a < b < s2.len() implies before(#[trigger] s2[a], #[trigger] s2[b]) by {
            assert(s2[a] == r2[a + 1] && s2[b] == r2[b + 1]);
        }
        assert forall|a: int, b: int| 0 <= a < b < s1.len() implies (#[trigger] s1[a]).key != (#[trigger] s1[b]).key by {
            assert(s1[a] == r1[a + 1] && s1[b] == r1[b + 1]);
        }
        assert forall|a: int, b: int| 0 <= a < b < s2.len() implies (#[trigger] s2[a]).key != (#[trigger] s2[b]).key by {
            assert(s2[a] == r2[a + 1] && s2[b] == r2[b + 1]);
        }
        assert forall|a: int, b: int|
            0 <= a < s1.len() && 0 <= b < s2.len() && (#[trigger] s1[a]).key == (#[trigger] s2[b]).key implies s1[a]
                == s2[b] by {
            assert(s1[a] == r1[a + 1] && s2[b] == r2[b + 1]);
        }
        lemma_ranked_unique(s1, s2);
        assert(r1 =~= seq![r1[0]] + s1);
        assert(r2 =~= seq![r2[0]] + s2);
    }
}

/// The tally of a trace is unique: two row sequences that are both the
/// tally of the same events under the same key are the same.
pub proof fn law_tally_unique<K>(evs: Seq<Event>, key: spec_fn(Event) -> K, r1: Seq<Tally<K>>, r2: Seq<Tally<K>>)
    requires
        is_tally(evs, key, r1),
        is_tally(evs, key, r2),
    ensures
        r1 == r2,
{
    assert forall|k: K| has_key(r1, k) <==> has_key(r2, k) by {
        if has_key(r1, k) {
            let a = choose|a: int| 0 <= a < r1.len() && (#[trigger] r1[a]).key == k;
            assert(count_of(evs, key, k) > 0);
        }
        if has_key(r2, k) {
            let a = choose|a: int| 0 <= a < r2.len() && (#[trigger] r2[a]).key == k;
            assert(count_of(evs, key, k) > 0);
        }
    }
    lemma_ranked_unique(r1, r2);
}

proof fn lemma_split_payload(s: Seq<Event>)
    ensures
        payload(s) == args_bytes(s) + result_bytes(s),
    decreases s.len(),
{
    if s.len() > 0 {
        lemma_split_payload(s.drop_last());
    }
}

/// Bytes of all args, and of all results.
pub fn totals(trace: &Trace) -> (t: (usize, usize))
    requires
        payload(trace.events@) <= usize::MAX,
    ensures
        t.0 == args_bytes(trace.events@),
        t.1 == result_bytes(trace.events@),
{
    let evs = &trace.events;
    let mut a: usize = 0;
    let mut r: usize = 0;
    let mut i: usize = 0;
    proof {
        lemma_split_payload(evs@);
    }
    assert(evs@.take(0) =~= Seq::<Event>::empty());
    while i < evs.len()
        invariant
            i <= evs@.len(),
            payload(evs@) <= usize::MAX,
            payload(evs@) == args_bytes(evs@) + result_bytes(evs@),
            a == args_bytes(evs@.take(i as int)),
            r == result_bytes(evs@.take(i as int)),
        decreases evs@.len() - i,
    {
        proof {
            assert(evs@.take(i + 1).drop_last() =~= evs@.take(i as int));
            lemma_payload_prefix(evs@, i + 1);
            lemma_split_payload(evs@.take(i + 1));
        }
        a = a + evs[i].args.len();
        r = r + evs[i].result.len();
        i += 1;
    }
    assert(evs@.take(i as int) =~= evs@);
    (a, r)
}

// ---------------------------------------------------------------------------
// JSON

/// One character inside a JSON string: quote, backslash and control
/// characters escaped.
pub open spec fn json_char(c: char) -> Seq<char> {
    if c == '"' {
        "\\\""@
    } else if c == '\\' {
        "\\\\"@
    } else if c == '\n' {
        "\\n"@
    } else if c == '\r' {
        "\\r"@
    } else if c == '\t' {
        "\\t"@
    } else if (c as u32) < 0x20 {
        "\\u"@ + hex_fixed(c as u32 as nat, 4)
    } else {
        seq![c]
    }
}

pub open spec fn json_chars(s: Seq<char>) -> Seq<char>
    decreases s.len(),
{
    if s.len() == 0 {
        Seq::empty()
    } else {
        json_chars(s.drop_last()) + json_char(s.last())
    }
}

/// A JSON string literal.
pub open spec fn json_str(s: Seq<char>) -> Seq<char> {
    "\""@ + json_chars(s) + "\""@
}

/// How a trace's outcome appears in JSON.
pub open spec fn outcome_json(o: Outcome) -> Seq<char> {
    match o {
        Outcome::Exit(code) => "{\"kind\":\"exit\",\"code\":"@ + dec_int(code as int) + "}"@,
        Outcome::Panic { message, location } => "{\"kind\":\"panic\",\"message\":"@ + json_str(
            message@,
        ) + ",\"location\":"@ + json_str(location@) + "}"@,
        Outcome::Aborted => "{\"kind\":\"aborted\"}"@,
    }
}

pub open spec fn kind_entry(t: Tally<EffectKind>) -> Seq<char> {
    "{\"kind\":\""@ + kind_name(t.key) + "\",\"count\":"@ + dec_nat(t.count as nat) + ",\"bytes\":"@
        + dec_nat(t.bytes as nat) + "}"@
}

pub open spec fn site_entry(t: Tally<(u32, EffectKind)>) -> Seq<char> {
    "{\"site\":\""@ + hex_site(t.key.0) + "\",\"kind\":\""@ + kind_name(t.key.1) + "\",\"count\":"@
        + dec_nat(t.count as nat) + "}"@
}

pub open spec fn kind_entries(s: Seq<Tally<EffectKind>>) -> Seq<char>
    decreases s.len(),
{
    if s.len() == 0 {
        Seq::empty()
    } else if s.len() == 1 {
        kind_entry(s[0])
    } else {
        kind_entries(s.drop_last()) + ","@ + kind_entry(s.last())
    }
}

pub open spec fn site_entries(s: Seq<Tally<(u32, EffectKind)>>) -> Seq<char>
    decreases s.len(),
{
    if s.len() == 0 {
        Seq::empty()
    } else if s.len() == 1 {
        site_entry(s[0])
    } else {
        site_entries(s.drop_last()) + ","@ + site_entry(s.last())
    }
}

/// The first `TOP_SITES` rows.
pub open spec fn top<K>(s: Seq<Tally<K>>) -> Seq<Tally<K>> {
    if s.len() > TOP_SITES {
        s.take(TOP_SITES as int)
    } else {
        s
    }
}

/// The JSON report, given the trace's tallies by kind and by site.
pub open spec fn json_report(
    t: Trace,
    kinds: Seq<Tally<EffectKind>>,
    sites: Seq<Tally<(u32, EffectKind)>>,
) -> Seq<char> {
    "{\"schema_version\":"@ + dec_nat(t.header.version as nat) + ",\"started_at\":"@ + dec_int(
        t.header.started_at as int,
    ) + ",\"events\":"@ + dec_nat(t.events@.len()) + ",\"outcome\":"@ + outcome_json(
        t.footer.outcome,
    ) + ",\"by_kind\":["@ + kind_entries(kinds) + "]"@ + ",\"top_sites\":["@ + site_entries(
        top(sites),
    ) + "]"@ + "}"@
}

/// Append `s` as a JSON string literal.
pub fn push_json_str(out: &mut Vec<char>, s: &str)
    ensures
        final(out)@ == old(out)@ + json_str(s@),
{
    let cs = str_chars(s);
    let ghost start = out@;
    push_str(out, "\"");
    let mut i: usize = 0;
    assert(cs@.take(0) =~= Seq::<char>::empty());
    while i < cs.len()
        invariant
            i <= cs@.len(),
            cs@ == s@,
            out@ == start + "\""@ + json_chars(cs@.take(i as int)),
        decreases cs@.len() - i,
    {
        proof {
            assert(cs@.take(i + 1).drop_last() =~= cs@.take(i as int));
        }
        let ghost before = out@;
        let c = cs[i];
        if c == '"' {
            push_str(out, "\\\"");
        } else if c == '\\' {
            push_str(out, "\\\\");
        } else if c == '\n' {
            push_str(out, "\\n");
        } else if c == '\r' {
            push_str(out, "\\r");
        } else if c == '\t' {
            push_str(out, "\\t");
        } else if (c as u32) < 0x20 {
            push_str(out, "\\u");
            push_hex(out, c as u32 as u64, 4);
        } else {
            out.push(c);
        }
        assert(out@ =~= before + json_char(c));
        i += 1;
    }
    assert(cs@.take(cs@.len() as int) =~= s@);
    push_str(out, "\"");
    assert(out@ =~= start + json_str(s@));
}

/// Append how a trace's outcome appears in JSON.
pub fn push_outcome_json(out: &mut Vec<char>, o: &Outcome)
    ensures
        final(out)@ == old(out)@ + outcome_json(*o),
{
    match o {
        Outcome::Exit(code) => {
            push_str(out, "{\"kind\":\"exit\",\"code\":");
            push_int(out, *code as i64);
            push_str(out, "}");
        },
        Outcome::Panic { message, location } => {
            push_str(out, "{\"kind\":\"panic\",\"message\":");
            push_json_str(out, message.as_str());
            push_str(out, ",\"location\":");
            push_json_str(out, location.as_str());
            push_str(out, "}");
        },
        Outcome::Aborted => push_str(out, "{\"kind\":\"aborted\"}"),
    }
    assert(final(out)@ =~= old(out)@ + outcome_json(*o));
}

fn push_kind_entry(out: &mut Vec<char>, t: &Tally<EffectKind>)
    ensures
        final(out)@ == old(out)@ + kind_entry(*t),
{
    push_str(out, "{\"kind\":\"");
    push_str(out, t.key.name());
    push_str(out, "\",\"count\":");
    push_dec(out, t.count as u64);
    push_str(out, ",\"bytes\":");
    push_dec(out, t.bytes as u64);
    push_str(out, "}");
    assert(final(out)@ =~= old(out)@ + kind_entry(*t));
}

fn push_site_entry(out: &mut Vec<char>, t: &Tally<(u32, EffectKind)>)
    ensures
        final(out)@ == old(out)@ + site_entry(*t),
{
    push_str(out, "{\"site\":\"");
    push_site(out, t.key.0);
    push_str(out, "\",\"kind\":\"");
    push_str(out, t.key.1.name());
    push_str(out, "\",\"count\":");
    push_dec(out, t.count as u64);
    push_str(out, "}");
    assert(final(out)@ =~= old(out)@ + site_entry(*t));
}

fn push_kind_entries(out: &mut Vec<char>, kinds: &Vec<Tally<EffectKind>>)
    ensures
        final(out)@ == old(out)@ + kind_entries(kinds@),
{
    let ghost head = out@;
    let mut i: usize = 0;
    assert(kinds@.take(0) =~= Seq::<Tally<EffectKind>>::empty());
    while i < kinds.len()
        invariant
            i <= kinds@.len(),
            out@ == head + kind_entries(kinds@.take(i as int)),
        decreases kinds@.len() - i,
    {
        assert(kinds@.take(i + 1).drop_last() =~= kinds@.take(i as int));
        if i > 0 {
            push_str(out, ",");
        }
        push_kind_entry(out, &kinds[i]);
        proof {
            if i == 0 {
                assert(kinds@.take(1)[0] == kinds@[0]);
            }
        }
        assert(out@ =~= head + kind_entries(kinds@.take(i + 1)));
        i += 1;
    }
    assert(kinds@.take(kinds@.len() as int) =~= kinds@);
}

fn push_site_entries(out: &mut Vec<char>, sites: &Vec<Tally<(u32, EffectKind)>>)
    ensures
        final(out)@ == old(out)@ + site_entries(top(sites@)),
{
    let ghost head2 = out@;
    let n = if sites.len() > TOP_SITES {
        TOP_SITES
    } else {
        sites.len()
    };
    let ghost shown = top(sites@);
    assert(shown =~= sites@.take(n as int));
    let mut j: usize = 0;
    assert(shown.take(0) =~= Seq::<Tally<(u32, EffectKind)>>::empty());
    while j < n
        invariant
            j <= n <= sites@.len(),
            shown == sites@.take(n as int),
            out@ == head2 + site_entries(shown.take(j as int)),
        decreases n - j,
    {
        assert(shown.take(j + 1).drop_last() =~= shown.take(j as int));
        assert(shown.take(j + 1).last() == sites@[j as int]);
        if j > 0 {
            push_str(out, ",");
        }
        push_site_entry(out, &sites[j]);
        proof {
            if j == 0 {
                assert(shown.take(1)[0] == sites@[0]);
            }
        }
        assert(out@ =~= head2 + site_entries(shown.take(j + 1)));
        j += 1;
    }
    assert(shown.take(n as int) =~= shown);
}

/// Machine-readable statistics for tooling: one self-contained JSON object,
/// no trailing newline, with the schema version, start time, event count,
/// outcome, the tally by kind and the top sites.
pub fn render_json(trace: &Trace) -> (s: String)
    requires
        payload(trace.events@) <= usize::MAX,
    ensures
        exists|ks: Seq<Tally<EffectKind>>, ss: Seq<Tally<(u32, EffectKind)>>|
            #[trigger] is_tally(trace.events@, kind_of(), ks) && #[trigger] is_tally(
                trace.events@,
                site_of(),
                ss,
            ) && s@ == json_report(*trace, ks, ss),
        forall|ks: Seq<Tally<EffectKind>>, ss: Seq<Tally<(u32, EffectKind)>>|
            #[trigger] is_tally(trace.events@, kind_of(), ks) && #[trigger] is_tally(
                trace.events@,
                site_of(),
                ss,
            ) ==> s@ == json_report(*trace, ks, ss),
{
    let kinds = by_kind(trace);
    let sites = by_site(trace);
    let mut out: Vec<char> = Vec::new();
    push_str(&mut out, "{\"schema_version\":");
    push_dec(&mut out, trace.header.version as u64);
    push_str(&mut out, ",\"started_at\":");
    push_int(&mut out, trace.header.started_at);
    push_str(&mut out, ",\"events\":");
    push_dec(&mut out, trace.events.len() as u64);
    push_str(&mut out, ",\"outcome\":");
    push_outcome_json(&mut out, &trace.footer.outcome);
    push_str(&mut out, ",\"by_kind\":[");
    push_kind_entries(&mut out, &kinds);
    push_str(&mut out, "]");
    push_str(&mut out, ",\"top_sites\":[");
    push_site_entries(&mut out, &sites);
    push_str(&mut out, "]");
    push_str(&mut out, "}");
    assert(out@ =~= json_report(*trace, kinds@, sites@));
    assert forall|ks: Seq<Tally<EffectKind>>, ss: Seq<Tally<(u32, EffectKind)>>|
        #[trigger] is_tally(trace.events@, kind_of(), ks) && #[trigger] is_tally(
            trace.events@,
            site_of(),
            ss,
        ) implies out@ == json_report(*trace, ks, ss) by {
        law_tally_unique(trace.events@, kind_of(), ks, kinds@);
        law_tally_unique(trace.events@, site_of(), ss, sites@);
    }
    string_of(out.as_slice())
}

} // verus!
