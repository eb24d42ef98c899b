//! Human-readable trace dumper, used by `tape inspect`. Nothing in here
//! mutates the trace; it only formats.
use crate::codec::{
    decode_bytes, decode_str, decode_str_bytes, decode_u64, take_bytes, take_str, take_str_bytes,
    take_u64, value_of,
};
use crate::event::{kind_name, EffectKind, Event, Outcome, Trace};
use crate::text::{
    dec_int, dec_nat, hex_fixed, hex_site, lossy_string, pad_left, pad_right, push_chars, push_dec,
    push_hex, push_int, push_pad_left, push_pad_right, push_site, push_str, str_chars, string_of,
    trim_end, trimmed_end, utf8_lossy,
};
use vstd::prelude::*;

verus! {

/// Optional filters used by `tape inspect` to narrow the dump. `None` on a
/// field means "no filter for this dimension".
#[derive(Debug, Default, Clone)]
pub struct Filter {
    pub kind: Option<EffectKind>,
    pub site: Option<u32>,
    pub since: Option<u64>,
    pub limit: Option<usize>,
}

pub open spec fn filter_is_empty(f: Filter) -> bool {
    f.kind is None && f.site is None && f.since is None && f.limit is None
}

impl Filter {
    pub fn is_empty(&self) -> (b: bool)
        ensures
            b == filter_is_empty(*self),
    {
        self.kind.is_none() && self.site.is_none() && self.since.is_none() && self.limit.is_none()
    }
}

/// Does the event pass the kind, site and since filters?
pub open spec fn kept(f: Filter, ev: Event) -> bool {
    &&& f.kind matches Some(k) ==> ev.kind == k
    &&& f.site matches Some(s) ==> ev.site == s
    &&& f.since matches Some(s) ==> ev.seq >= s
}

/// The events that pass the filters, in trace order.
pub open spec fn matching(f: Filter, evs: Seq<Event>) -> Seq<Event>
    decreases evs.len(),
{
    if evs.len() == 0 {
        Seq::empty()
    } else if kept(f, evs.last()) {
        matching(f, evs.drop_last()).push(evs.last())
    } else {
        matching(f, evs.drop_last())
    }
}

/// At most `limit` of them, the first ones.
pub open spec fn limited(m: Seq<Event>, limit: Option<usize>) -> Seq<Event> {
    match limit {
        Some(l) => if m.len() > l {
            m.take(l as int)
        } else {
            m
        },
        None => m,
    }
}

/// The events a filtered dump shows.
pub open spec fn shown(f: Filter, evs: Seq<Event>) -> Seq<Event> {
    limited(matching(f, evs), f.limit)
}

/// Hex of every byte, two digits each.
pub open spec fn hex_all(b: Seq<u8>) -> Seq<char>
    decreases b.len(),
{
    if b.len() == 0 {
        Seq::empty()
    } else {
        hex_all(b.drop_last()) + hex_fixed(b.last() as nat, 2)
    }
}

/// The first eight bytes in hex, then an ellipsis.
pub open spec fn short_hex(b: Seq<u8>) -> Seq<char> {
    hex_all(if b.len() > 8 { b.take(8) } else { b }) + "…"@
}

/// What `tape inspect` shows of written bytes: the text, trailing white
/// space dropped, cut at 40 characters.
pub open spec fn preview(b: Seq<u8>) -> Seq<char> {
    let t = trim_end(utf8_lossy(b));
    if t.len() > 40 {
        t.take(40) + "…"@
    } else {
        t
    }
}

/// The description column for one event.
pub open spec fn describe(ev: Event) -> Seq<char> {
    match ev.kind {
        EffectKind::ClockNow => match value_of(take_u64(ev.result@)) {
            Some(t) => "returned "@ + dec_nat(t as nat) + "s"@,
            None => "returned ?"@,
        },
        EffectKind::RandomBits => {
            let len: u64 = match value_of(take_u64(ev.args@)) {
                Some(n) => n,
                None => 0,
            };
            dec_nat(len as nat) + " bytes of randomness"@
        },
        EffectKind::IoWrite => match value_of(take_bytes(ev.args@)) {
            Some(b) => preview(b),
            None => "?"@,
        },
        EffectKind::FsRead => match value_of(take_str(ev.args@)) {
            Some(p) => "read "@ + p,
            None => "read ?"@,
        },
        EffectKind::FsWrite => match value_of(take_str_bytes(ev.args@)) {
            Some((p, b)) => "write "@ + p + " ("@ + dec_nat(b.len()) + " bytes)"@,
            None => "write ?"@,
        },
        EffectKind::EnvGet => match value_of(take_str(ev.args@)) {
            Some(n) => "env "@ + n,
            None => "env ?"@,
        },
        EffectKind::ArgsGet => "process argv"@,
        EffectKind::TimeSleep => match value_of(take_u64(ev.args@)) {
            Some(ms) => "sleep "@ + dec_nat(ms as nat) + "ms"@,
            None => "sleep ?"@,
        },
    }
}

/// One row of the event table.
pub open spec fn event_row(ev: Event) -> Seq<char> {
    pad_left(dec_nat(ev.seq as nat), 4) + "  "@ + pad_right(kind_name(ev.kind), 11) + "  "@
        + hex_site(ev.site) + "  "@ + pad_left(dec_nat(ev.args@.len()), 6) + "  "@ + pad_left(
        dec_nat(ev.result@.len()),
        6,
    ) + "  "@ + describe(ev) + "\n"@
}

pub open spec fn event_rows(evs: Seq<Event>) -> Seq<char>
    decreases evs.len(),
{
    if evs.len() == 0 {
        Seq::empty()
    } else {
        event_rows(evs.drop_last()) + event_row(evs.last())
    }
}

pub open spec fn join(parts: Seq<Seq<char>>, sep: Seq<char>) -> Seq<char>
    decreases parts.len(),
{
    if parts.len() == 0 {
        Seq::empty()
    } else if parts.len() == 1 {
        parts[0]
    } else {
        join(parts.drop_last(), sep) + sep + parts.last()
    }
}

pub open spec fn opt_part<T>(o: Option<T>, f: spec_fn(T) -> Seq<char>) -> Seq<Seq<char>> {
    match o {
        Some(x) => seq![f(x)],
        None => Seq::empty(),
    }
}

/// `kind=…, site=…, since=…, limit=…`, for the filters that are set.
pub open spec fn describe_filter(f: Filter) -> Seq<char> {
    join(
        opt_part(f.kind, |k: EffectKind| "kind="@ + kind_name(k)) + opt_part(
            f.site,
            |s: u32| "site="@ + hex_site(s),
        ) + opt_part(f.since, |s: u64| "since="@ + dec_nat(s as nat)) + opt_part(
            f.limit,
            |l: usize| "limit="@ + dec_nat(l as nat),
        ),
        ", "@,
    )
}

pub open spec fn dashes(n: nat) -> Seq<char> {
    Seq::new(n, |i: int| '-')
}

pub open spec fn header_block(t: Trace, f: Filter) -> Seq<char> {
    "== header ==\n"@ + "schema version: "@ + dec_nat(t.header.version as nat) + "\n"@
        + "started_at:     "@ + dec_int(t.header.started_at as int) + "\n"@ + "code_hash:      "@
        + short_hex(t.header.code_hash@) + "\n"@ + "events:         "@ + dec_nat(
        t.events@.len(),
    ) + "\n"@ + (if filter_is_empty(f) {
        Seq::empty()
    } else {
        "filter:         "@ + describe_filter(f) + "\n"@
    }) + "\n"@
}

pub open spec fn table_head() -> Seq<char> {
    " seq  kind         site        args_b   res_b  description\n"@ + dashes(78) + "\n"@
}

/// The whole dump.
pub open spec fn dump(t: Trace, f: Filter) -> Seq<char> {
    let evs = t.events@;
    if evs.len() == 0 {
        header_block(t, f) + "(no events)\n"@
    } else {
        let sh = shown(f, evs);
        header_block(t, f) + "== events ==\n"@ + table_head() + event_rows(sh) + (if filter_is_empty(
            f,
        ) {
            Seq::empty()
        } else {
            "\n("@ + dec_nat(sh.len()) + " of "@ + dec_nat(evs.len()) + " events shown)\n"@
        })
    }
}

/// The dotted effect name that `EffectKind::name` gives, read back.
pub open spec fn kind_named(s: Seq<char>) -> Option<EffectKind> {
    if s == "clock.now"@ {
        Some(EffectKind::ClockNow)
    } else if s == "random.bits"@ {
        Some(EffectKind::RandomBits)
    } else if s == "io.write"@ {
        Some(EffectKind::IoWrite)
    } else if s == "fs.read"@ {
        Some(EffectKind::FsRead)
    } else if s == "fs.write"@ {
        Some(EffectKind::FsWrite)
    } else if s == "env.get"@ {
        Some(EffectKind::EnvGet)
    } else if s == "args.get"@ {
        Some(EffectKind::ArgsGet)
    } else if s == "time.sleep"@ {
        Some(EffectKind::TimeSleep)
    } else {
        None
    }
}

/// Every kind is found again by its name.
pub proof fn law_kind_named_by_name(k: EffectKind)
    ensures
        kind_named(kind_name(k)) == Some(k),
{
    reveal_strlit("clock.now");
    reveal_strlit("random.bits");
    reveal_strlit("io.write");
    reveal_strlit("fs.read");
    reveal_strlit("fs.write");
    reveal_strlit("env.get");
    reveal_strlit("args.get");
    reveal_strlit("time.sleep");
    match k {
        EffectKind::ClockNow => {},
        EffectKind::RandomBits => {
            assert("random.bits"@.len() != "clock.now"@.len());
        },
        EffectKind::IoWrite => {
            assert("io.write"@.len() != "clock.now"@.len());
            assert("io.write"@.len() != "random.bits"@.len());
        },
        EffectKind::FsRead => {
            assert("fs.read"@.len() != "clock.now"@.len());
            assert("fs.read"@.len() != "random.bits"@.len());
            assert("fs.read"@.len() != "io.write"@.len());
        },
        EffectKind::FsWrite => {
            assert("fs.write"@.len() != "clock.now"@.len());
            assert("fs.write"@.len() != "random.bits"@.len());
            assert("fs.write"@[0] != "io.write"@[0]);
            assert("fs.write"@.len() != "fs.read"@.len());
        },
        EffectKind::EnvGet => {
            assert("env.get"@.len() != "clock.now"@.len());
            assert("env.get"@.len() != "random.bits"@.len());
            assert("env.get"@.len() != "io.write"@.len());
            assert("env.get"@[0] != "fs.read"@[0]);
            assert("env.get"@.len() != "fs.write"@.len());
        },
        EffectKind::ArgsGet => {
            assert("args.get"@.len() != "clock.now"@.len());
            assert("args.get"@.len() != "random.bits"@.len());
            assert("args.get"@[0] != "io.write"@[0]);
            assert("args.get"@.len() != "fs.read"@.len());
            assert("args.get"@[0] != "fs.write"@[0]);
            assert("args.get"@.len() != "env.get"@.len());
        },
        EffectKind::TimeSleep => {
            assert("time.sleep"@.len() != "clock.now"@.len());
            assert("time.sleep"@.len() != "random.bits"@.len());
            assert("time.sleep"@.len() != "io.write"@.len());
            assert("time.sleep"@.len() != "fs.read"@.len());
            assert("time.sleep"@.len() != "fs.write"@.len());
            assert("time.sleep"@.len() != "env.get"@.len());
            assert("time.sleep"@.len() != "args.get"@.len());
        },
    }
}

pub fn chars_eq(a: &[char], b: &[char]) -> (r: bool)
    ensures
        r == (a@ == b@),
{
    if a.len() != b.len() {
        return false;
    }
    let mut i: usize = 0;
    while i < a.len()
        invariant
            0 <= i <= a@.len(),
            a@.len() == b@.len(),
            forall|j: int| 0 <= j < i ==> a@[j] == b@[j],
        decreases a@.len() - i,
    {
        if a[i] != b[i] {
            return false;
        }
        i += 1;
    }
    assert(a@ =~= b@);
    true
}

/// `a == b` on string slices.
pub fn str_eq(a: &str, b: &str) -> (r: bool)
    ensures
        r == (a@ == b@),
{
    let x = str_chars(a);
    let y = str_chars(b);
    chars_eq(x.as_slice(), y.as_slice())
}

/// Parse a kind name as written by `EffectKind::name` (e.g. "fs.read").
pub fn parse_kind(s: &str) -> (r: Option<EffectKind>)
    ensures
        r == kind_named(s@),
{
    if str_eq(s, "clock.now") {
        Some(EffectKind::ClockNow)
    } else if str_eq(s, "random.bits") {
        Some(EffectKind::RandomBits)
    } else if str_eq(s, "io.write") {
        Some(EffectKind::IoWrite)
    } else if str_eq(s, "fs.read") {
        Some(EffectKind::FsRead)
    } else if str_eq(s, "fs.write") {
        Some(EffectKind::FsWrite)
    } else if str_eq(s, "env.get") {
        Some(EffectKind::EnvGet)
    } else if str_eq(s, "args.get") {
        Some(EffectKind::ArgsGet)
    } else if str_eq(s, "time.sleep") {
        Some(EffectKind::TimeSleep)
    } else {
        None
    }
}

/// Hex of the first eight bytes, then an ellipsis.
pub fn short_hex_chars(b: &[u8]) -> (r: Vec<char>)
    ensures
        r@ == short_hex(b@),
{
    let n = if b.len() > 8 { 8 } else { b.len() };
    let ghost shown_bytes = if b@.len() > 8 { b@.take(8) } else { b@ };
    assert(shown_bytes =~= b@.take(n as int));
    let mut r: Vec<char> = Vec::new();
    let mut i: usize = 0;
    while i < n
        invariant
            0 <= i <= n <= b@.len(),
            r@ == hex_all(b@.take(i as int)),
        decreases n - i,
    {
        assert(b@.take(i + 1).drop_last() =~= b@.take(i as int));
        push_hex(&mut r, b[i] as u64, 2);
        i += 1;
    }
    push_str(&mut r, "…");
    r
}

pub fn preview_chars(bytes: &[u8]) -> (r: Vec<char>)
    ensures
        r@ == preview(bytes@),
{
    let s = lossy_string(bytes);
    let v = str_chars(s.as_str());
    let t = trimmed_end(v.as_slice());
    if t.len() > 40 {
        let mut r: Vec<char> = Vec::new();
        push_chars(&mut r, &t.as_slice()[0..40]);
        push_str(&mut r, "…");
        assert(t@.subrange(0, 40) =~= t@.take(40));
        r
    } else {
        t
    }
}

pub fn describe_chars(ev: &Event) -> (r: Vec<char>)
    ensures
        r@ == describe(*ev),
{
    let mut r: Vec<char> = Vec::new();
    match ev.kind {
        EffectKind::ClockNow => match decode_u64(ev.result.as_slice()) {
            Ok(t) => {
                push_str(&mut r, "returned ");
                push_dec(&mut r, t);
                push_str(&mut r, "s");
            },
            Err(_) => push_str(&mut r, "returned ?"),
        },
        EffectKind::RandomBits => {
            let len: u64 = match decode_u64(ev.args.as_slice()) {
                Ok(n) => n,
                Err(_) => 0,
            };
            push_dec(&mut r, len);
            push_str(&mut r, " bytes of randomness");
        },
        EffectKind::IoWrite => match decode_bytes(ev.args.as_slice()) {
            Ok(b) => {
                r = preview_chars(b.as_slice());
            },
            Err(_) => push_str(&mut r, "?"),
        },
        EffectKind::FsRead => match decode_str(ev.args.as_slice()) {
            Ok(p) => {
                push_str(&mut r, "read ");
                push_str(&mut r, p.as_str());
            },
            Err(_) => push_str(&mut r, "read ?"),
        },
        EffectKind::FsWrite => match decode_str_bytes(ev.args.as_slice()) {
            Ok((p, b)) => {
                push_str(&mut r, "write ");
                push_str(&mut r, p.as_str());
                push_str(&mut r, " (");
                push_dec(&mut r, b.len() as u64);
                push_str(&mut r, " bytes)");
            },
            Err(_) => push_str(&mut r, "write ?"),
        },
        EffectKind::EnvGet => match decode_str(ev.args.as_slice()) {
            Ok(n) => {
                push_str(&mut r, "env ");
                push_str(&mut r, n.as_str());
            },
            Err(_) => push_str(&mut r, "env ?"),
        },
        EffectKind::ArgsGet => push_str(&mut r, "process argv"),
        EffectKind::TimeSleep => match decode_u64(ev.args.as_slice()) {
            Ok(ms) => {
                push_str(&mut r, "sleep ");
                push_dec(&mut r, ms);
                push_str(&mut r, "ms");
            },
            Err(_) => push_str(&mut r, "sleep ?"),
        },
    }
    assert(r@ =~= describe(*ev));
    r
}

pub fn push_row(out: &mut Vec<char>, ev: &Event)
    ensures
        final(out)@ == old(out)@ + event_row(*ev),
{
    let seq = crate::text::dec_chars(ev.seq);
    push_pad_left(out, seq.as_slice(), 4);
    push_str(out, "  ");
    let name = str_chars(ev.kind.name());
    push_pad_right(out, name.as_slice(), 11);
    push_str(out, "  ");
    push_site(out, ev.site);
    push_str(out, "  ");
    let a = crate::text::dec_chars(ev.args.len() as u64);
    push_pad_left(out, a.as_slice(), 6);
    push_str(out, "  ");
    let b = crate::text::dec_chars(ev.result.len() as u64);
    push_pad_left(out, b.as_slice(), 6);
    push_str(out, "  ");
    let d = describe_chars(ev);
    push_chars(out, d.as_slice());
    push_str(out, "\n");
    assert(final(out)@ =~= old(out)@ + event_row(*ev));
}

pub fn kept_by(f: &Filter, ev: &Event) -> (b: bool)
    ensures
        b == kept(*f, *ev),
{
    let k = match f.kind {
        Some(k) => ev.kind == k,
        None => true,
    };
    let s = match f.site {
        Some(s) => ev.site == s,
        None => true,
    };
    let t = match f.since {
        Some(s) => ev.seq >= s,
        None => true,
    };
    k && s && t
}

proof fn lemma_shown_step(f: Filter, evs: Seq<Event>, i: int)
    requires
        0 <= i < evs.len(),
    ensures
        ({
            let m = matching(f, evs.take(i));
            let m1 = matching(f, evs.take(i + 1));
            &&& kept(f, evs[i]) ==> m1 == m.push(evs[i])
            &&& !kept(f, evs[i]) ==> m1 == m
            &&& limited(m1, f.limit) == if kept(f, evs[i]) && (f.limit matches Some(l) ==> m.len()
                < l) {
                limited(m, f.limit).push(evs[i])
            } else {
                limited(m, f.limit)
            }
        }),
{
    assert(evs.take(i + 1).drop_last() =~= evs.take(i));
    let m = matching(f, evs.take(i));
    if kept(f, evs[i]) {
        if let Some(l) = f.limit {
            if m.len() >= l {
                assert(m.push(evs[i]).take(l as int) =~= m.take(l as int));
            }
        }
    }
}

pub proof fn lemma_join_push(s: Seq<Seq<char>>, p: Seq<char>, sep: Seq<char>)
    ensures
        join(s.push(p), sep) == if s.len() == 0 {
            p
        } else {
            join(s, sep) + sep + p
        },
{
    assert(s.push(p).drop_last() =~= s);
    if s.len() == 0 {
        assert(s.push(p)[0] == p);
    }
}

pub proof fn lemma_rows_push(s: Seq<Event>, e: Event)
    ensures
        event_rows(s.push(e)) == event_rows(s) + event_row(e),
{
    assert(s.push(e).drop_last() =~= s);
}

pub open spec fn views(v: Seq<Vec<char>>) -> Seq<Seq<char>> {
    v.map_values(|x: Vec<char>| x@)
}

/// Append the parts, separated by `sep`.
pub fn push_joined(out: &mut Vec<char>, parts: &Vec<Vec<char>>, sep: &str)
    ensures
        final(out)@ == old(out)@ + join(views(parts@), sep@),
{
    let ghost start = out@;
    let mut i: usize = 0;
    while i < parts.len()
        invariant
            0 <= i <= parts@.len(),
            out@ == start + join(views(parts@.take(i as int)), sep@),
        decreases parts@.len() - i,
    {
        proof {
            assert(views(parts@.take(i + 1)) =~= views(parts@.take(i as int)).push(parts@[i as int]@));
            lemma_join_push(views(parts@.take(i as int)), parts@[i as int]@, sep@);
        }
        if i > 0 {
            push_str(out, sep);
        }
        push_chars(out, parts[i].as_slice());
        i += 1;
        proof {
            assert(out@ =~= start + join(views(parts@.take(i as int)), sep@));
        }
    }
    assert(parts@.take(parts@.len() as int) =~= parts@);
}

pub fn push_describe_filter(out: &mut Vec<char>, f: &Filter)
    ensures
        final(out)@ == old(out)@ + describe_filter(*f),
{
    let mut parts: Vec<Vec<char>> = Vec::new();
    if let Some(k) = f.kind {
        let mut p = str_chars("kind=");
        push_str(&mut p, k.name());
        parts.push(p);
    }
    let ghost a = views(parts@);
    assert(a =~= opt_part(f.kind, |k: EffectKind| "kind="@ + kind_name(k)));
    if let Some(st) = f.site {
        let mut p = str_chars("site=");
        push_site(&mut p, st);
        parts.push(p);
    }
    let ghost b = views(parts@);
    assert(b =~= a + opt_part(f.site, |s: u32| "site="@ + hex_site(s)));
    if let Some(sn) = f.since {
        let mut p = str_chars("since=");
        push_dec(&mut p, sn);
        parts.push(p);
    }
    let ghost c = views(parts@);
    assert(c =~= b + opt_part(f.since, |s: u64| "since="@ + dec_nat(s as nat)));
    if let Some(l) = f.limit {
        let mut p = str_chars("limit=");
        push_dec(&mut p, l as u64);
        parts.push(p);
    }
    assert(views(parts@) =~= c + opt_part(f.limit, |l: usize| "limit="@ + dec_nat(l as nat)));
    push_joined(out, &parts, ", ");
}

pub fn header_chars(trace: &Trace, f: &Filter) -> (r: Vec<char>)
    ensures
        r@ == header_block(*trace, *f),
{
    let mut out: Vec<char> = Vec::new();
    push_str(&mut out, "== header ==\n");
    push_str(&mut out, "schema version: ");
    push_dec(&mut out, trace.header.version as u64);
    push_str(&mut out, "\n");
    push_str(&mut out, "started_at:     ");
    push_int(&mut out, trace.header.started_at);
    push_str(&mut out, "\n");
    push_str(&mut out, "code_hash:      ");
    let h = short_hex_chars(trace.header.code_hash.as_slice());
    push_chars(&mut out, h.as_slice());
    push_str(&mut out, "\n");
    push_str(&mut out, "events:         ");
    push_dec(&mut out, trace.events.len() as u64);
    push_str(&mut out, "\n");
    let ghost mid = out@;
    if !f.is_empty() {
        push_str(&mut out, "filter:         ");
        push_describe_filter(&mut out, f);
        push_str(&mut out, "\n");
    }
    push_str(&mut out, "\n");
    assert(out@ =~= header_block(*trace, *f));
    out
}

pub fn table_head_chars() -> (r: Vec<char>)
    ensures
        r@ == table_head(),
{
    let mut out = str_chars(" seq  kind         site        args_b   res_b  description\n");
    let mut k: usize = 0;
    while k < 78
        invariant
            0 <= k <= 78,
            out@ =~= " seq  kind         site        args_b   res_b  description\n"@ + dashes(k as nat),
        decreases 78 - k,
    {
        out.push('-');
        k += 1;
    }
    push_str(&mut out, "\n");
    out
}

/// The table rows a filtered dump shows, and how many there are.
pub fn rows_chars(trace: &Trace, f: &Filter) -> (r: (Vec<char>, usize))
    ensures
        r.0@ == event_rows(shown(*f, trace.events@)),
        r.1 == shown(*f, trace.events@).len(),
{
    let ghost evs = trace.events@;
    let n = trace.events.len();
    let limit: usize = match f.limit {
        Some(l) => l,
        None => usize::MAX,
    };
    let mut out: Vec<char> = Vec::new();
    let mut count: usize = 0;
    let mut i: usize = 0;
    while i < n
        invariant
            0 <= i <= n,
            n == evs.len(),
            evs == trace.events@,
            count == limited(matching(*f, evs.take(i as int)), f.limit).len(),
            count <= i,
            limit == match f.limit {
                Some(l) => l,
                None => usize::MAX,
            },
            out@ == event_rows(limited(matching(*f, evs.take(i as int)), f.limit)),
        decreases n - i,
    {
        proof {
            lemma_shown_step(*f, evs, i as int);
        }
        let ev = &trace.events[i];
        if kept_by(f, ev) && count < limit {
            push_row(&mut out, ev);
            count += 1;
            proof {
                let sh = limited(matching(*f, evs.take(i as int)), f.limit);
                lemma_rows_push(sh, evs[i as int]);
            }
        }
        i += 1;
    }
    assert(evs.take(n as int) =~= evs);
    (out, count)
}

/// The dump of a trace, narrowed by the filter.
pub fn render_filtered(trace: &Trace, f: &Filter) -> (s: String)
    ensures
        s@ == dump(*trace, *f),
{
    let mut out = header_chars(trace, f);
    let n = trace.events.len();
    if n == 0 {
        push_str(&mut out, "(no events)\n");
        return string_of(out.as_slice());
    }
    push_str(&mut out, "== events ==\n");
    let head = table_head_chars();
    push_chars(&mut out, head.as_slice());
    let (rows, count) = rows_chars(trace, f);
    push_chars(&mut out, rows.as_slice());
    let ghost body = out@;
    if !f.is_empty() {
        push_str(&mut out, "\n(");
        push_dec(&mut out, count as u64);
        push_str(&mut out, " of ");
        push_dec(&mut out, n as u64);
        push_str(&mut out, " events shown)\n");
    }
    assert(out@ =~= dump(*trace, *f));
    string_of(out.as_slice())
}

/// The full dump of a trace.
pub fn render(trace: &Trace) -> (s: String)
    ensures
        s@ == dump(*trace, Filter { kind: None, site: None, since: None, limit: None }),
{
    render_filtered(trace, &Filter { kind: None, site: None, since: None, limit: None })
}

/// How an outcome reads in reports.
pub open spec fn outcome_text(o: Outcome) -> Seq<char> {
    match o {
        Outcome::Exit(code) => "exit "@ + dec_int(code as int),
        Outcome::Panic { message, location } => "panic: "@ + message@ + " at "@ + location@,
        Outcome::Aborted => "aborted"@,
    }
}

/// How an outcome reads in reports: "exit 0", "panic: boom at src/x.rs:10",
/// "aborted".
pub fn format_outcome(o: &Outcome) -> (s: String)
    ensures
        s@ == outcome_text(*o),
{
    let mut v: Vec<char> = Vec::new();
    match o {
        Outcome::Exit(code) => {
            push_str(&mut v, "exit ");
            push_int(&mut v, *code as i64);
        },
        Outcome::Panic { message, location } => {
            push_str(&mut v, "panic: ");
            push_str(&mut v, message.as_str());
            push_str(&mut v, " at ");
            push_str(&mut v, location.as_str());
        },
        Outcome::Aborted => push_str(&mut v, "aborted"),
    }
    assert(v@ =~= outcome_text(*o));
    string_of(v.as_slice())
}

/// The events that pass the filters are the trace's events filtered by
/// `kept`, in trace order.
proof fn lemma_matching_filter(f: Filter, evs: Seq<Event>)
    ensures
        matching(f, evs) == evs.filter(|e: Event| kept(f, e)),
    decreases evs.len(),
{
    reveal(Seq::filter);
    if evs.len() > 0 {
        lemma_matching_filter(f, evs.drop_last());
    }
}

/// A filtered dump shows the first `limit` of the events that pass the
/// kind, site and since filters (all of them without a limit), in trace
/// order: the limit counts matching events, not events of the trace.
pub proof fn law_shown(f: Filter, evs: Seq<Event>)
    ensures
        matching(f, evs) == evs.filter(|e: Event| kept(f, e)),
        shown(f, evs).len() == (match f.limit {
            Some(l) => if l < matching(f, evs).len() {
                l as int
            } else {
                matching(f, evs).len() as int
            },
            None => matching(f, evs).len() as int,
        }),
        forall|k: int| 0 <= k < shown(f, evs).len() ==> #[trigger] shown(f, evs)[k] == matching(f, evs)[k],
        forall|k: int| 0 <= k < shown(f, evs).len() ==> kept(f, #[trigger] shown(f, evs)[k]),
{
    lemma_matching_filter(f, evs);
    let pred = |e: Event| kept(f, e);
    assert forall|k: int| 0 <= k < shown(f, evs).len() implies kept(f, #[trigger] shown(f, evs)[k]) by {
        evs.lemma_filter_pred(pred, k);
    }
}

} // verus!
