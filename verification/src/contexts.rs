//! What a run takes from the log around it. An upload puts before a run's own
//! lines the last log-version line that precedes it (and, for a key opened by
//! its start event, the last zone-change and map-change lines since that
//! one). A run starts at the stamp of its first line; a key that ended has
//! the stamp of its end event as its end, a raid session that of its last
//! line.
use vstd::prelude::*;
use vstd::utf8::decode_utf8;
use crate::text::{trimmed_end_len, lemma_trimmed_end_bounds};
use crate::events::{
    Span, span, bytes_of, find_byte, lemma_find_byte, find_double_space, lemma_find_double_space,
    has_prefix, zone_entry, key_start, parse_uint, field, log_version_tag, zone_change_tag,
    map_change_tag, key_start_tag, key_end_tag,
};
use crate::runs::{
    RunView, OpenRun, ScanModel, finish_model, zone_phase, header_phase, start_phase,
    active_phase, extend_run, ended_key, digest_line, step, scan_lines, scan_log, extract_log,
    find_run, initial_model, is_raid_run, lemma_ascii_chars_raid, empty_span, is_raid_difficulty,
};
use crate::sessions::{line_start, trimmed_line_end, event_line_at};

verus! {

broadcast use vstd::seq_lib::group_seq_properties;

/// The complete line at `q` is an event line whose event starts with `tag`.
pub open spec fn tagged_line_at(b: Seq<u8>, q: int, tag: Seq<u8>) -> bool {
    let te = trimmed_line_end(b, q);
    &&& event_line_at(b, q)
    &&& has_prefix(b, find_double_space(b, q, te) + 2, te, tag)
}

/// Where the complete line at `q` ends, past its line feed.
pub open spec fn line_end(b: Seq<u8>, q: int) -> int {
    find_byte(b, q, b.len() as int, 0x0a) + 1
}

/// `q` starts the last line in `b[from..p]` whose event starts with `tag`.
pub open spec fn is_last_tagged(b: Seq<u8>, from: int, p: int, tag: Seq<u8>, q: int) -> bool {
    &&& line_start(b, q)
    &&& from <= q < p
    &&& tagged_line_at(b, q, tag)
    &&& forall|k: int| line_start(b, k) && q < k < p ==> !#[trigger] tagged_line_at(b, k, tag)
}

/// Start of the last line in `b[from..p]` whose event starts with `tag`, if
/// there is one.
pub open spec fn last_tagged(b: Seq<u8>, from: int, p: int, tag: Seq<u8>) -> Option<int> {
    if exists|q: int| is_last_tagged(b, from, p, tag, q) {
        Some(choose|q: int| is_last_tagged(b, from, p, tag, q))
    } else {
        None
    }
}

/// The text of the line at `q`, its line feed included; nothing for no line.
pub open spec fn line_text(b: Seq<u8>, q: Option<int>) -> Seq<u8> {
    match q {
        Some(q) => b.subrange(q, line_end(b, q)),
        None => Seq::empty(),
    }
}

/// The lines an upload puts before a run whose first line starts at `p`: the
/// last log-version line before it and, for a key opened by its start event
/// (`key`), then the last zone-change and the last map-change line that
/// follow that log-version line and precede the run.
pub open spec fn context_lines(b: Seq<u8>, p: int, key: bool) -> Seq<u8> {
    let v = last_tagged(b, 0, p, log_version_tag());
    if key {
        let from = match v {
            Some(q) => q,
            None => 0,
        };
        line_text(b, v) + line_text(b, last_tagged(b, from, p, zone_change_tag())) + line_text(
            b,
            last_tagged(b, from, p, map_change_tag()),
        )
    } else {
        line_text(b, v)
    }
}

/// The stamp of the event line at `q`: its text before the first double space.
pub open spec fn stamp_at(b: Seq<u8>, q: int) -> Seq<u8> {
    b.subrange(q, find_double_space(b, q, trimmed_line_end(b, q)))
}

/// The line that ends at `end` is a key end event stamped `e`.
pub open spec fn key_end_line_before(b: Seq<u8>, end: int, e: Seq<char>) -> bool {
    exists|q: int|
        {
            &&& line_start(b, q)
            &&& line_end(b, q) == end
            &&& #[trigger] tagged_line_at(b, q, key_end_tag())
            &&& e == decode_utf8(stamp_at(b, q))
        }
}

/// The event line that ends at `end` is stamped `e`.
pub open spec fn last_line_stamped(b: Seq<u8>, end: int, e: Seq<char>) -> bool {
    exists|q: int|
        {
            &&& line_start(b, q)
            &&& line_end(b, q) == end
            &&& #[trigger] event_line_at(b, q)
            &&& e == decode_utf8(stamp_at(b, q))
        }
}

/// A run found in `b` starts at the stamp of its first line.
pub open spec fn starts_at_first_line(b: Seq<u8>, v: RunView) -> bool {
    v.started == decode_utf8(stamp_at(b, v.start as int))
}

/// A run found in `b` carries the context lines that precede it.
pub open spec fn carries_context(b: Seq<u8>, v: RunView) -> bool {
    v.context == decode_utf8(context_lines(b, v.start as int, !is_raid_run(v) && !v.missing_start))
}

/// A run found in `b` ends at the stamp of its last line. For a key: if it
/// has an end, its last line is a key end stamped so, and if it is complete,
/// it has an end. A raid session always has an end.
pub open spec fn ends_at_key_end(b: Seq<u8>, v: RunView) -> bool {
    &&& !is_raid_run(v) ==> {
        &&& v.complete ==> v.ended is Some
        &&& v.ended matches Some(e) ==> key_end_line_before(b, v.end as int, e)
    }
    &&& is_raid_run(v) ==> (v.ended matches Some(e) && last_line_stamped(b, v.end as int, e))
}

// ---------------------------------------------------------------------------
// The scanner's context spans
// ---------------------------------------------------------------------------

/// `s` is the last line of `b[from..p]` whose event starts with `tag`, or
/// empty when there is none.
pub open spec fn last_span(b: Seq<u8>, s: Span, from: int, p: int, tag: Seq<u8>) -> bool {
    ||| is_last_tagged(b, from, p, tag, s.lo as int) && s.hi as int == line_end(b, s.lo as int)
    ||| s == empty_span() && forall|k: int|
        line_start(b, k) && from <= k < p ==> !#[trigger] tagged_line_at(b, k, tag)
}

/// Log-version, zone-change and map-change spans as they stand before `p`.
pub open spec fn context_spans_ok(b: Seq<u8>, h: Span, z: Span, mp: Span, p: int) -> bool {
    &&& last_span(b, h, 0, p, log_version_tag())
    &&& last_span(b, z, h.lo as int, p, zone_change_tag())
    &&& last_span(b, mp, h.lo as int, p, map_change_tag())
}

/// A run being followed: its context spans stand as they did before its
/// first line, and a key has neither ended nor completed yet.
pub open spec fn open_context(b: Seq<u8>, r: OpenRun) -> bool {
    &&& (r.raid || r.missing_start) ==> {
        &&& last_span(b, r.context.0, 0, r.start as int, log_version_tag())
        &&& r.context.1 == empty_span()
        &&& r.context.2 == empty_span()
    }
    &&& !(r.raid || r.missing_start) ==> context_spans_ok(
        b,
        r.context.0,
        r.context.1,
        r.context.2,
        r.start as int,
    )
}

pub open spec fn open_unended(r: OpenRun) -> bool {
    !r.raid ==> !r.complete && r.ended is None
}

/// A run being followed starts at the stamp of its first line.
pub open spec fn open_started(b: Seq<u8>, r: OpenRun) -> bool {
    bytes_of(b, r.started) == stamp_at(b, r.start as int)
}

/// A run about to be emitted ends at the stamp of its last line: a key at its
/// end event, a raid session with an encounter at its last line.
pub open spec fn open_ended(b: Seq<u8>, r: OpenRun) -> bool {
    &&& !r.raid ==> {
        &&& r.complete ==> r.ended is Some
        &&& r.ended matches Some(s) ==> key_end_line_before(b, r.end as int, decode_utf8(bytes_of(b, s)))
    }
    &&& r.raid ==> {
        &&& r.attempts > 0 ==> r.ended is Some
        &&& r.ended matches Some(s) ==> last_line_stamped(b, r.end as int, decode_utf8(bytes_of(b, s)))
    }
}

/// What a run found carries from its lines.
pub open spec fn carried(b: Seq<u8>, v: RunView) -> bool {
    &&& carries_context(b, v)
    &&& starts_at_first_line(b, v)
    &&& ends_at_key_end(b, v)
}

/// Runs found so far carry their context and end; the run being followed
/// keeps its context spans and has not ended.
pub open spec fn runs_ctx(b: Seq<u8>, m: ScanModel) -> bool {
    &&& forall|i: int|
        0 <= i < m.runs.len() ==> carried(b, #[trigger] m.runs[i])
    &&& (m.active matches Some(r) ==> open_context(b, r) && open_started(b, r) && open_ended(b, r)
        && open_unended(r))
}

/// The event line at `pos`, its event at `b[es..te]`.
pub open spec fn event_at(b: Seq<u8>, pos: int, nl: int, es: int, te: int) -> bool {
    &&& line_start(b, pos)
    &&& 0 <= pos <= nl < b.len() <= usize::MAX
    &&& nl == find_byte(b, pos, b.len() as int, 0x0a)
    &&& te == trimmed_line_end(b, pos)
    &&& es == find_double_space(b, pos, te) + 2
    &&& event_line_at(b, pos)
    &&& pos <= es <= te <= nl + 1
}

/// At most one of the tags that the context follows starts an event, and a
/// key start is none of them.
proof fn lemma_tags(b: Seq<u8>, es: int, te: int)
    requires
        0 <= es <= te <= b.len(),
    ensures
        !(has_prefix(b, es, te, log_version_tag()) && has_prefix(b, es, te, zone_change_tag())),
        !(has_prefix(b, es, te, log_version_tag()) && has_prefix(b, es, te, map_change_tag())),
        !(has_prefix(b, es, te, zone_change_tag()) && has_prefix(b, es, te, map_change_tag())),
        key_start(b, es, te) is Some ==> !has_prefix(b, es, te, log_version_tag()) && !has_prefix(
            b,
            es,
            te,
            zone_change_tag(),
        ) && !has_prefix(b, es, te, map_change_tag()),
{
    reveal_strlit("COMBAT_LOG_VERSION,");
    reveal_strlit("ZONE_CHANGE,");
    reveal_strlit("MAP_CHANGE,");
    reveal_strlit("CHALLENGE_MODE_START,");
    let v = log_version_tag();
    let z = zone_change_tag();
    let mp = map_change_tag();
    let s = key_start_tag();
    assert(v[0] == 0x43 && v[1] == 0x4f);
    assert(z[0] == 0x5a);
    assert(mp[0] == 0x4d);
    assert(s[0] == 0x43 && s[1] == 0x48);
    lemma_prefixes_differ(b, es, te, v, z, 0);
    lemma_prefixes_differ(b, es, te, v, mp, 0);
    lemma_prefixes_differ(b, es, te, z, mp, 0);
    lemma_prefixes_differ(b, es, te, s, v, 1);
    lemma_prefixes_differ(b, es, te, s, z, 0);
    lemma_prefixes_differ(b, es, te, s, mp, 0);
}

proof fn lemma_prefixes_differ(b: Seq<u8>, es: int, te: int, t1: Seq<u8>, t2: Seq<u8>, i: int)
    requires
        0 <= es <= te <= b.len(),
        0 <= i < t1.len(),
        i < t2.len(),
        t1[i] != t2[i],
    ensures
        !(has_prefix(b, es, te, t1) && has_prefix(b, es, te, t2)),
{
    if has_prefix(b, es, te, t1) && has_prefix(b, es, te, t2) {
        assert(b.subrange(es, es + t1.len())[i] == b[es + i]);
        assert(b.subrange(es, es + t2.len())[i] == b[es + i]);
    }
}

/// The last tagged line of a range is unique.
proof fn lemma_last_unique(b: Seq<u8>, from: int, p: int, tag: Seq<u8>, q1: int, q2: int)
    requires
        is_last_tagged(b, from, p, tag, q1),
        is_last_tagged(b, from, p, tag, q2),
    ensures
        q1 == q2,
{
    if q1 < q2 {
        assert(!tagged_line_at(b, q2, tag));
    } else if q2 < q1 {
        assert(!tagged_line_at(b, q1, tag));
    }
}

/// A span that stands for the last tagged line is that line's text.
proof fn lemma_last_span_text(b: Seq<u8>, s: Span, from: int, p: int, tag: Seq<u8>)
    requires
        last_span(b, s, from, p, tag),
    ensures
        bytes_of(b, s) == line_text(b, last_tagged(b, from, p, tag)),
        s.lo as int == match last_tagged(b, from, p, tag) {
            Some(q) => q,
            None => 0,
        },
{
    if is_last_tagged(b, from, p, tag, s.lo as int) && s.hi as int == line_end(b, s.lo as int) {
        let q = choose|q: int| is_last_tagged(b, from, p, tag, q);
        lemma_last_unique(b, from, p, tag, q, s.lo as int);
    } else {
        assert(!exists|q: int| is_last_tagged(b, from, p, tag, q)) by {
            if exists|q: int| is_last_tagged(b, from, p, tag, q) {
                let q = choose|q: int| is_last_tagged(b, from, p, tag, q);
                assert(!tagged_line_at(b, q, tag));
            }
        }
        assert(bytes_of(b, s) =~= Seq::<u8>::empty());
    }
}

/// No line starts strictly inside the line `b[pos..nl + 1]`.
proof fn lemma_inside_line(b: Seq<u8>, pos: int, nl: int, k: int)
    requires
        0 <= pos <= nl < b.len(),
        forall|i: int| pos <= i < nl ==> b[i] != 0x0a,
        pos < k < nl + 1,
    ensures
        !line_start(b, k),
{
    assert(b[k - 1] != 0x0a);
}

/// A line whose event does not start with `tag` leaves the last such line.
proof fn lemma_last_span_extend(b: Seq<u8>, s: Span, from: int, pos: int, nl: int, tag: Seq<u8>)
    requires
        last_span(b, s, from, pos, tag),
        0 <= pos <= nl < b.len(),
        forall|i: int| pos <= i < nl ==> b[i] != 0x0a,
        !tagged_line_at(b, pos, tag),
    ensures
        last_span(b, s, from, nl + 1, tag),
{
    assert forall|k: int| line_start(b, k) && pos < k < nl + 1 implies !#[trigger] tagged_line_at(b, k, tag) by {
        lemma_inside_line(b, pos, nl, k);
    }
}

/// A line whose event starts with `tag` becomes the last such line.
proof fn lemma_last_span_here(b: Seq<u8>, from: int, pos: int, nl: int, tag: Seq<u8>)
    requires
        line_start(b, pos),
        0 <= from <= pos <= nl < b.len() <= usize::MAX,
        nl == find_byte(b, pos, b.len() as int, 0x0a),
        tagged_line_at(b, pos, tag),
    ensures
        last_span(b, span(pos, nl + 1), from, nl + 1, tag),
{
    lemma_find_byte(b, pos, b.len() as int, 0x0a);
    assert forall|k: int| line_start(b, k) && pos < k < nl + 1 implies !#[trigger] tagged_line_at(b, k, tag) by {
        lemma_inside_line(b, pos, nl, k);
    }
}

/// After a line whose event does not start with `tag`, no line of the range
/// that begins with it starts so.
proof fn lemma_last_span_fresh(b: Seq<u8>, pos: int, nl: int, tag: Seq<u8>)
    requires
        0 <= pos <= nl < b.len(),
        forall|i: int| pos <= i < nl ==> b[i] != 0x0a,
        !tagged_line_at(b, pos, tag),
    ensures
        last_span(b, empty_span(), pos, nl + 1, tag),
{
    assert forall|k: int| line_start(b, k) && pos <= k < nl + 1 implies !#[trigger] tagged_line_at(b, k, tag) by {
        if k > pos {
            lemma_inside_line(b, pos, nl, k);
        }
    }
}

/// The start of the last tagged span comes no later than `p`.
proof fn lemma_last_span_lo(b: Seq<u8>, s: Span, from: int, p: int, tag: Seq<u8>)
    requires
        last_span(b, s, from, p, tag),
        0 <= p,
    ensures
        s.lo <= p,
{
}

/// A line that is not an event line leaves the context spans.
proof fn lemma_plain_line_spans(b: Seq<u8>, h: Span, z: Span, mp: Span, pos: int, nl: int)
    requires
        context_spans_ok(b, h, z, mp, pos),
        0 <= pos <= nl < b.len(),
        forall|i: int| pos <= i < nl ==> b[i] != 0x0a,
        !event_line_at(b, pos),
    ensures
        context_spans_ok(b, h, z, mp, nl + 1),
{
    lemma_last_span_extend(b, h, 0, pos, nl, log_version_tag());
    lemma_last_span_extend(b, z, h.lo as int, pos, nl, zone_change_tag());
    lemma_last_span_extend(b, mp, h.lo as int, pos, nl, map_change_tag());
}

/// Reading the log-version, zone-change and map-change lines keeps the
/// context spans.
proof fn lemma_header_spans(b: Seq<u8>, m: ScanModel, pos: int, nl: int, es: int, te: int)
    requires
        context_spans_ok(b, m.header, m.zone, m.map, pos),
        event_at(b, pos, nl, es, te),
    ensures
        ({
            let m2 = header_phase(b, m, span(pos, nl + 1), es, te);
            &&& context_spans_ok(b, m2.header, m2.zone, m2.map, nl + 1)
            &&& m2.runs == m.runs
            &&& m2.active == m.active
        }),
{
    lemma_find_byte(b, pos, b.len() as int, 0x0a);
    lemma_tags(b, es, te);
    let vt = log_version_tag();
    let zt = zone_change_tag();
    let mt = map_change_tag();
    lemma_last_span_lo(b, m.header, 0, pos, vt);
    if has_prefix(b, es, te, vt) {
        lemma_last_span_here(b, 0, pos, nl, vt);
        lemma_last_span_fresh(b, pos, nl, zt);
        lemma_last_span_fresh(b, pos, nl, mt);
    } else {
        lemma_last_span_extend(b, m.header, 0, pos, nl, vt);
        if has_prefix(b, es, te, zt) {
            lemma_last_span_here(b, m.header.lo as int, pos, nl, zt);
        } else {
            lemma_last_span_extend(b, m.zone, m.header.lo as int, pos, nl, zt);
        }
        if has_prefix(b, es, te, mt) {
            lemma_last_span_here(b, m.header.lo as int, pos, nl, mt);
        } else {
            lemma_last_span_extend(b, m.map, m.header.lo as int, pos, nl, mt);
        }
    }
}

// ---------------------------------------------------------------------------
// Runs through the phases of a line
// ---------------------------------------------------------------------------

/// Closing the run being followed keeps what runs carry, and the context
/// spans.
proof fn lemma_finish_ctx(b: Seq<u8>, m: ScanModel, closed: bool)
    requires
        forall|i: int| 0 <= i < m.runs.len() ==> carried(b, #[trigger] m.runs[i]),
        m.active matches Some(r) ==> open_context(b, r) && open_started(b, r) && open_ended(b, r),
    ensures
        runs_ctx(b, finish_model(b, m, closed)),
        finish_model(b, m, closed).active is None,
        finish_model(b, m, closed).header == m.header,
        finish_model(b, m, closed).zone == m.zone,
        finish_model(b, m, closed).map == m.map,
{
    lemma_ascii_chars_raid();
    let f = finish_model(b, m, closed);
    assert forall|i: int| 0 <= i < f.runs.len() implies carried(b, #[trigger] f.runs[i]) by {
        if i < m.runs.len() {
            assert(f.runs[i] == m.runs[i]);
        } else if let Some(r) = m.active {
            let v = f.runs[i];
            let (c0, c1, c2) = r.context;
            let p = r.start as int;
            assert(v.start == r.start);
            assert(is_raid_run(v) == r.raid);
            assert(starts_at_first_line(b, v));
            assert(ends_at_key_end(b, v));
            assert(v.context == decode_utf8(bytes_of(b, c0) + bytes_of(b, c1) + bytes_of(b, c2)));
            if r.raid || r.missing_start {
                lemma_last_span_text(b, c0, 0, p, log_version_tag());
                assert(bytes_of(b, c1) =~= Seq::<u8>::empty());
                assert(bytes_of(b, c2) =~= Seq::<u8>::empty());
                assert(bytes_of(b, c0) + bytes_of(b, c1) + bytes_of(b, c2) =~= bytes_of(b, c0));
            } else {
                lemma_last_span_text(b, c0, 0, p, log_version_tag());
                lemma_last_span_text(b, c1, c0.lo as int, p, zone_change_tag());
                lemma_last_span_text(b, c2, c0.lo as int, p, map_change_tag());
            }
        }
    }
}

/// A zone entry keeps what runs carry; a raid session or a key whose start
/// is missing that it opens takes the log-version line before it.
proof fn lemma_zone_ctx(b: Seq<u8>, m: ScanModel, pos: int, nl: int, stamp: Span, es: int, te: int)
    requires
        runs_ctx(b, m),
        context_spans_ok(b, m.header, m.zone, m.map, pos),
        event_at(b, pos, nl, es, te),
        stamp == span(pos, es - 2),
    ensures
        zone_phase(b, m, span(pos, nl + 1), stamp, es, te) matches Ok(m1) ==> {
            &&& runs_ctx(b, m1)
            &&& m1.header == m.header
            &&& m1.zone == m.zone
            &&& m1.map == m.map
        },
{
    lemma_find_double_space(b, pos, te);
    assert(stamp_at(b, pos) =~= bytes_of(b, stamp));
    if let Some(z) = zone_entry(b, es, te) {
        if let Some(dv) = parse_uint(b, z.difficulty.lo as int, z.difficulty.hi as int, u32::MAX as nat) {
            let difficulty = dv as u32;
            lemma_finish_ctx(b, m, false);
            let m1 = match m.active {
                Some(r) => if !r.raid && (bytes_of(b, r.zone) != bytes_of(b, z.zone) || difficulty
                    != 8) {
                    finish_model(b, m, false)
                } else {
                    m
                },
                None => m,
            };
            let same = match m1.active {
                Some(r) => r.raid && bytes_of(b, r.zone) == bytes_of(b, z.zone) && r.difficulty
                    == difficulty,
                None => false,
            };
            lemma_finish_ctx(b, m1, true);
            let m2 = match m1.active {
                Some(r) => if r.raid && !same {
                    finish_model(b, m1, true)
                } else {
                    m1
                },
                None => m1,
            };
            lemma_finish_ctx(b, m2, false);
            let line = span(pos, nl + 1);
            assert(line.lo as u64 as int == pos);
            let m3 = if is_raid_difficulty(difficulty) && !same {
                let f = finish_model(b, m2, false);
                ScanModel {
                    digest: crate::runs::fnv_offset(),
                    active: Some(
                        OpenRun {
                            raid: true,
                            name: z.name,
                            level: 0,
                            difficulty,
                            zone: z.zone,
                            started: stamp,
                            ended: None,
                            duration_ms: None,
                            complete: false,
                            missing_start: false,
                            start: line.lo as u64,
                            end: line.hi as u64,
                            context: (f.header, empty_span(), empty_span()),
                            attempts: 0,
                            encounter_open: false,
                        },
                    ),
                    ..f
                }
            } else {
                m2
            };
            assert(runs_ctx(b, m3));
            assert(m3.header == m.header);
        }
    }
}

/// A key start keeps what runs carry; the key it opens takes the context
/// spans as they stand before it.
proof fn lemma_start_ctx(b: Seq<u8>, m: ScanModel, pos: int, nl: int, stamp: Span, es: int, te: int)
    requires
        runs_ctx(b, m),
        context_spans_ok(b, m.header, m.zone, m.map, pos),
        event_at(b, pos, nl, es, te),
        stamp == span(pos, es - 2),
    ensures
        start_phase(b, m, span(pos, nl + 1), stamp, es, te) matches Ok(m1) ==> {
            &&& runs_ctx(b, m1)
            &&& m1.header == m.header
            &&& m1.zone == m.zone
            &&& m1.map == m.map
        },
{
    lemma_finish_ctx(b, m, true);
    assert(span(pos, nl + 1).lo as u64 as int == pos);
    lemma_find_double_space(b, pos, te);
    assert(stamp_at(b, pos) =~= bytes_of(b, stamp));
}

/// A line inside the run being followed keeps what runs carry; a key that
/// its end event ends has that event's stamp.
proof fn lemma_active_ctx(b: Seq<u8>, m: ScanModel, pos: int, nl: int, stamp: Span, es: int, te: int)
    requires
        runs_ctx(b, m),
        event_at(b, pos, nl, es, te),
        stamp == span(pos, es - 2),
    ensures
        ({
            let m1 = active_phase(b, m, span(pos, nl + 1), stamp, es, te);
            &&& runs_ctx(b, m1)
            &&& m1.header == m.header
            &&& m1.zone == m.zone
            &&& m1.map == m.map
        }),
{
    let line = span(pos, nl + 1);
    lemma_find_double_space(b, pos, te);
    assert(stamp_at(b, pos) =~= bytes_of(b, stamp));
    if let Some(r) = m.active {
        let digest = digest_line(m.digest, bytes_of(b, line));
        let r2 = extend_run(b, r, line, stamp, es, te);
        let m1 = ScanModel { digest, active: Some(r2), ..m };
        if r2.raid {
            assert(line_start(b, pos) && line_end(b, pos) == nl + 1 && event_line_at(b, pos)
                && decode_utf8(bytes_of(b, stamp)) == decode_utf8(stamp_at(b, pos)));
            assert(open_ended(b, r2));
        }
        assert(runs_ctx(b, m1));
        if !r2.raid && has_prefix(b, es, te, key_end_tag()) {
            if let Some(f1) = field(b, es, te, 1) {
                if bytes_of(b, f1) == bytes_of(b, r2.zone) {
                    let k = ended_key(b, r2, stamp, es, te);
                    assert(k.end as int == nl + 1);
                    assert(line_start(b, pos) && line_end(b, pos) == nl + 1 && tagged_line_at(
                        b,
                        pos,
                        key_end_tag(),
                    ) && decode_utf8(bytes_of(b, stamp)) == decode_utf8(stamp_at(b, pos)));
                    assert(open_ended(b, k));
                    assert(open_context(b, k));
                    lemma_finish_ctx(b, ScanModel { active: Some(k), ..m1 }, false);
                }
            }
        }
    }
}

proof fn lemma_step_ctx(b: Seq<u8>, m: ScanModel, pos: int, nl: int)
    requires
        runs_ctx(b, m),
        context_spans_ok(b, m.header, m.zone, m.map, pos),
        line_start(b, pos),
        0 <= pos <= nl < b.len() <= usize::MAX,
        nl == find_byte(b, pos, b.len() as int, 0x0a),
    ensures
        step(b, m, pos, nl + 1) matches Ok(m2) ==> runs_ctx(b, m2) && context_spans_ok(
            b,
            m2.header,
            m2.zone,
            m2.map,
            nl + 1,
        ),
{
    reveal(step);
    lemma_find_byte(b, pos, b.len() as int, 0x0a);
    let te = pos + trimmed_end_len(b.subrange(pos, nl + 1));
    assert(te == trimmed_line_end(b, pos));
    lemma_trimmed_end_bounds(b.subrange(pos, nl + 1));
    let sp = find_double_space(b, pos, te);
    lemma_find_double_space(b, pos, te);
    if sp >= te {
        lemma_plain_line_spans(b, m.header, m.zone, m.map, pos, nl);
    } else {
        let stamp = span(pos, sp);
        let line = span(pos, nl + 1);
        let es = sp + 2;
        assert(event_at(b, pos, nl, es, te));
        lemma_tags(b, es, te);
        lemma_zone_ctx(b, m, pos, nl, stamp, es, te);
        if let Ok(m1) = zone_phase(b, m, line, stamp, es, te) {
            let m2 = header_phase(b, m1, line, es, te);
            lemma_header_spans(b, m1, pos, nl, es, te);
            if key_start(b, es, te) is Some {
                assert(m2.header == m1.header && m2.zone == m1.zone && m2.map == m1.map);
                lemma_start_ctx(b, m2, pos, nl, stamp, es, te);
            }
            if let Ok(m3) = start_phase(b, m2, line, stamp, es, te) {
                assert(runs_ctx(b, m3));
                assert(m3.header == m2.header && m3.zone == m2.zone && m3.map == m2.map);
                lemma_active_ctx(b, m3, pos, nl, stamp, es, te);
            }
        }
    }
}

proof fn lemma_scan_lines_ctx(b: Seq<u8>, pos: int, m: ScanModel)
    requires
        runs_ctx(b, m),
        context_spans_ok(b, m.header, m.zone, m.map, pos),
        line_start(b, pos),
        0 <= pos <= b.len() <= usize::MAX,
    ensures
        scan_lines(b, pos, m) matches Ok(m2) ==> runs_ctx(b, m2),
    decreases b.len() - pos,
{
    if pos < b.len() {
        let nl = find_byte(b, pos, b.len() as int, 0x0a);
        lemma_find_byte(b, pos, b.len() as int, 0x0a);
        if nl < b.len() {
            lemma_step_ctx(b, m, pos, nl);
            if let Ok(m2) = step(b, m, pos, nl + 1) {
                lemma_scan_lines_ctx(b, nl + 1, m2);
            }
        }
    }
}

proof fn lemma_scan_log_ctx(b: Seq<u8>)
    requires
        b.len() <= usize::MAX,
    ensures
        scan_log(b) matches Ok(runs) ==> forall|i: int|
            0 <= i < runs.len() ==> carried(b, #[trigger] runs[i]),
{
    let m0 = initial_model();
    assert(context_spans_ok(b, m0.header, m0.zone, m0.map, 0));
    lemma_scan_lines_ctx(b, 0, m0);
    if let Ok(m) = scan_lines(b, 0, m0) {
        lemma_finish_ctx(b, m, false);
    }
}

// ---------------------------------------------------------------------------
// Laws
// ---------------------------------------------------------------------------

/// Every run found carries, as its context, the lines an upload puts before
/// it: the last log-version line before its first line (nothing when there is
/// none); a raid session or a key whose start is missing carries that line
/// alone, while a key opened by its start event carries that line, then the
/// last zone-change line and the last map-change line between that line and
/// the key's first line.
pub proof fn law_runs_carry_their_context(b: Seq<u8>)
    requires
        b.len() <= usize::MAX,
    ensures
        scan_log(b) matches Ok(runs) ==> forall|i: int|
            0 <= i < runs.len() ==> (#[trigger] runs[i]).context == decode_utf8(
                context_lines(b, runs[i].start as int, !is_raid_run(runs[i]) && !runs[i].missing_start),
            ),
{
    lemma_scan_log_ctx(b);
    if let Ok(runs) = scan_log(b) {
        assert forall|i: int| 0 <= i < runs.len() implies (#[trigger] runs[i]).context == decode_utf8(
            context_lines(b, runs[i].start as int, !is_raid_run(runs[i]) && !runs[i].missing_start),
        ) by {
            assert(carried(b, runs[i]));
        }
    }
}

/// A key found ends at its end event: when it has an end, its last line is a
/// `CHALLENGE_MODE_END` event and the end is that line's stamp; a key found
/// complete has an end.
pub proof fn law_keys_end_at_their_end_event(b: Seq<u8>)
    requires
        b.len() <= usize::MAX,
    ensures
        scan_log(b) matches Ok(runs) ==> forall|i: int|
            0 <= i < runs.len() && !is_raid_run(#[trigger] runs[i]) ==> {
                &&& runs[i].complete ==> runs[i].ended is Some
                &&& runs[i].ended matches Some(e) ==> key_end_line_before(b, runs[i].end as int, e)
            },
{
    lemma_scan_log_ctx(b);
    if let Ok(runs) = scan_log(b) {
        assert forall|i: int| 0 <= i < runs.len() && !is_raid_run(#[trigger] runs[i]) implies {
            &&& runs[i].complete ==> runs[i].ended is Some
            &&& runs[i].ended matches Some(e) ==> key_end_line_before(b, runs[i].end as int, e)
        } by {
            assert(carried(b, runs[i]));
        }
    }
}

/// Every run found starts at the stamp of its first line.
pub proof fn law_runs_start_at_their_first_line(b: Seq<u8>)
    requires
        b.len() <= usize::MAX,
    ensures
        scan_log(b) matches Ok(runs) ==> forall|i: int|
            0 <= i < runs.len() ==> (#[trigger] runs[i]).started == decode_utf8(
                stamp_at(b, runs[i].start as int),
            ),
{
    lemma_scan_log_ctx(b);
    if let Ok(runs) = scan_log(b) {
        assert forall|i: int| 0 <= i < runs.len() implies (#[trigger] runs[i]).started == decode_utf8(
            stamp_at(b, runs[i].start as int),
        ) by {
            assert(carried(b, runs[i]));
        }
    }
}

/// Every raid session found has an end, the stamp of its last line.
pub proof fn law_raids_end_at_their_last_line(b: Seq<u8>)
    requires
        b.len() <= usize::MAX,
    ensures
        scan_log(b) matches Ok(runs) ==> forall|i: int|
            0 <= i < runs.len() && is_raid_run(#[trigger] runs[i]) ==> (runs[i].ended matches Some(
                e,
            ) && last_line_stamped(b, runs[i].end as int, e)),
{
    lemma_scan_log_ctx(b);
    if let Ok(runs) = scan_log(b) {
        assert forall|i: int| 0 <= i < runs.len() && is_raid_run(#[trigger] runs[i]) implies (
        runs[i].ended matches Some(e) && last_line_stamped(b, runs[i].end as int, e)) by {
            assert(carried(b, runs[i]));
        }
    }
}

proof fn lemma_find_run(runs: Seq<RunView>, id: Seq<char>, i: int)
    requires
        0 <= i,
    ensures
        i <= find_run(runs, id, i) <= runs.len() || (i > runs.len() && find_run(runs, id, i) == runs.len()),
        find_run(runs, id, i) < runs.len() ==> runs[find_run(runs, id, i)].id == id,
    decreases runs.len() - i,
{
    if i < runs.len() && runs[i].id != id {
        lemma_find_run(runs, id, i + 1);
    }
}

/// The text extracted for upload is the run's context lines (see
/// `law_runs_carry_their_context`) followed by the run's own lines; the run is
/// one found complete with the requested id.
pub proof fn law_extracted_text_starts_with_context(b: Seq<u8>, id: Seq<char>)
    requires
        b.len() <= usize::MAX,
    ensures
        extract_log(b, id) matches Ok(out) ==> scan_log(b) matches Ok(runs) && exists|i: int|
            0 <= i < runs.len() && (#[trigger] runs[i]).id == id && runs[i].complete && out.0
                == decode_utf8(
                context_lines(b, runs[i].start as int, !is_raid_run(runs[i]) && !runs[i].missing_start),
            ) + decode_utf8(b.subrange(runs[i].start as int, runs[i].end as int)),
{
    law_runs_carry_their_context(b);
    if let Ok(runs) = scan_log(b) {
        lemma_find_run(runs, id, 0);
        let i = find_run(runs, id, 0);
        if i < runs.len() {
            assert(runs[i].id == id);
        }
    }
}

} // verus!
