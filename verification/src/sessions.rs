//! When a raid session counts as complete: exactly when its last encounter
//! has ended and a later line of the log left it (a key start, or a zone
//! change to another zone or difficulty). A session still going on when the
//! log ends is never uploaded as finished.
use vstd::prelude::*;
use crate::text::{trimmed_end_len, lemma_trimmed_end_bounds};
use crate::events::{
    Span, span, bytes_of, find_byte, lemma_find_byte, find_double_space, lemma_find_double_space,
    zone_entry, key_start, parse_uint, lemma_zone_or_start,
};
use crate::text::lemma_utf8_slice;
use vstd::utf8::{valid_utf8, decode_utf8, decode_utf8_encode_utf8};
use crate::runs::{
    RunView, ScanModel, ScanError, finish_model, zone_phase, header_phase,
    start_phase, active_phase, step, scan_lines, scan_log, initial_model, is_raid_run,
    lemma_ascii_chars_raid, span_ok, lemma_zone_entry_ok,
};

verus! {

broadcast use vstd::seq_lib::group_seq_properties;

/// `p` starts a line: it is the start of the log or follows a line feed.
pub open spec fn line_start(b: Seq<u8>, p: int) -> bool {
    p == 0 || (0 < p <= b.len() && b[p - 1] == 0x0a)
}

/// Where the trimmed line `b[p..]` ends, for a complete line starting at `p`.
pub open spec fn trimmed_line_end(b: Seq<u8>, p: int) -> int {
    let nl = find_byte(b, p, b.len() as int, 0x0a);
    p + trimmed_end_len(b.subrange(p, nl + 1))
}

/// A complete line starts at `p` and is a `stamp  event` line.
pub open spec fn event_line_at(b: Seq<u8>, p: int) -> bool {
    &&& 0 <= p < b.len()
    &&& find_byte(b, p, b.len() as int, 0x0a) < b.len()
    &&& find_double_space(b, p, trimmed_line_end(b, p)) < trimmed_line_end(b, p)
}

/// A complete event line starts at `p` that leaves a raid session in zone
/// `zone` at `difficulty`: a key start, or a zone change to another zone or
/// to another difficulty.
pub open spec fn leaves_at(b: Seq<u8>, p: int, zone: Seq<char>, difficulty: u32) -> bool {
    let te = trimmed_line_end(b, p);
    let es = find_double_space(b, p, te) + 2;
    &&& event_line_at(b, p)
    &&& (key_start(b, es, te) is Some || (zone_entry(b, es, te) matches Some(z) && (decode_utf8(
        bytes_of(b, z.zone),
    ) != zone || parse_uint(b, z.difficulty.lo as int, z.difficulty.hi as int, u32::MAX as nat)
        != Some(difficulty as nat))))
}

/// What holds of a raid session closed by a later line: complete exactly when
/// no encounter is going on, and a closing line follows its own lines.
pub open spec fn raid_closed(b: Seq<u8>, v: RunView) -> bool {
    is_raid_run(v) ==> {
        &&& v.complete == !v.encounter_open
        &&& exists|p: int| line_start(b, p) && v.end <= p && #[trigger] leaves_at(b, p, v.zone, v.difficulty)
    }
}

/// No event line starts in `b[from..to]`.
pub open spec fn no_event_lines(b: Seq<u8>, from: int, to: int) -> bool {
    forall|p: int| line_start(b, p) && from <= p < to ==> !#[trigger] event_line_at(b, p)
}

/// Between lines, at line start `pos`: every raid found so far was closed by
/// a later line, and a raid being followed has no event line after its end.
pub open spec fn raids_inv(b: Seq<u8>, m: ScanModel, pos: int) -> bool {
    &&& forall|i: int| 0 <= i < m.runs.len() ==> raid_closed(b, #[trigger] m.runs[i])
    &&& (m.active matches Some(r) ==> (r.raid ==> span_ok(b, r.zone) && r.end <= pos && no_event_lines(
        b,
        r.end as int,
        pos,
    )))
}

/// Closing the run being followed keeps the raids closed, when a raid among
/// them is closed by the closing line at `pos` after its end.
proof fn lemma_finish_raids(b: Seq<u8>, m: ScanModel, closed: bool, pos: int)
    requires
        forall|i: int| 0 <= i < m.runs.len() ==> raid_closed(b, #[trigger] m.runs[i]),
        m.active matches Some(r) ==> (r.raid ==> closed && r.end <= pos && line_start(b, pos)
            && leaves_at(b, pos, decode_utf8(bytes_of(b, r.zone)), r.difficulty)),
    ensures
        forall|i: int|
            0 <= i < finish_model(b, m, closed).runs.len() ==> raid_closed(
                b,
                #[trigger] finish_model(b, m, closed).runs[i],
            ),
        finish_model(b, m, closed).active is None,
{
    lemma_ascii_chars_raid();
    let f = finish_model(b, m, closed);
    assert forall|i: int| 0 <= i < f.runs.len() implies raid_closed(b, #[trigger] f.runs[i]) by {
        if i < m.runs.len() {
            assert(f.runs[i] == m.runs[i]);
        } else if let Some(r) = m.active {
            if r.raid {
                let v = f.runs[i];
                assert(v.zone == decode_utf8(bytes_of(b, r.zone)));
                assert(v.difficulty == r.difficulty);
                assert(leaves_at(b, pos, v.zone, v.difficulty));
            }
        }
    }
}

pub proof fn lemma_no_event_lines_extend(b: Seq<u8>, from: int, pos: int, nl: int)
    requires
        no_event_lines(b, from, pos),
        0 <= pos <= nl < b.len(),
        forall|k: int| pos <= k < nl ==> b[k] != 0x0a,
        !event_line_at(b, pos),
    ensures
        no_event_lines(b, from, nl + 1),
{
    assert forall|p: int| line_start(b, p) && from <= p < nl + 1 implies !#[trigger] event_line_at(b, p) by {
        if p > pos {
            assert(b[p - 1] != 0x0a);
        }
    }
}

/// Within the event line at `pos`, before the run being followed takes it: a
/// raid being followed either has no event line after its end or was
/// opened by this line.
pub open spec fn raids_pre(b: Seq<u8>, m: ScanModel, pos: int, nl: int) -> bool {
    &&& forall|i: int| 0 <= i < m.runs.len() ==> raid_closed(b, #[trigger] m.runs[i])
    &&& (m.active matches Some(r) ==> (r.raid ==> span_ok(b, r.zone) && (r.end == nl + 1 || r.end <= pos && no_event_lines(
        b,
        r.end as int,
        pos,
    ))))
}

/// The event line at `pos`, its event at `b[es..te]`.
pub open spec fn at_event(b: Seq<u8>, pos: int, nl: int, es: int, te: int) -> bool {
    &&& line_start(b, pos)
    &&& 0 <= pos <= nl < b.len() <= usize::MAX
    &&& nl == find_byte(b, pos, b.len() as int, 0x0a)
    &&& te == trimmed_line_end(b, pos)
    &&& es == find_double_space(b, pos, te) + 2
    &&& event_line_at(b, pos)
    &&& pos <= es <= te <= nl + 1
    &&& valid_utf8(b)
}

/// Two zone ids at character boundaries of well-formed `b` that differ as
/// bytes differ as text.
proof fn lemma_zone_text(b: Seq<u8>, x: Span, y: Span)
    requires
        valid_utf8(b),
        span_ok(b, x),
        span_ok(b, y),
        bytes_of(b, x) != bytes_of(b, y),
    ensures
        decode_utf8(bytes_of(b, x)) != decode_utf8(bytes_of(b, y)),
{
    lemma_utf8_slice(b, x.lo as int, x.hi as int);
    lemma_utf8_slice(b, y.lo as int, y.hi as int);
    decode_utf8_encode_utf8(bytes_of(b, x));
    decode_utf8_encode_utf8(bytes_of(b, y));
}

proof fn lemma_zone_raids(b: Seq<u8>, m: ScanModel, pos: int, nl: int, stamp: Span, es: int, te: int)
    requires
        raids_inv(b, m, pos),
        at_event(b, pos, nl, es, te),
    ensures
        zone_phase(b, m, span(pos, nl + 1), stamp, es, te) matches Ok(m1) ==> raids_pre(b, m1, pos, nl),
        zone_entry(b, es, te) is None ==> zone_phase(b, m, span(pos, nl + 1), stamp, es, te) == Ok::<
            ScanModel,
            ScanError,
        >(m),
{
    if let Some(z) = zone_entry(b, es, te) {
        lemma_zone_entry_ok(b, es, te);
        if let Some(dv) = parse_uint(b, z.difficulty.lo as int, z.difficulty.hi as int, u32::MAX as nat) {
            let difficulty = dv as u32;
            if let Some(r) = m.active {
                if !r.raid {
                    lemma_finish_raids(b, m, false, pos);
                }
            }
            let m1 = match m.active {
                Some(r) => if !r.raid && (bytes_of(b, r.zone) != bytes_of(b, z.zone) || difficulty
                    != 8) {
                    finish_model(b, m, false)
                } else {
                    m
                },
                None => m,
            };
            let same = match m1.active {
                Some(r) => r.raid && bytes_of(b, r.zone) == bytes_of(b, z.zone) && r.difficulty
                    == difficulty,
                None => false,
            };
            if let Some(r) = m1.active {
                if r.raid && !same {
                    if bytes_of(b, r.zone) != bytes_of(b, z.zone) {
                        lemma_zone_text(b, r.zone, z.zone);
                    }
                    assert(leaves_at(b, pos, decode_utf8(bytes_of(b, r.zone)), r.difficulty));
                    lemma_finish_raids(b, m1, true, pos);
                }
            }
            let m2 = match m1.active {
                Some(r) => if r.raid && !same {
                    finish_model(b, m1, true)
                } else {
                    m1
                },
                None => m1,
            };
            if crate::runs::is_raid_difficulty(difficulty) && !same {
                assert(m2.active is None);
                lemma_finish_raids(b, m2, false, pos);
            }
        }
    }
}

proof fn lemma_start_raids(b: Seq<u8>, m: ScanModel, pos: int, nl: int, stamp: Span, es: int, te: int)
    requires
        raids_inv(b, m, pos),
        at_event(b, pos, nl, es, te),
    ensures
        start_phase(b, m, span(pos, nl + 1), stamp, es, te) matches Ok(m1) ==> raids_pre(b, m1, pos, nl),
{
    if key_start(b, es, te) is Some {
        if let Some(r) = m.active {
            assert(leaves_at(b, pos, decode_utf8(bytes_of(b, r.zone)), r.difficulty));
        }
        lemma_finish_raids(b, m, true, pos);
    }
}

proof fn lemma_active_raids(b: Seq<u8>, m: ScanModel, pos: int, nl: int, stamp: Span, es: int, te: int)
    requires
        raids_pre(b, m, pos, nl),
        at_event(b, pos, nl, es, te),
    ensures
        raids_inv(b, active_phase(b, m, span(pos, nl + 1), stamp, es, te), nl + 1),
{
    let line = span(pos, nl + 1);
    if let Some(r) = m.active {
        let digest = crate::runs::digest_line(m.digest, bytes_of(b, line));
        let r2 = crate::runs::extend_run(b, r, line, stamp, es, te);
        let m4 = ScanModel { digest, active: Some(r2), ..m };
        assert(raids_inv(b, m4, nl + 1));
        if !r2.raid {
            let k = crate::runs::ended_key(b, r2, stamp, es, te);
            lemma_finish_raids(b, ScanModel { active: Some(k), ..m4 }, false, pos);
        }
    }
}

proof fn lemma_step_raids(b: Seq<u8>, m: ScanModel, pos: int, nl: int)
    requires
        raids_inv(b, m, pos),
        line_start(b, pos),
        valid_utf8(b),
        0 <= pos <= nl < b.len() <= usize::MAX,
        nl == find_byte(b, pos, b.len() as int, 0x0a),
    ensures
        step(b, m, pos, nl + 1) matches Ok(m2) ==> raids_inv(b, m2, nl + 1),
{
    reveal(step);
    lemma_find_byte(b, pos, b.len() as int, 0x0a);
    let te = pos + trimmed_end_len(b.subrange(pos, nl + 1));
    assert(te == trimmed_line_end(b, pos));
    lemma_trimmed_end_bounds(b.subrange(pos, nl + 1));
    let sp = find_double_space(b, pos, te);
    lemma_find_double_space(b, pos, te);
    if sp >= te {
        if let Some(r) = m.active {
            if r.raid {
                lemma_no_event_lines_extend(b, r.end as int, pos, nl);
            }
        }
    } else {
        let stamp = span(pos, sp);
        let line = span(pos, nl + 1);
        let es = sp + 2;
        assert(at_event(b, pos, nl, es, te));
        lemma_zone_or_start(b, es, te);
        lemma_zone_raids(b, m, pos, nl, stamp, es, te);
        if let Ok(m1) = zone_phase(b, m, line, stamp, es, te) {
            let m2 = header_phase(b, m1, line, es, te);
            assert(raids_pre(b, m2, pos, nl));
            if zone_entry(b, es, te) is Some {
                assert(start_phase(b, m2, line, stamp, es, te) == Ok::<ScanModel, ScanError>(m2));
                lemma_active_raids(b, m2, pos, nl, stamp, es, te);
            } else {
                assert(raids_inv(b, m2, pos));
                lemma_start_raids(b, m2, pos, nl, stamp, es, te);
                if let Ok(m3) = start_phase(b, m2, line, stamp, es, te) {
                    lemma_active_raids(b, m3, pos, nl, stamp, es, te);
                }
            }
        }
    }
}

proof fn lemma_no_more_lines(b: Seq<u8>, pos: int, p: int)
    requires
        0 <= pos <= p,
        pos >= b.len() || find_byte(b, pos, b.len() as int, 0x0a) >= b.len(),
    ensures
        !event_line_at(b, p),
{
    if 0 <= p < b.len() {
        lemma_find_byte(b, pos, b.len() as int, 0x0a);
        lemma_find_byte(b, p, b.len() as int, 0x0a);
        let k = find_byte(b, p, b.len() as int, 0x0a);
        if k < b.len() {
            assert(b[k] == 0x0a);
        }
    }
}

proof fn lemma_scan_lines_raids(b: Seq<u8>, pos: int, m: ScanModel)
    requires
        raids_inv(b, m, pos),
        line_start(b, pos),
        valid_utf8(b),
        0 <= pos <= b.len() <= usize::MAX,
    ensures
        scan_lines(b, pos, m) matches Ok(m2) ==> {
            &&& forall|i: int| 0 <= i < m2.runs.len() ==> raid_closed(b, #[trigger] m2.runs[i])
            &&& (m2.active matches Some(r) ==> (r.raid ==> forall|p: int|
                line_start(b, p) && r.end <= p ==> !#[trigger] event_line_at(b, p)))
        },
    decreases b.len() - pos,
{
    let nl = find_byte(b, pos, b.len() as int, 0x0a);
    if pos < b.len() {
        lemma_find_byte(b, pos, b.len() as int, 0x0a);
    }
    if pos < b.len() && nl < b.len() {
        lemma_step_raids(b, m, pos, nl);
        if let Ok(m2) = step(b, m, pos, nl + 1) {
            lemma_scan_lines_raids(b, nl + 1, m2);
        }
    } else {
        if let Some(r) = m.active {
            if r.raid {
                assert forall|p: int| line_start(b, p) && r.end <= p implies !#[trigger] event_line_at(b, p) by {
                    if p >= pos {
                        lemma_no_more_lines(b, pos, p);
                    }
                }
            }
        }
    }
}

/// A raid session is reported complete exactly when its last encounter has
/// ended and a later line left it. A complete raid has no encounter going on
/// and is followed by a line that leaves it: a key start, or a zone change to
/// another zone or another difficulty. So a raid with no such later line is
/// incomplete. And a raid with no encounter going on that is followed by any
/// event line is complete.
pub proof fn law_complete_raids_were_left(b: Seq<u8>)
    requires
        b.len() <= usize::MAX,
        valid_utf8(b),
    ensures
        scan_log(b) matches Ok(runs) ==> forall|i: int|
            0 <= i < runs.len() && is_raid_run(#[trigger] runs[i]) ==> {
                &&& runs[i].complete ==> !runs[i].encounter_open && exists|p: int|
                    line_start(b, p) && runs[i].end <= p && leaves_at(b, p, runs[i].zone, runs[i].difficulty)
                &&& (!runs[i].encounter_open && exists|p: int|
                    line_start(b, p) && runs[i].end <= p && event_line_at(b, p)) ==> runs[i].complete
            },
{
    lemma_ascii_chars_raid();
    lemma_scan_lines_raids(b, 0, initial_model());
    if let Ok(m) = scan_lines(b, 0, initial_model()) {
        let runs = finish_model(b, m, false).runs;
        assert forall|i: int| 0 <= i < runs.len() && is_raid_run(#[trigger] runs[i]) implies {
            &&& runs[i].complete ==> !runs[i].encounter_open && exists|p: int|
                line_start(b, p) && runs[i].end <= p && leaves_at(b, p, runs[i].zone, runs[i].difficulty)
            &&& (!runs[i].encounter_open && exists|p: int|
                line_start(b, p) && runs[i].end <= p && event_line_at(b, p)) ==> runs[i].complete
        } by {
            if i < m.runs.len() {
                assert(runs[i] == m.runs[i]);
                assert(raid_closed(b, m.runs[i]));
                if runs[i].complete {
                    let p = choose|p: int| line_start(b, p) && runs[i].end <= p && #[trigger] leaves_at(b, p, runs[i].zone, runs[i].difficulty);
                    assert(line_start(b, p) && runs[i].end <= p && leaves_at(b, p, runs[i].zone, runs[i].difficulty));
                }
            } else {
                let r = m.active->0;
                if !runs[i].encounter_open && exists|p: int|
                    line_start(b, p) && runs[i].end <= p && event_line_at(b, p) {
                    let p = choose|p: int| line_start(b, p) && runs[i].end <= p && event_line_at(b, p);
                    assert(!event_line_at(b, p));
                }
            }
        }
    }
}

} // verus!
