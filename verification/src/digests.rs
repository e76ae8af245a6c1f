//! Every run a scan finds carries the digest of its own lines, so reading
//! those lines back gives its id again and the run can be extracted.
use vstd::prelude::*;
use crate::text::{ascii_chars, trimmed_end_len, lemma_trimmed_end_bounds};
use crate::events::{
    Span, span, bytes_of, find_byte, lemma_find_byte, find_double_space, zone_entry,
    has_prefix, field, key_end_tag, lemma_zone_or_start,
};
use crate::sessions::{
    line_start, event_line_at, trimmed_line_end, no_event_lines, lemma_no_event_lines_extend,
};
use crate::runs::{
    RunView, OpenRun, ScanModel, ScanError, finish_model, zone_phase, header_phase, start_phase,
    active_phase, extend_run, ended_key, digest_line, crlf_trimmed_len, step, scan_lines,
    scan_log, initial_model, fnv, fnv_offset, lines_digest, run_id_bytes, is_raid_run,
    lemma_ascii_chars_raid, find_run, extract_log, run_label, ExtractError,
};

verus! {

broadcast use vstd::seq_lib::group_seq_properties;

/// A run's id is the id of its kind and of the digest of its lines
/// `b[start..end]`, read back as `str::lines` yields them.
pub open spec fn digest_matches(b: Seq<u8>, r: RunView) -> bool {
    r.id == ascii_chars(
        run_id_bytes(is_raid_run(r), lines_digest(fnv_offset(), b, r.start as int, r.end as int)),
    )
}

/// The digest of one line `b[pos..nl]`, as a re-read computes it: without a
/// carriage return just before the line feed.
pub open spec fn line_digest(h: u64, b: Seq<u8>, pos: int, nl: int) -> u64 {
    let ce = if nl > pos && b[nl - 1] == 0x0d {
        nl - 1
    } else {
        nl
    };
    fnv(fnv(h, b.subrange(pos, ce)), seq![0x0au8])
}

proof fn lemma_find_byte_same(b: Seq<u8>, p: int, h1: int, h2: int, x: u8)
    requires
        0 <= p,
        h1 <= h2 <= b.len(),
        find_byte(b, p, h1, x) < h1,
    ensures
        find_byte(b, p, h2, x) == find_byte(b, p, h1, x),
    decreases h1 - p,
{
    if p < h1 && b[p] != x {
        lemma_find_byte_same(b, p + 1, h1, h2, x);
    }
}

proof fn lemma_find_byte_at(b: Seq<u8>, p: int, nl: int, h: int, x: u8)
    requires
        0 <= p <= nl < h <= b.len(),
        forall|k: int| p <= k < nl ==> b[k] != x,
        b[nl] == x,
    ensures
        find_byte(b, p, h, x) == nl,
    decreases nl - p,
{
    if p < nl {
        lemma_find_byte_at(b, p + 1, nl, h, x);
    }
}

/// Reading lines back from `p` up to the end of the line `b[pos..nl]` is
/// reading them up to `pos`, then that line.
proof fn lemma_lines_digest_extend(h: u64, b: Seq<u8>, p: int, pos: int, nl: int)
    requires
        0 <= p <= pos <= nl < b.len(),
        p == pos || b[pos - 1] == 0x0a,
        forall|k: int| pos <= k < nl ==> b[k] != 0x0a,
        b[nl] == 0x0a,
    ensures
        lines_digest(h, b, p, nl + 1) == line_digest(lines_digest(h, b, p, pos), b, pos, nl),
    decreases pos - p,
{
    if p == pos {
        lemma_find_byte_at(b, pos, nl, nl + 1, 0x0a);
        let h1 = line_digest(h, b, pos, nl);
        assert(lines_digest(h1, b, nl + 1, nl + 1) == h1);
        assert(lines_digest(h, b, pos, pos) == h);
    } else {
        lemma_find_byte(b, p, pos, 0x0a);
        let nl0 = find_byte(b, p, pos, 0x0a);
        if nl0 >= pos {
            assert(b[pos - 1] != 0x0a);
        }
        lemma_find_byte_same(b, p, pos, nl + 1, 0x0a);
        let ce = if nl0 < pos && nl0 > p && b[nl0 - 1] == 0x0d {
            nl0 - 1
        } else {
            nl0
        };
        let h2 = fnv(fnv(h, b.subrange(p, ce)), seq![0x0au8]);
        lemma_lines_digest_extend(h2, b, nl0 + 1, pos, nl);
        assert(lines_digest(h, b, p, pos) == lines_digest(h2, b, nl0 + 1, pos));
        assert(lines_digest(h, b, p, nl + 1) == lines_digest(h2, b, nl0 + 1, nl + 1));
    }
}

proof fn lemma_crlf_trimmed_no_cr(s: Seq<u8>)
    requires
        s.len() == 0 || (s.last() != 0x0d && s.last() != 0x0a),
    ensures
        crlf_trimmed_len(s) == s.len(),
{
}

/// The digest a scan adds for an event line is the one a re-read computes.
proof fn lemma_line_digest(h: u64, b: Seq<u8>, pos: int, nl: int)
    requires
        0 <= pos <= nl < b.len() <= usize::MAX,
        forall|k: int| pos <= k < nl ==> b[k] != 0x0a,
        b[nl] == 0x0a,
        !(nl - pos >= 2 && b[nl - 1] == 0x0d && b[nl - 2] == 0x0d),
    ensures
        digest_line(h, bytes_of(b, span(pos, nl + 1))) == line_digest(h, b, pos, nl),
{
    let line = b.subrange(pos, nl);
    assert(bytes_of(b, span(pos, nl + 1)) =~= line.push(0x0a));
    assert(line.push(0x0a).drop_last() =~= line);
    assert(crlf_trimmed_len(line.push(0x0a)) == crlf_trimmed_len(line));
    if nl > pos && b[nl - 1] == 0x0d {
        let shorter = b.subrange(pos, nl - 1);
        assert(line.drop_last() =~= shorter);
        assert(crlf_trimmed_len(line) == crlf_trimmed_len(shorter));
        if shorter.len() > 0 {
            assert(shorter.last() == b[nl - 2]);
        }
        lemma_crlf_trimmed_no_cr(shorter);
        assert(line.push(0x0a).subrange(0, nl - 1 - pos) =~= shorter);
    } else {
        if line.len() > 0 {
            assert(line.last() == b[nl - 1]);
        }
        lemma_crlf_trimmed_no_cr(line);
        assert(line.push(0x0a).subrange(0, nl - pos) =~= line);
    }
}


/// A complete event line starts at `p` that does not end in two carriage
/// returns.
pub open spec fn good_line_at(b: Seq<u8>, p: int) -> bool {
    let nl = find_byte(b, p, b.len() as int, 0x0a);
    &&& event_line_at(b, p)
    &&& !(nl - p >= 2 && b[nl - 1] == 0x0d && b[nl - 2] == 0x0d)
}

/// Every line that starts in `b[from..to]` is such a line.
pub open spec fn good_lines(b: Seq<u8>, from: int, to: int) -> bool {
    forall|p: int| line_start(b, p) && from <= p < to ==> #[trigger] good_line_at(b, p)
}

/// Every run whose own lines are good lines carries their digest.
pub open spec fn runs_digested(b: Seq<u8>, runs: Seq<RunView>) -> bool {
    forall|i: int|
        0 <= i < runs.len() && good_lines(b, runs[i].start as int, runs[i].end as int)
            ==> digest_matches(b, #[trigger] runs[i])
}

/// The run being followed spans whole lines, and its digest covers them when
/// they are good lines.
pub open spec fn open_digested(b: Seq<u8>, m: ScanModel, r: OpenRun) -> bool {
    &&& r.start <= r.end <= b.len()
    &&& line_start(b, r.start as int)
    &&& line_start(b, r.end as int)
    &&& good_lines(b, r.start as int, r.end as int) ==> m.digest == lines_digest(
        fnv_offset(),
        b,
        r.start as int,
        r.end as int,
    )
}

/// Between lines, at line start `pos`: no event line lies between the end
/// of the run being followed and `pos`.
pub open spec fn digests_inv(b: Seq<u8>, m: ScanModel, pos: int) -> bool {
    &&& runs_digested(b, m.runs)
    &&& (m.active matches Some(r) ==> open_digested(b, m, r) && r.end <= pos && no_event_lines(
        b,
        r.end as int,
        pos,
    ))
}

/// Within the event line `b[pos..nl]`, before the run being followed takes
/// it: that run is as between lines, or it was opened by this line.
pub open spec fn digests_pre(b: Seq<u8>, m: ScanModel, pos: int, nl: int) -> bool {
    &&& runs_digested(b, m.runs)
    &&& (m.active matches Some(r) ==> (open_digested(b, m, r) && r.end <= pos && no_event_lines(
        b,
        r.end as int,
        pos,
    )) || (r.start == pos && r.end == nl + 1 && m.digest == fnv_offset()))
}

proof fn lemma_finish_digests(b: Seq<u8>, m: ScanModel, closed: bool)
    requires
        runs_digested(b, m.runs),
        m.active matches Some(r) ==> (good_lines(b, r.start as int, r.end as int) ==> m.digest
            == lines_digest(fnv_offset(), b, r.start as int, r.end as int)),
    ensures
        runs_digested(b, finish_model(b, m, closed).runs),
        finish_model(b, m, closed).active is None,
{
    lemma_ascii_chars_raid();
    let f = finish_model(b, m, closed);
    assert forall|i: int|
        0 <= i < f.runs.len() && good_lines(b, f.runs[i].start as int, f.runs[i].end as int)
            implies digest_matches(b, #[trigger] f.runs[i]) by {
        if i < m.runs.len() {
            assert(f.runs[i] == m.runs[i]);
        }
    }
}

proof fn lemma_zone_digests(b: Seq<u8>, m: ScanModel, pos: int, nl: int, stamp: Span, es: int, te: int)
    requires
        digests_inv(b, m, pos),
        0 <= pos <= nl < b.len() <= usize::MAX,
    ensures
        zone_phase(b, m, span(pos, nl + 1), stamp, es, te) matches Ok(m2) ==> digests_pre(b, m2, pos, nl),
        zone_entry(b, es, te) is None ==> zone_phase(b, m, span(pos, nl + 1), stamp, es, te) == Ok::<
            ScanModel,
            ScanError,
        >(m),
{
    if let Some(z) = zone_entry(b, es, te) {
        if let Some(dv) = crate::events::parse_uint(
            b,
            z.difficulty.lo as int,
            z.difficulty.hi as int,
            u32::MAX as nat,
        ) {
            let difficulty = dv as u32;
            lemma_finish_digests(b, m, false);
            let m1 = match m.active {
                Some(r) => if !r.raid && (bytes_of(b, r.zone) != bytes_of(b, z.zone) || difficulty
                    != 8) {
                    finish_model(b, m, false)
                } else {
                    m
                },
                None => m,
            };
            let same = match m1.active {
                Some(r) => r.raid && bytes_of(b, r.zone) == bytes_of(b, z.zone) && r.difficulty
                    == difficulty,
                None => false,
            };
            lemma_finish_digests(b, m1, true);
            let m2 = match m1.active {
                Some(r) => if r.raid && !same {
                    finish_model(b, m1, true)
                } else {
                    m1
                },
                None => m1,
            };
            lemma_finish_digests(b, m2, false);
        }
    }
}

proof fn lemma_start_digests(b: Seq<u8>, m: ScanModel, pos: int, nl: int, stamp: Span, es: int, te: int)
    requires
        digests_inv(b, m, pos),
        0 <= pos <= nl < b.len() <= usize::MAX,
    ensures
        start_phase(b, m, span(pos, nl + 1), stamp, es, te) matches Ok(m2) ==> digests_pre(b, m2, pos, nl),
{
    lemma_finish_digests(b, m, true);
}

proof fn lemma_active_digests(b: Seq<u8>, m: ScanModel, pos: int, nl: int, stamp: Span, es: int, te: int)
    requires
        digests_pre(b, m, pos, nl),
        line_start(b, pos),
        event_line_at(b, pos),
        0 <= pos <= nl < b.len() <= usize::MAX,
        nl == find_byte(b, pos, b.len() as int, 0x0a),
    ensures
        digests_inv(b, active_phase(b, m, span(pos, nl + 1), stamp, es, te), nl + 1),
{
    let line = span(pos, nl + 1);
    lemma_find_byte(b, pos, b.len() as int, 0x0a);
    if let Some(r) = m.active {
        let digest = digest_line(m.digest, bytes_of(b, line));
        let r2 = extend_run(b, r, line, stamp, es, te);
        let m1 = ScanModel { digest, active: Some(r2), ..m };
        if good_lines(b, r.start as int, nl + 1) {
            assert(good_line_at(b, pos));
            lemma_line_digest(m.digest, b, pos, nl);
            if r.start == pos && r.end == nl + 1 && m.digest == fnv_offset() {
                lemma_lines_digest_extend(fnv_offset(), b, pos, pos, nl);
            } else {
                if r.end < pos {
                    assert(good_line_at(b, r.end as int));
                }
                assert(r.end == pos);
                assert(good_lines(b, r.start as int, r.end as int));
                lemma_lines_digest_extend(fnv_offset(), b, r.start as int, pos, nl);
            }
            assert(digest == lines_digest(fnv_offset(), b, r.start as int, nl + 1));
        }
        assert(open_digested(b, m1, r2));
        assert(digests_inv(b, m1, nl + 1));
        if !r2.raid && has_prefix(b, es, te, key_end_tag()) {
            if let Some(f1) = field(b, es, te, 1) {
                if bytes_of(b, f1) == bytes_of(b, r2.zone) {
                    let k = ended_key(b, r2, stamp, es, te);
                    lemma_finish_digests(b, ScanModel { active: Some(k), ..m1 }, false);
                }
            }
        }
    }
}

proof fn lemma_step_digests(b: Seq<u8>, m: ScanModel, pos: int, nl: int)
    requires
        digests_inv(b, m, pos),
        line_start(b, pos),
        0 <= pos <= nl < b.len() <= usize::MAX,
        nl == find_byte(b, pos, b.len() as int, 0x0a),
    ensures
        step(b, m, pos, nl + 1) matches Ok(m2) ==> digests_inv(b, m2, nl + 1),
{
    reveal(step);
    lemma_find_byte(b, pos, b.len() as int, 0x0a);
    let te = pos + trimmed_end_len(b.subrange(pos, nl + 1));
    assert(te == trimmed_line_end(b, pos));
    lemma_trimmed_end_bounds(b.subrange(pos, nl + 1));
    let sp = find_double_space(b, pos, te);
    crate::events::lemma_find_double_space(b, pos, te);
    if sp >= te {
        if let Some(r) = m.active {
            lemma_no_event_lines_extend(b, r.end as int, pos, nl);
        }
    } else {
        let stamp = span(pos, sp);
        let line = span(pos, nl + 1);
        let es = sp + 2;
        assert(event_line_at(b, pos));
        lemma_zone_or_start(b, es, te);
        lemma_zone_digests(b, m, pos, nl, stamp, es, te);
        if let Ok(m1) = zone_phase(b, m, line, stamp, es, te) {
            let m2 = header_phase(b, m1, line, es, te);
            if zone_entry(b, es, te) is Some {
                assert(start_phase(b, m2, line, stamp, es, te) == Ok::<ScanModel, ScanError>(m2));
                assert(digests_pre(b, m2, pos, nl));
                lemma_active_digests(b, m2, pos, nl, stamp, es, te);
            } else {
                assert(digests_inv(b, m2, pos));
                lemma_start_digests(b, m2, pos, nl, stamp, es, te);
                if let Ok(m3) = start_phase(b, m2, line, stamp, es, te) {
                    lemma_active_digests(b, m3, pos, nl, stamp, es, te);
                }
            }
        }
    }
}

proof fn lemma_scan_lines_digests(b: Seq<u8>, pos: int, m: ScanModel)
    requires
        digests_inv(b, m, pos),
        line_start(b, pos),
        0 <= pos <= b.len() <= usize::MAX,
    ensures
        scan_lines(b, pos, m) matches Ok(m2) ==> {
            &&& runs_digested(b, m2.runs)
            &&& (m2.active matches Some(r) ==> (good_lines(b, r.start as int, r.end as int)
                ==> m2.digest == lines_digest(fnv_offset(), b, r.start as int, r.end as int)))
        },
    decreases b.len() - pos,
{
    if pos < b.len() {
        let nl = find_byte(b, pos, b.len() as int, 0x0a);
        lemma_find_byte(b, pos, b.len() as int, 0x0a);
        if nl < b.len() {
            lemma_step_digests(b, m, pos, nl);
            if let Ok(m2) = step(b, m, pos, nl + 1) {
                lemma_scan_lines_digests(b, nl + 1, m2);
            }
        }
    }
}

/// A run found whose own lines `b[start..end]` are all event lines (two
/// spaces before their trailing white space) that do not end in two carriage
/// returns has the id of those lines, as a re-read of them computes it.
pub proof fn law_runs_carry_their_digests(b: Seq<u8>)
    requires
        b.len() <= usize::MAX,
    ensures
        scan_log(b) matches Ok(runs) ==> runs_digested(b, runs),
{
    lemma_scan_lines_digests(b, 0, initial_model());
    if let Ok(m) = scan_lines(b, 0, initial_model()) {
        lemma_finish_digests(b, m, false);
    }
}

/// A complete run that a scan finds (the first with its id), whose own lines
/// are all event lines that do not end in two carriage returns, is extracted
/// by its id: the text is its context lines followed by its own lines, with
/// its label and start.
pub proof fn law_found_runs_can_be_extracted(b: Seq<u8>, i: int)
    requires
        b.len() <= usize::MAX,
        scan_log(b) matches Ok(runs) && 0 <= i < runs.len() && runs[i].complete && find_run(
            runs,
            runs[i].id,
            0,
        ) == i && good_lines(b, runs[i].start as int, runs[i].end as int),
    ensures
        scan_log(b) matches Ok(runs) && extract_log(b, runs[i].id) == Ok::<
            (Seq<char>, Seq<char>),
            ExtractError,
        >(
            (
                runs[i].context + vstd::utf8::decode_utf8(
                    b.subrange(runs[i].start as int, runs[i].end as int),
                ),
                run_label(runs[i]) + " \u{2014} "@ + runs[i].started,
            ),
        ),
{
    law_runs_carry_their_digests(b);
    if let Ok(runs) = scan_log(b) {
        assert(digest_matches(b, runs[i]));
    }
}

} // verus!
