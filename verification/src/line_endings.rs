//! Line endings do not change what a scan finds: the same log written with
//! CRLF line ends gives the same runs, with the same ids.
use vstd::prelude::*;
use crate::text::{trimmed_end_len, lemma_trimmed_end_bounds};
use crate::events::{
    Span, span, bytes_of, find_byte, lemma_find_byte, find_double_space, zone_entry, key_start,
    field, parse_uint, shift, lemma_local_bytes, lemma_local_find_double_space,
    lemma_local_has_prefix, lemma_local_parse_uint, lemma_local_digits_value, lemma_local_zone_entry,
    lemma_local_key_start, lemma_local_field, lemma_zone_entry_within, lemma_key_start_within,
    lemma_field, lemma_find_double_space_range, key_end_tag, encounter_start_tag,
    encounter_end_tag,
};
use crate::runs::{
    RunView, OpenRun, ScanModel, ScanError, run_view, finish_model, zone_phase, header_phase,
    start_phase, active_phase, extend_run, ended_key, field_number, digest_line,
    crlf_trimmed_len, step, scan_lines, scan_log, initial_model,
};

verus! {

broadcast use vstd::seq_lib::group_seq_properties;

// ---------------------------------------------------------------------------
// Runs that differ only in where their bytes lie
// ---------------------------------------------------------------------------

/// Two runs agree on everything but their byte offsets and raw context lines.
pub open spec fn same_run(v1: RunView, v2: RunView) -> bool {
    &&& v1.id == v2.id
    &&& v1.name == v2.name
    &&& v1.level == v2.level
    &&& v1.kind == v2.kind
    &&& v1.difficulty == v2.difficulty
    &&& v1.started == v2.started
    &&& v1.ended == v2.ended
    &&& v1.duration_ms == v2.duration_ms
    &&& v1.complete == v2.complete
    &&& v1.missing_start == v2.missing_start
    &&& v1.zone == v2.zone
    &&& v1.attempts == v2.attempts
    &&& v1.encounter_open == v2.encounter_open
}

pub open spec fn same_runs(r1: Seq<RunView>, r2: Seq<RunView>) -> bool {
    &&& r1.len() == r2.len()
    &&& forall|i: int| 0 <= i < r1.len() ==> same_run(#[trigger] r1[i], r2[i])
}

/// Two scan results that are the same error, or runs that agree one by one.
pub open spec fn same_scan(x1: Result<Seq<RunView>, ScanError>, x2: Result<Seq<RunView>, ScanError>) -> bool {
    match (x1, x2) {
        (Err(e1), Err(e2)) => e1 == e2,
        (Ok(r1), Ok(r2)) => same_runs(r1, r2),
        _ => false,
    }
}

pub open spec fn same_span_opt(b1: Seq<u8>, s1: Option<Span>, b2: Seq<u8>, s2: Option<Span>) -> bool {
    match (s1, s2) {
        (None, None) => true,
        (Some(x1), Some(x2)) => bytes_of(b1, x1) == bytes_of(b2, x2),
        _ => false,
    }
}

/// Two runs being followed, one in each log, that hold the same text and numbers.
pub open spec fn same_open_run(b1: Seq<u8>, r1: OpenRun, b2: Seq<u8>, r2: OpenRun) -> bool {
    &&& r1.raid == r2.raid
    &&& bytes_of(b1, r1.name) == bytes_of(b2, r2.name)
    &&& r1.level == r2.level
    &&& r1.difficulty == r2.difficulty
    &&& bytes_of(b1, r1.zone) == bytes_of(b2, r2.zone)
    &&& bytes_of(b1, r1.started) == bytes_of(b2, r2.started)
    &&& same_span_opt(b1, r1.ended, b2, r2.ended)
    &&& r1.duration_ms == r2.duration_ms
    &&& r1.complete == r2.complete
    &&& r1.missing_start == r2.missing_start
    &&& r1.attempts == r2.attempts
    &&& r1.encounter_open == r2.encounter_open
}

pub open spec fn same_active(b1: Seq<u8>, a1: Option<OpenRun>, b2: Seq<u8>, a2: Option<OpenRun>) -> bool {
    match (a1, a2) {
        (None, None) => true,
        (Some(r1), Some(r2)) => same_open_run(b1, r1, b2, r2),
        _ => false,
    }
}

/// Two scanner states, one for each log, that will emit the same runs.
pub open spec fn same_model(b1: Seq<u8>, m1: ScanModel, b2: Seq<u8>, m2: ScanModel) -> bool {
    &&& same_runs(m1.runs, m2.runs)
    &&& m1.digest == m2.digest
    &&& same_active(b1, m1.active, b2, m2.active)
}

pub open spec fn same_outcome(
    b1: Seq<u8>,
    x1: Result<ScanModel, ScanError>,
    b2: Seq<u8>,
    x2: Result<ScanModel, ScanError>,
) -> bool {
    match (x1, x2) {
        (Err(e1), Err(e2)) => e1 == e2,
        (Ok(m1), Ok(m2)) => same_model(b1, m1, b2, m2),
        _ => false,
    }
}

proof fn lemma_same_runs_push(r1: Seq<RunView>, r2: Seq<RunView>, v1: RunView, v2: RunView)
    requires
        same_runs(r1, r2),
        same_run(v1, v2),
    ensures
        same_runs(r1.push(v1), r2.push(v2)),
{
    assert forall|i: int| 0 <= i < r1.push(v1).len() implies same_run(
        #[trigger] r1.push(v1)[i],
        r2.push(v2)[i],
    ) by {
        if i < r1.len() {
            assert(r1.push(v1)[i] == r1[i]);
            assert(r2.push(v2)[i] == r2[i]);
        }
    }
}

proof fn lemma_finish(b1: Seq<u8>, m1: ScanModel, b2: Seq<u8>, m2: ScanModel, closed: bool)
    requires
        same_model(b1, m1, b2, m2),
    ensures
        same_model(b1, finish_model(b1, m1, closed), b2, finish_model(b2, m2, closed)),
{
    if let (Some(r1), Some(r2)) = (m1.active, m2.active) {
        if !(r1.missing_start && !r1.complete) && !(r1.raid && r1.attempts == 0) {
            let d1 = if r1.raid {
                OpenRun { complete: closed && !r1.encounter_open, ..r1 }
            } else {
                r1
            };
            let d2 = if r2.raid {
                OpenRun { complete: closed && !r2.encounter_open, ..r2 }
            } else {
                r2
            };
            let v1 = run_view(b1, d1, m1.digest);
            let v2 = run_view(b2, d2, m2.digest);
            assert(same_run(v1, v2));
            lemma_same_runs_push(m1.runs, m2.runs, v1, v2);
        }
    }
}


// ---------------------------------------------------------------------------
// One line, read where it stands in each log
// ---------------------------------------------------------------------------

/// The same `n` bytes stand at `o1` in `b1` and at `o2` in `b2`.
pub open spec fn line_at(b1: Seq<u8>, o1: int, b2: Seq<u8>, o2: int, n: int) -> bool {
    &&& 0 <= o1
    &&& 0 <= o2
    &&& 0 <= n
    &&& o1 + n <= b1.len() <= usize::MAX
    &&& o2 + n <= b2.len() <= usize::MAX
    &&& b1.subrange(o1, o1 + n) == b2.subrange(o2, o2 + n)
}

proof fn lemma_same_bytes(b1: Seq<u8>, o1: int, b2: Seq<u8>, o2: int, n: int, x: Span)
    requires
        line_at(b1, o1, b2, o2, n),
        x.lo <= x.hi <= n,
    ensures
        bytes_of(b1, shift(x, o1)) == bytes_of(b2, shift(x, o2)),
{
    lemma_local_bytes(b1, o1, n, x);
    lemma_local_bytes(b2, o2, n, x);
}

proof fn lemma_same_stamp(b1: Seq<u8>, o1: int, b2: Seq<u8>, o2: int, n: int, st: int)
    requires
        line_at(b1, o1, b2, o2, n),
        0 <= st <= n,
    ensures
        bytes_of(b1, span(o1, o1 + st)) == bytes_of(b2, span(o2, o2 + st)),
{
    lemma_same_bytes(b1, o1, b2, o2, n, span(0, st));
}

proof fn lemma_same_field(b1: Seq<u8>, o1: int, b2: Seq<u8>, o2: int, n: int, x: int, k: nat, max: nat)
    requires
        line_at(b1, o1, b2, o2, n),
        0 <= x <= n,
    ensures
        field(b1, o1 + x, o1 + n, k) is Some == field(b2, o2 + x, o2 + n, k) is Some,
        field(b1, o1 + x, o1 + n, k) matches Some(f1) ==> (field(b2, o2 + x, o2 + n, k) matches Some(f2)
            && bytes_of(b1, f1) == bytes_of(b2, f2)),
        field_number(b1, o1 + x, o1 + n, k, max) == field_number(b2, o2 + x, o2 + n, k, max),
{
    let s = b1.subrange(o1, o1 + n);
    lemma_local_field(b1, o1, n, x, n, k);
    lemma_local_field(b2, o2, n, x, n, k);
    lemma_field(s, x, n, k);
    if let Some(f) = field(s, x, n, k) {
        lemma_same_bytes(b1, o1, b2, o2, n, f);
        lemma_local_parse_uint(b1, o1, n, f.lo as int, f.hi as int, max);
        lemma_local_parse_uint(b2, o2, n, f.lo as int, f.hi as int, max);
    }
}

proof fn lemma_zone_phase(
    b1: Seq<u8>,
    m1: ScanModel,
    l1: Span,
    o1: int,
    b2: Seq<u8>,
    m2: ScanModel,
    l2: Span,
    o2: int,
    n: int,
    st: int,
    x: int,
)
    requires
        same_model(b1, m1, b2, m2),
        line_at(b1, o1, b2, o2, n),
        0 <= st <= x <= n,
    ensures
        same_outcome(
            b1,
            zone_phase(b1, m1, l1, span(o1, o1 + st), o1 + x, o1 + n),
            b2,
            zone_phase(b2, m2, l2, span(o2, o2 + st), o2 + x, o2 + n),
        ),
{
    let s = b1.subrange(o1, o1 + n);
    lemma_local_zone_entry(b1, o1, n, x, n);
    lemma_local_zone_entry(b2, o2, n, x, n);
    lemma_same_stamp(b1, o1, b2, o2, n, st);
    if let Some(z) = zone_entry(s, x, n) {
        lemma_zone_entry_within(s, x, n);
        lemma_local_parse_uint(b1, o1, n, z.difficulty.lo as int, z.difficulty.hi as int, u32::MAX as nat);
        lemma_local_parse_uint(b2, o2, n, z.difficulty.lo as int, z.difficulty.hi as int, u32::MAX as nat);
        lemma_local_digits_value(b1, o1, n, z.difficulty.lo as int, z.difficulty.hi as int);
        lemma_local_digits_value(b2, o2, n, z.difficulty.lo as int, z.difficulty.hi as int);
        lemma_same_bytes(b1, o1, b2, o2, n, z.zone);
        lemma_same_bytes(b1, o1, b2, o2, n, z.name);
        let z1 = zone_entry(b1, o1 + x, o1 + n)->0;
        let z2 = zone_entry(b2, o2 + x, o2 + n)->0;
        if let Some(dv) = parse_uint(s, z.difficulty.lo as int, z.difficulty.hi as int, u32::MAX as nat) {
            let difficulty = dv as u32;
            let p1 = match m1.active {
                Some(r) => !r.raid && (bytes_of(b1, r.zone) != bytes_of(b1, z1.zone) || difficulty != 8),
                None => false,
            };
            let p2 = match m2.active {
                Some(r) => !r.raid && (bytes_of(b2, r.zone) != bytes_of(b2, z2.zone) || difficulty != 8),
                None => false,
            };
            assert(p1 == p2);
            lemma_finish(b1, m1, b2, m2, false);
            let n1 = if p1 {
                finish_model(b1, m1, false)
            } else {
                m1
            };
            let n2 = if p2 {
                finish_model(b2, m2, false)
            } else {
                m2
            };
            assert(same_model(b1, n1, b2, n2));
            let same1 = match n1.active {
                Some(r) => r.raid && bytes_of(b1, r.zone) == bytes_of(b1, z1.zone) && r.difficulty
                    == difficulty,
                None => false,
            };
            let same2 = match n2.active {
                Some(r) => r.raid && bytes_of(b2, r.zone) == bytes_of(b2, z2.zone) && r.difficulty
                    == difficulty,
                None => false,
            };
            assert(same1 == same2);
            lemma_finish(b1, n1, b2, n2, true);
            let q1 = match n1.active {
                Some(r) => if r.raid && !same1 {
                    finish_model(b1, n1, true)
                } else {
                    n1
                },
                None => n1,
            };
            let q2 = match n2.active {
                Some(r) => if r.raid && !same2 {
                    finish_model(b2, n2, true)
                } else {
                    n2
                },
                None => n2,
            };
            assert(same_model(b1, q1, b2, q2));
            lemma_finish(b1, q1, b2, q2, false);
        }
    }
}

proof fn lemma_header_phase(b1: Seq<u8>, m1: ScanModel, l1: Span, es1: int, ee1: int, b2: Seq<u8>, m2: ScanModel, l2: Span, es2: int, ee2: int)
    requires
        same_model(b1, m1, b2, m2),
    ensures
        same_model(b1, header_phase(b1, m1, l1, es1, ee1), b2, header_phase(b2, m2, l2, es2, ee2)),
{
}

proof fn lemma_start_phase(
    b1: Seq<u8>,
    m1: ScanModel,
    l1: Span,
    o1: int,
    b2: Seq<u8>,
    m2: ScanModel,
    l2: Span,
    o2: int,
    n: int,
    st: int,
    x: int,
)
    requires
        same_model(b1, m1, b2, m2),
        line_at(b1, o1, b2, o2, n),
        0 <= st <= x <= n,
    ensures
        same_outcome(
            b1,
            start_phase(b1, m1, l1, span(o1, o1 + st), o1 + x, o1 + n),
            b2,
            start_phase(b2, m2, l2, span(o2, o2 + st), o2 + x, o2 + n),
        ),
{
    let s = b1.subrange(o1, o1 + n);
    lemma_local_key_start(b1, o1, n, x, n);
    lemma_local_key_start(b2, o2, n, x, n);
    lemma_same_stamp(b1, o1, b2, o2, n, st);
    lemma_finish(b1, m1, b2, m2, true);
    if let Some(k) = key_start(s, x, n) {
        lemma_key_start_within(s, x, n);
        lemma_local_parse_uint(b1, o1, n, k.level.lo as int, k.level.hi as int, u32::MAX as nat);
        lemma_local_parse_uint(b2, o2, n, k.level.lo as int, k.level.hi as int, u32::MAX as nat);
        lemma_local_digits_value(b1, o1, n, k.level.lo as int, k.level.hi as int);
        lemma_local_digits_value(b2, o2, n, k.level.lo as int, k.level.hi as int);
        lemma_same_bytes(b1, o1, b2, o2, n, k.zone);
        lemma_same_bytes(b1, o1, b2, o2, n, k.name);
    }
}

/// The part of a line that its digest covers: the line without its line break.
pub open spec fn line_key(b: Seq<u8>, l: Span) -> Seq<u8> {
    bytes_of(b, l).subrange(0, crlf_trimmed_len(bytes_of(b, l)))
}

proof fn lemma_active_phase(
    b1: Seq<u8>,
    m1: ScanModel,
    l1: Span,
    o1: int,
    b2: Seq<u8>,
    m2: ScanModel,
    l2: Span,
    o2: int,
    n: int,
    st: int,
    x: int,
)
    requires
        same_model(b1, m1, b2, m2),
        line_at(b1, o1, b2, o2, n),
        0 <= st <= x <= n,
        line_key(b1, l1) == line_key(b2, l2),
    ensures
        same_model(
            b1,
            active_phase(b1, m1, l1, span(o1, o1 + st), o1 + x, o1 + n),
            b2,
            active_phase(b2, m2, l2, span(o2, o2 + st), o2 + x, o2 + n),
        ),
{
    let st1 = span(o1, o1 + st);
    let st2 = span(o2, o2 + st);
    let es1 = o1 + x;
    let es2 = o2 + x;
    let ee1 = o1 + n;
    let ee2 = o2 + n;
    lemma_same_stamp(b1, o1, b2, o2, n, st);
    lemma_local_has_prefix(b1, o1, n, x, n, encounter_start_tag());
    lemma_local_has_prefix(b2, o2, n, x, n, encounter_start_tag());
    lemma_local_has_prefix(b1, o1, n, x, n, encounter_end_tag());
    lemma_local_has_prefix(b2, o2, n, x, n, encounter_end_tag());
    lemma_local_has_prefix(b1, o1, n, x, n, key_end_tag());
    lemma_local_has_prefix(b2, o2, n, x, n, key_end_tag());
    lemma_same_field(b1, o1, b2, o2, n, x, 1, 0);
    lemma_same_field(b1, o1, b2, o2, n, x, 2, 0);
    lemma_same_field(b1, o1, b2, o2, n, x, 3, u32::MAX as nat);
    lemma_same_field(b1, o1, b2, o2, n, x, 4, u64::MAX as nat);
    if let (Some(r1), Some(r2)) = (m1.active, m2.active) {
        let e1 = extend_run(b1, r1, l1, st1, es1, ee1);
        let e2 = extend_run(b2, r2, l2, st2, es2, ee2);
        assert(same_open_run(b1, e1, b2, e2));
        let k1 = ended_key(b1, e1, st1, es1, ee1);
        let k2 = ended_key(b2, e2, st2, es2, ee2);
        assert(same_open_run(b1, k1, b2, k2));
        let d = digest_line(m1.digest, bytes_of(b1, l1));
        assert(d == digest_line(m2.digest, bytes_of(b2, l2)));
        let a1 = ScanModel { digest: d, active: Some(e1), ..m1 };
        let a2 = ScanModel { digest: d, active: Some(e2), ..m2 };
        let c1 = ScanModel { active: Some(k1), ..a1 };
        let c2 = ScanModel { active: Some(k2), ..a2 };
        lemma_finish(b1, c1, b2, c2, false);
    }
}


proof fn lemma_step(b1: Seq<u8>, m1: ScanModel, o1: int, e1: int, b2: Seq<u8>, m2: ScanModel, o2: int, e2: int)
    requires
        same_model(b1, m1, b2, m2),
        0 <= o1 <= e1 <= b1.len() <= usize::MAX,
        0 <= o2 <= e2 <= b2.len() <= usize::MAX,
        trimmed_end_len(b1.subrange(o1, e1)) == trimmed_end_len(b2.subrange(o2, e2)),
        b1.subrange(o1, o1 + trimmed_end_len(b1.subrange(o1, e1))) == b2.subrange(
            o2,
            o2 + trimmed_end_len(b2.subrange(o2, e2)),
        ),
        line_key(b1, span(o1, e1)) == line_key(b2, span(o2, e2)),
    ensures
        same_outcome(b1, step(b1, m1, o1, e1), b2, step(b2, m2, o2, e2)),
{
    reveal(step);
    let n = trimmed_end_len(b1.subrange(o1, e1));
    lemma_trimmed_end_bounds(b1.subrange(o1, e1));
    lemma_trimmed_end_bounds(b2.subrange(o2, e2));
    let s = b1.subrange(o1, o1 + n);
    assert(line_at(b1, o1, b2, o2, n));
    lemma_local_find_double_space(b1, o1, n, 0, n);
    lemma_local_find_double_space(b2, o2, n, 0, n);
    lemma_find_double_space_range(s, 0, n);
    let sp = find_double_space(s, 0, n);
    if sp < n {
        let l1 = span(o1, e1);
        let l2 = span(o2, e2);
        let st1 = span(o1, o1 + sp);
        let st2 = span(o2, o2 + sp);
        lemma_zone_phase(b1, m1, l1, o1, b2, m2, l2, o2, n, sp, sp + 2);
        let z1 = zone_phase(b1, m1, l1, st1, o1 + sp + 2, o1 + n);
        let z2 = zone_phase(b2, m2, l2, st2, o2 + sp + 2, o2 + n);
        if let (Ok(y1), Ok(y2)) = (z1, z2) {
            let h1 = header_phase(b1, y1, l1, o1 + sp + 2, o1 + n);
            let h2 = header_phase(b2, y2, l2, o2 + sp + 2, o2 + n);
            lemma_header_phase(b1, y1, l1, o1 + sp + 2, o1 + n, b2, y2, l2, o2 + sp + 2, o2 + n);
            lemma_start_phase(b1, h1, l1, o1, b2, h2, l2, o2, n, sp, sp + 2);
            let k1 = start_phase(b1, h1, l1, st1, o1 + sp + 2, o1 + n);
            let k2 = start_phase(b2, h2, l2, st2, o2 + sp + 2, o2 + n);
            if let (Ok(w1), Ok(w2)) = (k1, k2) {
                lemma_active_phase(b1, w1, l1, o1, b2, w2, l2, o2, n, sp, sp + 2);
            }
        }
    }
}

// ---------------------------------------------------------------------------
// The same log with CRLF line ends
// ---------------------------------------------------------------------------

/// What a byte becomes with CRLF line ends: a line feed becomes a carriage
/// return and a line feed, any other byte stays.
pub open spec fn crlf_piece(x: u8) -> Seq<u8> {
    if x == 0x0a {
        seq![0x0du8, 0x0au8]
    } else {
        seq![x]
    }
}

/// The log with every line feed written as a carriage return and a line feed.
pub open spec fn crlf(b: Seq<u8>) -> Seq<u8>
    decreases b.len(),
{
    if b.len() == 0 {
        Seq::empty()
    } else {
        crlf(b.drop_last()) + crlf_piece(b.last())
    }
}

/// Where byte `i` of `b` lands in `crlf(b)`.
pub open spec fn crlf_pos(b: Seq<u8>, i: int) -> int {
    crlf(b.subrange(0, i)).len() as int
}

proof fn lemma_crlf_prefix(b: Seq<u8>, i: int)
    requires
        0 <= i <= b.len(),
    ensures
        crlf_pos(b, i) <= crlf(b).len(),
        crlf(b).subrange(0, crlf_pos(b, i)) == crlf(b.subrange(0, i)),
    decreases b.len(),
{
    if i == b.len() {
        assert(b.subrange(0, i) =~= b);
        assert(crlf(b).subrange(0, crlf(b).len() as int) =~= crlf(b));
    } else {
        let c = b.drop_last();
        assert(b.subrange(0, i) =~= c.subrange(0, i));
        lemma_crlf_prefix(c, i);
        assert(crlf(b).subrange(0, crlf_pos(b, i)) =~= crlf(c).subrange(0, crlf_pos(c, i)));
    }
}

proof fn lemma_crlf_next(b: Seq<u8>, i: int)
    requires
        0 <= i < b.len(),
    ensures
        crlf(b.subrange(0, i + 1)) == crlf(b.subrange(0, i)) + crlf_piece(b[i]),
        crlf_pos(b, i + 1) == crlf_pos(b, i) + crlf_piece(b[i]).len(),
        crlf_pos(b, i + 1) <= crlf(b).len(),
        forall|k: int| 0 <= k < crlf_piece(b[i]).len() ==> crlf(b)[crlf_pos(b, i) + k] == crlf_piece(b[i])[k],
{
    assert(b.subrange(0, i + 1).drop_last() =~= b.subrange(0, i));
    lemma_crlf_prefix(b, i + 1);
    assert forall|k: int| 0 <= k < crlf_piece(b[i]).len() implies crlf(b)[crlf_pos(b, i) + k]
        == crlf_piece(b[i])[k] by {
        assert(crlf(b).subrange(0, crlf_pos(b, i + 1))[crlf_pos(b, i) + k] == crlf(b)[crlf_pos(b, i) + k]);
    }
}

/// Bytes without a line feed stand unchanged, one for one.
proof fn lemma_crlf_plain(b: Seq<u8>, p: int, q: int)
    requires
        0 <= p <= q <= b.len(),
        forall|i: int| p <= i < q ==> b[i] != 0x0a,
    ensures
        crlf_pos(b, q) == crlf_pos(b, p) + (q - p),
        crlf(b).subrange(crlf_pos(b, p), crlf_pos(b, q)) == b.subrange(p, q),
    decreases q - p,
{
    lemma_crlf_prefix(b, q);
    if p < q {
        lemma_crlf_plain(b, p, q - 1);
        lemma_crlf_next(b, q - 1);
        assert(crlf_piece(b[q - 1])[0] == b[q - 1]);
        assert(crlf(b)[crlf_pos(b, q - 1)] == b[q - 1]);
        assert(crlf(b).subrange(crlf_pos(b, p), crlf_pos(b, q)) =~= crlf(b).subrange(
            crlf_pos(b, p),
            crlf_pos(b, q - 1),
        ).push(b[q - 1]));
        assert(b.subrange(p, q) =~= b.subrange(p, q - 1).push(b[q - 1]));
    }
}

proof fn lemma_find_byte_skip(c: Seq<u8>, p: int, q: int, h: int, x: u8)
    requires
        0 <= p <= q <= h,
        forall|i: int| p <= i < q ==> c[i] != x,
    ensures
        find_byte(c, p, h, x) == find_byte(c, q, h, x),
    decreases q - p,
{
    if p < q {
        lemma_find_byte_skip(c, p + 1, q, h, x);
    }
}

/// A line of `b` from `pos` is a line of `crlf(b)` from `crlf_pos(b, pos)`,
/// its line feed preceded by a carriage return.
proof fn lemma_crlf_line(b: Seq<u8>, pos: int)
    requires
        0 <= pos <= b.len(),
    ensures
        ({
            let nl = find_byte(b, pos, b.len() as int, 0x0a);
            let c = crlf(b);
            let p = crlf_pos(b, pos);
            &&& p <= c.len()
            &&& (pos < b.len() <==> p < c.len())
            &&& nl < b.len() ==> {
                &&& find_byte(c, p, c.len() as int, 0x0a) == crlf_pos(b, nl) + 1
                &&& crlf_pos(b, nl) == p + (nl - pos)
                &&& crlf_pos(b, nl + 1) == crlf_pos(b, nl) + 2
                &&& c.subrange(p, crlf_pos(b, nl)) == b.subrange(pos, nl)
                &&& c[crlf_pos(b, nl)] == 0x0d
                &&& c[crlf_pos(b, nl) + 1] == 0x0a
            }
            &&& nl >= b.len() ==> find_byte(c, p, c.len() as int, 0x0a) >= c.len()
        }),
{
    let n = b.len() as int;
    let nl = find_byte(b, pos, n, 0x0a);
    let c = crlf(b);
    let p = crlf_pos(b, pos);
    lemma_find_byte(b, pos, n, 0x0a);
    lemma_crlf_prefix(b, pos);
    lemma_crlf_plain(b, pos, nl);
    lemma_crlf_prefix(b, nl);
    lemma_crlf_prefix(b, n);
    assert(b.subrange(0, n) =~= b);
    assert forall|i: int| p <= i < crlf_pos(b, nl) implies c[i] != 0x0a by {
        assert(c.subrange(p, crlf_pos(b, nl))[i - p] == b.subrange(pos, nl)[i - p]);
    }
    if nl < n {
        lemma_crlf_next(b, nl);
        assert(crlf_piece(b[nl])[0] == 0x0d);
        assert(crlf_piece(b[nl])[1] == 0x0a);
        lemma_find_byte_skip(c, p, crlf_pos(b, nl) + 1, c.len() as int, 0x0a);
        lemma_crlf_prefix(b, nl + 1);
    } else {
        lemma_find_byte_skip(c, p, c.len() as int, c.len() as int, 0x0a);
    }
    if pos < n {
        lemma_crlf_next(b, pos);
        lemma_crlf_prefix(b, pos + 1);
    }
}


proof fn lemma_crlf_len(b: Seq<u8>)
    ensures
        b.len() <= crlf(b).len(),
    decreases b.len(),
{
    if b.len() > 0 {
        lemma_crlf_len(b.drop_last());
    }
}

/// A trailing carriage return or line feed is trimmed away.
proof fn lemma_trim_line_break(s: Seq<u8>, w: u8)
    requires
        w == 0x0a || w == 0x0d,
    ensures
        trimmed_end_len(s.push(w)) == trimmed_end_len(s),
        crlf_trimmed_len(s.push(w)) == crlf_trimmed_len(s),
{
    assert(s.push(w).subrange(0, s.len() as int) =~= s);
    assert(s.push(w).drop_last() =~= s);
}

proof fn lemma_crlf_trimmed_bound(s: Seq<u8>)
    ensures
        0 <= crlf_trimmed_len(s) <= s.len(),
    decreases s.len(),
{
    if s.len() > 0 && (s.last() == 0x0d || s.last() == 0x0a) {
        lemma_crlf_trimmed_bound(s.drop_last());
    }
}

proof fn lemma_scan_lines(b: Seq<u8>, pos: int, m1: ScanModel, m2: ScanModel)
    requires
        same_model(b, m1, crlf(b), m2),
        0 <= pos <= b.len(),
        crlf(b).len() <= usize::MAX,
    ensures
        same_outcome(b, scan_lines(b, pos, m1), crlf(b), scan_lines(crlf(b), crlf_pos(b, pos), m2)),
    decreases b.len() - pos,
{
    let c = crlf(b);
    lemma_crlf_len(b);
    lemma_crlf_line(b, pos);
    let nl = find_byte(b, pos, b.len() as int, 0x0a);
    let p = crlf_pos(b, pos);
    lemma_find_byte(b, pos, b.len() as int, 0x0a);
    if pos < b.len() && nl < b.len() {
        let cnl = crlf_pos(b, nl);
        let line = b.subrange(pos, nl);
        lemma_crlf_prefix(b, nl + 1);
        assert forall|i: int| 0 <= i < line.len() implies c[p + i] == line[i] by {
            assert(c.subrange(p, cnl)[i] == c[p + i]);
        }
        assert(b.subrange(pos, nl + 1) =~= line.push(0x0a));
        assert(c.subrange(p, cnl + 2) =~= line.push(0x0d).push(0x0a));
        lemma_trim_line_break(line, 0x0a);
        lemma_trim_line_break(line, 0x0d);
        lemma_trim_line_break(line.push(0x0d), 0x0a);
        let n = trimmed_end_len(line);
        lemma_trimmed_end_bounds(line);
        assert(b.subrange(pos, pos + n) =~= line.subrange(0, n));
        assert(c.subrange(p, p + n) =~= line.subrange(0, n));
        let k = crlf_trimmed_len(line);
        lemma_crlf_trimmed_bound(line);
        assert(line_key(b, span(pos, nl + 1)) =~= line.subrange(0, k));
        assert(line_key(c, span(p, cnl + 2)) =~= line.subrange(0, k));
        lemma_step(b, m1, pos, nl + 1, c, m2, p, cnl + 2);
        if let (Ok(x1), Ok(x2)) = (step(b, m1, pos, nl + 1), step(c, m2, p, cnl + 2)) {
            lemma_scan_lines(b, nl + 1, x1, x2);
        }
    }
}

/// The same log written with CRLF line ends (every `\n` as `\r\n`) scans to
/// the same runs in the same order: the same ids, names, levels, kinds,
/// difficulties, times, durations and flags. Only the byte offsets of the
/// runs and their raw context lines differ.
pub proof fn law_crlf_line_ends_keep_runs(b: Seq<u8>)
    requires
        crlf(b).len() <= usize::MAX,
    ensures
        same_scan(scan_log(b), scan_log(crlf(b))),
{
    let c = crlf(b);
    assert(b.subrange(0, 0) =~= Seq::<u8>::empty());
    assert(crlf_pos(b, 0) == 0);
    lemma_scan_lines(b, 0, initial_model(), initial_model());
    if let (Ok(x1), Ok(x2)) = (scan_lines(b, 0, initial_model()), scan_lines(c, 0, initial_model())) {
        lemma_finish(b, x1, c, x2, false);
    }
}

} // verus!
