//! Detection of Mythic+ keys and raid sessions in a combat log, and
//! extraction of one detected run for upload.
//!
//! A log is read line by line; only complete lines (ending in a line feed)
//! count. Each line is `stamp  event` once trailing white space is removed.
//! A run is a contiguous stretch of lines; its id is derived from the lines
//! it holds, so a re-scan of the same text finds the same ids.
use vstd::prelude::*;
use vstd::utf8::*;
use vstd::string::StringSliceAdditionalSpecFns;
use crate::text::{
    ascii_bytes, ascii_chars, ascii_string, all_ascii, at_char, hex16,
    lemma_after_ascii_at_char, lemma_ascii_at_char, lemma_hex16_ascii, lemma_utf8_concat,
    lemma_utf8_slice, literal, push_hex16, text_of, same_text, trim_end_at, trimmed_end_len,
    lemma_trimmed_end_bounds,
};
use crate::events::{
    Span, span, bytes_of, find_byte, find_byte_exec, lemma_find_byte, find_double_space,
    find_double_space_exec, lemma_find_double_space, has_prefix, has_prefix_exec, same_bytes,
    zone_entry, zone_entry_exec, key_start, key_start_exec, field, field_exec, lemma_field,
    parse_uint, parse_uint_exec, all_digits, all_digits_exec, digits_end, lemma_digits_end,
    zone_change_tag, key_end_tag, log_version_tag, map_change_tag, encounter_start_tag,
    encounter_end_tag, agree, lemma_agree_subrange, lemma_agree_find_byte,
    lemma_agree_find_double_space, lemma_agree_has_prefix, lemma_agree_parse_uint,
    lemma_agree_zone_entry, lemma_agree_key_start, lemma_agree_field, lemma_zone_entry_within,
    lemma_key_start_within, lemma_find_double_space_range,
};

verus! {

broadcast use vstd::seq_lib::group_seq_properties;

// ---------------------------------------------------------------------------
// Digest
// ---------------------------------------------------------------------------

pub open spec fn fnv_offset() -> u64 {
    0xcbf29ce484222325
}

pub open spec fn fnv_step(h: u64, x: u8) -> u64 {
    (h ^ (x as u64)).wrapping_mul(0x100000001b3)
}

/// 64-bit FNV-1a of `s`, continuing from `h`.
pub open spec fn fnv(h: u64, s: Seq<u8>) -> u64
    decreases s.len(),
{
    if s.len() == 0 {
        h
    } else {
        fnv_step(fnv(h, s.drop_last()), s.last())
    }
}

pub proof fn lemma_fnv_concat(h: u64, s: Seq<u8>, t: Seq<u8>)
    ensures
        fnv(h, s + t) == fnv(fnv(h, s), t),
    decreases t.len(),
{
    if t.len() == 0 {
        assert(s + t =~= s);
    } else {
        assert((s + t).drop_last() =~= s + t.drop_last());
        lemma_fnv_concat(h, s, t.drop_last());
    }
}

/// Continues the digest `value` over `bytes`.
pub fn hash(value: u64, bytes: &[u8]) -> (r: u64)
    ensures
        r == fnv(value, bytes@),
{
    let mut h = value;
    let mut i: usize = 0;
    while i < bytes.len()
        invariant
            i <= bytes@.len(),
            h == fnv(value, bytes@.subrange(0, i as int)),
        decreases bytes@.len() - i,
    {
        assert(bytes@.subrange(0, i + 1).drop_last() =~= bytes@.subrange(0, i as int));
        h = (h ^ bytes[i] as u64).wrapping_mul(0x100000001b3);
        i = i + 1;
    }
    assert(bytes@.subrange(0, bytes@.len() as int) =~= bytes@);
    h
}

/// Digest of `b[lo..hi]`, continuing from `value`.
fn hash_span(value: u64, b: &[u8], s: Span) -> (r: u64)
    requires
        s.lo <= s.hi <= b@.len(),
    ensures
        r == fnv(value, bytes_of(b@, s)),
{
    hash(value, &b[s.lo..s.hi])
}

// ---------------------------------------------------------------------------
// Runs
// ---------------------------------------------------------------------------

/// A detected run. `kind` is `raid` or `mplus`; `id` names the run and its
/// content; `start..end` are the byte offsets of its lines in the log; `zone`
/// is its zone id, `context` the log-version, zone and map lines that precede
/// it; in a raid, `attempts` counts the encounters started and
/// `encounter_open` says whether one is still going on.
#[derive(Clone, Debug)]
pub struct Run {
    pub id: String,
    pub name: String,
    pub level: u32,
    pub kind: String,
    pub difficulty: u32,
    pub started: String,
    pub ended: Option<String>,
    pub duration_ms: Option<u64>,
    pub complete: bool,
    pub missing_start: bool,
    pub start: u64,
    pub end: u64,
    pub zone: String,
    pub context: String,
    pub attempts: u32,
    pub encounter_open: bool,
}

pub struct RunView {
    pub id: Seq<char>,
    pub name: Seq<char>,
    pub level: u32,
    pub kind: Seq<char>,
    pub difficulty: u32,
    pub started: Seq<char>,
    pub ended: Option<Seq<char>>,
    pub duration_ms: Option<u64>,
    pub complete: bool,
    pub missing_start: bool,
    pub start: u64,
    pub end: u64,
    pub zone: Seq<char>,
    pub context: Seq<char>,
    pub attempts: u32,
    pub encounter_open: bool,
}

pub open spec fn opt_view(o: Option<String>) -> Option<Seq<char>> {
    match o {
        Some(s) => Some(s@),
        None => None,
    }
}

impl View for Run {
    type V = RunView;

    open spec fn view(&self) -> RunView {
        RunView {
            id: self.id@,
            name: self.name@,
            level: self.level,
            kind: self.kind@,
            difficulty: self.difficulty,
            started: self.started@,
            ended: opt_view(self.ended),
            duration_ms: self.duration_ms,
            complete: self.complete,
            missing_start: self.missing_start,
            start: self.start,
            end: self.end,
            zone: self.zone@,
            context: self.context@,
            attempts: self.attempts,
            encounter_open: self.encounter_open,
        }
    }
}

pub open spec fn runs_view(v: Seq<Run>) -> Seq<RunView> {
    v.map_values(|r: Run| r@)
}

impl Run {
    /// Number of encounters started during a raid session.
    pub fn attempts(&self) -> (r: u32)
        ensures
            r == self@.attempts,
    {
        self.attempts
    }

    /// Byte offset of the run's first line in the log.
    pub fn start(&self) -> (r: u64)
        ensures
            r == self@.start,
    {
        self.start
    }

    /// Byte offset just past the run's last line.
    pub fn end(&self) -> (r: u64)
        ensures
            r == self@.end,
    {
        self.end
    }
}

/// `raid` or `mplus`.
pub open spec fn kind_bytes(raid: bool) -> Seq<u8> {
    if raid {
        ascii_bytes("raid"@)
    } else {
        ascii_bytes("mplus"@)
    }
}

/// `<kind>-v1-<digest as 16 hex digits>`.
pub open spec fn run_id_bytes(raid: bool, digest: u64) -> Seq<u8> {
    kind_bytes(raid) + ascii_bytes("-v1-"@) + hex16(digest)
}

/// A run being followed through the log: text fields are byte ranges.
#[derive(Clone, Copy)]
pub struct OpenRun {
    pub raid: bool,
    pub name: Span,
    pub level: u32,
    pub difficulty: u32,
    pub zone: Span,
    pub started: Span,
    pub ended: Option<Span>,
    pub duration_ms: Option<u64>,
    pub complete: bool,
    pub missing_start: bool,
    pub start: u64,
    pub end: u64,
    pub context: (Span, Span, Span),
    pub attempts: u32,
    pub encounter_open: bool,
}

/// The run that `r` becomes once emitted with digest `digest`.
pub open spec fn run_view(b: Seq<u8>, r: OpenRun, digest: u64) -> RunView {
    RunView {
        id: ascii_chars(run_id_bytes(r.raid, digest)),
        name: decode_utf8(bytes_of(b, r.name)),
        level: r.level,
        kind: ascii_chars(kind_bytes(r.raid)),
        difficulty: r.difficulty,
        started: decode_utf8(bytes_of(b, r.started)),
        ended: match r.ended {
            Some(s) => Some(decode_utf8(bytes_of(b, s))),
            None => None,
        },
        duration_ms: r.duration_ms,
        complete: r.complete,
        missing_start: r.missing_start,
        start: r.start,
        end: r.end,
        zone: decode_utf8(bytes_of(b, r.zone)),
        context: decode_utf8(
            bytes_of(b, r.context.0) + bytes_of(b, r.context.1) + bytes_of(b, r.context.2),
        ),
        attempts: r.attempts,
        encounter_open: r.encounter_open,
    }
}

pub open spec fn span_ok(b: Seq<u8>, s: Span) -> bool {
    s.lo <= s.hi <= b.len() && at_char(b, s.lo as int) && at_char(b, s.hi as int)
}

pub open spec fn open_run_ok(b: Seq<u8>, r: OpenRun) -> bool {
    &&& span_ok(b, r.name)
    &&& span_ok(b, r.zone)
    &&& span_ok(b, r.started)
    &&& (r.ended matches Some(s) ==> span_ok(b, s))
    &&& span_ok(b, r.context.0)
    &&& span_ok(b, r.context.1)
    &&& span_ok(b, r.context.2)
    &&& r.start <= r.end <= b.len()
    &&& at_char(b, r.start as int)
    &&& at_char(b, r.end as int)
}

/// The run's lines are the whole characters `b[start..end]`.
pub open spec fn run_offsets_ok(b: Seq<u8>, r: RunView) -> bool {
    &&& r.start <= r.end <= b.len()
    &&& at_char(b, r.start as int)
    &&& at_char(b, r.end as int)
}

pub open spec fn runs_ok(b: Seq<u8>, runs: Seq<RunView>) -> bool {
    forall|i: int| 0 <= i < runs.len() ==> run_offsets_ok(b, #[trigger] runs[i])
}

fn span_text(b: &[u8], s: Span) -> (r: String)
    requires
        valid_utf8(b@),
        span_ok(b@, s),
    ensures
        r@ == decode_utf8(bytes_of(b@, s)),
{
    proof {
        lemma_utf8_slice(b@, s.lo as int, s.hi as int);
    }
    text_of(&b[s.lo..s.hi])
}

fn push_span(out: &mut Vec<u8>, b: &[u8], s: Span)
    requires
        s.lo <= s.hi <= b@.len(),
    ensures
        final(out)@ == old(out)@ + bytes_of(b@, s),
{
    let ghost start = out@;
    let mut i = s.lo;
    while i < s.hi
        invariant
            s.lo <= i <= s.hi <= b@.len(),
            out@ == start + b@.subrange(s.lo as int, i as int),
        decreases s.hi - i,
    {
        out.push(b[i]);
        assert(b@.subrange(s.lo as int, i + 1) =~= b@.subrange(s.lo as int, i as int).push(
            b@[i as int],
        ));
        i = i + 1;
    }
}

fn kind_text(raid: bool) -> (r: String)
    ensures
        r@ == ascii_chars(kind_bytes(raid)),
{
    if raid {
        proof {
            reveal_strlit("raid");
        }
        ascii_string(literal("raid"))
    } else {
        proof {
            reveal_strlit("mplus");
        }
        ascii_string(literal("mplus"))
    }
}

fn run_id_of(raid: bool, digest: u64) -> (r: String)
    ensures
        r@ == ascii_chars(run_id_bytes(raid, digest)),
{
    proof {
        reveal_strlit("raid");
        reveal_strlit("mplus");
        reveal_strlit("-v1-");
        lemma_hex16_ascii(digest);
    }
    let mut v: Vec<u8> = Vec::new();
    let k = if raid {
        literal("raid")
    } else {
        literal("mplus")
    };
    let mut i: usize = 0;
    while i < k.len()
        invariant
            i <= k@.len(),
            k@ == kind_bytes(raid),
            v@ == k@.subrange(0, i as int),
        decreases k@.len() - i,
    {
        v.push(k[i]);
        i = i + 1;
    }
    let sep = literal("-v1-");
    let mut j: usize = 0;
    while j < sep.len()
        invariant
            j <= sep@.len(),
            sep@ == ascii_bytes("-v1-"@),
            v@ == kind_bytes(raid) + sep@.subrange(0, j as int),
        decreases sep@.len() - j,
    {
        v.push(sep[j]);
        j = j + 1;
    }
    push_hex16(&mut v, digest);
    assert(v@ =~= run_id_bytes(raid, digest));
    assert(all_ascii(v@)) by {
        assert forall|x: int| 0 <= x < v@.len() implies #[trigger] v@[x] < 0x80 by {
            if x < kind_bytes(raid).len() {
            } else if x < kind_bytes(raid).len() + 4 {
            } else {
                assert(v@[x] == hex16(digest)[x - kind_bytes(raid).len() - 4]);
            }
        }
    }
    ascii_string(v.as_slice())
}

/// The id of `run` for the digest of its lines: `raid-v1-` or `mplus-v1-`
/// followed by the digest in sixteen hexadecimal digits.
pub fn run_id(run: &Run, digest: u64) -> (r: String)
    ensures
        r@ == ascii_chars(run_id_bytes(run@.kind == ascii_chars(kind_bytes(true)), digest)),
{
    let raid = is_raid_kind(&run.kind);
    run_id_of(raid, digest)
}

fn is_raid_kind(kind: &String) -> (r: bool)
    ensures
        r == (kind@ == ascii_chars(kind_bytes(true))),
{
    proof {
        reveal_strlit("raid");
    }
    let raid_text = kind_text(true);
    proof {
        lemma_ascii_chars_raid();
    }
    *kind == raid_text
}

pub proof fn lemma_ascii_chars_raid()
    ensures
        ascii_chars(kind_bytes(true)) == "raid"@,
        ascii_chars(kind_bytes(false)) == "mplus"@,
        ascii_chars(kind_bytes(true)) != ascii_chars(kind_bytes(false)),
{
    reveal_strlit("raid");
    reveal_strlit("mplus");
    assert(ascii_chars(kind_bytes(true)) =~= "raid"@);
    assert(ascii_chars(kind_bytes(false)) =~= "mplus"@);
}

fn emit(b: &[u8], r: &OpenRun, digest: u64) -> (run: Run)
    requires
        valid_utf8(b@),
        open_run_ok(b@, *r),
    ensures
        run@ == run_view(b@, *r, digest),
{
    let mut ctx: Vec<u8> = Vec::new();
    push_span(&mut ctx, b, r.context.0);
    push_span(&mut ctx, b, r.context.1);
    push_span(&mut ctx, b, r.context.2);
    proof {
        let (c0, c1, c2) = r.context;
        lemma_utf8_slice(b@, c0.lo as int, c0.hi as int);
        lemma_utf8_slice(b@, c1.lo as int, c1.hi as int);
        lemma_utf8_slice(b@, c2.lo as int, c2.hi as int);
        lemma_utf8_concat(bytes_of(b@, c0), bytes_of(b@, c1));
        lemma_utf8_concat(bytes_of(b@, c0) + bytes_of(b@, c1), bytes_of(b@, c2));
    }
    let ended = match r.ended {
        Some(s) => Some(span_text(b, s)),
        None => None,
    };
    let run = Run {
        id: run_id_of(r.raid, digest),
        name: span_text(b, r.name),
        level: r.level,
        kind: kind_text(r.raid),
        difficulty: r.difficulty,
        started: span_text(b, r.started),
        ended,
        duration_ms: r.duration_ms,
        complete: r.complete,
        missing_start: r.missing_start,
        start: r.start,
        end: r.end,
        zone: span_text(b, r.zone),
        context: text_of(ctx.as_slice()),
        attempts: r.attempts,
        encounter_open: r.encounter_open,
    };
    assert(run@.ended == run_view(b@, *r, digest).ended);
    run
}

/// Pushes `active` onto `runs` as a finished run, unless it is a key whose
/// start was never seen and that did not end successfully, or a raid session
/// without any encounter. A raid is complete when it was closed by leaving the
/// zone (`closed`) with no encounter in progress. `active` is left empty.
pub fn finish(b: &[u8], runs: &mut Vec<Run>, active: &mut Option<OpenRun>, digest: u64, closed: bool)
    requires
        valid_utf8(b@),
        *old(active) matches Some(r) ==> open_run_ok(b@, r),
    ensures
        runs_ok(b@, runs_view(old(runs)@)) ==> runs_ok(b@, runs_view(final(runs)@)),
        ({
            let m = ScanModel {
                runs: runs_view(old(runs)@),
                active: *old(active),
                digest,
                header: empty_span(),
                zone: empty_span(),
                map: empty_span(),
            };
            let f = finish_model(b@, m, closed);
            &&& runs_view(final(runs)@) == f.runs
            &&& *final(active) == f.active
        }),
{
    let ghost old_runs = runs@;
    match active.take() {
        None => {},
        Some(r) => {
            if r.missing_start && !r.complete {
                return ;
            }
            let mut r = r;
            if r.raid {
                if r.attempts == 0 {
                    return ;
                }
                r.complete = closed && !r.encounter_open;
            }
            let run = emit(b, &r, digest);
            runs.push(run);
            assert(runs_view(runs@) =~= runs_view(old_runs).push(run@));
        },
    }
}

// ---------------------------------------------------------------------------
// The scan
// ---------------------------------------------------------------------------

/// A captured number does not parse into its field.
#[derive(Clone, Copy, Debug, PartialEq, Eq)]
pub enum ScanError {
    /// Its digits are ASCII digits, but the number is too large.
    NumberTooLarge,
    /// It holds a decimal digit that is not an ASCII digit.
    InvalidDigit,
}

/// Why the captured digits `b[lo..hi]` do not parse as an unsigned number.
pub open spec fn number_error(b: Seq<u8>, lo: int, hi: int) -> ScanError {
    if all_digits(b, lo, hi) {
        ScanError::NumberTooLarge
    } else {
        ScanError::InvalidDigit
    }
}

fn number_error_exec(b: &[u8], lo: usize, hi: usize) -> (r: ScanError)
    requires
        lo <= hi <= b@.len(),
    ensures
        r == number_error(b@, lo as int, hi as int),
{
    if all_digits_exec(b, lo, hi) {
        ScanError::NumberTooLarge
    } else {
        ScanError::InvalidDigit
    }
}

/// The scanner's state between lines: runs found so far, the run being
/// followed, the digest of its lines, and the last log-version, zone and map
/// lines (the context that precedes a key).
pub struct ScanModel {
    pub runs: Seq<RunView>,
    pub active: Option<OpenRun>,
    pub digest: u64,
    pub header: Span,
    pub zone: Span,
    pub map: Span,
}

pub open spec fn empty_span() -> Span {
    Span { lo: 0, hi: 0 }
}

pub open spec fn initial_model() -> ScanModel {
    ScanModel {
        runs: seq![],
        active: None,
        digest: fnv_offset(),
        header: empty_span(),
        zone: empty_span(),
        map: empty_span(),
    }
}

/// Closes the run being followed (see `finish`).
pub open spec fn finish_model(b: Seq<u8>, m: ScanModel, closed: bool) -> ScanModel {
    match m.active {
        None => m,
        Some(r) => {
            let cleared = ScanModel { active: None, ..m };
            if r.missing_start && !r.complete {
                cleared
            } else if r.raid && r.attempts == 0 {
                cleared
            } else {
                let done = if r.raid {
                    OpenRun { complete: closed && !r.encounter_open, ..r }
                } else {
                    r
                };
                ScanModel { runs: m.runs.push(run_view(b, done, m.digest)), ..cleared }
            }
        },
    }
}

/// Normal, Heroic, Mythic and LFR raid difficulties, current and legacy.
pub open spec fn is_raid_difficulty(d: u32) -> bool {
    d == 3 || d == 4 || d == 5 || d == 6 || d == 7 || d == 9 || d == 14 || d == 15 || d == 16
        || d == 17
}

/// A zone entry closes a key in another zone (or at another difficulty), and
/// a raid session unless it re-enters the same zone at the same difficulty; a
/// raid zone opens a session, a Mythic+ zone (difficulty 8) a tentative key
/// whose start is missing.
pub open spec fn zone_phase(
    b: Seq<u8>,
    m: ScanModel,
    line: Span,
    stamp: Span,
    es: int,
    ee: int,
) -> Result<ScanModel, ScanError> {
    match zone_entry(b, es, ee) {
        None => Ok(m),
        Some(z) => match parse_uint(b, z.difficulty.lo as int, z.difficulty.hi as int, u32::MAX as nat) {
            None => Err(number_error(b, z.difficulty.lo as int, z.difficulty.hi as int)),
            Some(dv) => {
                let difficulty = dv as u32;
                let m1 = match m.active {
                    Some(r) => if !r.raid && (bytes_of(b, r.zone) != bytes_of(b, z.zone)
                        || difficulty != 8) {
                        finish_model(b, m, false)
                    } else {
                        m
                    },
                    None => m,
                };
                let same = match m1.active {
                    Some(r) => r.raid && bytes_of(b, r.zone) == bytes_of(b, z.zone) && r.difficulty
                        == difficulty,
                    None => false,
                };
                let m2 = match m1.active {
                    Some(r) => if r.raid && !same {
                        finish_model(b, m1, true)
                    } else {
                        m1
                    },
                    None => m1,
                };
                let m3 = if is_raid_difficulty(difficulty) && !same {
                    let f = finish_model(b, m2, false);
                    ScanModel {
                        digest: fnv_offset(),
                        active: Some(
                            OpenRun {
                                raid: true,
                                name: z.name,
                                level: 0,
                                difficulty,
                                zone: z.zone,
                                started: stamp,
                                ended: None,
                                duration_ms: None,
                                complete: false,
                                missing_start: false,
                                start: line.lo as u64,
                                end: line.hi as u64,
                                context: (f.header, empty_span(), empty_span()),
                                attempts: 0,
                                encounter_open: false,
                            },
                        ),
                        ..f
                    }
                } else {
                    m2
                };
                if difficulty == 8 && m3.active is None {
                    Ok(
                        ScanModel {
                            digest: fnv_offset(),
                            active: Some(
                                OpenRun {
                                    raid: false,
                                    name: z.name,
                                    level: 0,
                                    difficulty,
                                    zone: z.zone,
                                    started: stamp,
                                    ended: None,
                                    duration_ms: None,
                                    complete: false,
                                    missing_start: true,
                                    start: line.lo as u64,
                                    end: line.hi as u64,
                                    context: (m3.header, empty_span(), empty_span()),
                                    attempts: 0,
                                    encounter_open: false,
                                },
                            ),
                            ..m3
                        },
                    )
                } else {
                    Ok(m3)
                }
            },
        },
    }
}

/// A log-version line starts a new context; zone and map lines update it.
pub open spec fn header_phase(b: Seq<u8>, m: ScanModel, line: Span, es: int, ee: int) -> ScanModel {
    let m1 = if has_prefix(b, es, ee, log_version_tag()) {
        ScanModel { header: line, zone: empty_span(), map: empty_span(), ..m }
    } else {
        m
    };
    let m2 = if has_prefix(b, es, ee, zone_change_tag()) {
        ScanModel { zone: line, ..m1 }
    } else {
        m1
    };
    if has_prefix(b, es, ee, map_change_tag()) {
        ScanModel { map: line, ..m2 }
    } else {
        m2
    }
}

/// A key start closes the run being followed and opens a key.
pub open spec fn start_phase(
    b: Seq<u8>,
    m: ScanModel,
    line: Span,
    stamp: Span,
    es: int,
    ee: int,
) -> Result<ScanModel, ScanError> {
    match key_start(b, es, ee) {
        None => Ok(m),
        Some(k) => match parse_uint(b, k.level.lo as int, k.level.hi as int, u32::MAX as nat) {
            None => Err(number_error(b, k.level.lo as int, k.level.hi as int)),
            Some(level) => {
                let f = finish_model(b, m, true);
                Ok(
                    ScanModel {
                        digest: fnv_offset(),
                        active: Some(
                            OpenRun {
                                raid: false,
                                name: k.name,
                                level: level as u32,
                                difficulty: 8,
                                zone: k.zone,
                                started: stamp,
                                ended: None,
                                duration_ms: None,
                                complete: false,
                                missing_start: false,
                                start: line.lo as u64,
                                end: line.hi as u64,
                                context: (m.header, m.zone, m.map),
                                attempts: 0,
                                encounter_open: false,
                            },
                        ),
                        ..f
                    },
                )
            },
        },
    }
}

/// Length of `s` once trailing carriage returns and line feeds are removed.
pub open spec fn crlf_trimmed_len(s: Seq<u8>) -> int
    decreases s.len(),
{
    if s.len() > 0 && (s.last() == 0x0d || s.last() == 0x0a) {
        crlf_trimmed_len(s.drop_last())
    } else {
        s.len() as int
    }
}

/// The digest after a line: the line without its line break, then `\n`.
pub open spec fn digest_line(h: u64, line: Seq<u8>) -> u64 {
    fnv(fnv(h, line.subrange(0, crlf_trimmed_len(line))), seq![0x0au8])
}

/// Field `k` of the event parsed as an unsigned number up to `max`.
pub open spec fn field_number(b: Seq<u8>, es: int, ee: int, k: nat, max: nat) -> Option<nat> {
    match field(b, es, ee, k) {
        Some(f) => parse_uint(b, f.lo as int, f.hi as int, max),
        None => None,
    }
}

/// A line inside a run extends it and its digest; in a raid it counts
/// encounters; a key end in the key's zone ends the key (recovering the level
/// of a key whose start is missing).
pub open spec fn active_phase(
    b: Seq<u8>,
    m: ScanModel,
    line: Span,
    stamp: Span,
    es: int,
    ee: int,
) -> ScanModel {
    match m.active {
        None => m,
        Some(r) => {
            let digest = digest_line(m.digest, bytes_of(b, line));
            let r2 = extend_run(b, r, line, stamp, es, ee);
            let m1 = ScanModel { digest, active: Some(r2), ..m };
            if !r2.raid && has_prefix(b, es, ee, key_end_tag()) {
                match field(b, es, ee, 1) {
                    Some(f1) => if bytes_of(b, f1) == bytes_of(b, r2.zone) {
                        finish_model(
                            b,
                            ScanModel { active: Some(ended_key(b, r2, stamp, es, ee)), ..m1 },
                            false,
                        )
                    } else {
                        m1
                    },
                    None => m1,
                }
            } else {
                m1
            }
        },
    }
}

/// The run with line `line` added: its end moves to the end of the line; a
/// raid session ends at the line's stamp and counts encounter starts.
pub open spec fn extend_run(b: Seq<u8>, r: OpenRun, line: Span, stamp: Span, es: int, ee: int) -> OpenRun {
    let r1 = OpenRun { end: line.hi as u64, ..r };
    if r1.raid {
        let a = OpenRun { ended: Some(stamp), ..r1 };
        let c = if has_prefix(b, es, ee, encounter_start_tag()) {
            OpenRun { attempts: a.attempts.wrapping_add(1), encounter_open: true, ..a }
        } else {
            a
        };
        if has_prefix(b, es, ee, encounter_end_tag()) {
            OpenRun { encounter_open: false, ..c }
        } else {
            c
        }
    } else {
        r1
    }
}

/// A key once its end event `b[es..ee]` is read: complete when field 2 is
/// `1`, with the duration of field 4; a key whose start is missing takes its
/// level from field 3 and is complete only with a positive level and duration.
pub open spec fn ended_key(b: Seq<u8>, r: OpenRun, stamp: Span, es: int, ee: int) -> OpenRun {
    let complete = field(b, es, ee, 2) matches Some(f2) && bytes_of(b, f2) == seq![0x31u8];
    let duration = match field_number(b, es, ee, 4, u64::MAX as nat) {
        Some(v) => Some(v as u64),
        None => None,
    };
    let r3 = OpenRun { complete, ended: Some(stamp), duration_ms: duration, ..r };
    if r3.missing_start {
        let level: u32 = match field_number(b, es, ee, 3, u32::MAX as nat) {
            Some(v) => v as u32,
            None => 0,
        };
        OpenRun {
            level,
            complete: complete && level > 0 && (duration matches Some(d) && d > 0),
            ..r3
        }
    } else {
        r3
    }
}

/// One complete line `b[off..end]`: `stamp  event` once trailing white space
/// is removed; a line without two spaces is ignored.
#[verifier::opaque]
pub open spec fn step(b: Seq<u8>, m: ScanModel, off: int, end: int) -> Result<ScanModel, ScanError> {
    let te = off + trimmed_end_len(b.subrange(off, end));
    let sp = find_double_space(b, off, te);
    if sp >= te {
        Ok(m)
    } else {
        let stamp = span(off, sp);
        let line = span(off, end);
        let es = sp + 2;
        match zone_phase(b, m, line, stamp, es, te) {
            Err(e) => Err(e),
            Ok(m1) => {
                let m2 = header_phase(b, m1, line, es, te);
                match start_phase(b, m2, line, stamp, es, te) {
                    Err(e) => Err(e),
                    Ok(m3) => Ok(active_phase(b, m3, line, stamp, es, te)),
                }
            },
        }
    }
}

/// The scanner's state after the complete lines from `pos` on.
pub open spec fn scan_lines(b: Seq<u8>, pos: int, m: ScanModel) -> Result<ScanModel, ScanError>
    decreases b.len() - pos,
{
    if pos < 0 || pos >= b.len() {
        Ok(m)
    } else {
        let nl = find_byte(b, pos, b.len() as int, 0x0a);
        if nl >= b.len() {
            Ok(m)
        } else {
            proof {
                lemma_find_byte(b, pos, b.len() as int, 0x0a);
            }
            match step(b, m, pos, nl + 1) {
                Err(e) => Err(e),
                Ok(m2) => scan_lines(b, nl + 1, m2),
            }
        }
    }
}

/// The runs of a log: every complete line, then the run still open at the end.
pub open spec fn scan_log(b: Seq<u8>) -> Result<Seq<RunView>, ScanError> {
    match scan_lines(b, 0, initial_model()) {
        Err(e) => Err(e),
        Ok(m) => Ok(finish_model(b, m, false).runs),
    }
}

/// The run being followed ends by position `p`.
pub open spec fn ends_by(m: ScanModel, p: int) -> bool {
    m.active matches Some(r) ==> r.end <= p
}

pub open spec fn model_ok(b: Seq<u8>, m: ScanModel) -> bool {
    &&& (m.active matches Some(r) ==> open_run_ok(b, r))
    &&& runs_ok(b, m.runs)
    &&& span_ok(b, m.header)
    &&& span_ok(b, m.zone)
    &&& span_ok(b, m.map)
}

/// The captures of a zone entry lie in the event and start characters.
pub proof fn lemma_zone_entry_ok(b: Seq<u8>, es: int, ee: int)
    requires
        valid_utf8(b),
        0 <= es <= ee <= b.len() <= usize::MAX,
    ensures
        zone_entry(b, es, ee) matches Some(z) ==> {
            &&& span_ok(b, z.zone)
            &&& span_ok(b, z.name)
            &&& es <= z.difficulty.lo <= z.difficulty.hi <= ee
        },
{
    let tag = zone_change_tag();
    if let Some(z) = zone_entry(b, es, ee) {
        let z0 = es + tag.len();
        let z1 = digits_end(b, z0, ee);
        lemma_digits_end(b, z0, ee);
        let n0 = z1 + 2;
        let n1 = find_byte(b, n0, ee, 0x22);
        lemma_find_byte(b, n0, ee, 0x22);
        let d0 = n1 + 2;
        lemma_digits_end(b, d0, ee);
        crate::events::lemma_digit_len(b, z0, ee);
        lemma_ascii_at_char(b, z1);
        lemma_after_ascii_at_char(b, z1 + 1);
        lemma_ascii_at_char(b, n1);
    }
}

/// The captures of a key start lie in the event and start characters.
proof fn lemma_key_start_ok(b: Seq<u8>, es: int, ee: int)
    requires
        valid_utf8(b),
        0 <= es <= ee <= b.len() <= usize::MAX,
    ensures
        key_start(b, es, ee) matches Some(k) ==> {
            &&& span_ok(b, k.zone)
            &&& span_ok(b, k.name)
            &&& es <= k.level.lo <= k.level.hi <= ee
        },
{
    let tag = crate::events::key_start_tag();
    if let Some(k) = key_start(b, es, ee) {
        let p = es + tag.len();
        let n0 = p + 1;
        let n1 = find_byte(b, n0, ee, 0x22);
        lemma_find_byte(b, n0, ee, 0x22);
        let a0 = n1 + 2;
        lemma_digits_end(b, a0, ee);
        let a1 = digits_end(b, a0, ee);
        lemma_digits_end(b, a1 + 1, ee);
        let b1 = digits_end(b, a1 + 1, ee);
        lemma_digits_end(b, b1 + 1, ee);
        crate::events::lemma_digit_len(b, a0, ee);
        lemma_after_ascii_at_char(b, p);
        lemma_ascii_at_char(b, n1);
        lemma_ascii_at_char(b, a1);
    }
}

struct Scanner {
    runs: Vec<Run>,
    active: Option<OpenRun>,
    digest: u64,
    header: Span,
    zone: Span,
    map: Span,
}

impl View for Scanner {
    type V = ScanModel;

    closed spec fn view(&self) -> ScanModel {
        ScanModel {
            runs: runs_view(self.runs@),
            active: self.active,
            digest: self.digest,
            header: self.header,
            zone: self.zone,
            map: self.map,
        }
    }
}

impl Scanner {
    fn finish(&mut self, b: &[u8], closed: bool)
        requires
            valid_utf8(b@),
            model_ok(b@, old(self)@),
        ensures
            final(self)@ == finish_model(b@, old(self)@, closed),
            model_ok(b@, final(self)@),
    {
        let digest = self.digest;
        finish(b, &mut self.runs, &mut self.active, digest, closed);
    }

    fn zone_phase(&mut self, b: &[u8], line: Span, stamp: Span, es: usize, ee: usize) -> (r: Result<(), ScanError>)
        requires
            b@.len() <= usize::MAX,
            valid_utf8(b@),
            model_ok(b@, old(self)@),
            span_ok(b@, line),
            span_ok(b@, stamp),
            es <= ee <= b@.len(),
            ends_by(old(self)@, line.hi as int),
        ensures
            match zone_phase(b@, old(self)@, line, stamp, es as int, ee as int) {
                Ok(m) => r is Ok && final(self)@ == m && model_ok(b@, m),
                Err(e) => r == Err::<(), ScanError>(e),
            },
            r is Ok ==> ends_by(final(self)@, line.hi as int),
    {
        proof {
            lemma_zone_entry_ok(b@, es as int, ee as int);
        }
        let z = match zone_entry_exec(b, es, ee) {
            None => return Ok(()),
            Some(z) => z,
        };
        let dv = match parse_uint_exec(b, z.difficulty.lo, z.difficulty.hi, 0xffff_ffffu64) {
            None => return Err(number_error_exec(b, z.difficulty.lo, z.difficulty.hi)),
            Some(v) => v,
        };
        let difficulty = dv as u32;
        let close_key = match &self.active {
            Some(r) => !r.raid && (!same_bytes(b, r.zone, z.zone) || difficulty != 8),
            None => false,
        };
        if close_key {
            self.finish(b, false);
        }
        let same = match &self.active {
            Some(r) => r.raid && same_bytes(b, r.zone, z.zone) && r.difficulty == difficulty,
            None => false,
        };
        let close_raid = match &self.active {
            Some(r) => r.raid && !same,
            None => false,
        };
        if close_raid {
            self.finish(b, true);
        }
        if is_raid_difficulty_exec(difficulty) && !same {
            self.finish(b, false);
            self.digest = 0xcbf29ce484222325;
            self.active = Some(
                OpenRun {
                    raid: true,
                    name: z.name,
                    level: 0,
                    difficulty,
                    zone: z.zone,
                    started: stamp,
                    ended: None,
                    duration_ms: None,
                    complete: false,
                    missing_start: false,
                    start: line.lo as u64,
                    end: line.hi as u64,
                    context: (self.header, Span { lo: 0, hi: 0 }, Span { lo: 0, hi: 0 }),
                    attempts: 0,
                    encounter_open: false,
                },
            );
        }
        if difficulty == 8 && self.active.is_none() {
            self.digest = 0xcbf29ce484222325;
            self.active = Some(
                OpenRun {
                    raid: false,
                    name: z.name,
                    level: 0,
                    difficulty,
                    zone: z.zone,
                    started: stamp,
                    ended: None,
                    duration_ms: None,
                    complete: false,
                    missing_start: true,
                    start: line.lo as u64,
                    end: line.hi as u64,
                    context: (self.header, Span { lo: 0, hi: 0 }, Span { lo: 0, hi: 0 }),
                    attempts: 0,
                    encounter_open: false,
                },
            );
        }
        Ok(())
    }

    fn header_phase(&mut self, b: &[u8], line: Span, es: usize, ee: usize)
        requires
            valid_utf8(b@),
            model_ok(b@, old(self)@),
            span_ok(b@, line),
            es <= ee <= b@.len(),
        ensures
            final(self)@ == header_phase(b@, old(self)@, line, es as int, ee as int),
            model_ok(b@, final(self)@),
    {
        proof {
            reveal_strlit("COMBAT_LOG_VERSION,");
            reveal_strlit("ZONE_CHANGE,");
            reveal_strlit("MAP_CHANGE,");
        }
        if has_prefix_exec(b, es, ee, literal("COMBAT_LOG_VERSION,")) {
            self.header = line;
            self.zone = Span { lo: 0, hi: 0 };
            self.map = Span { lo: 0, hi: 0 };
        }
        if has_prefix_exec(b, es, ee, literal("ZONE_CHANGE,")) {
            self.zone = line;
        }
        if has_prefix_exec(b, es, ee, literal("MAP_CHANGE,")) {
            self.map = line;
        }
    }

    fn start_phase(&mut self, b: &[u8], line: Span, stamp: Span, es: usize, ee: usize) -> (r: Result<(), ScanError>)
        requires
            b@.len() <= usize::MAX,
            valid_utf8(b@),
            model_ok(b@, old(self)@),
            span_ok(b@, line),
            span_ok(b@, stamp),
            es <= ee <= b@.len(),
            ends_by(old(self)@, line.hi as int),
        ensures
            match start_phase(b@, old(self)@, line, stamp, es as int, ee as int) {
                Ok(m) => r is Ok && final(self)@ == m && model_ok(b@, m),
                Err(e) => r == Err::<(), ScanError>(e),
            },
            r is Ok ==> ends_by(final(self)@, line.hi as int),
    {
        proof {
            lemma_key_start_ok(b@, es as int, ee as int);
        }
        let k = match key_start_exec(b, es, ee) {
            None => return Ok(()),
            Some(k) => k,
        };
        let level = match parse_uint_exec(b, k.level.lo, k.level.hi, 0xffff_ffffu64) {
            None => return Err(number_error_exec(b, k.level.lo, k.level.hi)),
            Some(v) => v as u32,
        };
        let context = (self.header, self.zone, self.map);
        self.finish(b, true);
        self.digest = 0xcbf29ce484222325;
        self.active = Some(
            OpenRun {
                raid: false,
                name: k.name,
                level,
                difficulty: 8,
                zone: k.zone,
                started: stamp,
                ended: None,
                duration_ms: None,
                complete: false,
                missing_start: false,
                start: line.lo as u64,
                end: line.hi as u64,
                context,
                attempts: 0,
                encounter_open: false,
            },
        );
        Ok(())
    }

    fn active_phase(&mut self, b: &[u8], line: Span, stamp: Span, es: usize, ee: usize)
        requires
            b@.len() <= usize::MAX,
            valid_utf8(b@),
            model_ok(b@, old(self)@),
            span_ok(b@, line),
            span_ok(b@, stamp),
            es <= ee <= b@.len(),
            ends_by(old(self)@, line.hi as int),
        ensures
            final(self)@ == active_phase(b@, old(self)@, line, stamp, es as int, ee as int),
            model_ok(b@, final(self)@),
            ends_by(final(self)@, line.hi as int),
    {
        let r = match self.active {
            Some(r) => r,
            None => return ,
        };
        let body_end = crlf_trim_end(b, line.lo, line.hi);
        assert(bytes_of(b@, line).subrange(0, crlf_trimmed_len(bytes_of(b@, line))) =~= b@.subrange(
            line.lo as int,
            body_end as int,
        ));
        let d1 = hash_span(self.digest, b, Span { lo: line.lo, hi: body_end });
        let nl: [u8; 1] = [0x0a];
        let d2 = hash(d1, &nl);
        assert(nl@ =~= seq![0x0au8]);
        let r = extend_run_exec(b, r, line, stamp, es, ee);
        proof {
            reveal_strlit("CHALLENGE_MODE_END,");
        }
        self.digest = d2;
        self.active = Some(r);
        if !r.raid && has_prefix_exec(b, es, ee, literal("CHALLENGE_MODE_END,")) {
            proof {
                lemma_field(b@, es as int, ee as int, 1);
            }
            if let Some(f1) = field_exec(b, es, ee, 1) {
                if same_bytes(b, f1, r.zone) {
                    let r4 = ended_key_exec(b, r, stamp, es, ee);
                    self.active = Some(r4);
                    self.finish(b, false);
                }
            }
        }
    }

    /// Processes the complete line `b[off..end]`.
    fn step(&mut self, b: &[u8], off: usize, end: usize) -> (r: Result<(), ScanError>)
        requires
            b@.len() <= usize::MAX,
            valid_utf8(b@),
            model_ok(b@, old(self)@),
            off < end <= b@.len(),
            at_char(b@, off as int),
            b@[end - 1] == 0x0a,
            ends_by(old(self)@, off as int),
        ensures
            match step(b@, old(self)@, off as int, end as int) {
                Ok(m) => r is Ok && final(self)@ == m && model_ok(b@, m),
                Err(e) => r == Err::<(), ScanError>(e),
            },
            r is Ok ==> ends_by(final(self)@, end as int),
    {
        proof {
            reveal(step);
        }
        let te = trim_end_at(b, off, end);
        let sp = find_double_space_exec(b, off, te);
        if sp >= te {
            return Ok(());
        }
        proof {
            lemma_find_double_space(b@, off as int, te as int);
            lemma_ascii_at_char(b@, sp as int);
            lemma_after_ascii_at_char(b@, end - 1);
        }
        let stamp = Span { lo: off, hi: sp };
        let line = Span { lo: off, hi: end };
        let es = sp + 2;
        match self.zone_phase(b, line, stamp, es, te) {
            Err(e) => return Err(e),
            Ok(()) => {},
        }
        self.header_phase(b, line, es, te);
        match self.start_phase(b, line, stamp, es, te) {
            Err(e) => return Err(e),
            Ok(()) => {},
        }
        self.active_phase(b, line, stamp, es, te);
        Ok(())
    }
}

fn extend_run_exec(b: &[u8], r: OpenRun, line: Span, stamp: Span, es: usize, ee: usize) -> (r2: OpenRun)
    requires
        es <= ee <= b@.len(),
        open_run_ok(b@, r),
        span_ok(b@, line),
        span_ok(b@, stamp),
        r.end <= line.hi,
    ensures
        r2 == extend_run(b@, r, line, stamp, es as int, ee as int),
        open_run_ok(b@, r2),
{
    proof {
        reveal_strlit("ENCOUNTER_START,");
        reveal_strlit("ENCOUNTER_END,");
    }
    let mut r = r;
    r.end = line.hi as u64;
    if r.raid {
        r.ended = Some(stamp);
        if has_prefix_exec(b, es, ee, literal("ENCOUNTER_START,")) {
            r.attempts = r.attempts.wrapping_add(1);
            r.encounter_open = true;
        }
        if has_prefix_exec(b, es, ee, literal("ENCOUNTER_END,")) {
            r.encounter_open = false;
        }
    }
    r
}

fn ended_key_exec(b: &[u8], r: OpenRun, stamp: Span, es: usize, ee: usize) -> (r4: OpenRun)
    requires
        b@.len() <= usize::MAX,
        es <= ee <= b@.len(),
        open_run_ok(b@, r),
        span_ok(b@, stamp),
    ensures
        r4 == ended_key(b@, r, stamp, es as int, ee as int),
        open_run_ok(b@, r4),
{
    proof {
        lemma_field(b@, es as int, ee as int, 2);
        lemma_field(b@, es as int, ee as int, 3);
        lemma_field(b@, es as int, ee as int, 4);
    }
    let complete = match field_exec(b, es, ee, 2) {
        Some(f2) => {
            let one = f2.hi - f2.lo == 1 && b[f2.lo] == 0x31;
            assert(one == (bytes_of(b@, f2) == seq![0x31u8])) by {
                if f2.hi - f2.lo == 1 {
                    assert(bytes_of(b@, f2)[0] == b@[f2.lo as int]);
                    if b@[f2.lo as int] == 0x31 {
                        assert(bytes_of(b@, f2) =~= seq![0x31u8]);
                    }
                } else {
                    assert(bytes_of(b@, f2).len() != 1);
                }
            }
            one
        },
        None => false,
    };
    let duration = match field_exec(b, es, ee, 4) {
        Some(f4) => parse_uint_exec(b, f4.lo, f4.hi, 0xffff_ffff_ffff_ffffu64),
        None => None,
    };
    let mut r3 = r;
    r3.complete = complete;
    r3.ended = Some(stamp);
    r3.duration_ms = duration;
    if r3.missing_start {
        let level: u32 = match field_exec(b, es, ee, 3) {
            Some(f3) => match parse_uint_exec(b, f3.lo, f3.hi, 0xffff_ffffu64) {
                Some(v) => v as u32,
                None => 0,
            },
            None => 0,
        };
        r3.level = level;
        r3.complete = complete && level > 0 && match duration {
            Some(d) => d > 0,
            None => false,
        };
    }
    r3
}

fn is_raid_difficulty_exec(d: u32) -> (r: bool)
    ensures
        r == is_raid_difficulty(d),
{
    d == 3 || d == 4 || d == 5 || d == 6 || d == 7 || d == 9 || d == 14 || d == 15 || d == 16
        || d == 17
}

/// End of `b[lo..hi]` once trailing carriage returns and line feeds are removed.
fn crlf_trim_end(b: &[u8], lo: usize, hi: usize) -> (e: usize)
    requires
        lo <= hi <= b@.len(),
    ensures
        lo <= e <= hi,
        e - lo == crlf_trimmed_len(b@.subrange(lo as int, hi as int)),
{
    let mut e = hi;
    while e > lo && (b[e - 1] == 0x0d || b[e - 1] == 0x0a)
        invariant
            lo <= e <= hi <= b@.len(),
            crlf_trimmed_len(b@.subrange(lo as int, hi as int)) == crlf_trimmed_len(
                b@.subrange(lo as int, e as int),
            ),
        decreases e,
    {
        assert(b@.subrange(lo as int, e as int).drop_last() =~= b@.subrange(lo as int, e - 1));
        e = e - 1;
    }
    e
}

/// Finds the runs of a log snapshot (its complete lines only). A key whose
/// start line is missing is recovered only from a Mythic+ zone entry followed
/// by a successful end for that same zone.
pub fn scan(content: &str) -> (r: Result<Vec<Run>, ScanError>)
    ensures
        match scan_log(content.spec_bytes()) {
            Ok(v) => r matches Ok(runs) && runs_view(runs@) == v && runs_ok(content.spec_bytes(), v),
            Err(e) => r == Err::<Vec<Run>, ScanError>(e),
        },
{
    let b = content.as_bytes();
    let n = b.len();
    proof {
        encode_utf8_valid_utf8(content@);
        is_char_boundary_start_end_of_seq(b@);
        if b@.len() > 0 {
            is_char_boundary_iff_not_is_continuation_byte(b@, 0);
        }
    }
    let mut sc = Scanner {
        runs: Vec::new(),
        active: None,
        digest: 0xcbf29ce484222325,
        header: Span { lo: 0, hi: 0 },
        zone: Span { lo: 0, hi: 0 },
        map: Span { lo: 0, hi: 0 },
    };
    assert(runs_view(sc.runs@) =~= seq![]);
    assert(sc@ =~= initial_model());
    let mut off: usize = 0;
    loop
        invariant_except_break
            valid_utf8(b@),
            b@ == content.spec_bytes(),
            n == b@.len(),
            off <= b@.len(),
            at_char(b@, off as int),
            model_ok(b@, sc@),
            ends_by(sc@, off as int),
            scan_lines(b@, 0, initial_model()) == scan_lines(b@, off as int, sc@),
        ensures
            valid_utf8(b@),
            b@ == content.spec_bytes(),
            model_ok(b@, sc@),
            scan_lines(b@, 0, initial_model()) == Ok::<ScanModel, ScanError>(sc@),
        decreases b@.len() - off,
    {
        if off >= n {
            break;
        }
        let nl = find_byte_exec(b, off, n, 0x0a);
        proof {
            lemma_find_byte(b@, off as int, b@.len() as int, 0x0a);
        }
        if nl >= n {
            break;
        }
        let end = nl + 1;
        let ghost before = sc@;
        match sc.step(b, off, end) {
            Err(e) => {
                assert(scan_lines(b@, off as int, before) == Err::<ScanModel, ScanError>(e));
                return Err(e);
            },
            Ok(()) => {},
        }
        proof {
            lemma_after_ascii_at_char(b@, nl as int);
            assert(scan_lines(b@, off as int, before) == scan_lines(b@, end as int, sc@));
        }
        off = end;
    }
    sc.finish(b, false);
    Ok(sc.runs)
}

// ---------------------------------------------------------------------------
// Extraction
// ---------------------------------------------------------------------------

/// Why a run could not be extracted.
#[derive(Clone, Copy, Debug, PartialEq, Eq)]
pub enum ExtractError {
    /// The log could not be scanned.
    Scan(ScanError),
    /// No run of the log has the requested id.
    RunNotFound,
    /// The run is an unfinished or abandoned key, or a raid still in progress.
    Incomplete,
    /// The run's lines no longer give its id.
    RunChanged,
}

/// Index of the first run with id `id` at or after `i`, or `runs.len()`.
pub open spec fn find_run(runs: Seq<RunView>, id: Seq<char>, i: int) -> int
    decreases runs.len() - i,
{
    if i < 0 || i >= runs.len() {
        runs.len() as int
    } else if runs[i].id == id {
        i
    } else {
        find_run(runs, id, i + 1)
    }
}

/// Digest of the lines of `b[p..hi]` as `str::lines` yields them (a line
/// break is `\n` or `\r\n`), each followed by `\n`, continuing from `h`.
pub open spec fn lines_digest(h: u64, b: Seq<u8>, p: int, hi: int) -> u64
    decreases hi - p,
{
    if p < 0 || p >= hi || hi > b.len() {
        h
    } else {
        let nl = find_byte(b, p, hi, 0x0a);
        let ce = if nl < hi && nl > p && b[nl - 1] == 0x0d {
            nl - 1
        } else {
            nl
        };
        let next = if nl < hi {
            nl + 1
        } else {
            hi
        };
        proof {
            lemma_find_byte(b, p, hi, 0x0a);
        }
        lines_digest(fnv(fnv(h, b.subrange(p, ce)), seq![0x0au8]), b, next, hi)
    }
}

pub open spec fn is_raid_run(r: RunView) -> bool {
    r.kind == ascii_chars(kind_bytes(true))
}

/// `<name> (raid, difficulty <n>)` or `<name> +<level>`.
pub open spec fn run_label(r: RunView) -> Seq<char> {
    if is_raid_run(r) {
        r.name + " (raid, difficulty "@ + ascii_chars(crate::text::decimal(r.difficulty as nat))
            + ")"@
    } else {
        r.name + " +"@ + ascii_chars(crate::text::decimal(r.level as nat))
    }
}

/// What extracting run `id` from log `b` gives: the run's context lines and
/// its own lines, and a label with the run's start stamp.
pub open spec fn extract_log(b: Seq<u8>, id: Seq<char>) -> Result<(Seq<char>, Seq<char>), ExtractError> {
    match scan_log(b) {
        Err(e) => Err(ExtractError::Scan(e)),
        Ok(runs) => {
            let i = find_run(runs, id, 0);
            if i >= runs.len() {
                Err(ExtractError::RunNotFound)
            } else {
                let r = runs[i];
                if !r.complete {
                    Err(ExtractError::Incomplete)
                } else {
                    let digest = lines_digest(fnv_offset(), b, r.start as int, r.end as int);
                    if ascii_chars(run_id_bytes(is_raid_run(r), digest)) != id {
                        Err(ExtractError::RunChanged)
                    } else {
                        Ok(
                            (
                                r.context + decode_utf8(b.subrange(r.start as int, r.end as int)),
                                run_label(r) + " \u{2014} "@ + r.started,
                            ),
                        )
                    }
                }
            }
        },
    }
}

fn lines_digest_exec(h: u64, b: &[u8], lo: usize, hi: usize) -> (r: u64)
    requires
        lo <= hi <= b@.len(),
    ensures
        r == lines_digest(h, b@, lo as int, hi as int),
{
    let mut h = h;
    let mut p = lo;
    let ghost h0 = h;
    while p < hi
        invariant
            lo <= p <= hi <= b@.len(),
            lines_digest(h0, b@, lo as int, hi as int) == lines_digest(h, b@, p as int, hi as int),
        decreases hi - p,
    {
        let nl = find_byte_exec(b, p, hi, 0x0a);
        proof {
            lemma_find_byte(b@, p as int, hi as int, 0x0a);
        }
        let ce = if nl < hi && nl > p && b[nl - 1] == 0x0d {
            nl - 1
        } else {
            nl
        };
        let h1 = hash_span(h, b, Span { lo: p, hi: ce });
        let lf: [u8; 1] = [0x0a];
        assert(lf@ =~= seq![0x0au8]);
        h = hash(h1, &lf);
        p = if nl < hi {
            nl + 1
        } else {
            hi
        };
    }
    h
}

/// Re-scans the log rather than trusting stale offsets, and returns the run
/// `id` preceded by its context lines, with a label; only complete runs can
/// be extracted.
pub fn extract(content: &str, id: &str) -> (r: Result<(String, String), ExtractError>)
    ensures
        match extract_log(content.spec_bytes(), id@) {
            Ok((raw, label)) => r matches Ok((x, y)) && x@ == raw && y@ == label,
            Err(e) => r == Err::<(String, String), ExtractError>(e),
        },
{
    let runs = match scan(content) {
        Ok(v) => v,
        Err(e) => return Err(ExtractError::Scan(e)),
    };
    let b = content.as_bytes();
    let n = b.len();
    let ghost views = runs_view(runs@);
    let mut i: usize = 0;
    loop
        invariant_except_break
            i <= runs@.len(),
            views == runs_view(runs@),
            find_run(views, id@, 0) == find_run(views, id@, i as int),
        ensures
            i <= runs@.len(),
            views == runs_view(runs@),
            find_run(views, id@, 0) == i,
        decreases runs@.len() - i,
    {
        if i >= runs.len() {
            break;
        }
        if same_text(runs[i].id.as_str(), id) {
            assert(views[i as int].id == id@);
            break;
        }
        i = i + 1;
    }
    if i >= runs.len() {
        return Err(ExtractError::RunNotFound);
    }
    let run = &runs[i];
    assert(views[i as int] == run@);
    if !run.complete {
        return Err(ExtractError::Incomplete);
    }
    let start = run.start as usize;
    let end = run.end as usize;
    proof {
        encode_utf8_valid_utf8(content@);
        assert(run_offsets_ok(b@, views[i as int]));
        lemma_utf8_slice(b@, start as int, end as int);
    }
    let digest = lines_digest_exec(0xcbf29ce484222325, b, start, end);
    let raid = is_raid_kind(&run.kind);
    let again = run_id_of(raid, digest);
    if !same_text(again.as_str(), id) {
        return Err(ExtractError::RunChanged);
    }
    let mut raw = crate::text::TextBuilder::new();
    raw.push_str(run.context.as_str());
    raw.push_str(text_of(&b[start..end]).as_str());
    let mut label = crate::text::TextBuilder::new();
    label.push_str(run.name.as_str());
    if raid {
        label.push_str(" (raid, difficulty ");
        label.push_decimal(run.difficulty as u64);
        label.push_str(")");
    } else {
        label.push_str(" +");
        label.push_decimal(run.level as u64);
    }
    label.push_str(" \u{2014} ");
    label.push_str(run.started.as_str());
    Ok((raw.into_string(), label.into_string()))
}

// ---------------------------------------------------------------------------
// Laws
// ---------------------------------------------------------------------------

/// The shape of an emitted run: its kind is `raid` or `mplus` and its id is
/// that kind with some digest; a key is at difficulty 8; a raid session is at
/// a raid difficulty, with level 0 and no duration.
pub open spec fn run_shape(r: RunView) -> bool {
    &&& (r.kind == ascii_chars(kind_bytes(true)) || r.kind == ascii_chars(kind_bytes(false)))
    &&& exists|d: u64| r.id == ascii_chars(#[trigger] run_id_bytes(is_raid_run(r), d))
    &&& !is_raid_run(r) ==> r.difficulty == 8
    &&& is_raid_run(r) ==> is_raid_difficulty(r.difficulty) && r.level == 0 && r.duration_ms is None
}

/// What every emitted run satisfies.
pub open spec fn emitted_facts(r: RunView) -> bool {
    &&& run_shape(r)
    &&& r.missing_start ==> {
        &&& r.complete
        &&& r.level > 0
        &&& r.duration_ms matches Some(d) && d > 0
        &&& !is_raid_run(r)
    }
    &&& is_raid_run(r) ==> r.attempts > 0
}

pub open spec fn open_facts(r: OpenRun) -> bool {
    &&& !r.raid ==> r.difficulty == 8
    &&& r.raid ==> is_raid_difficulty(r.difficulty) && r.level == 0 && r.duration_ms is None
    &&& r.missing_start ==> !r.raid
    &&& (r.missing_start && r.complete) ==> r.level > 0 && (r.duration_ms matches Some(d) && d > 0)
}

pub open spec fn facts(m: ScanModel) -> bool {
    &&& forall|i: int| 0 <= i < m.runs.len() ==> emitted_facts(#[trigger] m.runs[i])
    &&& (m.active matches Some(r) ==> open_facts(r))
}

proof fn lemma_finish_facts(b: Seq<u8>, m: ScanModel, closed: bool)
    requires
        facts(m),
    ensures
        facts(finish_model(b, m, closed)),
        finish_model(b, m, closed).active is None,
{
    lemma_ascii_chars_raid();
    let f = finish_model(b, m, closed);
    if let Some(r) = m.active {
        let v = run_view(b, r, m.digest);
        assert(v.id == ascii_chars(run_id_bytes(is_raid_run(v), m.digest)));
    }
    assert forall|i: int| 0 <= i < f.runs.len() implies emitted_facts(#[trigger] f.runs[i]) by {
        if i < m.runs.len() {
            assert(f.runs[i] == m.runs[i]);
        }
    }
}

proof fn lemma_step_facts(b: Seq<u8>, m: ScanModel, off: int, end: int)
    requires
        facts(m),
    ensures
        step(b, m, off, end) matches Ok(m2) ==> facts(m2),
{
    reveal(step);
    let te = off + trimmed_end_len(b.subrange(off, end));
    let sp = find_double_space(b, off, te);
    if sp < te {
        let stamp = span(off, sp);
        let line = span(off, end);
        let es = sp + 2;
        lemma_zone_facts(b, m, line, stamp, es, te);
        if let Ok(m1) = zone_phase(b, m, line, stamp, es, te) {
            let m2 = header_phase(b, m1, line, es, te);
            assert(facts(m2));
            lemma_start_facts(b, m2, line, stamp, es, te);
            if let Ok(m3) = start_phase(b, m2, line, stamp, es, te) {
                lemma_active_facts(b, m3, line, stamp, es, te);
            }
        }
    }
}

proof fn lemma_zone_facts(b: Seq<u8>, m: ScanModel, line: Span, stamp: Span, es: int, ee: int)
    requires
        facts(m),
    ensures
        zone_phase(b, m, line, stamp, es, ee) matches Ok(m2) ==> facts(m2),
{
    if let Some(z) = zone_entry(b, es, ee) {
        if let Some(dv) = parse_uint(b, z.difficulty.lo as int, z.difficulty.hi as int, u32::MAX as nat) {
            let difficulty = dv as u32;
            lemma_finish_facts(b, m, false);
            let m1 = match m.active {
                Some(r) => if !r.raid && (bytes_of(b, r.zone) != bytes_of(b, z.zone) || difficulty
                    != 8) {
                    finish_model(b, m, false)
                } else {
                    m
                },
                None => m,
            };
            let same = match m1.active {
                Some(r) => r.raid && bytes_of(b, r.zone) == bytes_of(b, z.zone) && r.difficulty
                    == difficulty,
                None => false,
            };
            lemma_finish_facts(b, m1, true);
            let m2 = match m1.active {
                Some(r) => if r.raid && !same {
                    finish_model(b, m1, true)
                } else {
                    m1
                },
                None => m1,
            };
            lemma_finish_facts(b, m2, false);
        }
    }
}

proof fn lemma_start_facts(b: Seq<u8>, m: ScanModel, line: Span, stamp: Span, es: int, ee: int)
    requires
        facts(m),
    ensures
        start_phase(b, m, line, stamp, es, ee) matches Ok(m2) ==> facts(m2),
{
    lemma_finish_facts(b, m, true);
}

proof fn lemma_active_facts(b: Seq<u8>, m: ScanModel, line: Span, stamp: Span, es: int, ee: int)
    requires
        facts(m),
    ensures
        facts(active_phase(b, m, line, stamp, es, ee)),
{
    if let Some(r) = m.active {
        let digest = digest_line(m.digest, bytes_of(b, line));
        let r2 = extend_run(b, r, line, stamp, es, ee);
        let m1 = ScanModel { digest, active: Some(r2), ..m };
        assert(facts(m1));
        if !r2.raid && has_prefix(b, es, ee, key_end_tag()) {
            if let Some(f1) = field(b, es, ee, 1) {
                if bytes_of(b, f1) == bytes_of(b, r2.zone) {
                    let k = ended_key(b, r2, stamp, es, ee);
                    assert(open_facts(k));
                    lemma_finish_facts(b, ScanModel { active: Some(k), ..m1 }, false);
                }
            }
        }
    }
}

proof fn lemma_scan_lines_facts(b: Seq<u8>, pos: int, m: ScanModel)
    requires
        facts(m),
    ensures
        scan_lines(b, pos, m) matches Ok(m2) ==> facts(m2),
    decreases b.len() - pos,
{
    if 0 <= pos < b.len() {
        let nl = find_byte(b, pos, b.len() as int, 0x0a);
        lemma_find_byte(b, pos, b.len() as int, 0x0a);
        if nl < b.len() {
            lemma_step_facts(b, m, pos, nl + 1);
            if let Ok(m2) = step(b, m, pos, nl + 1) {
                lemma_scan_lines_facts(b, nl + 1, m2);
            }
        }
    }
}

/// A key whose start line is missing is reported only once its end was seen
/// in the same zone with success, a positive level and a positive duration;
/// such a key is a Mythic+ run.
pub proof fn law_recovered_keys_are_complete(b: Seq<u8>)
    ensures
        scan_log(b) matches Ok(runs) ==> forall|i: int|
            0 <= i < runs.len() && (#[trigger] runs[i]).missing_start ==> {
                &&& runs[i].complete
                &&& runs[i].level > 0
                &&& runs[i].duration_ms matches Some(d) && d > 0
                &&& !is_raid_run(runs[i])
            },
{
    lemma_scan_lines_facts(b, 0, initial_model());
    if let Ok(m) = scan_lines(b, 0, initial_model()) {
        lemma_finish_facts(b, m, false);
        let runs = finish_model(b, m, false).runs;
        assert forall|i: int| 0 <= i < runs.len() && (#[trigger] runs[i]).missing_start implies {
            &&& runs[i].complete
            &&& runs[i].level > 0
            &&& runs[i].duration_ms matches Some(d) && d > 0
            &&& !is_raid_run(runs[i])
        } by {
            assert(emitted_facts(runs[i]));
        }
    }
}

/// A raid session is reported only with at least one encounter in it.
pub proof fn law_raids_have_encounters(b: Seq<u8>)
    ensures
        scan_log(b) matches Ok(runs) ==> forall|i: int|
            0 <= i < runs.len() && is_raid_run(#[trigger] runs[i]) ==> runs[i].attempts > 0,
{
    lemma_scan_lines_facts(b, 0, initial_model());
    if let Ok(m) = scan_lines(b, 0, initial_model()) {
        lemma_finish_facts(b, m, false);
        let runs = finish_model(b, m, false).runs;
        assert forall|i: int| 0 <= i < runs.len() && is_raid_run(#[trigger] runs[i]) implies runs[i].attempts
            > 0 by {
            assert(emitted_facts(runs[i]));
        }
    }
}

/// Every run found is `raid` or `mplus` with an id of the form
/// `<kind>-v1-<digest>`; every key is at difficulty 8; every raid session is
/// at one of the raid difficulties (3, 4, 5, 6, 7, 9, 14, 15, 16, 17), with
/// level 0 and no duration.
pub proof fn law_runs_have_their_shape(b: Seq<u8>)
    ensures
        scan_log(b) matches Ok(runs) ==> forall|i: int| 0 <= i < runs.len() ==> run_shape(#[trigger] runs[i]),
{
    lemma_scan_lines_facts(b, 0, initial_model());
    if let Ok(m) = scan_lines(b, 0, initial_model()) {
        lemma_finish_facts(b, m, false);
        let runs = finish_model(b, m, false).runs;
        assert forall|i: int| 0 <= i < runs.len() implies run_shape(#[trigger] runs[i]) by {
            assert(emitted_facts(runs[i]));
        }
    }
}

// ---------------------------------------------------------------------------
// Appending lines
// ---------------------------------------------------------------------------

pub open spec fn span_in(s: Span, n: int) -> bool {
    s.lo <= s.hi <= n
}

pub open spec fn open_in(r: OpenRun, n: int) -> bool {
    &&& span_in(r.name, n)
    &&& span_in(r.zone, n)
    &&& span_in(r.started, n)
    &&& (r.ended matches Some(e) ==> span_in(e, n))
    &&& span_in(r.context.0, n)
    &&& span_in(r.context.1, n)
    &&& span_in(r.context.2, n)
}

/// Every byte range the scanner holds lies in the first `n` bytes.
pub open spec fn within(m: ScanModel, n: int) -> bool {
    &&& (m.active matches Some(r) ==> open_in(r, n))
    &&& span_in(m.header, n)
    &&& span_in(m.zone, n)
    &&& span_in(m.map, n)
}

proof fn lemma_agree_run_view(b1: Seq<u8>, b2: Seq<u8>, n: int, r: OpenRun, d: u64)
    requires
        agree(b1, b2, n),
        open_in(r, n),
    ensures
        run_view(b1, r, d) == run_view(b2, r, d),
{
    lemma_agree_subrange(b1, b2, n, r.name.lo as int, r.name.hi as int);
    lemma_agree_subrange(b1, b2, n, r.zone.lo as int, r.zone.hi as int);
    lemma_agree_subrange(b1, b2, n, r.started.lo as int, r.started.hi as int);
    if let Some(e) = r.ended {
        lemma_agree_subrange(b1, b2, n, e.lo as int, e.hi as int);
    }
    lemma_agree_subrange(b1, b2, n, r.context.0.lo as int, r.context.0.hi as int);
    lemma_agree_subrange(b1, b2, n, r.context.1.lo as int, r.context.1.hi as int);
    lemma_agree_subrange(b1, b2, n, r.context.2.lo as int, r.context.2.hi as int);
}

proof fn lemma_agree_finish(b1: Seq<u8>, b2: Seq<u8>, n: int, m: ScanModel, closed: bool)
    requires
        agree(b1, b2, n),
        within(m, n),
    ensures
        finish_model(b1, m, closed) == finish_model(b2, m, closed),
        within(finish_model(b1, m, closed), n),
{
    if let Some(r) = m.active {
        let done = if r.raid {
            OpenRun { complete: closed && !r.encounter_open, ..r }
        } else {
            r
        };
        lemma_agree_run_view(b1, b2, n, done, m.digest);
    }
}

proof fn lemma_agree_zone_phase(
    b1: Seq<u8>,
    b2: Seq<u8>,
    n: int,
    m: ScanModel,
    line: Span,
    stamp: Span,
    es: int,
    ee: int,
)
    requires
        agree(b1, b2, n),
        b1.len() <= usize::MAX,
        within(m, n),
        span_in(line, n),
        span_in(stamp, n),
        0 <= es <= ee <= n,
    ensures
        zone_phase(b1, m, line, stamp, es, ee) == zone_phase(b2, m, line, stamp, es, ee),
        zone_phase(b1, m, line, stamp, es, ee) matches Ok(m2) ==> within(m2, n),
{
    lemma_agree_zone_entry(b1, b2, n, es, ee);
    lemma_zone_entry_within(b1, es, ee);
    if let Some(z) = zone_entry(b1, es, ee) {
        lemma_agree_parse_uint(b1, b2, n, z.difficulty.lo as int, z.difficulty.hi as int, u32::MAX as nat);
        lemma_agree_subrange(b1, b2, n, z.zone.lo as int, z.zone.hi as int);
        if let Some(dv) = parse_uint(b1, z.difficulty.lo as int, z.difficulty.hi as int, u32::MAX as nat) {
            let difficulty = dv as u32;
            lemma_agree_finish(b1, b2, n, m, false);
            if let Some(r) = m.active {
                lemma_agree_subrange(b1, b2, n, r.zone.lo as int, r.zone.hi as int);
            }
            let m1 = match m.active {
                Some(r) => if !r.raid && (bytes_of(b1, r.zone) != bytes_of(b1, z.zone)
                    || difficulty != 8) {
                    finish_model(b1, m, false)
                } else {
                    m
                },
                None => m,
            };
            if let Some(r) = m1.active {
                lemma_agree_subrange(b1, b2, n, r.zone.lo as int, r.zone.hi as int);
            }
            let same = match m1.active {
                Some(r) => r.raid && bytes_of(b1, r.zone) == bytes_of(b1, z.zone) && r.difficulty
                    == difficulty,
                None => false,
            };
            lemma_agree_finish(b1, b2, n, m1, true);
            let m2 = match m1.active {
                Some(r) => if r.raid && !same {
                    finish_model(b1, m1, true)
                } else {
                    m1
                },
                None => m1,
            };
            lemma_agree_finish(b1, b2, n, m2, false);
        }
    }
}

proof fn lemma_agree_start_phase(
    b1: Seq<u8>,
    b2: Seq<u8>,
    n: int,
    m: ScanModel,
    line: Span,
    stamp: Span,
    es: int,
    ee: int,
)
    requires
        agree(b1, b2, n),
        b1.len() <= usize::MAX,
        within(m, n),
        span_in(line, n),
        span_in(stamp, n),
        0 <= es <= ee <= n,
    ensures
        start_phase(b1, m, line, stamp, es, ee) == start_phase(b2, m, line, stamp, es, ee),
        start_phase(b1, m, line, stamp, es, ee) matches Ok(m2) ==> within(m2, n),
{
    lemma_agree_key_start(b1, b2, n, es, ee);
    lemma_key_start_within(b1, es, ee);
    if let Some(k) = key_start(b1, es, ee) {
        lemma_agree_parse_uint(b1, b2, n, k.level.lo as int, k.level.hi as int, u32::MAX as nat);
        lemma_agree_finish(b1, b2, n, m, true);
    }
}

proof fn lemma_agree_header_phase(
    b1: Seq<u8>,
    b2: Seq<u8>,
    n: int,
    m: ScanModel,
    line: Span,
    es: int,
    ee: int,
)
    requires
        agree(b1, b2, n),
        within(m, n),
        span_in(line, n),
        0 <= es <= ee <= n,
    ensures
        header_phase(b1, m, line, es, ee) == header_phase(b2, m, line, es, ee),
        within(header_phase(b1, m, line, es, ee), n),
{
    lemma_agree_has_prefix(b1, b2, n, es, ee, log_version_tag());
    lemma_agree_has_prefix(b1, b2, n, es, ee, zone_change_tag());
    lemma_agree_has_prefix(b1, b2, n, es, ee, map_change_tag());
}

proof fn lemma_agree_ended_key(
    b1: Seq<u8>,
    b2: Seq<u8>,
    n: int,
    r: OpenRun,
    stamp: Span,
    es: int,
    ee: int,
)
    requires
        agree(b1, b2, n),
        b1.len() <= usize::MAX,
        open_in(r, n),
        span_in(stamp, n),
        0 <= es <= ee <= n,
    ensures
        ended_key(b1, r, stamp, es, ee) == ended_key(b2, r, stamp, es, ee),
        open_in(ended_key(b1, r, stamp, es, ee), n),
{
    lemma_agree_field(b1, b2, n, es, ee, 2);
    lemma_agree_field(b1, b2, n, es, ee, 3);
    lemma_agree_field(b1, b2, n, es, ee, 4);
    crate::events::lemma_field(b1, es, ee, 2);
    crate::events::lemma_field(b1, es, ee, 3);
    crate::events::lemma_field(b1, es, ee, 4);
    if let Some(f2) = field(b1, es, ee, 2) {
        lemma_agree_subrange(b1, b2, n, f2.lo as int, f2.hi as int);
    }
    if let Some(f3) = field(b1, es, ee, 3) {
        lemma_agree_parse_uint(b1, b2, n, f3.lo as int, f3.hi as int, u32::MAX as nat);
    }
    if let Some(f4) = field(b1, es, ee, 4) {
        lemma_agree_parse_uint(b1, b2, n, f4.lo as int, f4.hi as int, u64::MAX as nat);
    }
}

proof fn lemma_agree_active_phase(
    b1: Seq<u8>,
    b2: Seq<u8>,
    n: int,
    m: ScanModel,
    line: Span,
    stamp: Span,
    es: int,
    ee: int,
)
    requires
        agree(b1, b2, n),
        b1.len() <= usize::MAX,
        within(m, n),
        span_in(line, n),
        span_in(stamp, n),
        0 <= es <= ee <= n,
    ensures
        active_phase(b1, m, line, stamp, es, ee) == active_phase(b2, m, line, stamp, es, ee),
        within(active_phase(b1, m, line, stamp, es, ee), n),
{
    if let Some(r) = m.active {
        lemma_agree_subrange(b1, b2, n, line.lo as int, line.hi as int);
        lemma_agree_has_prefix(b1, b2, n, es, ee, encounter_start_tag());
        lemma_agree_has_prefix(b1, b2, n, es, ee, encounter_end_tag());
        lemma_agree_has_prefix(b1, b2, n, es, ee, key_end_tag());
        let digest = digest_line(m.digest, bytes_of(b1, line));
        let r2 = extend_run(b1, r, line, stamp, es, ee);
        let m1 = ScanModel { digest, active: Some(r2), ..m };
        assert(extend_run(b1, r, line, stamp, es, ee) == extend_run(b2, r, line, stamp, es, ee));
        lemma_agree_field(b1, b2, n, es, ee, 1);
        crate::events::lemma_field(b1, es, ee, 1);
        if let Some(f1) = field(b1, es, ee, 1) {
            lemma_agree_subrange(b1, b2, n, f1.lo as int, f1.hi as int);
        }
        lemma_agree_subrange(b1, b2, n, r2.zone.lo as int, r2.zone.hi as int);
        lemma_agree_ended_key(b1, b2, n, r2, stamp, es, ee);
        let k = ended_key(b1, r2, stamp, es, ee);
        lemma_agree_finish(b1, b2, n, ScanModel { active: Some(k), ..m1 }, false);
    }
}

proof fn lemma_agree_step(b1: Seq<u8>, b2: Seq<u8>, n: int, m: ScanModel, off: int, end: int)
    requires
        agree(b1, b2, n),
        b1.len() <= usize::MAX,
        within(m, n),
        0 <= off <= end <= n,
    ensures
        step(b1, m, off, end) == step(b2, m, off, end),
        step(b1, m, off, end) matches Ok(m2) ==> within(m2, n),
{
    reveal(step);
    lemma_agree_subrange(b1, b2, n, off, end);
    crate::text::lemma_trimmed_end_bounds(b1.subrange(off, end));
    let te = off + trimmed_end_len(b1.subrange(off, end));
    lemma_agree_find_double_space(b1, b2, n, off, te);
    lemma_find_double_space_range(b1, off, te);
    let sp = find_double_space(b1, off, te);
    if sp < te {
        let stamp = span(off, sp);
        let line = span(off, end);
        let es = sp + 2;
        lemma_agree_zone_phase(b1, b2, n, m, line, stamp, es, te);
        if let Ok(m1) = zone_phase(b1, m, line, stamp, es, te) {
            lemma_agree_header_phase(b1, b2, n, m1, line, es, te);
            let m2 = header_phase(b1, m1, line, es, te);
            lemma_agree_start_phase(b1, b2, n, m2, line, stamp, es, te);
            if let Ok(m3) = start_phase(b1, m2, line, stamp, es, te) {
                lemma_agree_active_phase(b1, b2, n, m3, line, stamp, es, te);
            }
        }
    }
}

pub open spec fn is_prefix(s1: Seq<RunView>, s2: Seq<RunView>) -> bool {
    s1.len() <= s2.len() && forall|i: int| 0 <= i < s1.len() ==> s2[i] == s1[i]
}

proof fn lemma_finish_prefix(b: Seq<u8>, m: ScanModel, closed: bool)
    ensures
        is_prefix(m.runs, finish_model(b, m, closed).runs),
        finish_model(b, m, closed).runs.len() <= m.runs.len() + 1,
{
}

proof fn lemma_step_prefix(b: Seq<u8>, m: ScanModel, off: int, end: int)
    ensures
        step(b, m, off, end) matches Ok(m2) ==> is_prefix(m.runs, m2.runs),
{
    reveal(step);
    let te = off + trimmed_end_len(b.subrange(off, end));
    let sp = find_double_space(b, off, te);
    if sp < te {
        let stamp = span(off, sp);
        let line = span(off, end);
        let es = sp + 2;
        if let Some(z) = zone_entry(b, es, te) {
            if let Some(dv) = parse_uint(b, z.difficulty.lo as int, z.difficulty.hi as int, u32::MAX as nat) {
                let difficulty = dv as u32;
                lemma_finish_prefix(b, m, false);
                let m1 = match m.active {
                    Some(r) => if !r.raid && (bytes_of(b, r.zone) != bytes_of(b, z.zone)
                        || difficulty != 8) {
                        finish_model(b, m, false)
                    } else {
                        m
                    },
                    None => m,
                };
                lemma_finish_prefix(b, m1, true);
                let same = match m1.active {
                    Some(r) => r.raid && bytes_of(b, r.zone) == bytes_of(b, z.zone) && r.difficulty
                        == difficulty,
                    None => false,
                };
                let m2 = match m1.active {
                    Some(r) => if r.raid && !same {
                        finish_model(b, m1, true)
                    } else {
                        m1
                    },
                    None => m1,
                };
                lemma_finish_prefix(b, m2, false);
            }
        }
        if let Ok(m1) = zone_phase(b, m, line, stamp, es, te) {
            let m2 = header_phase(b, m1, line, es, te);
            lemma_finish_prefix(b, m2, true);
            if let Ok(m3) = start_phase(b, m2, line, stamp, es, te) {
                if let Some(r) = m3.active {
                    let digest = digest_line(m3.digest, bytes_of(b, line));
                    let r2 = extend_run(b, r, line, stamp, es, te);
                    let m4 = ScanModel { digest, active: Some(r2), ..m3 };
                    let k = ended_key(b, r2, stamp, es, te);
                    lemma_finish_prefix(b, ScanModel { active: Some(k), ..m4 }, false);
                }
            }
        }
    }
}

proof fn lemma_scan_lines_prefix(b: Seq<u8>, pos: int, m: ScanModel)
    ensures
        scan_lines(b, pos, m) matches Ok(m2) ==> is_prefix(m.runs, m2.runs),
    decreases b.len() - pos,
{
    if 0 <= pos < b.len() {
        let nl = find_byte(b, pos, b.len() as int, 0x0a);
        lemma_find_byte(b, pos, b.len() as int, 0x0a);
        if nl < b.len() {
            lemma_step_prefix(b, m, pos, nl + 1);
            if let Ok(m2) = step(b, m, pos, nl + 1) {
                lemma_scan_lines_prefix(b, nl + 1, m2);
            }
        }
    }
}

proof fn lemma_find_byte_hit(b: Seq<u8>, p: int, hi1: int, hi2: int, x: u8)
    requires
        0 <= p <= hi1 <= hi2 <= b.len(),
        find_byte(b, p, hi1, x) < hi1,
    ensures
        find_byte(b, p, hi2, x) == find_byte(b, p, hi1, x),
    decreases hi1 - p,
{
    if p < hi1 && b[p] != x {
        lemma_find_byte_hit(b, p + 1, hi1, hi2, x);
    }
}

/// Scanning a log that ends with a complete line and then more lines is
/// scanning the first part, then going on from its end.
proof fn lemma_scan_lines_split(b: Seq<u8>, d: Seq<u8>, pos: int, m: ScanModel)
    requires
        b.len() == 0 || b.last() == 0x0a,
        (b + d).len() <= usize::MAX,
        0 <= pos <= b.len(),
        within(m, b.len() as int),
    ensures
        scan_lines(b + d, pos, m) == (match scan_lines(b, pos, m) {
            Ok(mb) => scan_lines(b + d, b.len() as int, mb),
            Err(e) => Err(e),
        }),
    decreases b.len() - pos,
{
    let c = b + d;
    let n = b.len() as int;
    assert(agree(b, c, n));
    if pos < n {
        lemma_find_byte(b, pos, n, 0x0a);
        lemma_find_byte_last(b, pos);
        let nl = find_byte(b, pos, n, 0x0a);
        lemma_agree_find_byte(b, c, n, pos, n, 0x0a);
        lemma_find_byte_hit(c, pos, n, c.len() as int, 0x0a);
        lemma_agree_step(b, c, n, m, pos, nl + 1);
        if let Ok(m2) = step(b, m, pos, nl + 1) {
            lemma_scan_lines_split(b, d, nl + 1, m2);
        }
    }
}

proof fn lemma_find_byte_last(b: Seq<u8>, pos: int)
    requires
        b.len() > 0,
        b.last() == 0x0a,
        0 <= pos < b.len(),
    ensures
        find_byte(b, pos, b.len() as int, 0x0a) < b.len(),
    decreases b.len() - pos,
{
    if b[pos] != 0x0a {
        lemma_find_byte_last(b, pos + 1);
    }
}

/// The run being followed is not yet complete: a run becomes complete only
/// as it is closed.
pub open spec fn quiet(m: ScanModel) -> bool {
    m.active matches Some(r) ==> !r.complete
}

proof fn lemma_step_quiet(b: Seq<u8>, m: ScanModel, off: int, end: int)
    requires
        quiet(m),
    ensures
        step(b, m, off, end) matches Ok(m2) ==> quiet(m2),
{
    reveal(step);
    let te = off + trimmed_end_len(b.subrange(off, end));
    let sp = find_double_space(b, off, te);
    if sp < te {
        let stamp = span(off, sp);
        let line = span(off, end);
        let es = sp + 2;
        if let Ok(m1) = zone_phase(b, m, line, stamp, es, te) {
            assert(quiet(m1));
            let m2 = header_phase(b, m1, line, es, te);
            if let Ok(m3) = start_phase(b, m2, line, stamp, es, te) {
                assert(quiet(m3));
            }
        }
    }
}

proof fn lemma_scan_lines_quiet(b: Seq<u8>, pos: int, m: ScanModel)
    requires
        quiet(m),
    ensures
        scan_lines(b, pos, m) matches Ok(m2) ==> quiet(m2),
    decreases b.len() - pos,
{
    if 0 <= pos < b.len() {
        let nl = find_byte(b, pos, b.len() as int, 0x0a);
        lemma_find_byte(b, pos, b.len() as int, 0x0a);
        if nl < b.len() {
            lemma_step_quiet(b, m, pos, nl + 1);
            if let Ok(m2) = step(b, m, pos, nl + 1) {
                lemma_scan_lines_quiet(b, nl + 1, m2);
            }
        }
    }
}

proof fn lemma_scan_lines_within(b: Seq<u8>, pos: int, m: ScanModel)
    requires
        within(m, b.len() as int),
        b.len() <= usize::MAX,
    ensures
        scan_lines(b, pos, m) matches Ok(m2) ==> within(m2, b.len() as int),
    decreases b.len() - pos,
{
    if 0 <= pos < b.len() {
        let nl = find_byte(b, pos, b.len() as int, 0x0a);
        lemma_find_byte(b, pos, b.len() as int, 0x0a);
        if nl < b.len() {
            assert(agree(b, b, b.len() as int));
            lemma_agree_step(b, b, b.len() as int, m, pos, nl + 1);
            if let Ok(m2) = step(b, m, pos, nl + 1) {
                lemma_scan_lines_within(b, nl + 1, m2);
            }
        }
    }
}

/// A complete run found in a log that ends with a complete line, and every
/// run before it, stays as it is, in its place, once more text is appended;
/// only an incomplete last run (one still going on) may change.
pub proof fn law_appended_lines_keep_runs(b: Seq<u8>, d: Seq<u8>)
    requires
        b.len() == 0 || b.last() == 0x0a,
        (b + d).len() <= usize::MAX,
    ensures
        scan_log(b + d) matches Ok(r2) ==> scan_log(b) matches Ok(r1) && forall|i: int|
            0 <= i < r1.len() && (i < r1.len() - 1 || r1[i].complete) ==> i < r2.len()
                && #[trigger] r2[i] == r1[i],
{
    let c = b + d;
    lemma_scan_lines_split(b, d, 0, initial_model());
    lemma_scan_lines_quiet(b, 0, initial_model());
    if let Ok(mb) = scan_lines(b, 0, initial_model()) {
        lemma_scan_lines_prefix(c, b.len() as int, mb);
        lemma_finish_prefix(b, mb, false);
        if let Ok(m2) = scan_lines(c, b.len() as int, mb) {
            lemma_finish_prefix(c, m2, false);
        }
    }
}

/// A last line that is not yet terminated by a line feed (still being
/// written) changes nothing: the log scans as it does without it.
pub proof fn law_unterminated_line_is_ignored(b: Seq<u8>, s: Seq<u8>)
    requires
        b.len() == 0 || b.last() == 0x0a,
        forall|k: int| 0 <= k < s.len() ==> s[k] != 0x0a,
        (b + s).len() <= usize::MAX,
    ensures
        scan_log(b + s) == scan_log(b),
{
    let c = b + s;
    let n = b.len() as int;
    lemma_scan_lines_split(b, s, 0, initial_model());
    lemma_scan_lines_within(b, 0, initial_model());
    if let Ok(mb) = scan_lines(b, 0, initial_model()) {
        if n < c.len() {
            lemma_find_byte(c, n, c.len() as int, 0x0a);
            let k = find_byte(c, n, c.len() as int, 0x0a);
            if k < c.len() {
                assert(c[k] == s[k - n]);
            }
        }
        assert(scan_lines(c, n, mb) == Ok::<ScanModel, ScanError>(mb));
        assert(agree(b, c, n));
        lemma_agree_finish(b, c, n, mb, false);
    }
}

} // verus!
