//! Incremental reading of a growing combat log.
//!
//! A checkpoint records how far the log was read (always just after a line
//! feed), a fingerprint of the log's first line (its identity) and a
//! fingerprint of the 4096 bytes before the offset. Reading with a checkpoint
//! whose log is still the same continues after the offset; a log that was
//! replaced or truncated is read again from the start. Reading never moves a
//! checkpoint by itself: the caller keeps the new one once it is done with
//! the text, and a retry with the old checkpoint gives the same text.
use vstd::prelude::*;
use vstd::utf8::*;
use crate::text::{ascii_chars, decimal, hex16, text_from_utf8, TextBuilder};
use crate::events::{find_byte, find_byte_exec, lemma_find_byte};
use crate::runs::{fnv, fnv_offset, hash};

verus! {

broadcast use vstd::seq_lib::group_seq_properties;

/// Where a log was read up to, and what it looked like there.
#[derive(Clone, Debug)]
pub struct Checkpoint {
    pub offset: u64,
    pub fingerprint: String,
    pub boundary: String,
}

pub struct CheckpointView {
    pub offset: u64,
    pub fingerprint: Seq<char>,
    pub boundary: Seq<char>,
}

impl View for Checkpoint {
    type V = CheckpointView;

    open spec fn view(&self) -> CheckpointView {
        CheckpointView {
            offset: self.offset,
            fingerprint: self.fingerprint@,
            boundary: self.boundary@,
        }
    }
}

/// `<FNV-1a of the bytes, 16 hex digits>:<number of bytes>`.
pub open spec fn fingerprint_of(s: Seq<u8>) -> Seq<char> {
    ascii_chars(hex16(fnv(fnv_offset(), s))) + seq![':'] + ascii_chars(decimal(s.len()))
}

/// Number of bytes up to and including the last line feed (0 without one).
pub open spec fn complete_len(b: Seq<u8>) -> int
    decreases b.len(),
{
    if b.len() == 0 {
        0
    } else if b.last() == 0x0a {
        b.len() as int
    } else {
        complete_len(b.drop_last())
    }
}

/// Length of the log's first line (with its line feed), looking at no more
/// than the first 4096 bytes.
pub open spec fn identity_len(b: Seq<u8>) -> int {
    let head = if b.len() < 4096 {
        b.len() as int
    } else {
        4096
    };
    let nl = find_byte(b, 0, head, 0x0a);
    if nl < head {
        nl + 1
    } else {
        head
    }
}

/// The identity of a log: the fingerprint of its first line.
pub open spec fn identity_of(b: Seq<u8>) -> Seq<char> {
    fingerprint_of(b.subrange(0, identity_len(b)))
}

/// Fingerprint of the (up to) 4096 bytes before `offset`.
pub open spec fn boundary_of(b: Seq<u8>, offset: int) -> Seq<char> {
    let lo = if offset < 4096 {
        0
    } else {
        offset - 4096
    };
    fingerprint_of(b.subrange(lo, offset))
}

/// The checkpoint of a log read up to `offset`.
pub open spec fn checkpoint_at(b: Seq<u8>, offset: int) -> CheckpointView {
    CheckpointView {
        offset: offset as u64,
        fingerprint: identity_of(b),
        boundary: boundary_of(b, offset),
    }
}

/// The checkpoint after the log's complete lines, without reading them.
pub open spec fn snapshot_of(b: Seq<u8>) -> CheckpointView {
    checkpoint_at(b, complete_len(b))
}

/// Why nothing was read.
#[derive(Clone, Copy, Debug, PartialEq, Eq)]
pub enum ReadError {
    /// No complete line follows the checkpoint.
    NoNewEntries,
    /// The new lines are not UTF-8.
    NotUtf8,
}

/// The checkpoint still describes this log: same first line, a line feed
/// just before its offset and the same 4096 bytes before that.
pub open spec fn continues(b: Seq<u8>, c: CheckpointView) -> bool {
    &&& c.offset <= b.len()
    &&& c.fingerprint == identity_of(b)
    &&& b[c.offset - 1] == 0x0a
    &&& boundary_of(b, c.offset as int) == c.boundary
}

/// Where reading starts, and whether the log was found reset.
pub open spec fn read_start(b: Seq<u8>, cp: Option<CheckpointView>) -> (int, bool) {
    match cp {
        None => (0, false),
        Some(c) => if c.offset == 0 {
            (0, false)
        } else if continues(b, c) {
            (c.offset as int, false)
        } else {
            (0, true)
        },
    }
}

/// What reading the log `b` from checkpoint `cp` gives: the text of the
/// complete lines after the start, the checkpoint after them, and whether the
/// log was found replaced or truncated.
pub open spec fn read_log(b: Seq<u8>, cp: Option<CheckpointView>) -> Result<
    (Seq<char>, CheckpointView, bool),
    ReadError,
> {
    let (start, reset) = read_start(b, cp);
    let end = complete_len(b);
    if end <= start {
        Err(ReadError::NoNewEntries)
    } else if !valid_utf8(b.subrange(start, end)) {
        Err(ReadError::NotUtf8)
    } else {
        Ok((decode_utf8(b.subrange(start, end)), checkpoint_at(b, end), reset))
    }
}

pub proof fn lemma_complete_len(b: Seq<u8>)
    ensures
        0 <= complete_len(b) <= b.len(),
        complete_len(b) > 0 ==> b[complete_len(b) - 1] == 0x0a,
        forall|i: int| complete_len(b) <= i < b.len() ==> b[i] != 0x0a,
    decreases b.len(),
{
    if b.len() > 0 && b.last() != 0x0a {
        let c = b.drop_last();
        lemma_complete_len(c);
        assert forall|i: int| complete_len(b) <= i < b.len() implies b[i] != 0x0a by {
            if i < c.len() {
                assert(c[i] == b[i]);
            }
        }
    }
}

/// The fingerprint of `bytes`.
pub fn fingerprint(bytes: &[u8]) -> (r: String)
    ensures
        r@ == fingerprint_of(bytes@),
{
    let h = hash(0xcbf29ce484222325, bytes);
    let mut t = TextBuilder::new();
    t.push_hex16(h);
    let colon: [u8; 1] = [0x3a];
    proof {
        assert(ascii_chars(colon@) =~= seq![':']);
    }
    t.push_ascii(&colon);
    t.push_decimal(bytes.len() as u64);
    t.into_string()
}

/// Bytes up to and including the log's last line feed.
pub fn complete_end(b: &[u8]) -> (r: u64)
    ensures
        r == complete_len(b@),
{
    let mut end = b.len();
    assert(b@.subrange(0, b@.len() as int) =~= b@);
    while end > 0 && b[end - 1] != 0x0a
        invariant
            end <= b@.len(),
            complete_len(b@) == complete_len(b@.subrange(0, end as int)),
        decreases end,
    {
        assert(b@.subrange(0, end as int).drop_last() =~= b@.subrange(0, end - 1));
        end = end - 1;
    }
    assert(b@.subrange(0, b@.len() as int) =~= b@);
    proof {
        if end > 0 {
            assert(b@.subrange(0, end as int).last() == 0x0a);
        }
    }
    end as u64
}

/// The identity of the log.
pub fn identity(b: &[u8]) -> (r: String)
    ensures
        r@ == identity_of(b@),
{
    let head = if b.len() < 4096 {
        b.len()
    } else {
        4096
    };
    let nl = find_byte_exec(b, 0, head, 0x0a);
    let end = if nl < head {
        nl + 1
    } else {
        head
    };
    fingerprint(&b[0..end])
}

/// The boundary fingerprint of the log at `offset`.
pub fn boundary(b: &[u8], offset: u64) -> (r: String)
    requires
        offset <= b@.len(),
    ensures
        r@ == boundary_of(b@, offset as int),
{
    let n = b.len();
    let lo = offset.saturating_sub(4096);
    fingerprint(&b[lo as usize..offset as usize])
}

/// The checkpoint after the log's complete lines; the log is only looked at.
pub fn snapshot(b: &[u8]) -> (r: Checkpoint)
    ensures
        r@ == snapshot_of(b@),
{
    let offset = complete_end(b);
    proof {
        lemma_complete_len(b@);
    }
    Checkpoint { offset, fingerprint: identity(b), boundary: boundary(b, offset) }
}

/// Reads the complete lines of the log that follow `checkpoint` (all of them
/// without one, or when the log no longer matches it), with the checkpoint
/// to keep once they are handled and whether the log was found reset.
pub fn read(b: &[u8], checkpoint: Option<&Checkpoint>) -> (r: Result<(String, Checkpoint, bool), ReadError>)
    ensures
        match read_log(
            b@,
            match checkpoint {
                Some(c) => Some(c@),
                None => None,
            },
        ) {
            Ok((text, next, reset)) => r matches Ok((t, n, x)) && t@ == text && n@ == next && x
                == reset,
            Err(e) => r == Err::<(String, Checkpoint, bool), ReadError>(e),
        },
{
    let n = b.len();
    let ghost cpv = match checkpoint {
        Some(c) => Some(c@),
        None => None,
    };
    let id = identity(b);
    let mut start: u64 = 0;
    let mut reset = false;
    match checkpoint {
        None => {},
        Some(cp) => {
            if cp.offset == 0 {
                start = 0;
            } else if cp.offset <= b.len() as u64 && cp.fingerprint == id && b[cp.offset as usize
                - 1] == 0x0a && boundary(b, cp.offset) == cp.boundary {
                start = cp.offset;
            } else {
                reset = true;
            }
        },
    }
    assert((start as int, reset) == read_start(b@, cpv));
    let end = complete_end(b);
    proof {
        lemma_complete_len(b@);
    }
    if end <= start {
        return Err(ReadError::NoNewEntries);
    }
    let text = match text_from_utf8(&b[start as usize..end as usize]) {
        Some(t) => t,
        None => return Err(ReadError::NotUtf8),
    };
    let next = Checkpoint { offset: end, fingerprint: id, boundary: boundary(b, end) };
    Ok((text, next, reset))
}

// ---------------------------------------------------------------------------
// Laws
// ---------------------------------------------------------------------------

proof fn lemma_find_byte_agree(b1: Seq<u8>, b2: Seq<u8>, p: int, hi: int, x: u8)
    requires
        0 <= p <= hi <= b1.len(),
        hi <= b2.len(),
        forall|i: int| 0 <= i < hi ==> b1[i] == b2[i],
    ensures
        find_byte(b1, p, hi, x) == find_byte(b2, p, hi, x),
    decreases hi - p,
{
    if p < hi {
        lemma_find_byte_agree(b1, b2, p + 1, hi, x);
    }
}

proof fn lemma_identity_extends(b: Seq<u8>, d: Seq<u8>)
    requires
        complete_len(b) > 0,
    ensures
        identity_of(b + d) == identity_of(b),
{
    let c = b + d;
    lemma_complete_len(b);
    let head1 = if b.len() < 4096 {
        b.len() as int
    } else {
        4096
    };
    let head2 = if c.len() < 4096 {
        c.len() as int
    } else {
        4096
    };
    let nl1 = find_byte(b, 0, head1, 0x0a);
    lemma_find_byte(b, 0, head1, 0x0a);
    lemma_find_byte_agree(b, c, 0, head1, 0x0a);
    if nl1 < head1 {
        // the first line feed lies in both heads
        lemma_find_byte(c, 0, head2, 0x0a);
        lemma_find_byte_prefix_hit(c, 0, head1, head2, 0x0a);
        assert(identity_len(c) == identity_len(b));
    } else {
        // no line feed in the first 4096 bytes of `b`, which is longer than that
        assert(b[complete_len(b) - 1] == 0x0a);
        if b.len() < 4096 {
            assert(false);
        }
        assert(head1 == 4096 && head2 == 4096);
        assert(identity_len(c) == identity_len(b));
    }
    assert(c.subrange(0, identity_len(b)) =~= b.subrange(0, identity_len(b)));
}

proof fn lemma_find_byte_prefix_hit(b: Seq<u8>, p: int, hi1: int, hi2: int, x: u8)
    requires
        0 <= p <= hi1 <= hi2 <= b.len(),
        find_byte(b, p, hi1, x) < hi1,
    ensures
        find_byte(b, p, hi2, x) == find_byte(b, p, hi1, x),
    decreases hi1 - p,
{
    if p < hi1 && b[p] != x {
        lemma_find_byte_prefix_hit(b, p + 1, hi1, hi2, x);
    }
}

proof fn lemma_complete_len_extends(b: Seq<u8>, d: Seq<u8>)
    ensures
        complete_len(b) <= complete_len(b + d),
    decreases d.len(),
{
    if d.len() == 0 {
        assert(b + d =~= b);
    } else {
        let c = b + d;
        assert(c.drop_last() =~= b + d.drop_last());
        lemma_complete_len_extends(b, d.drop_last());
        lemma_complete_len(b);
        if c.last() != 0x0a {
        } else {
            lemma_complete_len(b + d.drop_last());
        }
    }
}

/// The checkpoint that a read returns is the snapshot of the same log.
pub proof fn law_read_checkpoint_is_snapshot(b: Seq<u8>, cp: Option<CheckpointView>)
    ensures
        read_log(b, cp) matches Ok((_, next, _)) ==> next == snapshot_of(b),
{
}

/// After appending to a log, reading from the checkpoint of the earlier log
/// (its snapshot, or the checkpoint a read of it returned) continues where it
/// stopped, without a reset, and gives exactly the appended complete lines.
pub proof fn law_append_continues(b: Seq<u8>, d: Seq<u8>)
    requires
        complete_len(b) > 0,
        b.len() + d.len() <= u64::MAX,
    ensures
        read_start(b + d, Some(snapshot_of(b))) == (complete_len(b), false),
        complete_len(b) <= complete_len(b + d),
        read_log(b + d, Some(snapshot_of(b))) == (if complete_len(b + d) <= complete_len(b) {
            Err(ReadError::NoNewEntries)
        } else if !valid_utf8((b + d).subrange(complete_len(b), complete_len(b + d))) {
            Err(ReadError::NotUtf8)
        } else {
            Ok(
                (
                    decode_utf8((b + d).subrange(complete_len(b), complete_len(b + d))),
                    snapshot_of(b + d),
                    false,
                ),
            )
        }),
{
    let c = b + d;
    let off = complete_len(b);
    lemma_complete_len(b);
    lemma_identity_extends(b, d);
    lemma_complete_len_extends(b, d);
    let lo = if off < 4096 {
        0
    } else {
        off - 4096
    };
    assert(c.subrange(lo, off) =~= b.subrange(lo, off));
    assert(c[off - 1] == b[off - 1]);
    assert(continues(c, snapshot_of(b)));
}

/// Reading again from the checkpoint that a read returned, on the same log,
/// finds nothing new.
pub proof fn law_read_again_finds_nothing(b: Seq<u8>, cp: Option<CheckpointView>)
    requires
        b.len() <= u64::MAX,
    ensures
        read_log(b, cp) matches Ok((_, next, _)) ==> read_log(b, Some(next)) == Err::<
            (Seq<char>, CheckpointView, bool),
            ReadError,
        >(ReadError::NoNewEntries),
{
    if let Ok((_, next, _)) = read_log(b, cp) {
        lemma_complete_len(b);
        assert(next.offset == complete_len(b));
        assert(next.offset > 0);
        assert(continues(b, next));
    }
}

/// A checkpoint of a replaced log (one whose first line differs) is not
/// trusted: the log is read from its start and reported as reset.
pub proof fn law_replaced_log_resets(b: Seq<u8>, c: CheckpointView)
    requires
        c.offset > 0,
        c.fingerprint != identity_of(b),
    ensures
        read_start(b, Some(c)) == (0int, true),
{
}

/// A checkpoint past the end of a truncated log is not trusted either.
pub proof fn law_truncated_log_resets(b: Seq<u8>, c: CheckpointView)
    requires
        c.offset > b.len(),
    ensures
        read_start(b, Some(c)) == (0int, true),
{
}

/// Snapshots and reads stop just after a line feed (or at the start).
pub proof fn law_checkpoints_follow_line_feeds(b: Seq<u8>)
    requires
        b.len() <= u64::MAX,
    ensures
        snapshot_of(b).offset <= b.len(),
        snapshot_of(b).offset == 0 || b[snapshot_of(b).offset - 1] == 0x0a,
        forall|i: int| snapshot_of(b).offset <= i < b.len() ==> b[i] != 0x0a,
{
    lemma_complete_len(b);
}

} // verus!
