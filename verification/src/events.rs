//! The grammar of combat-log lines: `stamp  EVENT,field,field,...`, the two
//! event shapes that carry captures (zone entries and key starts), the
//! comma-separated fields of an event, and decimal numbers.
use vstd::prelude::*;
use crate::text::{ascii_bytes, literal};

verus! {

/// The bytes `[lo, hi)` of a log.
#[derive(Clone, Copy)]
pub struct Span {
    pub lo: usize,
    pub hi: usize,
}

pub open spec fn span(lo: int, hi: int) -> Span {
    Span { lo: lo as usize, hi: hi as usize }
}

pub open spec fn bytes_of(b: Seq<u8>, s: Span) -> Seq<u8> {
    b.subrange(s.lo as int, s.hi as int)
}

pub open spec fn is_digit(x: u8) -> bool {
    0x30 <= x <= 0x39
}

/// First index in `[p, hi)` holding `x`, or `hi`.
pub open spec fn find_byte(b: Seq<u8>, p: int, hi: int, x: u8) -> int
    decreases hi - p,
{
    if p >= hi {
        hi
    } else if b[p] == x {
        p
    } else {
        find_byte(b, p + 1, hi, x)
    }
}

/// A Unicode decimal digit, general category `Nd` (what regex `\d` matches),
/// by its code point.
pub open spec fn is_decimal_digit(c: int) -> bool {
    (0x30 <= c <= 0x39) || (0x660 <= c <= 0x669) || (0x6f0 <= c <= 0x6f9) || (0x7c0 <= c <= 0x7c9)
    || (0x966 <= c <= 0x96f) || (0x9e6 <= c <= 0x9ef) || (0xa66 <= c <= 0xa6f)
    || (0xae6 <= c <= 0xaef) || (0xb66 <= c <= 0xb6f) || (0xbe6 <= c <= 0xbef)
    || (0xc66 <= c <= 0xc6f) || (0xce6 <= c <= 0xcef) || (0xd66 <= c <= 0xd6f)
    || (0xde6 <= c <= 0xdef) || (0xe50 <= c <= 0xe59) || (0xed0 <= c <= 0xed9)
    || (0xf20 <= c <= 0xf29) || (0x1040 <= c <= 0x1049) || (0x1090 <= c <= 0x1099)
    || (0x17e0 <= c <= 0x17e9) || (0x1810 <= c <= 0x1819) || (0x1946 <= c <= 0x194f)
    || (0x19d0 <= c <= 0x19d9) || (0x1a80 <= c <= 0x1a89) || (0x1a90 <= c <= 0x1a99)
    || (0x1b50 <= c <= 0x1b59) || (0x1bb0 <= c <= 0x1bb9) || (0x1c40 <= c <= 0x1c49)
    || (0x1c50 <= c <= 0x1c59) || (0xa620 <= c <= 0xa629) || (0xa8d0 <= c <= 0xa8d9)
    || (0xa900 <= c <= 0xa909) || (0xa9d0 <= c <= 0xa9d9) || (0xa9f0 <= c <= 0xa9f9)
    || (0xaa50 <= c <= 0xaa59) || (0xabf0 <= c <= 0xabf9) || (0xff10 <= c <= 0xff19)
    || (0x104a0 <= c <= 0x104a9) || (0x10d30 <= c <= 0x10d39) || (0x10d40 <= c <= 0x10d49)
    || (0x11066 <= c <= 0x1106f) || (0x110f0 <= c <= 0x110f9) || (0x11136 <= c <= 0x1113f)
    || (0x111d0 <= c <= 0x111d9) || (0x112f0 <= c <= 0x112f9) || (0x11450 <= c <= 0x11459)
    || (0x114d0 <= c <= 0x114d9) || (0x11650 <= c <= 0x11659) || (0x116c0 <= c <= 0x116c9)
    || (0x116d0 <= c <= 0x116e3) || (0x11730 <= c <= 0x11739) || (0x118e0 <= c <= 0x118e9)
    || (0x11950 <= c <= 0x11959) || (0x11bf0 <= c <= 0x11bf9) || (0x11c50 <= c <= 0x11c59)
    || (0x11d50 <= c <= 0x11d59) || (0x11da0 <= c <= 0x11da9) || (0x11f50 <= c <= 0x11f59)
    || (0x16130 <= c <= 0x16139) || (0x16a60 <= c <= 0x16a69) || (0x16ac0 <= c <= 0x16ac9)
    || (0x16b50 <= c <= 0x16b59) || (0x16d70 <= c <= 0x16d79) || (0x1ccf0 <= c <= 0x1ccf9)
    || (0x1d7ce <= c <= 0x1d7ff) || (0x1e140 <= c <= 0x1e149) || (0x1e2f0 <= c <= 0x1e2f9)
    || (0x1e4f0 <= c <= 0x1e4f9) || (0x1e5f1 <= c <= 0x1e5fa) || (0x1e950 <= c <= 0x1e959)
    || (0x1fbf0 <= c <= 0x1fbf9)
}

pub open spec fn is_cont(x: u8) -> bool {
    0x80 <= x <= 0xbf
}

/// Length in bytes of the UTF-8 encoded decimal digit that starts at `p` and
/// ends by `hi`, or 0 when none does.
pub open spec fn digit_len(b: Seq<u8>, p: int, hi: int) -> int {
    if p < 0 || p >= hi {
        0
    } else if is_digit(b[p]) {
        1
    } else if p + 2 <= hi && 0xc2 <= b[p] <= 0xdf && is_cont(b[p + 1]) && is_decimal_digit(
        (b[p] - 0xc0) * 64 + (b[p + 1] - 0x80),
    ) {
        2
    } else if p + 3 <= hi && 0xe0 <= b[p] <= 0xef && is_cont(b[p + 1]) && is_cont(b[p + 2])
        && is_decimal_digit((b[p] - 0xe0) * 4096 + (b[p + 1] - 0x80) * 64 + (b[p + 2] - 0x80)) {
        3
    } else if p + 4 <= hi && 0xf0 <= b[p] <= 0xf4 && is_cont(b[p + 1]) && is_cont(b[p + 2])
        && is_cont(b[p + 3]) && is_decimal_digit(
        (b[p] - 0xf0) * 262144 + (b[p + 1] - 0x80) * 4096 + (b[p + 2] - 0x80) * 64 + (b[p + 3]
            - 0x80),
    ) {
        4
    } else {
        0
    }
}

/// First index in `[p, hi)` that does not start a decimal digit (`\d+`
/// stops there), or `hi`.
pub open spec fn digits_end(b: Seq<u8>, p: int, hi: int) -> int
    decreases hi - p,
{
    if p >= hi {
        hi
    } else if digit_len(b, p, hi) <= 0 {
        p
    } else {
        digits_end(b, p + digit_len(b, p, hi), hi)
    }
}

/// First index `i` in `[p, hi - 1)` starting two spaces, or `hi`.
pub open spec fn find_double_space(b: Seq<u8>, p: int, hi: int) -> int
    decreases hi - p,
{
    if p + 1 >= hi {
        hi
    } else if b[p] == 0x20 && b[p + 1] == 0x20 {
        p
    } else {
        find_double_space(b, p + 1, hi)
    }
}

pub proof fn lemma_find_byte(b: Seq<u8>, p: int, hi: int, x: u8)
    requires
        0 <= p <= hi <= b.len(),
    ensures
        p <= find_byte(b, p, hi, x) <= hi,
        find_byte(b, p, hi, x) < hi ==> b[find_byte(b, p, hi, x)] == x,
        forall|i: int| p <= i < find_byte(b, p, hi, x) ==> b[i] != x,
    decreases hi - p,
{
    if p < hi && b[p] != x {
        lemma_find_byte(b, p + 1, hi, x);
    }
}

pub proof fn lemma_digit_len(b: Seq<u8>, p: int, hi: int)
    ensures
        0 <= digit_len(b, p, hi),
        digit_len(b, p, hi) > 0 ==> p + digit_len(b, p, hi) <= hi && (b[p] < 0x80 || b[p] >= 0xc2),
        digit_len(b, p, hi) == 1 ==> is_digit(b[p]),
        is_digit(b[p]) && 0 <= p < hi ==> digit_len(b, p, hi) == 1,
{
}

pub proof fn lemma_digits_end(b: Seq<u8>, p: int, hi: int)
    requires
        0 <= p <= hi <= b.len(),
    ensures
        p <= digits_end(b, p, hi) <= hi,
        digits_end(b, p, hi) < hi ==> digit_len(b, digits_end(b, p, hi), hi) == 0,
    decreases hi - p,
{
    lemma_digit_len(b, p, hi);
    if p < hi && digit_len(b, p, hi) > 0 {
        lemma_digits_end(b, p + digit_len(b, p, hi), hi);
    }
}

pub proof fn lemma_find_double_space(b: Seq<u8>, p: int, hi: int)
    requires
        0 <= p <= hi <= b.len(),
    ensures
        p <= find_double_space(b, p, hi) <= hi,
        find_double_space(b, p, hi) < hi ==> find_double_space(b, p, hi) + 1 < hi && b[find_double_space(b, p, hi)] == 0x20
            && b[find_double_space(b, p, hi) + 1] == 0x20,
    decreases hi - p,
{
    if p + 1 < hi && !(b[p] == 0x20 && b[p + 1] == 0x20) {
        lemma_find_double_space(b, p + 1, hi);
    }
}

pub fn find_byte_exec(b: &[u8], p: usize, hi: usize, x: u8) -> (r: usize)
    requires
        p <= hi <= b@.len(),
    ensures
        r == find_byte(b@, p as int, hi as int, x),
{
    let mut i = p;
    while i < hi
        invariant
            p <= i <= hi <= b@.len(),
            find_byte(b@, p as int, hi as int, x) == find_byte(b@, i as int, hi as int, x),
        decreases hi - i,
    {
        if b[i] == x {
            return i;
        }
        i = i + 1;
    }
    i
}

fn is_decimal_digit_exec(c: u32) -> (r: bool)
    ensures
        r == is_decimal_digit(c as int),
{
    (0x30 <= c && c <= 0x39) || (0x660 <= c && c <= 0x669) || (0x6f0 <= c && c <= 0x6f9)
    || (0x7c0 <= c && c <= 0x7c9) || (0x966 <= c && c <= 0x96f) || (0x9e6 <= c && c <= 0x9ef)
    || (0xa66 <= c && c <= 0xa6f) || (0xae6 <= c && c <= 0xaef) || (0xb66 <= c && c <= 0xb6f)
    || (0xbe6 <= c && c <= 0xbef) || (0xc66 <= c && c <= 0xc6f) || (0xce6 <= c && c <= 0xcef)
    || (0xd66 <= c && c <= 0xd6f) || (0xde6 <= c && c <= 0xdef) || (0xe50 <= c && c <= 0xe59)
    || (0xed0 <= c && c <= 0xed9) || (0xf20 <= c && c <= 0xf29) || (0x1040 <= c && c <= 0x1049)
    || (0x1090 <= c && c <= 0x1099) || (0x17e0 <= c && c <= 0x17e9) || (0x1810 <= c && c <= 0x1819)
    || (0x1946 <= c && c <= 0x194f) || (0x19d0 <= c && c <= 0x19d9) || (0x1a80 <= c && c <= 0x1a89)
    || (0x1a90 <= c && c <= 0x1a99) || (0x1b50 <= c && c <= 0x1b59) || (0x1bb0 <= c && c <= 0x1bb9)
    || (0x1c40 <= c && c <= 0x1c49) || (0x1c50 <= c && c <= 0x1c59) || (0xa620 <= c && c <= 0xa629)
    || (0xa8d0 <= c && c <= 0xa8d9) || (0xa900 <= c && c <= 0xa909) || (0xa9d0 <= c && c <= 0xa9d9)
    || (0xa9f0 <= c && c <= 0xa9f9) || (0xaa50 <= c && c <= 0xaa59) || (0xabf0 <= c && c <= 0xabf9)
    || (0xff10 <= c && c <= 0xff19) || (0x104a0 <= c && c <= 0x104a9)
    || (0x10d30 <= c && c <= 0x10d39) || (0x10d40 <= c && c <= 0x10d49)
    || (0x11066 <= c && c <= 0x1106f) || (0x110f0 <= c && c <= 0x110f9)
    || (0x11136 <= c && c <= 0x1113f) || (0x111d0 <= c && c <= 0x111d9)
    || (0x112f0 <= c && c <= 0x112f9) || (0x11450 <= c && c <= 0x11459)
    || (0x114d0 <= c && c <= 0x114d9) || (0x11650 <= c && c <= 0x11659)
    || (0x116c0 <= c && c <= 0x116c9) || (0x116d0 <= c && c <= 0x116e3)
    || (0x11730 <= c && c <= 0x11739) || (0x118e0 <= c && c <= 0x118e9)
    || (0x11950 <= c && c <= 0x11959) || (0x11bf0 <= c && c <= 0x11bf9)
    || (0x11c50 <= c && c <= 0x11c59) || (0x11d50 <= c && c <= 0x11d59)
    || (0x11da0 <= c && c <= 0x11da9) || (0x11f50 <= c && c <= 0x11f59)
    || (0x16130 <= c && c <= 0x16139) || (0x16a60 <= c && c <= 0x16a69)
    || (0x16ac0 <= c && c <= 0x16ac9) || (0x16b50 <= c && c <= 0x16b59)
    || (0x16d70 <= c && c <= 0x16d79) || (0x1ccf0 <= c && c <= 0x1ccf9)
    || (0x1d7ce <= c && c <= 0x1d7ff) || (0x1e140 <= c && c <= 0x1e149)
    || (0x1e2f0 <= c && c <= 0x1e2f9) || (0x1e4f0 <= c && c <= 0x1e4f9)
    || (0x1e5f1 <= c && c <= 0x1e5fa) || (0x1e950 <= c && c <= 0x1e959)
    || (0x1fbf0 <= c && c <= 0x1fbf9)
}

/// `digit_len` of `b` at `p`.
pub fn digit_len_exec(b: &[u8], p: usize, hi: usize) -> (r: usize)
    requires
        p <= hi <= b@.len(),
    ensures
        r == digit_len(b@, p as int, hi as int),
{
    if p >= hi {
        return 0;
    }
    let x = b[p];
    if 0x30 <= x && x <= 0x39 {
        return 1;
    }
    let n = hi - p;
    if n >= 2 && 0xc2 <= x && x <= 0xdf && 0x80 <= b[p + 1] && b[p + 1] <= 0xbf {
        let c: u32 = (x as u32 - 0xc0) * 64 + (b[p + 1] as u32 - 0x80);
        if is_decimal_digit_exec(c) {
            return 2;
        }
    }
    if n >= 3 && 0xe0 <= x && x <= 0xef && 0x80 <= b[p + 1] && b[p + 1] <= 0xbf && 0x80 <= b[p + 2]
        && b[p + 2] <= 0xbf {
        let c: u32 = (x as u32 - 0xe0) * 4096 + (b[p + 1] as u32 - 0x80) * 64 + (b[p + 2] as u32
            - 0x80);
        if is_decimal_digit_exec(c) {
            return 3;
        }
    }
    if n >= 4 && 0xf0 <= x && x <= 0xf4 && 0x80 <= b[p + 1] && b[p + 1] <= 0xbf && 0x80 <= b[p + 2]
        && b[p + 2] <= 0xbf && 0x80 <= b[p + 3] && b[p + 3] <= 0xbf {
        let c: u32 = (x as u32 - 0xf0) * 262144 + (b[p + 1] as u32 - 0x80) * 4096 + (b[p + 2] as u32
            - 0x80) * 64 + (b[p + 3] as u32 - 0x80);
        if is_decimal_digit_exec(c) {
            return 4;
        }
    }
    0
}

pub fn digits_end_exec(b: &[u8], p: usize, hi: usize) -> (r: usize)
    requires
        p <= hi <= b@.len(),
    ensures
        r == digits_end(b@, p as int, hi as int),
{
    let mut i = p;
    while i < hi
        invariant
            p <= i <= hi <= b@.len(),
            digits_end(b@, p as int, hi as int) == digits_end(b@, i as int, hi as int),
        decreases hi - i,
    {
        let k = digit_len_exec(b, i, hi);
        proof {
            lemma_digit_len(b@, i as int, hi as int);
        }
        if k == 0 {
            return i;
        }
        i = i + k;
    }
    i
}

pub fn find_double_space_exec(b: &[u8], p: usize, hi: usize) -> (r: usize)
    requires
        p <= hi <= b@.len(),
    ensures
        r == find_double_space(b@, p as int, hi as int),
{
    if hi == 0 {
        return hi;
    }
    let mut i = p;
    while i < hi - 1
        invariant
            p <= i <= hi <= b@.len(),
            hi > 0,
            find_double_space(b@, p as int, hi as int) == find_double_space(
                b@,
                i as int,
                hi as int,
            ),
        decreases hi - i,
    {
        if b[i] == 0x20 && b[i + 1] == 0x20 {
            return i;
        }
        i = i + 1;
    }
    hi
}

/// `b[lo..hi]` starts with `tag`.
pub open spec fn has_prefix(b: Seq<u8>, lo: int, hi: int, tag: Seq<u8>) -> bool {
    hi - lo >= tag.len() && b.subrange(lo, lo + tag.len()) == tag
}

pub fn has_prefix_exec(b: &[u8], lo: usize, hi: usize, tag: &[u8]) -> (r: bool)
    requires
        lo <= hi <= b@.len(),
    ensures
        r == has_prefix(b@, lo as int, hi as int, tag@),
{
    if hi - lo < tag.len() {
        return false;
    }
    let mut i: usize = 0;
    while i < tag.len()
        invariant
            lo + tag@.len() <= hi <= b@.len(),
            i <= tag@.len(),
            forall|j: int| 0 <= j < i ==> b@[lo + j] == tag@[j],
        decreases tag@.len() - i,
    {
        if b[lo + i] != tag[i] {
            assert(b@.subrange(lo as int, lo + tag@.len())[i as int] != tag@[i as int]);
            return false;
        }
        i = i + 1;
    }
    assert(b@.subrange(lo as int, lo + tag@.len()) =~= tag@);
    true
}

/// The two byte ranges hold the same bytes.
pub fn same_bytes(b: &[u8], x: Span, y: Span) -> (r: bool)
    requires
        x.lo <= x.hi <= b@.len(),
        y.lo <= y.hi <= b@.len(),
    ensures
        r == (bytes_of(b@, x) == bytes_of(b@, y)),
{
    if x.hi - x.lo != y.hi - y.lo {
        assert(bytes_of(b@, x).len() != bytes_of(b@, y).len());
        return false;
    }
    let n = x.hi - x.lo;
    let mut i: usize = 0;
    while i < n
        invariant
            n == x.hi - x.lo == y.hi - y.lo,
            x.hi <= b@.len(),
            y.hi <= b@.len(),
            i <= n,
            forall|j: int| 0 <= j < i ==> #[trigger] bytes_of(b@, x)[j] == bytes_of(b@, y)[j],
        decreases n - i,
    {
        if b[x.lo + i] != b[y.lo + i] {
            assert(bytes_of(b@, x)[i as int] != bytes_of(b@, y)[i as int]);
            return false;
        }
        i = i + 1;
    }
    assert(bytes_of(b@, x) =~= bytes_of(b@, y));
    true
}

// ---------------------------------------------------------------------------
// Decimal numbers
// ---------------------------------------------------------------------------

/// Value of the ASCII digits `b[lo..hi]`.
pub open spec fn digits_value(b: Seq<u8>, lo: int, hi: int) -> nat
    decreases hi - lo,
{
    if hi <= lo {
        0
    } else {
        digits_value(b, lo, hi - 1) * 10 + (b[hi - 1] - 0x30) as nat
    }
}

pub open spec fn all_digits(b: Seq<u8>, lo: int, hi: int) -> bool {
    forall|i: int| lo <= i < hi ==> is_digit(#[trigger] b[i])
}

/// `str::parse` of an unsigned integer no larger than `max` from `b[lo..hi]`:
/// an optional `+`, then at least one ASCII digit and nothing else.
pub open spec fn parse_uint(b: Seq<u8>, lo: int, hi: int, max: nat) -> Option<nat> {
    let d = if hi - lo >= 1 && b[lo] == 0x2b {
        lo + 1
    } else {
        lo
    };
    if d >= hi || !all_digits(b, d, hi) || digits_value(b, d, hi) > max {
        None
    } else {
        Some(digits_value(b, d, hi))
    }
}

proof fn lemma_digits_value_grows(b: Seq<u8>, lo: int, mid: int, hi: int)
    requires
        lo <= mid <= hi,
        all_digits(b, lo, hi),
    ensures
        digits_value(b, lo, mid) <= digits_value(b, lo, hi),
    decreases hi - mid,
{
    if mid < hi {
        lemma_digits_value_grows(b, lo, mid, hi - 1);
    }
}

/// Whether `b[lo..hi]` holds ASCII digits only.
pub fn all_digits_exec(b: &[u8], lo: usize, hi: usize) -> (r: bool)
    requires
        lo <= hi <= b@.len(),
    ensures
        r == all_digits(b@, lo as int, hi as int),
{
    let mut i = lo;
    while i < hi
        invariant
            lo <= i <= hi <= b@.len(),
            all_digits(b@, lo as int, i as int),
        decreases hi - i,
    {
        if !(0x30 <= b[i] && b[i] <= 0x39) {
            return false;
        }
        i = i + 1;
    }
    true
}

/// Parses `b[lo..hi]` as `parse_uint` does, for a maximum of at most `u64::MAX`.
pub fn parse_uint_exec(b: &[u8], lo: usize, hi: usize, max: u64) -> (r: Option<u64>)
    requires
        lo <= hi <= b@.len(),
    ensures
        r matches Some(v) ==> parse_uint(b@, lo as int, hi as int, max as nat) == Some(v as nat),
        r is None ==> parse_uint(b@, lo as int, hi as int, max as nat) is None,
{
    let d = if hi - lo >= 1 && b[lo] == 0x2b {
        lo + 1
    } else {
        lo
    };
    assert(d == (if hi - lo >= 1 && b@[lo as int] == 0x2b {
        lo + 1
    } else {
        lo as int
    }));
    if d >= hi {
        return None;
    }
    let mut v: u128 = 0;
    let mut i = d;
    while i < hi
        invariant
            lo <= d < hi <= b@.len(),
            d == (if hi - lo >= 1 && b@[lo as int] == 0x2b {
                lo + 1
            } else {
                lo as int
            }),
            d <= i <= hi,
            all_digits(b@, d as int, i as int),
            v == digits_value(b@, d as int, i as int),
            v <= max,
        decreases hi - i,
    {
        let x = b[i];
        if !(0x30 <= x && x <= 0x39) {
            proof {
                assert(!is_digit(b@[i as int]));
                assert(!all_digits(b@, d as int, hi as int));
                assert(parse_uint(b@, lo as int, hi as int, max as nat) is None);
            }
            return None;
        }
        v = v * 10 + (x - 0x30) as u128;
        assert(v == digits_value(b@, d as int, i + 1));
        proof {
            assert(all_digits(b@, d as int, i + 1));
        }
        if v > max as u128 {
            proof {
                if all_digits(b@, d as int, hi as int) {
                    lemma_digits_value_grows(b@, d as int, i + 1, hi as int);
                }
            }
            return None;
        }
        i = i + 1;
    }
    Some(v as u64)
}

// ---------------------------------------------------------------------------
// Events
// ---------------------------------------------------------------------------

pub open spec fn zone_change_tag() -> Seq<u8> {
    ascii_bytes("ZONE_CHANGE,"@)
}

pub open spec fn key_start_tag() -> Seq<u8> {
    ascii_bytes("CHALLENGE_MODE_START,"@)
}

pub open spec fn key_end_tag() -> Seq<u8> {
    ascii_bytes("CHALLENGE_MODE_END,"@)
}

pub open spec fn log_version_tag() -> Seq<u8> {
    ascii_bytes("COMBAT_LOG_VERSION,"@)
}

pub open spec fn map_change_tag() -> Seq<u8> {
    ascii_bytes("MAP_CHANGE,"@)
}

pub open spec fn encounter_start_tag() -> Seq<u8> {
    ascii_bytes("ENCOUNTER_START,"@)
}

pub open spec fn encounter_end_tag() -> Seq<u8> {
    ascii_bytes("ENCOUNTER_END,"@)
}

/// The captures of a zone entry, `ZONE_CHANGE,<zone>,"<name>",<difficulty>`.
#[derive(Clone, Copy)]
pub struct ZoneEntry {
    pub zone: Span,
    pub name: Span,
    pub difficulty: Span,
}

/// The captures of a key start,
/// `CHALLENGE_MODE_START,"<name>",<zone>,<digits>,<level>,`.
#[derive(Clone, Copy)]
pub struct KeyStart {
    pub name: Span,
    pub zone: Span,
    pub level: Span,
}

/// The event `b[es..ee]` read as a zone entry: the tag, a run of digits, `,"`,
/// a non-empty name without quotes, `",` and a run of digits; anything may follow.
pub open spec fn zone_entry(b: Seq<u8>, es: int, ee: int) -> Option<ZoneEntry> {
    let tag = zone_change_tag();
    if !has_prefix(b, es, ee, tag) {
        None
    } else {
        let z0 = es + tag.len();
        let z1 = digits_end(b, z0, ee);
        if !(z0 < z1 && z1 < ee && z1 + 1 < ee && b[z1] == 0x2c && b[z1 + 1] == 0x22) {
            None
        } else {
            let n0 = z1 + 2;
            let n1 = find_byte(b, n0, ee, 0x22);
            if !(n0 < n1 && n1 + 1 < ee && b[n1 + 1] == 0x2c) {
                None
            } else {
                let d0 = n1 + 2;
                let d1 = digits_end(b, d0, ee);
                if !(d0 < d1) {
                    None
                } else {
                    Some(
                        ZoneEntry {
                            zone: span(z0, z1),
                            name: span(n0, n1),
                            difficulty: span(d0, d1),
                        },
                    )
                }
            }
        }
    }
}

/// End of a run of digits at `p` that is followed by a comma, or `None`.
pub open spec fn digits_comma(b: Seq<u8>, p: int, ee: int) -> Option<int> {
    let e = digits_end(b, p, ee);
    if p < e && e < ee && b[e] == 0x2c {
        Some(e)
    } else {
        None
    }
}

/// The event `b[es..ee]` read as a key start: the tag, `"`, a non-empty name
/// without quotes, `",` and three runs of digits each followed by a comma.
pub open spec fn key_start(b: Seq<u8>, es: int, ee: int) -> Option<KeyStart> {
    let tag = key_start_tag();
    let p = es + tag.len();
    if !has_prefix(b, es, ee, tag) || !(p < ee && b[p] == 0x22) {
        None
    } else {
        let n0 = p + 1;
        let n1 = find_byte(b, n0, ee, 0x22);
        if !(n0 < n1 && n1 + 1 < ee && b[n1 + 1] == 0x2c) {
            None
        } else {
            let a0 = n1 + 2;
            match digits_comma(b, a0, ee) {
                None => None,
                Some(a1) => match digits_comma(b, a1 + 1, ee) {
                    None => None,
                    Some(b1) => match digits_comma(b, b1 + 1, ee) {
                        None => None,
                        Some(c1) => Some(
                            KeyStart {
                                name: span(n0, n1),
                                zone: span(a0, a1),
                                level: span(b1 + 1, c1),
                            },
                        ),
                    },
                },
            }
        }
    }
}

/// Field `k` of the comma-separated event `b[es..ee]` (`str::split(',')`).
pub open spec fn field(b: Seq<u8>, es: int, ee: int, k: nat) -> Option<Span>
    decreases k,
{
    if k == 0 {
        Some(span(es, find_byte(b, es, ee, 0x2c)))
    } else {
        match field(b, es, ee, (k - 1) as nat) {
            None => None,
            Some(f) => if f.hi >= ee {
                None
            } else {
                Some(span(f.hi + 1, find_byte(b, f.hi + 1, ee, 0x2c)))
            },
        }
    }
}

pub proof fn lemma_field(b: Seq<u8>, es: int, ee: int, k: nat)
    requires
        0 <= es <= ee <= b.len() <= usize::MAX,
    ensures
        field(b, es, ee, k) matches Some(f) ==> es <= f.lo <= f.hi <= ee,
    decreases k,
{
    if k == 0 {
        lemma_find_byte(b, es, ee, 0x2c);
    } else {
        lemma_field(b, es, ee, (k - 1) as nat);
        match field(b, es, ee, (k - 1) as nat) {
            Some(f) => {
                if f.hi < ee {
                    lemma_find_byte(b, f.hi + 1, ee, 0x2c);
                }
            },
            None => {},
        }
    }
}

fn digits_comma_exec(b: &[u8], p: usize, ee: usize) -> (r: Option<usize>)
    requires
        p <= ee <= b@.len(),
    ensures
        r matches Some(e) ==> digits_comma(b@, p as int, ee as int) == Some(e as int),
        r is None ==> digits_comma(b@, p as int, ee as int) is None,
{
    let e = digits_end_exec(b, p, ee);
    if p < e && e < ee && b[e] == 0x2c {
        Some(e)
    } else {
        None
    }
}

pub fn zone_entry_exec(b: &[u8], es: usize, ee: usize) -> (r: Option<ZoneEntry>)
    requires
        es <= ee <= b@.len(),
    ensures
        r == zone_entry(b@, es as int, ee as int),
{
    proof {
        reveal_strlit("ZONE_CHANGE,");
    }
    let tag = literal("ZONE_CHANGE,");
    if !has_prefix_exec(b, es, ee, tag) {
        return None;
    }
    let z0 = es + tag.len();
    let z1 = digits_end_exec(b, z0, ee);
    proof {
        lemma_digits_end(b@, z0 as int, ee as int);
    }
    if !(z0 < z1 && z1 < ee && z1 + 1 < ee && b[z1] == 0x2c && b[z1 + 1] == 0x22) {
        return None;
    }
    let n0 = z1 + 2;
    let n1 = find_byte_exec(b, n0, ee, 0x22);
    proof {
        lemma_find_byte(b@, n0 as int, ee as int, 0x22);
    }
    if !(n0 < n1 && n1 < ee && n1 + 1 < ee && b[n1 + 1] == 0x2c) {
        return None;
    }
    let d0 = n1 + 2;
    let d1 = digits_end_exec(b, d0, ee);
    if !(d0 < d1) {
        return None;
    }
    Some(
        ZoneEntry {
            zone: Span { lo: z0, hi: z1 },
            name: Span { lo: n0, hi: n1 },
            difficulty: Span { lo: d0, hi: d1 },
        },
    )
}

pub fn key_start_exec(b: &[u8], es: usize, ee: usize) -> (r: Option<KeyStart>)
    requires
        es <= ee <= b@.len(),
    ensures
        r == key_start(b@, es as int, ee as int),
{
    proof {
        reveal_strlit("CHALLENGE_MODE_START,");
    }
    let tag = literal("CHALLENGE_MODE_START,");
    if !has_prefix_exec(b, es, ee, tag) {
        return None;
    }
    let p = es + tag.len();
    if !(p < ee && b[p] == 0x22) {
        return None;
    }
    let n0 = p + 1;
    let n1 = find_byte_exec(b, n0, ee, 0x22);
    proof {
        lemma_find_byte(b@, n0 as int, ee as int, 0x22);
    }
    if !(n0 < n1 && n1 < ee && n1 + 1 < ee && b[n1 + 1] == 0x2c) {
        return None;
    }
    let a0 = n1 + 2;
    let a1 = match digits_comma_exec(b, a0, ee) {
        Some(e) => e,
        None => return None,
    };
    let b1 = match digits_comma_exec(b, a1 + 1, ee) {
        Some(e) => e,
        None => return None,
    };
    let c1 = match digits_comma_exec(b, b1 + 1, ee) {
        Some(e) => e,
        None => return None,
    };
    Some(
        KeyStart {
            name: Span { lo: n0, hi: n1 },
            zone: Span { lo: a0, hi: a1 },
            level: Span { lo: b1 + 1, hi: c1 },
        },
    )
}

pub fn field_exec(b: &[u8], es: usize, ee: usize, k: usize) -> (r: Option<Span>)
    requires
        es <= ee <= b@.len(),
    ensures
        r == field(b@, es as int, ee as int, k as nat),
{
    let mut f = Span { lo: es, hi: find_byte_exec(b, es, ee, 0x2c) };
    proof {
        lemma_find_byte(b@, es as int, ee as int, 0x2c);
    }
    let mut i: usize = 0;
    while i < k
        invariant
            es <= f.lo <= f.hi <= ee <= b@.len(),
            i <= k,
            field(b@, es as int, ee as int, i as nat) == Some(f),
        decreases k - i,
    {
        if f.hi >= ee {
            proof {
                lemma_field_none_after(b@, es as int, ee as int, i as nat, k as nat);
            }
            return None;
        }
        let lo = f.hi + 1;
        let hi = find_byte_exec(b, lo, ee, 0x2c);
        proof {
            lemma_find_byte(b@, lo as int, ee as int, 0x2c);
        }
        f = Span { lo, hi };
        i = i + 1;
    }
    Some(f)
}

proof fn lemma_field_none_after(b: Seq<u8>, es: int, ee: int, i: nat, k: nat)
    requires
        i < k,
        field(b, es, ee, i) matches Some(f) && f.hi >= ee,
    ensures
        field(b, es, ee, k) is None,
    decreases k - i,
{
    if k == i + 1 {
    } else {
        lemma_field_none_after(b, es, ee, i, (k - 1) as nat);
    }
}

// ---------------------------------------------------------------------------
// Reading only the bytes of a line
// ---------------------------------------------------------------------------

/// `b1` and `b2` hold the same first `n` bytes.
pub open spec fn agree(b1: Seq<u8>, b2: Seq<u8>, n: int) -> bool {
    &&& 0 <= n <= b1.len()
    &&& n <= b2.len()
    &&& forall|i: int| 0 <= i < n ==> b1[i] == b2[i]
}

pub proof fn lemma_agree_subrange(b1: Seq<u8>, b2: Seq<u8>, n: int, lo: int, hi: int)
    requires
        agree(b1, b2, n),
        0 <= lo <= hi <= n,
    ensures
        b1.subrange(lo, hi) == b2.subrange(lo, hi),
{
    assert(b1.subrange(lo, hi) =~= b2.subrange(lo, hi));
}

pub proof fn lemma_agree_find_byte(b1: Seq<u8>, b2: Seq<u8>, n: int, p: int, hi: int, x: u8)
    requires
        agree(b1, b2, n),
        0 <= p,
        hi <= n,
    ensures
        find_byte(b1, p, hi, x) == find_byte(b2, p, hi, x),
    decreases hi - p,
{
    if p < hi {
        lemma_agree_find_byte(b1, b2, n, p + 1, hi, x);
    }
}

pub proof fn lemma_agree_digits_end(b1: Seq<u8>, b2: Seq<u8>, n: int, p: int, hi: int)
    requires
        agree(b1, b2, n),
        0 <= p,
        hi <= n,
    ensures
        digits_end(b1, p, hi) == digits_end(b2, p, hi),
    decreases hi - p,
{
    if p < hi {
        lemma_agree_digit_len(b1, b2, n, p, hi);
        lemma_digit_len(b1, p, hi);
        if digit_len(b1, p, hi) > 0 {
            lemma_agree_digits_end(b1, b2, n, p + digit_len(b1, p, hi), hi);
        }
    }
}

proof fn lemma_agree_digit_len(b1: Seq<u8>, b2: Seq<u8>, n: int, p: int, hi: int)
    requires
        agree(b1, b2, n),
        0 <= p,
        hi <= n,
    ensures
        digit_len(b1, p, hi) == digit_len(b2, p, hi),
{
    if p < hi {
        assert(b1[p] == b2[p]);
        if p + 1 < hi {
            assert(b1[p + 1] == b2[p + 1]);
        }
        if p + 2 < hi {
            assert(b1[p + 2] == b2[p + 2]);
        }
        if p + 3 < hi {
            assert(b1[p + 3] == b2[p + 3]);
        }
    }
}

pub proof fn lemma_agree_find_double_space(b1: Seq<u8>, b2: Seq<u8>, n: int, p: int, hi: int)
    requires
        agree(b1, b2, n),
        0 <= p,
        hi <= n,
    ensures
        find_double_space(b1, p, hi) == find_double_space(b2, p, hi),
    decreases hi - p,
{
    if p + 1 < hi {
        lemma_agree_find_double_space(b1, b2, n, p + 1, hi);
    }
}

pub proof fn lemma_agree_has_prefix(b1: Seq<u8>, b2: Seq<u8>, n: int, lo: int, hi: int, tag: Seq<u8>)
    requires
        agree(b1, b2, n),
        0 <= lo <= hi <= n,
    ensures
        has_prefix(b1, lo, hi, tag) == has_prefix(b2, lo, hi, tag),
{
    if hi - lo >= tag.len() {
        lemma_agree_subrange(b1, b2, n, lo, lo + tag.len());
    }
}

pub proof fn lemma_agree_digits_value(b1: Seq<u8>, b2: Seq<u8>, n: int, lo: int, hi: int)
    requires
        agree(b1, b2, n),
        0 <= lo,
        hi <= n,
    ensures
        digits_value(b1, lo, hi) == digits_value(b2, lo, hi),
        all_digits(b1, lo, hi) == all_digits(b2, lo, hi),
    decreases hi - lo,
{
    if lo < hi {
        lemma_agree_digits_value(b1, b2, n, lo, hi - 1);
    }
}

pub proof fn lemma_agree_parse_uint(b1: Seq<u8>, b2: Seq<u8>, n: int, lo: int, hi: int, max: nat)
    requires
        agree(b1, b2, n),
        0 <= lo <= hi <= n,
    ensures
        parse_uint(b1, lo, hi, max) == parse_uint(b2, lo, hi, max),
{
    lemma_agree_digits_value(b1, b2, n, lo, hi);
    lemma_agree_digits_value(b1, b2, n, lo + 1, hi);
}

pub proof fn lemma_zone_entry_within(b: Seq<u8>, es: int, ee: int)
    requires
        0 <= es <= ee <= b.len() <= usize::MAX,
    ensures
        zone_entry(b, es, ee) matches Some(z) ==> {
            &&& es <= z.zone.lo <= z.zone.hi <= ee
            &&& es <= z.name.lo <= z.name.hi <= ee
            &&& es <= z.difficulty.lo <= z.difficulty.hi <= ee
        },
{
    let tag = zone_change_tag();
    if has_prefix(b, es, ee, tag) {
        let z0 = es + tag.len();
        lemma_digits_end(b, z0, ee);
        let z1 = digits_end(b, z0, ee);
        if z0 < z1 && z1 + 1 < ee {
            lemma_find_byte(b, z1 + 2, ee, 0x22);
            let n1 = find_byte(b, z1 + 2, ee, 0x22);
            if n1 + 1 < ee {
                lemma_digits_end(b, n1 + 2, ee);
            }
        }
    }
}

pub proof fn lemma_key_start_within(b: Seq<u8>, es: int, ee: int)
    requires
        0 <= es <= ee <= b.len() <= usize::MAX,
    ensures
        key_start(b, es, ee) matches Some(k) ==> {
            &&& es <= k.zone.lo <= k.zone.hi <= ee
            &&& es <= k.name.lo <= k.name.hi <= ee
            &&& es <= k.level.lo <= k.level.hi <= ee
        },
{
    let tag = key_start_tag();
    let p = es + tag.len();
    if has_prefix(b, es, ee, tag) && p < ee {
        lemma_find_byte(b, p + 1, ee, 0x22);
        let n1 = find_byte(b, p + 1, ee, 0x22);
        if n1 + 1 < ee {
            let a0 = n1 + 2;
            lemma_digits_end(b, a0, ee);
            let a1 = digits_end(b, a0, ee);
            if a1 < ee {
                lemma_digits_end(b, a1 + 1, ee);
                let b1 = digits_end(b, a1 + 1, ee);
                if b1 < ee {
                    lemma_digits_end(b, b1 + 1, ee);
                }
            }
        }
    }
}

pub proof fn lemma_find_byte_range(b: Seq<u8>, p: int, hi: int, x: u8)
    ensures
        p <= hi ==> p <= find_byte(b, p, hi, x) <= hi,
        p > hi ==> find_byte(b, p, hi, x) == hi,
    decreases hi - p,
{
    if p < hi && b[p] != x {
        lemma_find_byte_range(b, p + 1, hi, x);
    }
}

pub proof fn lemma_digits_end_range(b: Seq<u8>, p: int, hi: int)
    ensures
        p <= hi ==> p <= digits_end(b, p, hi) <= hi,
        p > hi ==> digits_end(b, p, hi) == hi,
    decreases hi - p,
{
    lemma_digit_len(b, p, hi);
    if p < hi && digit_len(b, p, hi) > 0 {
        lemma_digits_end_range(b, p + digit_len(b, p, hi), hi);
    }
}

pub proof fn lemma_find_double_space_range(b: Seq<u8>, p: int, hi: int)
    ensures
        p <= hi ==> p <= find_double_space(b, p, hi) <= hi,
        find_double_space(b, p, hi) < hi ==> find_double_space(b, p, hi) + 1 < hi,
        p > hi ==> find_double_space(b, p, hi) == hi,
    decreases hi - p,
{
    if p + 1 < hi && !(b[p] == 0x20 && b[p + 1] == 0x20) {
        lemma_find_double_space_range(b, p + 1, hi);
    }
}

pub proof fn lemma_agree_zone_entry(b1: Seq<u8>, b2: Seq<u8>, n: int, es: int, ee: int)
    requires
        agree(b1, b2, n),
        0 <= es <= ee <= n,
    ensures
        zone_entry(b1, es, ee) == zone_entry(b2, es, ee),
{
    let tag = zone_change_tag();
    lemma_agree_has_prefix(b1, b2, n, es, ee, tag);
    let z0 = es + tag.len();
    lemma_agree_digits_end(b1, b2, n, z0, ee);
    let z1 = digits_end(b1, z0, ee);
    lemma_digits_end_range(b1, z0, ee);
    lemma_agree_find_byte(b1, b2, n, z1 + 2, ee, 0x22);
    let n1 = find_byte(b1, z1 + 2, ee, 0x22);
    lemma_find_byte_range(b1, z1 + 2, ee, 0x22);
    lemma_agree_digits_end(b1, b2, n, n1 + 2, ee);
}

pub proof fn lemma_agree_key_start(b1: Seq<u8>, b2: Seq<u8>, n: int, es: int, ee: int)
    requires
        agree(b1, b2, n),
        0 <= es <= ee <= n,
    ensures
        key_start(b1, es, ee) == key_start(b2, es, ee),
{
    let tag = key_start_tag();
    lemma_agree_has_prefix(b1, b2, n, es, ee, tag);
    let p = es + tag.len();
    lemma_agree_find_byte(b1, b2, n, p + 1, ee, 0x22);
    let n1 = find_byte(b1, p + 1, ee, 0x22);
    lemma_find_byte_range(b1, p + 1, ee, 0x22);
    let a0 = n1 + 2;
    lemma_agree_digits_end(b1, b2, n, a0, ee);
    let a1 = digits_end(b1, a0, ee);
    lemma_digits_end_range(b1, a0, ee);
    lemma_agree_digits_end(b1, b2, n, a1 + 1, ee);
    let c1 = digits_end(b1, a1 + 1, ee);
    lemma_digits_end_range(b1, a1 + 1, ee);
    lemma_agree_digits_end(b1, b2, n, c1 + 1, ee);
}

proof fn lemma_field_lo(b: Seq<u8>, es: int, ee: int, k: nat)
    requires
        0 <= es <= ee <= usize::MAX,
    ensures
        field(b, es, ee, k) matches Some(f) ==> es <= f.lo <= f.hi <= ee,
    decreases k,
{
    if k == 0 {
        lemma_find_byte_range(b, es, ee, 0x2c);
    } else {
        lemma_field_lo(b, es, ee, (k - 1) as nat);
        match field(b, es, ee, (k - 1) as nat) {
            Some(f) => {
                lemma_find_byte_range(b, f.hi + 1, ee, 0x2c);
            },
            None => {},
        }
    }
}

pub proof fn lemma_agree_field(b1: Seq<u8>, b2: Seq<u8>, n: int, es: int, ee: int, k: nat)
    requires
        agree(b1, b2, n),
        0 <= es <= ee <= n <= usize::MAX,
    ensures
        field(b1, es, ee, k) == field(b2, es, ee, k),
    decreases k,
{
    if k == 0 {
        lemma_agree_find_byte(b1, b2, n, es, ee, 0x2c);
    } else {
        lemma_agree_field(b1, b2, n, es, ee, (k - 1) as nat);
        lemma_field_lo(b1, es, ee, (k - 1) as nat);
        match field(b1, es, ee, (k - 1) as nat) {
            Some(f) => {
                lemma_agree_find_byte(b1, b2, n, f.hi + 1, ee, 0x2c);
            },
            None => {},
        }
    }
}


// ---------------------------------------------------------------------------
// Reading a line where it stands
// ---------------------------------------------------------------------------

/// `s` moved `o` bytes further into the log.
pub open spec fn shift(s: Span, o: int) -> Span {
    span(s.lo + o, s.hi + o)
}

pub open spec fn shift_opt(f: Option<Span>, o: int) -> Option<Span> {
    match f {
        Some(s) => Some(shift(s, o)),
        None => None,
    }
}

pub open spec fn shift_zone(z: Option<ZoneEntry>, o: int) -> Option<ZoneEntry> {
    match z {
        Some(z) => Some(
            ZoneEntry {
                zone: shift(z.zone, o),
                name: shift(z.name, o),
                difficulty: shift(z.difficulty, o),
            },
        ),
        None => None,
    }
}

pub open spec fn shift_key(k: Option<KeyStart>, o: int) -> Option<KeyStart> {
    match k {
        Some(k) => Some(
            KeyStart { name: shift(k.name, o), zone: shift(k.zone, o), level: shift(k.level, o) },
        ),
        None => None,
    }
}

/// The bytes of a span of the line `s = b[o..o + n]` are those of the span
/// moved to where the line stands in `b`.
pub proof fn lemma_local_bytes(b: Seq<u8>, o: int, n: int, x: Span)
    requires
        0 <= o,
        0 <= n,
        o + n <= b.len() <= usize::MAX,
        x.lo <= x.hi <= n,
    ensures
        bytes_of(b, shift(x, o)) == bytes_of(b.subrange(o, o + n), x),
{
    assert(bytes_of(b, shift(x, o)) =~= bytes_of(b.subrange(o, o + n), x));
}

pub proof fn lemma_local_find_byte(b: Seq<u8>, o: int, n: int, p: int, h: int, x: u8)
    requires
        0 <= o,
        0 <= p,
        0 <= h <= n,
        o + n <= b.len(),
    ensures
        find_byte(b, o + p, o + h, x) == o + find_byte(b.subrange(o, o + n), p, h, x),
    decreases h - p,
{
    if p < h {
        lemma_local_find_byte(b, o, n, p + 1, h, x);
    }
}

pub proof fn lemma_local_digits_end(b: Seq<u8>, o: int, n: int, p: int, h: int)
    requires
        0 <= o,
        0 <= p,
        0 <= h <= n,
        o + n <= b.len(),
    ensures
        digits_end(b, o + p, o + h) == o + digits_end(b.subrange(o, o + n), p, h),
    decreases h - p,
{
    if p < h {
        lemma_local_digit_len(b, o, n, p, h);
        lemma_digit_len(b.subrange(o, o + n), p, h);
        let k = digit_len(b.subrange(o, o + n), p, h);
        if k > 0 {
            lemma_local_digits_end(b, o, n, p + k, h);
        }
    }
}

proof fn lemma_local_digit_len(b: Seq<u8>, o: int, n: int, p: int, h: int)
    requires
        0 <= o,
        0 <= p,
        0 <= h <= n,
        o + n <= b.len(),
    ensures
        digit_len(b, o + p, o + h) == digit_len(b.subrange(o, o + n), p, h),
{
    let s = b.subrange(o, o + n);
    if p < h {
        assert(b[o + p] == s[p]);
        if p + 1 < h {
            assert(b[o + p + 1] == s[p + 1]);
        }
        if p + 2 < h {
            assert(b[o + p + 2] == s[p + 2]);
        }
        if p + 3 < h {
            assert(b[o + p + 3] == s[p + 3]);
        }
    }
}

pub proof fn lemma_local_find_double_space(b: Seq<u8>, o: int, n: int, p: int, h: int)
    requires
        0 <= o,
        0 <= p,
        0 <= h <= n,
        o + n <= b.len(),
    ensures
        find_double_space(b, o + p, o + h) == o + find_double_space(b.subrange(o, o + n), p, h),
    decreases h - p,
{
    if p + 1 < h {
        lemma_local_find_double_space(b, o, n, p + 1, h);
    }
}

pub proof fn lemma_local_has_prefix(b: Seq<u8>, o: int, n: int, lo: int, hi: int, tag: Seq<u8>)
    requires
        0 <= o,
        0 <= lo <= hi <= n,
        o + n <= b.len(),
    ensures
        has_prefix(b, o + lo, o + hi, tag) == has_prefix(b.subrange(o, o + n), lo, hi, tag),
{
    if hi - lo >= tag.len() {
        assert(b.subrange(o + lo, o + lo + tag.len()) =~= b.subrange(o, o + n).subrange(
            lo,
            lo + tag.len(),
        ));
    }
}

pub proof fn lemma_local_digits_value(b: Seq<u8>, o: int, n: int, lo: int, hi: int)
    requires
        0 <= o,
        0 <= lo,
        hi <= n,
        o + n <= b.len(),
    ensures
        digits_value(b, o + lo, o + hi) == digits_value(b.subrange(o, o + n), lo, hi),
        all_digits(b, o + lo, o + hi) == all_digits(b.subrange(o, o + n), lo, hi),
    decreases hi - lo,
{
    let s = b.subrange(o, o + n);
    if lo < hi {
        lemma_local_digits_value(b, o, n, lo, hi - 1);
        assert(b[o + hi - 1] == s[hi - 1]);
    }
    if all_digits(s, lo, hi) {
        assert forall|i: int| o + lo <= i < o + hi implies is_digit(#[trigger] b[i]) by {
            assert(b[i] == s[i - o]);
        }
    }
    if all_digits(b, o + lo, o + hi) {
        assert forall|i: int| lo <= i < hi implies is_digit(#[trigger] s[i]) by {
            assert(b[o + i] == s[i]);
        }
    }
}

pub proof fn lemma_local_parse_uint(b: Seq<u8>, o: int, n: int, lo: int, hi: int, max: nat)
    requires
        0 <= o,
        0 <= lo <= hi <= n,
        o + n <= b.len(),
    ensures
        parse_uint(b, o + lo, o + hi, max) == parse_uint(b.subrange(o, o + n), lo, hi, max),
{
    lemma_local_digits_value(b, o, n, lo, hi);
    lemma_local_digits_value(b, o, n, lo + 1, hi);
    if hi - lo >= 1 {
        assert(b[o + lo] == b.subrange(o, o + n)[lo]);
    }
}

pub proof fn lemma_local_zone_entry(b: Seq<u8>, o: int, n: int, x: int, y: int)
    requires
        0 <= o,
        0 <= x <= y <= n,
        o + n <= b.len() <= usize::MAX,
    ensures
        zone_entry(b, o + x, o + y) == shift_zone(zone_entry(b.subrange(o, o + n), x, y), o),
{
    let s = b.subrange(o, o + n);
    let tag = zone_change_tag();
    lemma_local_has_prefix(b, o, n, x, y, tag);
    if has_prefix(s, x, y, tag) {
        let z0 = x + tag.len();
        lemma_local_digits_end(b, o, n, z0, y);
        let z1 = digits_end(s, z0, y);
        lemma_digits_end_range(s, z0, y);
        if z0 < z1 && z1 + 1 < y {
            assert(b[o + z1] == s[z1] && b[o + z1 + 1] == s[z1 + 1]);
            lemma_local_find_byte(b, o, n, z1 + 2, y, 0x22);
            let n1 = find_byte(s, z1 + 2, y, 0x22);
            lemma_find_byte_range(s, z1 + 2, y, 0x22);
            if n1 + 1 < y {
                assert(b[o + n1 + 1] == s[n1 + 1]);
                lemma_local_digits_end(b, o, n, n1 + 2, y);
                lemma_digits_end_range(s, n1 + 2, y);
            }
        }
    }
}

proof fn lemma_local_digits_comma(b: Seq<u8>, o: int, n: int, p: int, y: int)
    requires
        0 <= o,
        0 <= p,
        0 <= y <= n,
        o + n <= b.len(),
    ensures
        digits_comma(b, o + p, o + y) == match digits_comma(b.subrange(o, o + n), p, y) {
            Some(e) => Some(o + e),
            None => None,
        },
{
    let s = b.subrange(o, o + n);
    lemma_local_digits_end(b, o, n, p, y);
    let e = digits_end(s, p, y);
    if p < e && e < y {
        assert(b[o + e] == s[e]);
    }
}

pub proof fn lemma_local_key_start(b: Seq<u8>, o: int, n: int, x: int, y: int)
    requires
        0 <= o,
        0 <= x <= y <= n,
        o + n <= b.len() <= usize::MAX,
    ensures
        key_start(b, o + x, o + y) == shift_key(key_start(b.subrange(o, o + n), x, y), o),
{
    let s = b.subrange(o, o + n);
    let tag = key_start_tag();
    lemma_local_has_prefix(b, o, n, x, y, tag);
    let p = x + tag.len();
    if has_prefix(s, x, y, tag) && p < y {
        assert(b[o + p] == s[p]);
        lemma_local_find_byte(b, o, n, p + 1, y, 0x22);
        let n1 = find_byte(s, p + 1, y, 0x22);
        lemma_find_byte_range(s, p + 1, y, 0x22);
        if n1 + 1 < y {
            assert(b[o + n1 + 1] == s[n1 + 1]);
            let a0 = n1 + 2;
            lemma_local_digits_comma(b, o, n, a0, y);
            lemma_digits_end_range(s, a0, y);
            if let Some(a1) = digits_comma(s, a0, y) {
                lemma_local_digits_comma(b, o, n, a1 + 1, y);
                lemma_digits_end_range(s, a1 + 1, y);
                if let Some(b1) = digits_comma(s, a1 + 1, y) {
                    lemma_local_digits_comma(b, o, n, b1 + 1, y);
                    lemma_digits_end_range(s, b1 + 1, y);
                }
            }
        }
    }
}

pub proof fn lemma_local_field(b: Seq<u8>, o: int, n: int, x: int, y: int, k: nat)
    requires
        0 <= o,
        0 <= x <= y <= n,
        o + n <= b.len() <= usize::MAX,
    ensures
        field(b, o + x, o + y, k) == shift_opt(field(b.subrange(o, o + n), x, y, k), o),
    decreases k,
{
    let s = b.subrange(o, o + n);
    if k == 0 {
        lemma_local_find_byte(b, o, n, x, y, 0x2c);
        lemma_find_byte_range(s, x, y, 0x2c);
    } else {
        lemma_local_field(b, o, n, x, y, (k - 1) as nat);
        lemma_field_lo(s, x, y, (k - 1) as nat);
        match field(s, x, y, (k - 1) as nat) {
            Some(f) => {
                if f.hi < y {
                    lemma_local_find_byte(b, o, n, f.hi + 1, y, 0x2c);
                    lemma_find_byte_range(s, f.hi + 1, y, 0x2c);
                }
            },
            None => {},
        }
    }
}


/// No event is both a zone entry and a key start.
pub proof fn lemma_zone_or_start(b: Seq<u8>, es: int, te: int)
    requires
        0 <= es <= te <= b.len(),
    ensures
        !(zone_entry(b, es, te) is Some && key_start(b, es, te) is Some),
{
    reveal_strlit("ZONE_CHANGE,");
    reveal_strlit("CHALLENGE_MODE_START,");
    assert(zone_change_tag()[0] == 0x5a);
    assert(key_start_tag()[0] == 0x43);
    if zone_entry(b, es, te) is Some && key_start(b, es, te) is Some {
        assert(has_prefix(b, es, te, zone_change_tag()));
        assert(has_prefix(b, es, te, key_start_tag()));
        assert(b.subrange(es, es + zone_change_tag().len())[0] == zone_change_tag()[0]);
        assert(b.subrange(es, es + key_start_tag().len())[0] == key_start_tag()[0]);
    }
}

} // verus!
