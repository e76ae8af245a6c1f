//! Byte-level text helpers shared by the log reader, the run scanner and the
//! rankings code: UTF-8 well-formedness, whitespace trimming, number
//! rendering and conversion of checked bytes into `String`s.
use vstd::prelude::*;
use vstd::utf8::*;
use vstd::string::*;

verus! {

broadcast use vstd::seq_lib::group_seq_properties;

// ---------------------------------------------------------------------------
// UTF-8
// ---------------------------------------------------------------------------

/// Calls `std::str::from_utf8`: it succeeds exactly when the bytes are
/// well-formed UTF-8, and the string slice it returns is encoded by those bytes.
#[verifier::external_body]
fn str_from_utf8(bytes: &[u8]) -> (r: Option<&str>)
    ensures
        r is Some <==> valid_utf8(bytes@),
        r matches Some(s) ==> s.spec_bytes() == bytes@,
{
    std::str::from_utf8(bytes).ok()
}

/// The string whose UTF-8 encoding is `bytes`, when there is one.
pub fn text_from_utf8(bytes: &[u8]) -> (r: Option<String>)
    ensures
        r is Some <==> valid_utf8(bytes@),
        r matches Some(s) ==> s@ == decode_utf8(bytes@),
{
    match str_from_utf8(bytes) {
        Some(s) => {
            proof {
                encode_utf8_decode_utf8(s@);
            }
            Some(s.to_owned())
        },
        None => None,
    }
}

/// The string whose UTF-8 encoding is `bytes`, which are known to be well-formed.
pub fn text_of(bytes: &[u8]) -> (r: String)
    requires
        valid_utf8(bytes@),
    ensures
        r@ == decode_utf8(bytes@),
{
    match text_from_utf8(bytes) {
        Some(s) => s,
        None => String::new(),
    }
}

/// Every byte is 7-bit ASCII.
pub open spec fn all_ascii(b: Seq<u8>) -> bool {
    forall|i: int| 0 <= i < b.len() ==> #[trigger] b[i] < 0x80
}

/// The characters of an ASCII byte string.
pub open spec fn ascii_chars(b: Seq<u8>) -> Seq<char> {
    b.map_values(|x: u8| x as char)
}

/// ASCII bytes are well-formed UTF-8 and decode one character per byte.
pub proof fn lemma_ascii_utf8(b: Seq<u8>)
    requires
        all_ascii(b),
    ensures
        valid_utf8(b),
        decode_utf8(b) == ascii_chars(b),
    decreases b.len(),
{
    if b.len() > 0 {
        let rest = b.subrange(1, b.len() as int);
        assert(all_ascii(rest)) by {
            assert forall|i: int| 0 <= i < rest.len() implies #[trigger] rest[i] < 0x80 by {
                assert(rest[i] == b[i + 1]);
            }
        }
        lemma_ascii_utf8(rest);
        let x = b[0];
        assert(x & 0x7f == x) by (bit_vector)
            requires x < 0x80;
        assert(decode_first_scalar(b) == x as u32);
        assert(pop_first_scalar(b) == rest);
        assert(decode_utf8(b) =~= ascii_chars(b));
    }
}

/// Distinct ASCII byte strings have distinct characters.
pub proof fn lemma_ascii_chars_injective(a: Seq<u8>, b: Seq<u8>)
    requires
        all_ascii(a),
        all_ascii(b),
    ensures
        (ascii_chars(a) == ascii_chars(b)) == (a == b),
{
    if ascii_chars(a) == ascii_chars(b) {
        assert(a.len() == ascii_chars(a).len());
        assert forall|i: int| 0 <= i < a.len() implies a[i] == b[i] by {
            assert(ascii_chars(a)[i] == ascii_chars(b)[i]);
        }
        assert(a =~= b);
    }
}

/// Concatenated well-formed pieces are well formed and decode piecewise.
pub proof fn lemma_utf8_concat(a: Seq<u8>, b: Seq<u8>)
    requires
        valid_utf8(a),
        valid_utf8(b),
    ensures
        valid_utf8(a + b),
        decode_utf8(a + b) == decode_utf8(a) + decode_utf8(b),
{
    valid_utf8_concat(a, b);
    is_char_boundary_start_end_of_seq(a);
    lemma_prefix_boundary(a, b, a.len() as int);
    decode_utf8_split(a + b, a.len() as int);
    assert((a + b).subrange(0, a.len() as int) =~= a);
    assert((a + b).subrange(a.len() as int, (a + b).len() as int) =~= b);
}

/// A character boundary of a well-formed prefix is one of the whole sequence.
proof fn lemma_prefix_boundary(a: Seq<u8>, b: Seq<u8>, i: int)
    requires
        valid_utf8(a),
        valid_utf8(b),
        is_char_boundary(a, i),
    ensures
        is_char_boundary(a + b, i),
    decreases a.len(),
{
    valid_utf8_concat(a, b);
    if i == 0 {
    } else if a.len() == 0 {
    } else {
        reveal_with_fuel(valid_utf8, 2);
        let k = length_of_first_scalar(a);
        assert(valid_first_scalar(a));
        lemma_first_scalar_prefix(a, b);
        assert(pop_first_scalar(a + b) =~= pop_first_scalar(a) + b);
        lemma_prefix_boundary(pop_first_scalar(a), b, i - k);
    }
}

/// The first scalar of a non-empty well-formed prefix is the first of the whole.
proof fn lemma_first_scalar_prefix(a: Seq<u8>, b: Seq<u8>)
    requires
        a.len() > 0,
        valid_first_scalar(a),
    ensures
        valid_first_scalar(a + b),
        length_of_first_scalar(a + b) == length_of_first_scalar(a),
        decode_first_scalar(a + b) == decode_first_scalar(a),
{
    let ab = a + b;
    assert(ab[0] == a[0]);
    if a.len() >= 2 {
        assert(ab[1] == a[1]);
    }
    if a.len() >= 3 {
        assert(ab[2] == a[2]);
    }
    if a.len() >= 4 {
        assert(ab[3] == a[3]);
    }
}

/// Byte `i` starts a character (or is the end) of well-formed `b`.
pub open spec fn at_char(b: Seq<u8>, i: int) -> bool {
    i == b.len() || (0 <= i < b.len() && !is_continuation_byte(b[i]))
}

/// An ASCII byte starts a character.
pub proof fn lemma_ascii_at_char(b: Seq<u8>, i: int)
    requires
        0 <= i < b.len(),
        b[i] < 0x80,
    ensures
        at_char(b, i),
{
}

/// The byte after an ASCII byte starts a character of well-formed `b`.
pub proof fn lemma_after_ascii_at_char(b: Seq<u8>, i: int)
    requires
        valid_utf8(b),
        0 <= i < b.len(),
        b[i] < 0x80,
    ensures
        at_char(b, i + 1),
{
    is_char_boundary_iff_not_is_continuation_byte(b, i);
    lemma_boundary_step_ascii(b, i);
    if i + 1 < b.len() {
        is_char_boundary_iff_not_is_continuation_byte(b, i + 1);
    }
}

proof fn lemma_boundary_step_ascii(b: Seq<u8>, j: int)
    requires
        valid_utf8(b),
        is_char_boundary(b, j),
        0 <= j < b.len(),
        b[j] < 0x80,
    ensures
        is_char_boundary(b, j + 1),
    decreases b.len(),
{
    reveal_with_fuel(is_char_boundary, 2);
    let k = length_of_first_scalar(b);
    let rest = pop_first_scalar(b);
    if j == 0 {
        assert(k == 1);
    } else {
        assert(j - k >= 0);
        assert(rest[j - k] == b[j]);
        lemma_boundary_step_ascii(rest, j - k);
    }
}

/// The bytes between two character starts of well-formed `b` are well formed.
pub proof fn lemma_utf8_slice(b: Seq<u8>, lo: int, hi: int)
    requires
        valid_utf8(b),
        0 <= lo <= hi <= b.len(),
        at_char(b, lo),
        at_char(b, hi),
    ensures
        valid_utf8(b.subrange(lo, hi)),
{
    if lo == hi {
        assert(b.subrange(lo, hi).len() == 0);
    } else {
        if hi < b.len() {
            is_char_boundary_iff_not_is_continuation_byte(b, hi);
        } else {
            is_char_boundary_start_end_of_seq(b);
        }
        valid_utf8_split(b, hi);
        let p = b.subrange(0, hi);
        assert(p[lo] == b[lo]);
        is_char_boundary_iff_not_is_continuation_byte(p, lo);
        valid_utf8_split(p, lo);
        assert(p.subrange(lo, p.len() as int) =~= b.subrange(lo, hi));
    }
}


/// Bytes of an ASCII string literal.
pub open spec fn ascii_bytes(s: Seq<char>) -> Seq<u8> {
    s.map_values(|c: char| c as u8)
}

/// The bytes of an ASCII literal such as a log event tag.
pub fn literal(s: &str) -> (r: &[u8])
    requires
        vstd::utf8::is_ascii_chars(s@),
    ensures
        r@ == ascii_bytes(s@),
        all_ascii(r@),
{
    proof {
        vstd::string::is_ascii_spec_bytes(s);
    }
    let r = s.as_bytes();
    assert(r@ =~= ascii_bytes(s@));
    r
}

/// The string of ASCII bytes.
pub fn ascii_string(b: &[u8]) -> (r: String)
    requires
        all_ascii(b@),
    ensures
        r@ == ascii_chars(b@),
{
    proof {
        lemma_ascii_utf8(b@);
    }
    text_of(b)
}

// ---------------------------------------------------------------------------
// Whitespace (Unicode White_Space, by its UTF-8 encodings)
// ---------------------------------------------------------------------------

/// One-byte white space: tab, line feed, vertical tab, form feed, carriage
/// return and space.
pub open spec fn is_ascii_ws(x: u8) -> bool {
    x == 0x20 || (0x09 <= x <= 0x0d)
}

/// Second byte after 0xC2 of U+0085 and U+00A0.
pub open spec fn is_ws2(x: u8, y: u8) -> bool {
    x == 0xc2 && (y == 0x85 || y == 0xa0)
}

/// The three-byte encodings of U+1680, U+2000..U+200A, U+2028, U+2029,
/// U+202F, U+205F and U+3000.
pub open spec fn is_ws3(x: u8, y: u8, z: u8) -> bool {
    ||| (x == 0xe1 && y == 0x9a && z == 0x80)
    ||| (x == 0xe2 && y == 0x80 && ((0x80 <= z <= 0x8a) || z == 0xa8 || z == 0xa9 || z == 0xaf))
    ||| (x == 0xe2 && y == 0x81 && z == 0x9f)
    ||| (x == 0xe3 && y == 0x80 && z == 0x80)
}

/// Length of the white-space character that `b` ends with, or 0.
pub open spec fn ws_suffix_len(b: Seq<u8>) -> int {
    let n = b.len() as int;
    if n >= 1 && is_ascii_ws(b[n - 1]) {
        1
    } else if n >= 2 && is_ws2(b[n - 2], b[n - 1]) {
        2
    } else if n >= 3 && is_ws3(b[n - 3], b[n - 2], b[n - 1]) {
        3
    } else {
        0
    }
}

/// Length of the white-space character that `b` starts with, or 0.
pub open spec fn ws_prefix_len(b: Seq<u8>) -> int {
    if b.len() >= 1 && is_ascii_ws(b[0]) {
        1
    } else if b.len() >= 2 && is_ws2(b[0], b[1]) {
        2
    } else if b.len() >= 3 && is_ws3(b[0], b[1], b[2]) {
        3
    } else {
        0
    }
}

/// Length of `b` once trailing white space is removed (`str::trim_end`).
pub open spec fn trimmed_end_len(b: Seq<u8>) -> int
    decreases b.len(),
{
    let k = ws_suffix_len(b);
    if k <= 0 || k > b.len() {
        b.len() as int
    } else {
        trimmed_end_len(b.subrange(0, b.len() - k))
    }
}

/// Number of leading white-space bytes (`str::trim_start`).
pub open spec fn trimmed_start_len(b: Seq<u8>) -> int
    decreases b.len(),
{
    let k = ws_prefix_len(b);
    if k <= 0 || k > b.len() {
        0
    } else {
        k + trimmed_start_len(b.subrange(k, b.len() as int))
    }
}

pub proof fn lemma_trimmed_end_bounds(b: Seq<u8>)
    ensures
        0 <= trimmed_end_len(b) <= b.len(),
    decreases b.len(),
{
    let k = ws_suffix_len(b);
    if k > 0 && k <= b.len() {
        lemma_trimmed_end_bounds(b.subrange(0, b.len() - k));
    }
}

pub proof fn lemma_trimmed_start_bounds(b: Seq<u8>)
    ensures
        0 <= trimmed_start_len(b) <= b.len(),
    decreases b.len(),
{
    let k = ws_prefix_len(b);
    if k > 0 && k <= b.len() {
        lemma_trimmed_start_bounds(b.subrange(k, b.len() as int));
    }
}

/// The white-space character ending `b[lo..hi]`, by length (0 when none).
fn ws_suffix_at(b: &[u8], lo: usize, hi: usize) -> (k: usize)
    requires
        lo <= hi <= b@.len(),
    ensures
        k == ws_suffix_len(b@.subrange(lo as int, hi as int)),
{
    let ghost s = b@.subrange(lo as int, hi as int);
    let n = hi - lo;
    if n >= 1 && (b[hi - 1] == 0x20 || (0x09 <= b[hi - 1] && b[hi - 1] <= 0x0d)) {
        assert(s[n - 1] == b@[hi - 1]);
        1
    } else if n >= 2 && b[hi - 2] == 0xc2 && (b[hi - 1] == 0x85 || b[hi - 1] == 0xa0) {
        assert(s[n - 1] == b@[hi - 1] && s[n - 2] == b@[hi - 2]);
        2
    } else if n >= 3 && is_ws3_exec(b[hi - 3], b[hi - 2], b[hi - 1]) {
        assert(s[n - 1] == b@[hi - 1] && s[n - 2] == b@[hi - 2] && s[n - 3] == b@[hi - 3]);
        3
    } else {
        proof {
            if n >= 1 {
                assert(s[n - 1] == b@[hi - 1]);
            }
            if n >= 2 {
                assert(s[n - 2] == b@[hi - 2]);
            }
            if n >= 3 {
                assert(s[n - 3] == b@[hi - 3]);
            }
        }
        0
    }
}

/// The white-space character starting `b[lo..hi]`, by length (0 when none).
fn ws_prefix_at(b: &[u8], lo: usize, hi: usize) -> (k: usize)
    requires
        lo <= hi <= b@.len(),
    ensures
        k == ws_prefix_len(b@.subrange(lo as int, hi as int)),
{
    let ghost s = b@.subrange(lo as int, hi as int);
    let n = hi - lo;
    if n >= 1 && (b[lo] == 0x20 || (0x09 <= b[lo] && b[lo] <= 0x0d)) {
        assert(s[0] == b@[lo as int]);
        1
    } else if n >= 2 && b[lo] == 0xc2 && (b[lo + 1] == 0x85 || b[lo + 1] == 0xa0) {
        assert(s[0] == b@[lo as int] && s[1] == b@[lo + 1]);
        2
    } else if n >= 3 && is_ws3_exec(b[lo], b[lo + 1], b[lo + 2]) {
        assert(s[0] == b@[lo as int] && s[1] == b@[lo + 1] && s[2] == b@[lo + 2]);
        3
    } else {
        proof {
            if n >= 1 {
                assert(s[0] == b@[lo as int]);
            }
            if n >= 2 {
                assert(s[1] == b@[lo + 1]);
            }
            if n >= 3 {
                assert(s[2] == b@[lo + 2]);
            }
        }
        0
    }
}

fn is_ws3_exec(x: u8, y: u8, z: u8) -> (r: bool)
    ensures
        r == is_ws3(x, y, z),
{
    (x == 0xe1 && y == 0x9a && z == 0x80) || (x == 0xe2 && y == 0x80 && ((0x80 <= z && z
        <= 0x8a) || z == 0xa8 || z == 0xa9 || z == 0xaf)) || (x == 0xe2 && y == 0x81 && z == 0x9f)
        || (x == 0xe3 && y == 0x80 && z == 0x80)
}

/// End of `b[lo..hi]` once trailing white space is removed.
pub fn trim_end_at(b: &[u8], lo: usize, hi: usize) -> (e: usize)
    requires
        lo <= hi <= b@.len(),
    ensures
        e == lo + trimmed_end_len(b@.subrange(lo as int, hi as int)),
        lo <= e <= hi,
{
    let mut e = hi;
    loop
        invariant
            lo <= e <= hi <= b@.len(),
            trimmed_end_len(b@.subrange(lo as int, hi as int)) == trimmed_end_len(
                b@.subrange(lo as int, e as int),
            ),
        decreases e,
    {
        let k = ws_suffix_at(b, lo, e);
        if k == 0 {
            proof {
                lemma_trimmed_end_bounds(b@.subrange(lo as int, e as int));
            }
            return e;
        }
        assert(b@.subrange(lo as int, e as int).subrange(0, e - lo - k) =~= b@.subrange(
            lo as int,
            e - k,
        ));
        e = e - k;
    }
}

/// Start of `b[lo..hi]` once leading white space is removed.
pub fn trim_start_at(b: &[u8], lo: usize, hi: usize) -> (s: usize)
    requires
        lo <= hi <= b@.len(),
    ensures
        s == lo + trimmed_start_len(b@.subrange(lo as int, hi as int)),
        lo <= s <= hi,
{
    let mut s = lo;
    loop
        invariant
            lo <= s <= hi <= b@.len(),
            trimmed_start_len(b@.subrange(lo as int, hi as int)) == (s - lo)
                + trimmed_start_len(b@.subrange(s as int, hi as int)),
        decreases hi - s,
    {
        let k = ws_prefix_at(b, s, hi);
        if k == 0 {
            return s;
        }
        assert(b@.subrange(s as int, hi as int).subrange(k as int, hi - s) =~= b@.subrange(
            s + k,
            hi as int,
        ));
        s = s + k;
    }
}

/// A character boundary followed by one character gives another boundary.
proof fn lemma_boundary_step(b: Seq<u8>, j: int)
    requires
        valid_utf8(b),
        is_char_boundary(b, j),
        0 <= j < b.len(),
    ensures
        is_char_boundary(b, j + length_of_first_scalar(b.subrange(j, b.len() as int))),
    decreases b.len(),
{
    reveal_with_fuel(is_char_boundary, 2);
    let k = length_of_first_scalar(b);
    let rest = pop_first_scalar(b);
    if j == 0 {
        assert(b.subrange(0, b.len() as int) =~= b);
        is_char_boundary_start_end_of_seq(rest);
    } else {
        assert(rest.subrange(j - k, rest.len() as int) =~= b.subrange(j, b.len() as int));
        lemma_boundary_step(rest, j - k);
    }
}

/// Leading white space ends at a character start.
pub proof fn lemma_trim_start_at_char(b: Seq<u8>, lo: int, hi: int)
    requires
        valid_utf8(b),
        0 <= lo <= hi <= b.len(),
        at_char(b, lo),
    ensures
        at_char(b, lo + trimmed_start_len(b.subrange(lo, hi))),
    decreases hi - lo,
{
    let s = b.subrange(lo, hi);
    let k = ws_prefix_len(s);
    if k > 0 && k <= s.len() {
        assert(b[lo] == s[0]);
        if k >= 2 {
            assert(b[lo + 1] == s[1]);
        }
        if k >= 3 {
            assert(b[lo + 2] == s[2]);
        }
        is_char_boundary_iff_not_is_continuation_byte(b, lo);
        lemma_boundary_step(b, lo);
        let t = b.subrange(lo, b.len() as int);
        assert(t[0] == b[lo]);
        if k >= 2 {
            assert(t[1] == b[lo + 1]);
        }
        if k >= 3 {
            assert(t[2] == b[lo + 2]);
        }
        assert(length_of_first_scalar(t) == k);
        if lo + k < b.len() {
            is_char_boundary_iff_not_is_continuation_byte(b, lo + k);
        }
        assert(s.subrange(k, s.len() as int) =~= b.subrange(lo + k, hi));
        lemma_trim_start_at_char(b, lo + k, hi);
    }
}

/// Trailing white space starts at a character start.
pub proof fn lemma_trim_end_at_char(b: Seq<u8>, lo: int, hi: int)
    requires
        0 <= lo <= hi <= b.len(),
        at_char(b, lo),
        at_char(b, hi),
    ensures
        at_char(b, lo + trimmed_end_len(b.subrange(lo, hi))),
    decreases hi - lo,
{
    let s = b.subrange(lo, hi);
    let k = ws_suffix_len(s);
    if k > 0 && k <= s.len() {
        let e = hi - k;
        assert(b[e] == s[s.len() - k]);
        assert(s.subrange(0, s.len() - k) =~= b.subrange(lo, e));
        lemma_trim_end_at_char(b, lo, e);
    }
}

// ---------------------------------------------------------------------------
// Numbers as text
// ---------------------------------------------------------------------------

/// Lower-case hexadecimal digit of `v < 16`.
pub open spec fn hex_digit(v: int) -> u8 {
    if v < 10 {
        (0x30 + v) as u8
    } else {
        (0x61 + v - 10) as u8
    }
}

/// The nibble of `x` that is printed at position `i` of sixteen.
pub open spec fn nibble(x: u64, i: int) -> int {
    ((x >> ((60 - 4 * i) as u64)) & 0xf) as int
}

/// `x` as sixteen lower-case hexadecimal digits, most significant first
/// (`format!("{x:016x}")`).
pub open spec fn hex16(x: u64) -> Seq<u8> {
    Seq::new(16, |i: int| hex_digit(nibble(x, i)))
}

/// `n` in decimal, without leading zeros (`n.to_string()`).
pub open spec fn decimal(n: nat) -> Seq<u8>
    decreases n,
{
    if n < 10 {
        seq![(0x30 + n) as u8]
    } else {
        decimal(n / 10).push((0x30 + n % 10) as u8)
    }
}

pub proof fn lemma_decimal_ascii(n: nat)
    ensures
        all_ascii(decimal(n)),
        decimal(n).len() >= 1,
    decreases n,
{
    if n >= 10 {
        lemma_decimal_ascii(n / 10);
    }
}

pub proof fn lemma_hex16_ascii(x: u64)
    ensures
        all_ascii(hex16(x)),
        hex16(x).len() == 16,
{
    assert forall|i: int| 0 <= i < 16 implies #[trigger] hex16(x)[i] < 0x80 by {
        let s = (60 - 4 * i) as u64;
        assert((x >> s) & 0xf <= 0xf) by (bit_vector);
    }
}

/// Appends `hex16(x)`.
pub fn push_hex16(out: &mut Vec<u8>, x: u64)
    ensures
        final(out)@ == old(out)@ + hex16(x),
{
    let ghost start = out@;
    let mut i: usize = 0;
    while i < 16
        invariant
            i <= 16,
            out@ == start + hex16(x).subrange(0, i as int),
        decreases 16 - i,
    {
        let shift: u64 = 60 - 4 * (i as u64);
        let v = (x >> shift) & 0xf;
        assert(v <= 0xf) by (bit_vector)
            requires v == (x >> shift) & 0xf;
        let d: u8 = if v < 10 {
            (0x30 + v) as u8
        } else {
            (0x61 + v - 10) as u8
        };
        assert(d == hex16(x)[i as int]);
        out.push(d);
        assert(hex16(x).subrange(0, i + 1) =~= hex16(x).subrange(0, i as int).push(d));
        i = i + 1;
    }
    assert(hex16(x).subrange(0, 16) =~= hex16(x));
}

/// Appends `decimal(n)`.
pub fn push_decimal(out: &mut Vec<u8>, n: u64)
    ensures
        final(out)@ == old(out)@ + decimal(n as nat),
    decreases n,
{
    let ghost start = out@;
    if n >= 10 {
        push_decimal(out, n / 10);
    }
    let d: u8 = (0x30 + n % 10) as u8;
    out.push(d);
    assert(out@ =~= start + decimal(n as nat));
}

// ---------------------------------------------------------------------------
// Building strings
// ---------------------------------------------------------------------------

/// Whether two strings hold the same characters.
pub fn same_text(a: &str, b: &str) -> (r: bool)
    ensures
        r == (a@ == b@),
{
    let x = a.as_bytes();
    let y = b.as_bytes();
    proof {
        encode_utf8_decode_utf8(a@);
        encode_utf8_decode_utf8(b@);
    }
    if x.len() != y.len() {
        assert(x@.len() != y@.len());
        return false;
    }
    let mut i: usize = 0;
    while i < x.len()
        invariant
            x@.len() == y@.len(),
            x@ == a.spec_bytes(),
            y@ == b.spec_bytes(),
            i <= x@.len(),
            forall|j: int| 0 <= j < i ==> #[trigger] x@[j] == y@[j],
        decreases x@.len() - i,
    {
        if x[i] != y[i] {
            assert(x@ != y@);
            return false;
        }
        i = i + 1;
    }
    assert(x@ =~= y@);
    true
}

/// A string under construction, held as well-formed UTF-8 bytes.
pub struct TextBuilder {
    bytes: Vec<u8>,
}

impl TextBuilder {
    /// The characters written so far.
    pub closed spec fn chars(&self) -> Seq<char> {
        decode_utf8(self.bytes@)
    }

    pub closed spec fn ok(&self) -> bool {
        valid_utf8(self.bytes@)
    }

    pub fn new() -> (r: TextBuilder)
        ensures
            r.ok(),
            r.chars() == Seq::<char>::empty(),
    {
        let r = TextBuilder { bytes: Vec::new() };
        assert(r.bytes@ =~= Seq::<u8>::empty());
        r
    }

    /// Appends bytes that are well formed on their own.
    fn push_utf8(&mut self, b: &[u8])
        requires
            old(self).ok(),
            valid_utf8(b@),
        ensures
            final(self).ok(),
            final(self).chars() == old(self).chars() + decode_utf8(b@),
    {
        let ghost start = self.bytes@;
        let mut i: usize = 0;
        while i < b.len()
            invariant
                i <= b@.len(),
                self.bytes@ == start + b@.subrange(0, i as int),
            decreases b@.len() - i,
        {
            self.bytes.push(b[i]);
            assert(b@.subrange(0, i + 1) =~= b@.subrange(0, i as int).push(b@[i as int]));
            i = i + 1;
        }
        assert(b@.subrange(0, b@.len() as int) =~= b@);
        proof {
            lemma_utf8_concat(start, b@);
        }
    }

    pub fn push_str(&mut self, s: &str)
        requires
            old(self).ok(),
        ensures
            final(self).ok(),
            final(self).chars() == old(self).chars() + s@,
    {
        proof {
            encode_utf8_valid_utf8(s@);
            encode_utf8_decode_utf8(s@);
        }
        self.push_utf8(s.as_bytes());
    }

    pub fn push_ascii(&mut self, b: &[u8])
        requires
            old(self).ok(),
            all_ascii(b@),
        ensures
            final(self).ok(),
            final(self).chars() == old(self).chars() + ascii_chars(b@),
    {
        proof {
            lemma_ascii_utf8(b@);
        }
        self.push_utf8(b);
    }

    pub fn push_decimal(&mut self, n: u64)
        requires
            old(self).ok(),
        ensures
            final(self).ok(),
            final(self).chars() == old(self).chars() + ascii_chars(decimal(n as nat)),
    {
        let mut v: Vec<u8> = Vec::new();
        push_decimal(&mut v, n);
        assert(v@ =~= decimal(n as nat));
        proof {
            lemma_decimal_ascii(n as nat);
        }
        self.push_ascii(v.as_slice());
    }

    pub fn push_hex16(&mut self, x: u64)
        requires
            old(self).ok(),
        ensures
            final(self).ok(),
            final(self).chars() == old(self).chars() + ascii_chars(hex16(x)),
    {
        let mut v: Vec<u8> = Vec::new();
        push_hex16(&mut v, x);
        assert(v@ =~= hex16(x));
        proof {
            lemma_hex16_ascii(x);
        }
        self.push_ascii(v.as_slice());
    }

    pub fn into_string(self) -> (r: String)
        requires
            self.ok(),
        ensures
            r@ == self.chars(),
    {
        text_of(self.bytes.as_slice())
    }
}

} // verus!
