//! Warcraft Logs rankings: configuration, the OAuth (PKCE) exchange, and
//! the choice of the ranked fights of one character in a report.
use vstd::prelude::*;
use vstd::utf8::*;
use vstd::string::StringSliceAdditionalSpecFns;
use crate::text::{
    ascii_bytes,
    all_ascii, ascii_chars, lemma_after_ascii_at_char, lemma_ascii_at_char,
    lemma_trim_end_at_char, lemma_trim_start_at_char, lemma_utf8_slice, text_of, trim_end_at,
    trim_start_at, trimmed_end_len, trimmed_start_len, TextBuilder,
};
use crate::events::{find_byte, find_byte_exec, lemma_find_byte};

verus! {

broadcast use vstd::seq_lib::group_seq_properties;

/// The loopback address that the authorization page redirects to.
pub const REDIRECT_URI: &'static str = "http://127.0.0.1:48173/oauth/callback";

/// What the front end needs to start an authorization.
pub struct RankingsConfig {
    pub client_id: Option<&'static str>,
    pub redirect_uri: &'static str,
}

/// Whether `b` holds white space only (`str::trim` leaves nothing).
pub open spec fn is_blank(b: Seq<u8>) -> bool {
    trimmed_start_len(b) == b.len()
}

fn is_blank_exec(s: &str) -> (r: bool)
    ensures
        r == is_blank(s.spec_bytes()),
{
    let b = s.as_bytes();
    let t = trim_start_at(b, 0, b.len());
    assert(b@.subrange(0, b@.len() as int) =~= b@);
    t == b.len()
}

/// The configuration for the client id the application was built with, if
/// any; a blank one counts as none.
pub fn config(client_id: Option<&'static str>) -> (r: RankingsConfig)
    ensures
        r.redirect_uri@ == REDIRECT_URI@,
        r.client_id == (match client_id {
            Some(v) => if is_blank(v.spec_bytes()) {
                None
            } else {
                Some(v)
            },
            None => None,
        }),
{
    let client_id = match client_id {
        Some(v) => if is_blank_exec(v) {
            None
        } else {
            Some(v)
        },
        None => None,
    };
    RankingsConfig { client_id, redirect_uri: REDIRECT_URI }
}

/// An access token for the Warcraft Logs API.
pub struct OAuthToken {
    pub access_token: String,
    pub token_type: String,
    pub expires_in: u64,
}

/// Token type when the token response names none.
pub fn default_token_type() -> (r: String)
    ensures
        r@ == "Bearer"@,
{
    "Bearer".to_owned()
}

/// Lifetime in seconds when the token response gives none.
pub fn default_expires_in() -> (r: u64)
    ensures
        r == 3600,
{
    3600
}

/// The token from the fields of a token response, with the defaults for the
/// ones it leaves out.
pub fn token_from_response(access_token: String, token_type: Option<String>, expires_in: Option<u64>) -> (r: OAuthToken)
    ensures
        r.access_token@ == access_token@,
        r.token_type@ == (match token_type {
            Some(t) => t@,
            None => "Bearer"@,
        }),
        r.expires_in == (match expires_in {
            Some(e) => e,
            None => 3600,
        }),
{
    let token_type = match token_type {
        Some(t) => t,
        None => default_token_type(),
    };
    let expires_in = match expires_in {
        Some(e) => e,
        None => default_expires_in(),
    };
    OAuthToken { access_token, token_type, expires_in }
}

/// The percentiles of one character in one report.
#[derive(Debug, PartialEq)]
pub struct ReportPercentiles {
    pub parse_percent: Option<u32>,
    pub bracket_percent: Option<u32>,
    pub fights_ranked: usize,
    pub role: Option<String>,
    pub pending: bool,
}

/// `value`, cut after `max` characters with `…` when it is longer.
pub fn truncate(value: &str, max: usize) -> (r: String)
    ensures
        r@ == truncated(value@, max as nat),
{
    if value.unicode_len() > max {
        let mut t = TextBuilder::new();
        t.push_str(value.substring_char(0, max));
        t.push_str("\u{2026}");
        t.into_string()
    } else {
        value.to_owned()
    }
}

// ---------------------------------------------------------------------------
// Characters
// ---------------------------------------------------------------------------

/// A character as the user typed it: `Name`, `Name-Realm` or
/// `Name-Realm-Region`.
pub struct CharacterRef {
    pub name: String,
    pub realm: Option<String>,
}

pub struct CharacterView {
    pub name: Seq<char>,
    pub realm: Option<Seq<char>>,
}

impl View for CharacterRef {
    type V = CharacterView;

    open spec fn view(&self) -> CharacterView {
        CharacterView {
            name: self.name@,
            realm: match self.realm {
                Some(r) => Some(r@),
                None => None,
            },
        }
    }
}

pub open spec fn ascii_upper(x: u8) -> u8 {
    if 0x61 <= x <= 0x7a {
        (x - 0x20) as u8
    } else {
        x
    }
}

pub open spec fn ascii_lower(x: u8) -> u8 {
    if 0x41 <= x <= 0x5a {
        (x + 0x20) as u8
    } else {
        x
    }
}

/// `b[lo..hi]` is a region code, `US`, `EU`, `KR`, `TW` or `CN`, in any case.
pub open spec fn is_region(b: Seq<u8>, lo: int, hi: int) -> bool {
    hi - lo == 2 && {
        let x = ascii_upper(b[lo]);
        let y = ascii_upper(b[lo + 1]);
        ||| x == 0x55 && y == 0x53
        ||| x == 0x45 && y == 0x55
        ||| x == 0x4b && y == 0x52
        ||| x == 0x54 && y == 0x57
        ||| x == 0x43 && y == 0x4e
    }
}

/// Last index in `[lo, hi)` holding `x`, or `lo - 1`.
pub open spec fn rfind_byte(b: Seq<u8>, lo: int, hi: int, x: u8) -> int
    decreases hi - lo,
{
    if hi <= lo {
        lo - 1
    } else if b[hi - 1] == x {
        hi - 1
    } else {
        rfind_byte(b, lo, hi - 1, x)
    }
}

proof fn lemma_rfind_byte(b: Seq<u8>, lo: int, hi: int, x: u8)
    requires
        0 <= lo <= hi <= b.len(),
    ensures
        lo - 1 <= rfind_byte(b, lo, hi, x) < hi,
        rfind_byte(b, lo, hi, x) >= lo ==> b[rfind_byte(b, lo, hi, x)] == x,
    decreases hi - lo,
{
    if hi > lo && b[hi - 1] != x {
        lemma_rfind_byte(b, lo, hi - 1, x);
    }
}

fn rfind_byte_exec(b: &[u8], lo: usize, hi: usize, x: u8) -> (r: Option<usize>)
    requires
        lo <= hi <= b@.len(),
    ensures
        r matches Some(i) ==> i == rfind_byte(b@, lo as int, hi as int, x) && lo <= i < hi,
        r is None ==> rfind_byte(b@, lo as int, hi as int, x) == lo - 1,
{
    let mut i = hi;
    while i > lo
        invariant
            lo <= i <= hi <= b@.len(),
            rfind_byte(b@, lo as int, hi as int, x) == rfind_byte(b@, lo as int, i as int, x),
        decreases i,
    {
        if b[i - 1] == x {
            return Some(i - 1);
        }
        i = i - 1;
    }
    None
}

/// The spans of a typed character: the trimmed text `[s, e)`, whether a
/// trailing region part was dropped leaving nothing, and the kept text
/// `[s, pe)`.
pub open spec fn character_parts(v: Seq<u8>) -> (int, int, bool, int) {
    let s = trimmed_start_len(v);
    let e = s + trimmed_end_len(v.subrange(s, v.len() as int));
    let ld = rfind_byte(v, s, e, 0x2d);
    let last_lo = if ld >= s {
        ld + 1
    } else {
        s
    };
    let region = is_region(v, last_lo, e);
    let empty = region && ld < s;
    let pe = if region {
        ld
    } else {
        e
    };
    (s, e, empty, pe)
}

/// The character typed as `v` (UTF-8): its name is the first `-`-separated
/// part, trimmed; its realm, when there is more than one part, is the rest;
/// a trailing region code is dropped first.
pub open spec fn selected_character_of(v: Seq<u8>) -> CharacterView {
    let (s, e, empty, pe) = character_parts(v);
    if empty {
        CharacterView { name: Seq::empty(), realm: None }
    } else {
        let fd = find_byte(v, s, pe, 0x2d);
        let ns = s + trimmed_start_len(v.subrange(s, fd));
        let ne = ns + trimmed_end_len(v.subrange(ns, fd));
        CharacterView {
            name: decode_utf8(v.subrange(ns, ne)),
            realm: if fd < pe {
                Some(decode_utf8(v.subrange(fd + 1, pe)))
            } else {
                None
            },
        }
    }
}

/// The last `-`-separated part of the trimmed text `v` is a region code.
pub open spec fn ends_with_region(v: Seq<u8>) -> bool {
    let s = trimmed_start_len(v);
    let e = s + trimmed_end_len(v.subrange(s, v.len() as int));
    let ld = rfind_byte(v, s, e, 0x2d);
    is_region(
        v,
        if ld >= s {
            ld + 1
        } else {
            s
        },
        e,
    )
}

/// Typing a character with a trailing region code selects the same character
/// as typing it without: for trimmed text `v` whose last part is not already a
/// region code, `v-reg` with a region code `reg` (any letter case) gives the
/// same name and realm as `v`; hyphens inside the realm are kept.
pub proof fn law_region_tag_is_dropped(v: Seq<u8>, reg: Seq<u8>)
    requires
        trimmed_start_len(v) == 0,
        trimmed_end_len(v) == v.len(),
        !ends_with_region(v),
        reg.len() == 2,
        is_region(reg, 0, 2),
    ensures
        selected_character_of(v + seq![0x2du8] + reg) == selected_character_of(v),
{
    let n = v.len() as int;
    let w = v + seq![0x2du8] + reg;
    assert(w[n] == 0x2d);
    assert(w[n + 1] == reg[0] && w[n + 2] == reg[1]);
    assert(ascii_upper(reg[0]) != 0x2d && ascii_upper(reg[1]) != 0x2d);
    // The text with the region code is trimmed too.
    let k = crate::text::ws_prefix_len(v);
    if 0 < k <= n {
        crate::text::lemma_trimmed_start_bounds(v.subrange(k, n));
    }
    assert(k == 0 || k > n);
    if n > 0 {
        assert(w[0] == v[0]);
        if n > 1 {
            assert(w[1] == v[1]);
        }
        if n > 2 {
            assert(w[2] == v[2]);
        }
    }
    assert(crate::text::ws_prefix_len(w) == 0);
    assert(trimmed_start_len(w) == 0);
    assert(w.subrange(0, w.len() as int) =~= w);
    assert(trimmed_end_len(w) == w.len());
    assert(v.subrange(0, n) =~= v);
    // The last hyphen of `w` is the one before the region code.
    assert(rfind_byte(w, 0, n + 3, 0x2d) == rfind_byte(w, 0, n + 2, 0x2d));
    assert(rfind_byte(w, 0, n + 2, 0x2d) == rfind_byte(w, 0, n + 1, 0x2d));
    assert(rfind_byte(w, 0, n + 1, 0x2d) == n);
    assert(is_region(w, n + 1, n + 3));
    // Up to there, `w` is `v`.
    assert(crate::events::agree(v, w, n));
    crate::events::lemma_agree_find_byte(v, w, n, 0, n, 0x2d);
    let fd = find_byte(v, 0, n, 0x2d);
    lemma_find_byte(v, 0, n, 0x2d);
    assert(w.subrange(0, fd) =~= v.subrange(0, fd));
    let ns = trimmed_start_len(v.subrange(0, fd));
    crate::text::lemma_trimmed_start_bounds(v.subrange(0, fd));
    assert(w.subrange(ns, fd) =~= v.subrange(ns, fd));
    let ne = ns + trimmed_end_len(v.subrange(ns, fd));
    crate::text::lemma_trimmed_end_bounds(v.subrange(ns, fd));
    assert(w.subrange(ns, ne) =~= v.subrange(ns, ne));
    if fd < n {
        assert(w.subrange(fd + 1, n) =~= v.subrange(fd + 1, n));
    }
}

/// The region codes are exactly `US`, `EU`, `KR`, `TW` and `CN`, in any
/// letter case: typing `v-US`, `v-EU`, `v-KR`, `v-TW` or `v-CN` (for trimmed
/// text `v` whose last part is not already a region code) selects the same
/// name and realm as typing `v`.
pub proof fn law_each_region_code_is_dropped(v: Seq<u8>, reg: Seq<u8>)
    requires
        trimmed_start_len(v) == 0,
        trimmed_end_len(v) == v.len(),
        !ends_with_region(v),
        reg.len() == 2,
        ({
            let code = seq![ascii_upper(reg[0]), ascii_upper(reg[1])];
            ||| code == ascii_bytes("US"@)
            ||| code == ascii_bytes("EU"@)
            ||| code == ascii_bytes("KR"@)
            ||| code == ascii_bytes("TW"@)
            ||| code == ascii_bytes("CN"@)
        }),
    ensures
        selected_character_of(v + seq![0x2du8] + reg) == selected_character_of(v),
{
    reveal_strlit("US");
    reveal_strlit("EU");
    reveal_strlit("KR");
    reveal_strlit("TW");
    reveal_strlit("CN");
    let code = seq![ascii_upper(reg[0]), ascii_upper(reg[1])];
    assert(ascii_upper(reg[0]) == code[0] && ascii_upper(reg[1]) == code[1]);
    assert(is_region(reg, 0, 2));
    law_region_tag_is_dropped(v, reg);
}

fn is_region_exec(b: &[u8], lo: usize, hi: usize) -> (r: bool)
    requires
        lo <= hi <= b@.len(),
    ensures
        r == is_region(b@, lo as int, hi as int),
{
    if hi - lo != 2 {
        return false;
    }
    let x = upper(b[lo]);
    let y = upper(b[lo + 1]);
    (x == 0x55 && y == 0x53) || (x == 0x45 && y == 0x55) || (x == 0x4b && y == 0x52) || (x
        == 0x54 && y == 0x57) || (x == 0x43 && y == 0x4e)
}

fn upper(x: u8) -> (r: u8)
    ensures
        r == ascii_upper(x),
{
    if 0x61 <= x && x <= 0x7a {
        x - 0x20
    } else {
        x
    }
}

fn lower(x: u8) -> (r: u8)
    ensures
        r == ascii_lower(x),
{
    if 0x41 <= x && x <= 0x5a {
        x + 0x20
    } else {
        x
    }
}

/// The character a user selected by typing `value`.
#[verifier::rlimit(30)]
pub fn selected_character(value: &str) -> (r: CharacterRef)
    ensures
        r@ == selected_character_of(value.spec_bytes()),
{
    let v = value.as_bytes();
    let n = v.len();
    proof {
        encode_utf8_valid_utf8(value@);
        is_char_boundary_start_end_of_seq(v@);
        if n > 0 {
            is_char_boundary_iff_not_is_continuation_byte(v@, 0);
        }
        lemma_trim_start_at_char(v@, 0, n as int);
        assert(v@.subrange(0, n as int) =~= v@);
    }
    let s = trim_start_at(v, 0, n);
    let e = trim_end_at(v, s, n);
    proof {
        lemma_trim_end_at_char(v@, s as int, n as int);
    }
    let ld = rfind_byte_exec(v, s, e, 0x2d);
    proof {
        lemma_rfind_byte(v@, s as int, e as int, 0x2d);
    }
    let last_lo = match ld {
        Some(d) => d + 1,
        None => s,
    };
    let region = is_region_exec(v, last_lo, e);
    if region && ld.is_none() {
        return CharacterRef { name: String::new(), realm: None };
    }
    let pe = if region {
        match ld {
            Some(d) => d,
            None => e,
        }
    } else {
        e
    };
    proof {
        if region {
            lemma_ascii_at_char(v@, pe as int);
        }
    }
    let fd = find_byte_exec(v, s, pe, 0x2d);
    proof {
        lemma_find_byte(v@, s as int, pe as int, 0x2d);
        if fd < pe {
            lemma_ascii_at_char(v@, fd as int);
            lemma_after_ascii_at_char(v@, fd as int);
        }
        lemma_trim_start_at_char(v@, s as int, fd as int);
    }
    let ns = trim_start_at(v, s, fd);
    let ne = trim_end_at(v, ns, fd);
    proof {
        lemma_trim_end_at_char(v@, ns as int, fd as int);
        lemma_utf8_slice(v@, ns as int, ne as int);
    }
    let name = text_of(&v[ns..ne]);
    let realm = if fd < pe {
        proof {
            lemma_utf8_slice(v@, fd + 1, pe as int);
        }
        Some(text_of(&v[fd + 1..pe]))
    } else {
        None
    };
    CharacterRef { name, realm }
}

/// The ASCII letters and digits of `b`, lower-cased.
pub open spec fn normalized(b: Seq<u8>) -> Seq<u8>
    decreases b.len(),
{
    if b.len() == 0 {
        Seq::empty()
    } else {
        let x = b.last();
        let rest = normalized(b.drop_last());
        if (0x30 <= x <= 0x39) || (0x41 <= x <= 0x5a) || (0x61 <= x <= 0x7a) {
            rest.push(ascii_lower(x))
        } else {
            rest
        }
    }
}

proof fn lemma_normalized_ascii(b: Seq<u8>)
    ensures
        all_ascii(normalized(b)),
    decreases b.len(),
{
    if b.len() > 0 {
        lemma_normalized_ascii(b.drop_last());
    }
}

/// The ASCII letters and digits of `value`, lower-cased; any other
/// character (none of whose UTF-8 bytes is such a letter or digit) is left out.
pub fn normalize(value: &str) -> (r: String)
    ensures
        r@ == ascii_chars(normalized(value.spec_bytes())),
{
    let b = value.as_bytes();
    let mut out: Vec<u8> = Vec::new();
    let mut i: usize = 0;
    while i < b.len()
        invariant
            i <= b@.len(),
            out@ == normalized(b@.subrange(0, i as int)),
        decreases b@.len() - i,
    {
        let x = b[i];
        assert(b@.subrange(0, i + 1).drop_last() =~= b@.subrange(0, i as int));
        if (0x30 <= x && x <= 0x39) || (0x41 <= x && x <= 0x5a) || (0x61 <= x && x <= 0x7a) {
            out.push(lower(x));
        }
        i = i + 1;
    }
    assert(b@.subrange(0, b@.len() as int) =~= b@);
    proof {
        lemma_normalized_ascii(b@);
    }
    crate::text::ascii_string(out.as_slice())
}

// ---------------------------------------------------------------------------
// Ranked fights
// ---------------------------------------------------------------------------

/// One character row of a ranked fight: its name, its realm (the server's
/// name, else its slug, else `serverName`, when that entry is text) and what
/// the caller keeps of its scores.
pub struct RankedCharacter<S> {
    pub name: Option<String>,
    pub realm: Option<String>,
    pub scores: S,
}

/// The realm a ranked row names: of `server.name`, `server.slug` and
/// `serverName`, the first that is present, when it holds text. Each argument
/// is `None` where the row lacks the entry, `Some(None)` where the entry is
/// not text.
pub open spec fn realm_choice(
    server_name: Option<Option<Seq<char>>>,
    server_slug: Option<Option<Seq<char>>>,
    server_name_field: Option<Option<Seq<char>>>,
) -> Option<Seq<char>> {
    match server_name {
        Some(x) => x,
        None => match server_slug {
            Some(x) => x,
            None => match server_name_field {
                Some(x) => x,
                None => None,
            },
        },
    }
}

pub open spec fn text_entry(e: Option<Option<String>>) -> Option<Option<Seq<char>>> {
    match e {
        Some(Some(t)) => Some(Some(t@)),
        Some(None) => Some(None),
        None => None,
    }
}

/// The realm of a ranked row from its three server entries (see `realm_choice`).
pub fn row_realm(
    server_name: Option<Option<String>>,
    server_slug: Option<Option<String>>,
    server_name_field: Option<Option<String>>,
) -> (r: Option<String>)
    ensures
        match r {
            Some(t) => realm_choice(text_entry(server_name), text_entry(server_slug), text_entry(server_name_field)) == Some(t@),
            None => realm_choice(text_entry(server_name), text_entry(server_slug), text_entry(server_name_field)) is None,
        },
{
    match server_name {
        Some(x) => x,
        None => match server_slug {
            Some(x) => x,
            None => match server_name_field {
                Some(x) => x,
                None => None,
            },
        },
    }
}

/// The character rows of one fight by role, `None` where the report has no
/// list for the role.
pub struct FightRankings<S> {
    pub dps: Option<Vec<RankedCharacter<S>>>,
    pub tanks: Option<Vec<RankedCharacter<S>>>,
    pub healers: Option<Vec<RankedCharacter<S>>>,
}

/// Which ranking a character is looked up in.
#[derive(Clone, Copy, PartialEq, Eq, Debug)]
pub enum MetricRole {
    Damage,
    Healing,
}

pub open spec fn opt_rows<S>(o: Option<Vec<RankedCharacter<S>>>) -> Seq<RankedCharacter<S>> {
    match o {
        Some(v) => v@,
        None => Seq::empty(),
    }
}

/// Rows of one fight for a role: damage dealers then tanks, or healers.
pub open spec fn fight_rows<S>(f: FightRankings<S>, preferred: MetricRole) -> Seq<RankedCharacter<S>> {
    match preferred {
        MetricRole::Damage => opt_rows(f.dps) + opt_rows(f.tanks),
        MetricRole::Healing => opt_rows(f.healers),
    }
}

/// Rows of all fights for a role, fight by fight.
pub open spec fn all_rows<S>(fights: Seq<FightRankings<S>>, preferred: MetricRole) -> Seq<RankedCharacter<S>>
    decreases fights.len(),
{
    if fights.len() == 0 {
        Seq::empty()
    } else {
        all_rows(fights.drop_last(), preferred) + fight_rows(fights.last(), preferred)
    }
}

pub open spec fn deref_rows<'a, S>(v: Seq<&'a RankedCharacter<S>>) -> Seq<RankedCharacter<S>> {
    v.map_values(|r: &RankedCharacter<S>| *r)
}

fn push_rows<'a, S>(out: &mut Vec<&'a RankedCharacter<S>>, rows: &'a Option<Vec<RankedCharacter<S>>>)
    ensures
        deref_rows(final(out)@) == deref_rows(old(out)@) + opt_rows(*rows),
{
    match rows {
        None => {
            assert(deref_rows(out@) =~= deref_rows(out@) + Seq::<RankedCharacter<S>>::empty());
        },
        Some(v) => {
            let ghost start = deref_rows(out@);
            let mut i: usize = 0;
            while i < v.len()
                invariant
                    i <= v@.len(),
                    deref_rows(out@) == start + v@.subrange(0, i as int),
                decreases v@.len() - i,
            {
                let ghost before = out@;
                out.push(&v[i]);
                assert(out@ =~= before.push(&v@[i as int]));
                assert(deref_rows(out@) =~= deref_rows(before).push(v@[i as int]));
                assert(v@.subrange(0, i + 1) =~= v@.subrange(0, i as int).push(v@[i as int]));
                assert(deref_rows(out@) =~= start + v@.subrange(0, i + 1));
                i = i + 1;
            }
            assert(v@.subrange(0, v@.len() as int) =~= v@);
        },
    }
}

/// The rows of the ranking for `preferred`, fight by fight; none without data.
pub fn ranking_rows<'a, S>(payload: Option<&'a Vec<FightRankings<S>>>, preferred: MetricRole) -> (r: Vec<&'a RankedCharacter<S>>)
    ensures
        deref_rows(r@) == match payload {
            Some(f) => all_rows(f@, preferred),
            None => Seq::empty(),
        },
{
    let mut out: Vec<&'a RankedCharacter<S>> = Vec::new();
    assert(deref_rows(out@) =~= Seq::<RankedCharacter<S>>::empty());
    match payload {
        None => out,
        Some(fights) => {
            let mut i: usize = 0;
            while i < fights.len()
                invariant
                    i <= fights@.len(),
                    deref_rows(out@) == all_rows(fights@.subrange(0, i as int), preferred),
                decreases fights@.len() - i,
            {
                let f = &fights[i];
                match preferred {
                    MetricRole::Damage => {
                        push_rows(&mut out, &f.dps);
                        push_rows(&mut out, &f.tanks);
                    },
                    MetricRole::Healing => {
                        push_rows(&mut out, &f.healers);
                    },
                }
                assert(fights@.subrange(0, i + 1).drop_last() =~= fights@.subrange(0, i as int));
                i = i + 1;
            }
            assert(fights@.subrange(0, fights@.len() as int) =~= fights@);
            out
        },
    }
}

/// ASCII case-insensitive equality of two byte strings.
pub open spec fn eq_ignore_ascii_case(a: Seq<u8>, b: Seq<u8>) -> bool {
    a.len() == b.len() && forall|i: int| 0 <= i < a.len() ==> ascii_lower(#[trigger] a[i]) == ascii_lower(b[i])
}

fn eq_ignore_ascii_case_exec(a: &str, b: &str) -> (r: bool)
    ensures
        r == eq_ignore_ascii_case(a.spec_bytes(), b.spec_bytes()),
{
    let x = a.as_bytes();
    let y = b.as_bytes();
    if x.len() != y.len() {
        return false;
    }
    let mut i: usize = 0;
    while i < x.len()
        invariant
            x@.len() == y@.len(),
            x@ == a.spec_bytes(),
            y@ == b.spec_bytes(),
            i <= x@.len(),
            forall|j: int| 0 <= j < i ==> ascii_lower(#[trigger] x@[j]) == ascii_lower(y@[j]),
        decreases x@.len() - i,
    {
        if lower(x[i]) != lower(y[i]) {
            return false;
        }
        i = i + 1;
    }
    true
}

/// The row is the selected character: same name up to ASCII case and, when a
/// realm was given and the row names one, the same realm once normalized.
pub open spec fn matches_character<S>(row: RankedCharacter<S>, selected: CharacterView) -> bool {
    match row.name {
        None => false,
        Some(n) => eq_ignore_ascii_case(encode_utf8(n@), encode_utf8(selected.name)) && match selected.realm {
            None => true,
            Some(expected) => match row.realm {
                None => true,
                Some(actual) => normalized(encode_utf8(actual@)) == normalized(encode_utf8(expected)),
            },
        },
    }
}

pub fn character_matches<S>(row: &RankedCharacter<S>, selected: &CharacterRef) -> (r: bool)
    ensures
        r == matches_character(*row, selected@),
{
    let name = match &row.name {
        None => return false,
        Some(n) => n,
    };
    if !eq_ignore_ascii_case_exec(name.as_str(), selected.name.as_str()) {
        return false;
    }
    let expected = match &selected.realm {
        None => return true,
        Some(e) => e,
    };
    match &row.realm {
        None => true,
        Some(actual) => {
            let a = normalize(actual.as_str());
            let e = normalize(expected.as_str());
            proof {
                lemma_normalized_ascii(encode_utf8(actual@));
                lemma_normalized_ascii(encode_utf8(expected@));
                crate::text::lemma_ascii_chars_injective(normalized(encode_utf8(actual@)), normalized(encode_utf8(expected@)));
            }
            a == e
        },
    }
}

/// The rows of the selected character in a ranking.
pub open spec fn matching_rows<S>(rows: Seq<RankedCharacter<S>>, selected: CharacterView) -> Seq<RankedCharacter<S>> {
    rows.filter(|r: RankedCharacter<S>| matches_character(r, selected))
}

fn keep_matching<'a, S>(rows: Vec<&'a RankedCharacter<S>>, selected: &CharacterRef) -> (r: Vec<&'a RankedCharacter<S>>)
    ensures
        deref_rows(r@) == matching_rows(deref_rows(rows@), selected@),
{
    let mut out: Vec<&'a RankedCharacter<S>> = Vec::new();
    let mut i: usize = 0;
    let ghost all = deref_rows(rows@);
    assert(deref_rows(out@) =~= matching_rows(all.subrange(0, 0), selected@));
    while i < rows.len()
        invariant
            i <= rows@.len(),
            all == deref_rows(rows@),
            deref_rows(out@) == matching_rows(all.subrange(0, i as int), selected@),
        decreases rows@.len() - i,
    {
        let row = rows[i];
        let keep = character_matches(row, selected);
        let ghost before = deref_rows(out@);
        if keep {
            out.push(row);
        }
        proof {
            let p = |r: RankedCharacter<S>| matches_character(r, selected@);
            assert(all.subrange(0, i + 1).drop_last() =~= all.subrange(0, i as int));
            assert(all.subrange(0, i + 1).last() == *row);
            reveal_with_fuel(Seq::filter, 1);
            if keep {
                assert(deref_rows(out@) =~= before.push(*row));
            } else {
                assert(deref_rows(out@) =~= before);
            }
        }
        i = i + 1;
    }
    assert(all.subrange(0, rows@.len() as int) =~= all);
    out
}

/// The ranked rows of a character in a report: its healing rows when it has
/// any, else its damage and tank rows; none when no name was given.
pub open spec fn selected_rows<S>(
    dps: Option<Seq<FightRankings<S>>>,
    hps: Option<Seq<FightRankings<S>>>,
    selected: CharacterView,
) -> (Seq<RankedCharacter<S>>, MetricRole) {
    let healing = matching_rows(
        match hps {
            Some(f) => all_rows(f, MetricRole::Healing),
            None => Seq::empty(),
        },
        selected,
    );
    if selected.name.len() == 0 {
        (Seq::empty(), MetricRole::Damage)
    } else if healing.len() == 0 {
        (
            matching_rows(
                match dps {
                    Some(f) => all_rows(f, MetricRole::Damage),
                    None => Seq::empty(),
                },
                selected,
            ),
            MetricRole::Damage,
        )
    } else {
        (healing, MetricRole::Healing)
    }
}

pub open spec fn fights_view<S>(o: Option<&Vec<FightRankings<S>>>) -> Option<Seq<FightRankings<S>>> {
    match o {
        Some(v) => Some(v@),
        None => None,
    }
}

/// The rows of the character typed as `character` (see `selected_rows`), and
/// the ranking they come from.
pub fn select_ranked_rows<'a, S>(
    dps: Option<&'a Vec<FightRankings<S>>>,
    hps: Option<&'a Vec<FightRankings<S>>>,
    character: &str,
) -> (r: (Vec<&'a RankedCharacter<S>>, MetricRole))
    ensures
        (deref_rows(r.0@), r.1) == selected_rows(
            fights_view(dps),
            fights_view(hps),
            selected_character_of(character.spec_bytes()),
        ),
{
    let selected = selected_character(character);
    if selected.name.as_str().is_empty() {
        let out: Vec<&'a RankedCharacter<S>> = Vec::new();
        assert(deref_rows(out@) =~= Seq::<RankedCharacter<S>>::empty());
        return (out, MetricRole::Damage);
    }
    let healing = keep_matching(ranking_rows(hps, MetricRole::Healing), &selected);
    if healing.len() == 0 {
        (keep_matching(ranking_rows(dps, MetricRole::Damage), &selected), MetricRole::Damage)
    } else {
        (healing, MetricRole::Healing)
    }
}

/// `damage` or `healing`.
pub open spec fn role_name(role: MetricRole) -> Seq<char> {
    match role {
        MetricRole::Damage => "damage"@,
        MetricRole::Healing => "healing"@,
    }
}

/// The percentiles of a character from its mean parse and bracket
/// percentiles over `fights_ranked` rows of the ranking for `role`: the role
/// is named only when some fight was ranked, and the report is pending while
/// neither percentile is known.
pub fn report_percentiles(
    parse_percent: Option<u32>,
    bracket_percent: Option<u32>,
    fights_ranked: usize,
    role: MetricRole,
) -> (r: ReportPercentiles)
    ensures
        r.parse_percent == parse_percent,
        r.bracket_percent == bracket_percent,
        r.fights_ranked == fights_ranked,
        match r.role {
            Some(t) => fights_ranked > 0 && t@ == role_name(role),
            None => fights_ranked == 0,
        },
        r.pending == (parse_percent is None && bracket_percent is None),
{
    let role = if fights_ranked > 0 {
        Some(
            match role {
                MetricRole::Damage => "damage".to_owned(),
                MetricRole::Healing => "healing".to_owned(),
            },
        )
    } else {
        None
    };
    ReportPercentiles {
        parse_percent,
        bracket_percent,
        fights_ranked,
        role,
        pending: parse_percent.is_none() && bracket_percent.is_none(),
    }
}

// ---------------------------------------------------------------------------
// Requests and responses
// ---------------------------------------------------------------------------

/// Why a rankings operation failed.
#[derive(Debug, PartialEq)]
pub enum RankingsError {
    /// No API client id was given.
    MissingClientId,
    /// No access token: rankings are not connected.
    NotConnected,
    /// The report code is empty or not made of ASCII letters and digits.
    InvalidReportCode,
    /// The API refused the token (HTTP 401 or 403).
    AuthorizationExpired,
    /// The rankings request failed with this status; the start of the body.
    RequestFailed { status: u16, detail: String },
    /// The query returned errors; their messages joined by `; `.
    QueryFailed(String),
    /// The response holds no report for this account.
    ReportUnavailable,
    /// The token request failed with this status; the start of the body.
    TokenRequestFailed { status: u16, detail: String },
}

/// Bounds of `v` once leading and trailing white space is removed.
pub open spec fn trim_bounds(v: Seq<u8>) -> (int, int) {
    let s = trimmed_start_len(v);
    (s, s + trimmed_end_len(v.subrange(s, v.len() as int)))
}

/// `str::trim`, on the UTF-8 bytes.
pub open spec fn trimmed(v: Seq<u8>) -> Seq<u8> {
    v.subrange(trim_bounds(v).0, trim_bounds(v).1)
}

/// `value` without leading and trailing white space.
pub fn trim_text(value: &str) -> (r: String)
    ensures
        r@ == decode_utf8(trimmed(value.spec_bytes())),
        valid_utf8(trimmed(value.spec_bytes())),
{
    let v = value.as_bytes();
    let n = v.len();
    proof {
        encode_utf8_valid_utf8(value@);
        is_char_boundary_start_end_of_seq(v@);
        if n > 0 {
            is_char_boundary_iff_not_is_continuation_byte(v@, 0);
        }
        lemma_trim_start_at_char(v@, 0, n as int);
        assert(v@.subrange(0, n as int) =~= v@);
    }
    let s = trim_start_at(v, 0, n);
    let e = trim_end_at(v, s, n);
    proof {
        lemma_trim_end_at_char(v@, s as int, n as int);
        lemma_utf8_slice(v@, s as int, e as int);
    }
    text_of(&v[s..e])
}

/// The client id to authorize with: `client_id` trimmed, which must not be empty.
pub fn authorization_client_id(client_id: &str) -> (r: Result<String, RankingsError>)
    ensures
        trimmed(client_id.spec_bytes()).len() == 0 ==> r == Err::<String, RankingsError>(
            RankingsError::MissingClientId,
        ),
        trimmed(client_id.spec_bytes()).len() > 0 ==> (r matches Ok(c) && c@ == decode_utf8(
            trimmed(client_id.spec_bytes()),
        )),
{
    let c = trim_text(client_id);
    if c.as_str().is_empty() {
        proof {
            vstd::utf8::decode_utf8_encode_utf8(trimmed(client_id.spec_bytes()));
        }
        Err(RankingsError::MissingClientId)
    } else {
        proof {
            if trimmed(client_id.spec_bytes()).len() == 0 {
                assert(decode_utf8(trimmed(client_id.spec_bytes())).len() == 0);
            }
        }
        Ok(c)
    }
}

pub open spec fn is_ascii_alnum(x: u8) -> bool {
    (0x30 <= x <= 0x39) || (0x41 <= x <= 0x5a) || (0x61 <= x <= 0x7a)
}

/// A report code: at least one character, all ASCII letters or digits.
pub open spec fn is_report_code(b: Seq<u8>) -> bool {
    b.len() > 0 && forall|i: int| 0 <= i < b.len() ==> is_ascii_alnum(#[trigger] b[i])
}

/// The access token and report code of a rankings request, both trimmed: the
/// token must not be empty, the code must be a report code.
pub fn validate_report_request(access_token: &str, report_code: &str) -> (r: Result<(String, String), RankingsError>)
    ensures
        trimmed(access_token.spec_bytes()).len() == 0 ==> r == Err::<(String, String), RankingsError>(
            RankingsError::NotConnected,
        ),
        trimmed(access_token.spec_bytes()).len() > 0 && !is_report_code(
            trimmed(report_code.spec_bytes()),
        ) ==> r == Err::<(String, String), RankingsError>(RankingsError::InvalidReportCode),
        trimmed(access_token.spec_bytes()).len() > 0 && is_report_code(
            trimmed(report_code.spec_bytes()),
        ) ==> (r matches Ok((t, c)) && t@ == decode_utf8(trimmed(access_token.spec_bytes())) && c@
            == decode_utf8(trimmed(report_code.spec_bytes()))),
{
    let token = trim_text(access_token);
    let code = trim_text(report_code);
    proof {
        vstd::utf8::decode_utf8_encode_utf8(trimmed(access_token.spec_bytes()));
        vstd::utf8::decode_utf8_encode_utf8(trimmed(report_code.spec_bytes()));
    }
    if token.as_str().is_empty() {
        return Err(RankingsError::NotConnected);
    }
    let b = code.as_str().as_bytes();
    if b.len() == 0 {
        return Err(RankingsError::InvalidReportCode);
    }
    let mut i: usize = 0;
    while i < b.len()
        invariant
            i <= b@.len(),
            b@ == trimmed(report_code.spec_bytes()),
            trimmed(access_token.spec_bytes()).len() > 0,
            forall|j: int| 0 <= j < i ==> is_ascii_alnum(#[trigger] b@[j]),
        decreases b@.len() - i,
    {
        let x = b[i];
        if !((0x30 <= x && x <= 0x39) || (0x41 <= x && x <= 0x5a) || (0x61 <= x && x <= 0x7a)) {
            return Err(RankingsError::InvalidReportCode);
        }
        i = i + 1;
    }
    Ok((token, code))
}

/// How a rankings response status is handled: 401 and 403 mean the token
/// expired; any other status of 400 or more is a failure reported with the
/// first 300 characters of the body.
pub fn check_rankings_status(status: u16, text: &str) -> (r: Result<(), RankingsError>)
    ensures
        (status == 401 || status == 403) ==> r == Err::<(), RankingsError>(
            RankingsError::AuthorizationExpired,
        ),
        (status != 401 && status != 403 && status >= 400) ==> (r matches Err(
            RankingsError::RequestFailed { status: s, detail },
        ) && s == status && detail@ == truncated(text@, 300)),
        status < 400 ==> r is Ok,
{
    if status == 401 || status == 403 {
        return Err(RankingsError::AuthorizationExpired);
    }
    if status >= 400 {
        return Err(RankingsError::RequestFailed { status, detail: truncate(text, 300) });
    }
    Ok(())
}

/// How a token response status is handled: any status of 400 or more is a
/// failure reported with the first 300 characters of the body.
pub fn check_token_status(status: u16, text: &str) -> (r: Result<(), RankingsError>)
    ensures
        status >= 400 ==> (r matches Err(RankingsError::TokenRequestFailed { status: s, detail })
            && s == status && detail@ == truncated(text@, 300)),
        status < 400 ==> r is Ok,
{
    if status >= 400 {
        return Err(RankingsError::TokenRequestFailed { status, detail: truncate(text, 300) });
    }
    Ok(())
}

/// `value` cut after `max` characters with `…` when longer.
pub open spec fn truncated(value: Seq<char>, max: nat) -> Seq<char> {
    if value.len() > max {
        value.subrange(0, max as int) + "\u{2026}"@
    } else {
        value
    }
}

/// The rankings of a report, as the two ranking lists.
pub struct ReportRankings<S> {
    pub dps: Option<Vec<FightRankings<S>>>,
    pub hps: Option<Vec<FightRankings<S>>>,
}

/// A rankings response: its `errors` list, if any (each entry's `message`
/// when that is text), and the report, if any.
pub struct RankingsResponse<S> {
    pub errors: Option<Vec<Option<String>>>,
    pub report: Option<ReportRankings<S>>,
}

/// The messages of `items` that are present, joined by `; `.
pub open spec fn joined_messages(items: Seq<Option<String>>) -> Seq<char>
    decreases items.len(),
{
    if items.len() == 0 {
        Seq::empty()
    } else {
        let rest = joined_messages(items.drop_last());
        match items.last() {
            None => rest,
            Some(m) => if rest.len() == 0 && !has_message(items.drop_last()) {
                m@
            } else {
                rest + "; "@ + m@
            },
        }
    }
}

/// Some item carries a message.
pub open spec fn has_message(items: Seq<Option<String>>) -> bool {
    exists|i: int| 0 <= i < items.len() && (#[trigger] items[i]) is Some
}

/// The report of a rankings response: a response with an errors list fails
/// with its messages; one without a report fails as unavailable.
pub fn report_rankings<S>(response: &RankingsResponse<S>) -> (r: Result<&ReportRankings<S>, RankingsError>)
    ensures
        match response.errors {
            Some(items) => r matches Err(RankingsError::QueryFailed(m)) && m@ == joined_messages(
                items@,
            ),
            None => match response.report {
                Some(rep) => r matches Ok(x) && *x == rep,
                None => r == Err::<&ReportRankings<S>, RankingsError>(
                    RankingsError::ReportUnavailable,
                ),
            },
        },
{
    match &response.errors {
        Some(items) => {
            let mut t = TextBuilder::new();
            let mut any = false;
            let mut i: usize = 0;
            while i < items.len()
                invariant
                    t.ok(),
                    i <= items@.len(),
                    t.chars() == joined_messages(items@.subrange(0, i as int)),
                    any == has_message(items@.subrange(0, i as int)),
                decreases items@.len() - i,
            {
                let ghost prev = items@.subrange(0, i as int);
                assert(items@.subrange(0, i + 1).drop_last() =~= prev);
                match &items[i] {
                    None => {
                        proof {
                            if has_message(items@.subrange(0, i + 1)) {
                                let k = choose|k: int| 0 <= k < i + 1 && (#[trigger] items@.subrange(0, i + 1)[k]) is Some;
                                assert(prev[k] == items@.subrange(0, i + 1)[k]);
                            }
                        }
                    },
                    Some(m) => {
                        if any {
                            t.push_str("; ");
                        }
                        t.push_str(m.as_str());
                        proof {
                            assert(items@.subrange(0, i + 1)[i as int] is Some);
                            if !any {
                                assert(joined_messages(prev).len() == 0) by {
                                    lemma_no_message_empty(prev);
                                }
                            }
                        }
                        any = true;
                    },
                }
                i = i + 1;
            }
            assert(items@.subrange(0, items@.len() as int) =~= items@);
            Err(RankingsError::QueryFailed(t.into_string()))
        },
        None => match &response.report {
            Some(rep) => Ok(rep),
            None => Err(RankingsError::ReportUnavailable),
        },
    }
}

proof fn lemma_no_message_empty(items: Seq<Option<String>>)
    requires
        !has_message(items),
    ensures
        joined_messages(items).len() == 0,
    decreases items.len(),
{
    if items.len() > 0 {
        let prev = items.drop_last();
        assert(!has_message(prev)) by {
            if has_message(prev) {
                let k = choose|k: int| 0 <= k < prev.len() && (#[trigger] prev[k]) is Some;
                assert(items[k] == prev[k]);
            }
        }
        assert(items[items.len() - 1] is None);
        lemma_no_message_empty(prev);
    }
}

} // verus!
