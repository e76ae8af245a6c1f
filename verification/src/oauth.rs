//! The Warcraft Logs OAuth flow with PKCE: the authorization address, the
//! code challenge, the loopback callback and the token request.
use vstd::prelude::*;
use vstd::utf8::*;
use vstd::string::StringSliceAdditionalSpecFns;
use crate::text::{same_text, all_ascii, ascii_chars, decimal, TextBuilder};
use crate::rankings::{is_ascii_alnum, REDIRECT_URI};
use base64::Engine;
use rand::Rng;
use rand::SeedableRng;
use sha2::Digest;

verus! {

broadcast use vstd::seq_lib::group_seq_properties;

pub const BASE_URL: &'static str = "https://www.warcraftlogs.com";

// ---------------------------------------------------------------------------
// Form encoding
// ---------------------------------------------------------------------------

/// Bytes that form encoding leaves as they are: ASCII letters, digits and `*-._`.
pub open spec fn form_unchanged(x: u8) -> bool {
    x == 0x2a || x == 0x2d || x == 0x2e || x == 0x5f || is_ascii_alnum(x)
}

pub open spec fn hex_upper_digit(v: int) -> char {
    if v < 10 {
        (0x30 + v) as char
    } else {
        (0x41 + v - 10) as char
    }
}

/// `application/x-www-form-urlencoded` form of one byte.
pub open spec fn form_byte(x: u8) -> Seq<char> {
    if form_unchanged(x) {
        seq![x as char]
    } else if x == 0x20 {
        seq!['+']
    } else {
        seq!['%', hex_upper_digit((x / 16) as int), hex_upper_digit((x % 16) as int)]
    }
}

/// `application/x-www-form-urlencoded` form of a byte string.
pub open spec fn form_encoded(b: Seq<u8>) -> Seq<char>
    decreases b.len(),
{
    if b.len() == 0 {
        Seq::empty()
    } else {
        form_encoded(b.drop_last()) + form_byte(b.last())
    }
}

/// Calls `url::form_urlencoded::byte_serialize` on the UTF-8 bytes of `s` and
/// joins the pieces it yields. Its source keeps ASCII letters, digits and
/// `*-._`, writes a space as `+` and every other byte as `%` with two
/// upper-case hexadecimal digits, byte by byte.
#[verifier::external_body]
fn form_encode(s: &str) -> (r: String)
    ensures
        r@ == form_encoded(s.spec_bytes()),
{
    url::form_urlencoded::byte_serialize(s.as_bytes()).collect()
}

/// `name=value` pairs, each part form-encoded, joined by `&`.
pub open spec fn form_pairs(pairs: Seq<(Seq<char>, Seq<char>)>) -> Seq<char>
    decreases pairs.len(),
{
    if pairs.len() == 0 {
        Seq::empty()
    } else {
        let p = pairs.last();
        let one = form_encoded(encode_utf8(p.0)) + seq!['='] + form_encoded(encode_utf8(p.1));
        if pairs.len() == 1 {
            one
        } else {
            form_pairs(pairs.drop_last()) + seq!['&'] + one
        }
    }
}

pub open spec fn pairs_view(pairs: Seq<(&str, &str)>) -> Seq<(Seq<char>, Seq<char>)> {
    pairs.map_values(|p: (&str, &str)| (p.0@, p.1@))
}

/// The pairs in `application/x-www-form-urlencoded` syntax, as
/// `url::form_urlencoded::Serializer` writes them.
pub fn form_urlencode(pairs: &Vec<(&str, &str)>) -> (r: String)
    ensures
        r@ == form_pairs(pairs_view(pairs@)),
{
    let mut t = TextBuilder::new();
    let mut i: usize = 0;
    let ghost all = pairs_view(pairs@);
    while i < pairs.len()
        invariant
            t.ok(),
            i <= pairs@.len(),
            all == pairs_view(pairs@),
            t.chars() == form_pairs(all.subrange(0, i as int)),
        decreases pairs@.len() - i,
    {
        let (k, v) = pairs[i];
        if i > 0 {
            t.push_str("&");
        }
        let ek = form_encode(k);
        let ev = form_encode(v);
        t.push_str(ek.as_str());
        t.push_str("=");
        t.push_str(ev.as_str());
        proof {
            reveal_strlit("&");
            reveal_strlit("=");
            assert(all.subrange(0, i + 1).drop_last() =~= all.subrange(0, i as int));
            assert(all.subrange(0, i + 1).last() == (k@, v@));
        }
        i = i + 1;
    }
    assert(all.subrange(0, all.len() as int) =~= all);
    t.into_string()
}

/// The consent page of Warcraft Logs for this client, asking for a code
/// sent back to the loopback address with PKCE (S256).
pub open spec fn authorization_url_of(client_id: Seq<char>, state: Seq<char>, challenge: Seq<char>) -> Seq<char> {
    BASE_URL@ + "/oauth/authorize?"@ + form_pairs(
        seq![
            ("client_id"@, client_id),
            ("redirect_uri"@, REDIRECT_URI@),
            ("response_type"@, "code"@),
            ("state"@, state),
            ("code_challenge"@, challenge),
            ("code_challenge_method"@, "S256"@),
        ],
    )
}

pub fn authorization_url(client_id: &str, state: &str, challenge: &str) -> (r: String)
    ensures
        r@ == authorization_url_of(client_id@, state@, challenge@),
{
    let mut pairs: Vec<(&str, &str)> = Vec::new();
    pairs.push(("client_id", client_id));
    pairs.push(("redirect_uri", REDIRECT_URI));
    pairs.push(("response_type", "code"));
    pairs.push(("state", state));
    pairs.push(("code_challenge", challenge));
    pairs.push(("code_challenge_method", "S256"));
    let query = form_urlencode(&pairs);
    assert(pairs_view(pairs@) =~= seq![
        ("client_id"@, client_id@),
        ("redirect_uri"@, REDIRECT_URI@),
        ("response_type"@, "code"@),
        ("state"@, state@),
        ("code_challenge"@, challenge@),
        ("code_challenge_method"@, "S256"@),
    ]);
    let mut t = TextBuilder::new();
    t.push_str(BASE_URL);
    t.push_str("/oauth/authorize?");
    t.push_str(query.as_str());
    t.into_string()
}

/// The body of the token request that trades the code for an access token.
pub open spec fn token_request_body_of(client_id: Seq<char>, verifier: Seq<char>, code: Seq<char>) -> Seq<char> {
    form_pairs(
        seq![
            ("client_id"@, client_id),
            ("redirect_uri"@, REDIRECT_URI@),
            ("grant_type"@, "authorization_code"@),
            ("code"@, code),
            ("code_verifier"@, verifier),
        ],
    )
}

pub fn token_request_body(client_id: &str, verifier: &str, code: &str) -> (r: String)
    ensures
        r@ == token_request_body_of(client_id@, verifier@, code@),
{
    let mut pairs: Vec<(&str, &str)> = Vec::new();
    pairs.push(("client_id", client_id));
    pairs.push(("redirect_uri", REDIRECT_URI));
    pairs.push(("grant_type", "authorization_code"));
    pairs.push(("code", code));
    pairs.push(("code_verifier", verifier));
    assert(pairs_view(pairs@) =~= seq![
        ("client_id"@, client_id@),
        ("redirect_uri"@, REDIRECT_URI@),
        ("grant_type"@, "authorization_code"@),
        ("code"@, code@),
        ("code_verifier"@, verifier@),
    ]);
    form_urlencode(&pairs)
}


// ---------------------------------------------------------------------------
// PKCE
// ---------------------------------------------------------------------------

/// The SHA-256 digest of `data`.
pub uninterp spec fn sha256_of(data: Seq<u8>) -> Seq<u8>;

/// Calls `sha2::Sha256::digest` on `data`. The digest depends on `data`
/// alone and is named `sha256_of` here; it is 32 bytes long.
#[verifier::external_body]
fn sha256(data: &[u8]) -> (r: Vec<u8>)
    ensures
        r@ == sha256_of(data@),
        r@.len() == 32,
{
    sha2::Sha256::digest(data).to_vec()
}

/// Character `v < 64` of the URL-safe base64 alphabet `A-Z a-z 0-9 - _`.
pub open spec fn base64_url_char(v: int) -> char {
    if v < 26 {
        (0x41 + v) as char
    } else if v < 52 {
        (0x61 + v - 26) as char
    } else if v < 62 {
        (0x30 + v - 52) as char
    } else if v == 62 {
        '-'
    } else {
        '_'
    }
}

/// Unpadded base64 with the URL-safe alphabet: each three bytes become four
/// characters of six bits each, most significant first; one or two bytes
/// left at the end become two or three characters.
pub open spec fn base64_url_nopad(b: Seq<u8>) -> Seq<char>
    decreases b.len(),
{
    if b.len() == 0 {
        Seq::empty()
    } else if b.len() == 1 {
        seq![base64_url_char(b[0] as int / 4), base64_url_char((b[0] as int % 4) * 16)]
    } else if b.len() == 2 {
        seq![
            base64_url_char(b[0] as int / 4),
            base64_url_char((b[0] as int % 4) * 16 + b[1] as int / 16),
            base64_url_char((b[1] as int % 16) * 4),
        ]
    } else {
        seq![
            base64_url_char(b[0] as int / 4),
            base64_url_char((b[0] as int % 4) * 16 + b[1] as int / 16),
            base64_url_char((b[1] as int % 16) * 4 + b[2] as int / 64),
            base64_url_char(b[2] as int % 64),
        ] + base64_url_nopad(b.subrange(3, b.len() as int))
    }
}

/// Calls `encode` of base64's `URL_SAFE_NO_PAD` engine: the URL-safe
/// alphabet and no padding. It computes the output length with checked
/// arithmetic and panics on overflow, which the bound on the length rules out.
#[verifier::external_body]
fn base64_url(data: &[u8]) -> (r: String)
    requires
        data@.len() / 3 * 4 + 3 <= usize::MAX,
    ensures
        r@ == base64_url_nopad(data@),
{
    base64::engine::general_purpose::URL_SAFE_NO_PAD.encode(data)
}

/// The PKCE (S256) code challenge made from the digest of a code verifier:
/// the digest in unpadded URL-safe base64.
pub fn challenge_of_digest(digest: &[u8]) -> (r: String)
    requires
        digest@.len() / 3 * 4 + 3 <= usize::MAX,
    ensures
        r@ == base64_url_nopad(digest@),
{
    base64_url(digest)
}

/// The PKCE (S256) code challenge of a code verifier: the SHA-256 digest of
/// its UTF-8 bytes, in unpadded URL-safe base64.
pub fn pkce_challenge(verifier: &str) -> (r: String)
    ensures
        r@ == base64_url_nopad(sha256_of(verifier.spec_bytes())),
{
    let digest = sha256(verifier.as_bytes());
    challenge_of_digest(digest.as_slice())
}

// ---------------------------------------------------------------------------
// Random strings
// ---------------------------------------------------------------------------

/// An ASCII letter or digit.
pub open spec fn is_alnum_char(c: char) -> bool {
    ('0' <= c && c <= '9') || ('A' <= c && c <= 'Z') || ('a' <= c && c <= 'z')
}

/// Seeds `rand::rngs::StdRng` from `rand::rngs::OsRng` with
/// `SeedableRng::from_rng`, which fails (and gives `None` here) when the
/// operating system gives no random seed, then takes `len` samples of
/// `rand::distributions::Alphanumeric` from it. Which bytes come is chance;
/// each is taken from the distribution's set of ASCII letters and digits, and
/// there are `len` of them.
#[verifier::external_body]
fn random_alphanumeric(len: usize) -> (r: Option<Vec<u8>>)
    ensures
        r matches Some(v) ==> v@.len() == len && forall|i: int|
            0 <= i < len ==> is_ascii_alnum(#[trigger] v@[i]),
{
    let rng = rand::rngs::StdRng::from_rng(rand::rngs::OsRng).ok()?;
    Some(rng.sample_iter(&rand::distributions::Alphanumeric).take(len).collect())
}

/// `len` random ASCII letters and digits, as used for the PKCE code
/// verifier and the OAuth state; `None` when the operating system gives no
/// random seed.
pub fn random_url_safe(len: usize) -> (r: Option<String>)
    ensures
        r matches Some(t) ==> t@.len() == len && forall|i: int|
            0 <= i < len ==> is_alnum_char(#[trigger] t@[i]),
{
    let b = match random_alphanumeric(len) {
        Some(b) => b,
        None => return None,
    };
    assert(all_ascii(b@));
    let r = crate::text::ascii_string(b.as_slice());
    assert forall|i: int| 0 <= i < len implies is_alnum_char(#[trigger] r@[i]) by {
        assert(is_ascii_alnum(b@[i]));
        assert(r@[i] == b@[i] as char);
    }
    Some(r)
}


// ---------------------------------------------------------------------------
// The page shown in the browser after the redirect
// ---------------------------------------------------------------------------

/// `OK` for status 200, `Error` for any other.
pub open spec fn status_label(status: u16) -> Seq<char> {
    if status == 200 {
        "OK"@
    } else {
        "Error"@
    }
}

/// The small HTML page that carries `label` as its heading and `message`.
pub open spec fn page_of(label: Seq<char>, message: Seq<char>) -> Seq<char> {
    "<!doctype html><meta charset=\"utf-8\"><title>combatlog.dev</title><style>body{font:16px system-ui;background:#101014;color:#eee;display:grid;place-items:center;min-height:100vh;margin:0}main{max-width:520px;padding:32px;border:1px solid #4d3479;border-radius:16px;background:#18151f}h1{color:#ad80fb}</style><main><h1>"@
        + label + "</h1><p>"@ + message + "</p></main>"@
}

/// The HTTP/1.1 response that closes the connection after the page, whose
/// `Content-Length` is the page's length in UTF-8 bytes.
pub open spec fn http_response_of(status: u16, message: Seq<char>) -> Seq<char> {
    let body = page_of(status_label(status), message);
    "HTTP/1.1 "@ + ascii_chars(decimal(status as nat)) + " "@ + status_label(status)
        + "\r\nContent-Type: text/html; charset=utf-8\r\nContent-Length: "@
        + ascii_chars(decimal(encode_utf8(body).len())) + "\r\nConnection: close\r\n\r\n"@ + body
}

/// The response sent to the browser on the loopback callback.
pub fn http_response(status: u16, message: &str) -> (r: String)
    ensures
        r@ == http_response_of(status, message@),
{
    let label = if status == 200 {
        "OK"
    } else {
        "Error"
    };
    let mut page = TextBuilder::new();
    page.push_str(
        "<!doctype html><meta charset=\"utf-8\"><title>combatlog.dev</title><style>body{font:16px system-ui;background:#101014;color:#eee;display:grid;place-items:center;min-height:100vh;margin:0}main{max-width:520px;padding:32px;border:1px solid #4d3479;border-radius:16px;background:#18151f}h1{color:#ad80fb}</style><main><h1>",
    );
    page.push_str(label);
    page.push_str("</h1><p>");
    page.push_str(message);
    page.push_str("</p></main>");
    let body = page.into_string();
    assert(label@ == status_label(status));
    assert(body@ == page_of(status_label(status), message@));
    let body_len = body.as_str().as_bytes().len();
    assert(body_len == encode_utf8(body@).len());
    let mut t = TextBuilder::new();
    t.push_str("HTTP/1.1 ");
    t.push_decimal(status as u64);
    t.push_str(" ");
    t.push_str(label);
    t.push_str("\r\nContent-Type: text/html; charset=utf-8\r\nContent-Length: ");
    t.push_decimal(body_len as u64);
    t.push_str("\r\nConnection: close\r\n\r\n");
    t.push_str(body.as_str());
    assert(t.chars() == http_response_of(status, message@));
    t.into_string()
}


// ---------------------------------------------------------------------------
// The loopback callback
// ---------------------------------------------------------------------------

/// Where the browser is sent back to, without the path.
pub const CALLBACK_ORIGIN: &'static str = "http://127.0.0.1:48173";

/// The path of the redirect address.
pub const CALLBACK_PATH: &'static str = "/oauth/callback";

/// A character with the Unicode `White_Space` property, as
/// `char::is_whitespace` tests it.
pub open spec fn is_white_space(c: char) -> bool {
    ('\t' <= c && c <= '\r') || c == ' ' || c == '\u{85}' || c == '\u{a0}' || c == '\u{1680}'
        || ('\u{2000}' <= c && c <= '\u{200a}') || c == '\u{2028}' || c == '\u{2029}'
        || c == '\u{202f}' || c == '\u{205f}' || c == '\u{3000}'
}

fn white_space(c: char) -> (r: bool)
    ensures
        r == is_white_space(c),
{
    ('\t' <= c && c <= '\r') || c == ' ' || c == '\u{85}' || c == '\u{a0}' || c == '\u{1680}'
        || ('\u{2000}' <= c && c <= '\u{200a}') || c == '\u{2028}' || c == '\u{2029}'
        || c == '\u{202f}' || c == '\u{205f}' || c == '\u{3000}'
}

/// Index of the first `\n` at or after `i`, or the length.
pub open spec fn line_end(s: Seq<char>, i: int) -> int
    decreases s.len() - i,
{
    if 0 <= i < s.len() && s[i] != '\n' {
        line_end(s, i + 1)
    } else {
        i
    }
}

/// Index of the first character at or after `i`, before `e`, that is not white space.
pub open spec fn skip_space(s: Seq<char>, i: int, e: int) -> int
    decreases e - i,
{
    if 0 <= i < e && is_white_space(s[i]) {
        skip_space(s, i + 1, e)
    } else {
        i
    }
}

/// Index of the first white space character at or after `i`, or `e`.
pub open spec fn skip_word(s: Seq<char>, i: int, e: int) -> int
    decreases e - i,
{
    if 0 <= i < e && !is_white_space(s[i]) {
        skip_word(s, i + 1, e)
    } else {
        i
    }
}

/// The request target of an HTTP request: the second word of its first line
/// (`GET /path?query HTTP/1.1`), or `/` when that line has no second word.
pub open spec fn request_target_of(s: Seq<char>) -> Seq<char> {
    let e = line_end(s, 0);
    let a = skip_space(s, 0, e);
    let b = skip_word(s, a, e);
    let c = skip_space(s, b, e);
    let d = skip_word(s, c, e);
    if c < e {
        s.subrange(c, d)
    } else {
        "/"@
    }
}

proof fn lemma_line_end_bounds(s: Seq<char>, i: int)
    requires
        0 <= i <= s.len(),
    ensures
        i <= line_end(s, i) <= s.len(),
    decreases s.len() - i,
{
    if i < s.len() && s[i] != '\n' {
        lemma_line_end_bounds(s, i + 1);
    }
}

proof fn lemma_skip_bounds(s: Seq<char>, i: int, e: int)
    requires
        0 <= i <= e <= s.len(),
    ensures
        i <= skip_space(s, i, e) <= e,
        i <= skip_word(s, i, e) <= e,
    decreases e - i,
{
    if i < e {
        lemma_skip_bounds(s, i + 1, e);
    }
}

/// The characters of `s`, one by one.
fn chars_of(s: &str) -> (r: Vec<char>)
    ensures
        r@ == s@,
{
    let mut v: Vec<char> = Vec::new();
    for c in it: s.chars()
        invariant
            it.seq() == s@,
            v@ == s@.subrange(0, it.index()),
    {
        assert(s@.subrange(0, it.index() + 1) =~= v@.push(c));
        v.push(c);
    }
    assert(v@ =~= s@);
    v
}

fn find_line_end(s: &Vec<char>) -> (r: usize)
    ensures
        r == line_end(s@, 0),
{
    let mut i: usize = 0;
    while i < s.len() && s[i] != '\n'
        invariant
            i <= s@.len(),
            line_end(s@, i as int) == line_end(s@, 0),
        decreases s@.len() - i,
    {
        i = i + 1;
    }
    i
}

fn find_skip(s: &Vec<char>, i: usize, e: usize, space: bool) -> (r: usize)
    requires
        i <= e <= s@.len(),
    ensures
        space ==> r == skip_space(s@, i as int, e as int),
        !space ==> r == skip_word(s@, i as int, e as int),
{
    let mut j = i;
    while j < e && white_space(s[j]) == space
        invariant
            i <= j <= e <= s@.len(),
            space ==> skip_space(s@, j as int, e as int) == skip_space(s@, i as int, e as int),
            !space ==> skip_word(s@, j as int, e as int) == skip_word(s@, i as int, e as int),
        decreases e - j,
    {
        j = j + 1;
    }
    j
}

/// The request target of an HTTP request, as `request_target_of` says.
pub fn request_target(request: &str) -> (r: String)
    ensures
        r@ == request_target_of(request@),
{
    let s = chars_of(request);
    let e = find_line_end(&s);
    proof {
        lemma_line_end_bounds(s@, 0);
    }
    let a = find_skip(&s, 0, e, true);
    proof {
        lemma_skip_bounds(s@, 0, e as int);
    }
    let b = find_skip(&s, a, e, false);
    proof {
        lemma_skip_bounds(s@, a as int, e as int);
    }
    let c = find_skip(&s, b, e, true);
    proof {
        lemma_skip_bounds(s@, b as int, e as int);
    }
    let d = find_skip(&s, c, e, false);
    proof {
        lemma_skip_bounds(s@, c as int, e as int);
    }
    if c < e {
        request.substring_char(c, d).to_owned()
    } else {
        "/".to_owned()
    }
}


/// The text `String::from_utf8_lossy` makes of `bytes`.
pub uninterp spec fn lossy_text(bytes: Seq<u8>) -> Seq<char>;

/// Calls `String::from_utf8_lossy`. Its result depends on the bytes alone
/// and is named `lossy_text`; as its documentation says, well-formed UTF-8
/// is decoded unchanged (ill-formed sequences become U+FFFD, which is not
/// stated here).
#[verifier::external_body]
fn utf8_lossy(bytes: &[u8]) -> (r: String)
    ensures
        r@ == lossy_text(bytes@),
        valid_utf8(bytes@) ==> r@ == decode_utf8(bytes@),
{
    String::from_utf8_lossy(bytes).into_owned()
}

/// Whether `url::Url::parse` accepts the text.
pub uninterp spec fn url_parses(input: Seq<char>) -> bool;

/// `url::Url::path` of the URL parsed from the text.
pub uninterp spec fn url_path_of(input: Seq<char>) -> Seq<char>;

/// `url::Url::query_pairs` of the URL parsed from the text: the decoded
/// name and value of each pair, in order.
pub uninterp spec fn url_query_of(input: Seq<char>) -> Seq<(Seq<char>, Seq<char>)>;

#[verifier::external_type_specification]
#[verifier::external_body]
pub struct ExUrlParseError(url::ParseError);

pub open spec fn owned_pairs_view(pairs: Seq<(String, String)>) -> Seq<(Seq<char>, Seq<char>)> {
    pairs.map_values(|p: (String, String)| (p.0@, p.1@))
}

/// Calls `url::Url::parse`, then `path` and `query_pairs` of the URL it
/// returns. Each depends on the text alone and is named here. Which
/// `ParseError` comes back on failure is not stated.
#[verifier::external_body]
fn parse_url(input: &str) -> (r: Result<(String, Vec<(String, String)>), url::ParseError>)
    ensures
        r is Ok <==> url_parses(input@),
        r matches Ok(p) ==> p.0@ == url_path_of(input@) && owned_pairs_view(p.1@) == url_query_of(
            input@,
        ),
{
    let u = url::Url::parse(input)?;
    let pairs = u.query_pairs().map(|(k, v)| (k.into_owned(), v.into_owned())).collect();
    Ok((u.path().to_string(), pairs))
}

/// The value of the last pair named `key`, as a map built from the pairs
/// in order keeps it.
pub open spec fn last_value(pairs: Seq<(Seq<char>, Seq<char>)>, key: Seq<char>) -> Option<Seq<char>>
    decreases pairs.len(),
{
    if pairs.len() == 0 {
        None
    } else if pairs.last().0 == key {
        Some(pairs.last().1)
    } else {
        last_value(pairs.drop_last(), key)
    }
}

/// The value of the last pair named `key`.
pub fn find_last_value(pairs: &Vec<(String, String)>, key: &str) -> (r: Option<String>)
    ensures
        r matches Some(v) ==> last_value(owned_pairs_view(pairs@), key@) == Some(v@),
        r is None ==> last_value(owned_pairs_view(pairs@), key@) is None,
{
    let ghost all = owned_pairs_view(pairs@);
    let mut i = pairs.len();
    assert(all.subrange(0, i as int) =~= all);
    while i > 0
        invariant
            i <= pairs@.len(),
            all == owned_pairs_view(pairs@),
            last_value(all, key@) == last_value(all.subrange(0, i as int), key@),
        decreases i,
    {
        let (k, v) = &pairs[i - 1];
        assert(all.subrange(0, i as int).last() == (k@, v@));
        assert(all.subrange(0, i as int).drop_last() =~= all.subrange(0, i - 1));
        if same_text(k.as_str(), key) {
            return Some(v.clone());
        }
        i = i - 1;
    }
    None
}

/// What a request on the loopback address comes to.
pub enum CallbackOutcome {
    /// Not the callback path: answered with 404, and the wait goes on.
    NotFound,
    /// The request target does not make a URL.
    BadUrl(url::ParseError),
    /// The `state` is missing or is not the one sent.
    StateMismatch,
    /// Warcraft Logs sent an `error`, given here.
    Denied(String),
    /// Neither an `error` nor a `code` came back.
    MissingCode,
    /// The authorization code.
    Code(String),
}

pub enum CallbackView {
    NotFound,
    BadUrl,
    StateMismatch,
    Denied(Seq<char>),
    MissingCode,
    Code(Seq<char>),
}

impl View for CallbackOutcome {
    type V = CallbackView;

    open spec fn view(&self) -> CallbackView {
        match self {
            CallbackOutcome::NotFound => CallbackView::NotFound,
            CallbackOutcome::BadUrl(_) => CallbackView::BadUrl,
            CallbackOutcome::StateMismatch => CallbackView::StateMismatch,
            CallbackOutcome::Denied(e) => CallbackView::Denied(e@),
            CallbackOutcome::MissingCode => CallbackView::MissingCode,
            CallbackOutcome::Code(c) => CallbackView::Code(c@),
        }
    }
}

/// The decision on a callback with this path and these query pairs: the
/// path must be the callback path, then the last `state` must be the one
/// sent, then an `error` ends it, else the `code` is the answer.
pub open spec fn callback_decision(
    path: Seq<char>,
    pairs: Seq<(Seq<char>, Seq<char>)>,
    expected_state: Seq<char>,
) -> CallbackView {
    if path != CALLBACK_PATH@ {
        CallbackView::NotFound
    } else if last_value(pairs, "state"@) != Some(expected_state) {
        CallbackView::StateMismatch
    } else {
        match last_value(pairs, "error"@) {
            Some(e) => CallbackView::Denied(e),
            None => match last_value(pairs, "code"@) {
                Some(c) => CallbackView::Code(c),
                None => CallbackView::MissingCode,
            },
        }
    }
}

/// Decides a callback from the path and query pairs of its URL.
pub fn decide_callback(path: &str, pairs: &Vec<(String, String)>, expected_state: &str) -> (r:
    CallbackOutcome)
    ensures
        r@ == callback_decision(path@, owned_pairs_view(pairs@), expected_state@),
{
    if !same_text(path, CALLBACK_PATH) {
        return CallbackOutcome::NotFound;
    }
    match find_last_value(pairs, "state") {
        Some(s) => {
            if !same_text(s.as_str(), expected_state) {
                return CallbackOutcome::StateMismatch;
            }
        },
        None => {
            return CallbackOutcome::StateMismatch;
        },
    }
    match find_last_value(pairs, "error") {
        Some(e) => CallbackOutcome::Denied(e),
        None => match find_last_value(pairs, "code") {
            Some(c) => CallbackOutcome::Code(c),
            None => CallbackOutcome::MissingCode,
        },
    }
}

/// The URL a request on the loopback address asks for.
pub open spec fn callback_url_of(request: Seq<u8>) -> Seq<char> {
    CALLBACK_ORIGIN@ + request_target_of(lossy_text(request))
}

/// Decides what the bytes of one request on the loopback address come to,
/// expecting `expected_state` back.
pub fn handle_callback(request: &[u8], expected_state: &str) -> (r: CallbackOutcome)
    ensures
        url_parses(callback_url_of(request@)) ==> r@ == callback_decision(
            url_path_of(callback_url_of(request@)),
            url_query_of(callback_url_of(request@)),
            expected_state@,
        ),
        !url_parses(callback_url_of(request@)) ==> r@ == CallbackView::BadUrl,
{
    let text = utf8_lossy(request);
    let target = request_target(text.as_str());
    let mut t = TextBuilder::new();
    t.push_str(CALLBACK_ORIGIN);
    t.push_str(target.as_str());
    let url = t.into_string();
    match parse_url(url.as_str()) {
        Ok((path, pairs)) => decide_callback(path.as_str(), &pairs, expected_state),
        Err(e) => CallbackOutcome::BadUrl(e),
    }
}

/// The status and message the browser is answered with, where it is answered.
pub open spec fn reply_of(v: CallbackView) -> Option<(u16, Seq<char>)> {
    match v {
        CallbackView::NotFound => Some((404u16, "Authorization callback not found."@)),
        CallbackView::StateMismatch => Some(
            (400u16, "The authorization state did not match. Return to combatlog.dev and try again."@),
        ),
        CallbackView::Denied(_) => Some(
            (400u16, "Warcraft Logs authorization was cancelled. You can close this tab."@),
        ),
        CallbackView::Code(_) => Some(
            (
                200u16,
                "Warcraft Logs is connected to combatlog.dev. You can close this tab and return to the app."@,
            ),
        ),
        CallbackView::BadUrl => None,
        CallbackView::MissingCode => None,
    }
}

/// Why the authorization failed, where it failed for a reason of its own.
pub open spec fn failure_of(v: CallbackView) -> Option<Seq<char>> {
    match v {
        CallbackView::StateMismatch => Some("Warcraft Logs returned an invalid authorization state."@),
        CallbackView::Denied(e) => Some("Warcraft Logs authorization failed: "@ + e),
        CallbackView::MissingCode => Some("Warcraft Logs did not return an authorization code"@),
        _ => None,
    }
}

impl CallbackOutcome {
    /// The HTTP response the browser gets, if any.
    pub fn reply(&self) -> (r: Option<String>)
        ensures
            r is Some <==> reply_of(self@) is Some,
            r matches Some(t) ==> (reply_of(self@) matches Some((status, message)) && t@
                == http_response_of(status, message)),
    {
        match self {
            CallbackOutcome::NotFound => Some(http_response(404, "Authorization callback not found.")),
            CallbackOutcome::StateMismatch => Some(
                http_response(
                    400,
                    "The authorization state did not match. Return to combatlog.dev and try again.",
                ),
            ),
            CallbackOutcome::Denied(_) => Some(
                http_response(400, "Warcraft Logs authorization was cancelled. You can close this tab."),
            ),
            CallbackOutcome::Code(_) => Some(
                http_response(
                    200,
                    "Warcraft Logs is connected to combatlog.dev. You can close this tab and return to the app.",
                ),
            ),
            CallbackOutcome::BadUrl(_) => None,
            CallbackOutcome::MissingCode => None,
        }
    }

    /// The error the authorization ends with, where the callback itself
    /// says why; an unparsable URL is reported by its `ParseError`.
    pub fn failure(&self) -> (r: Option<String>)
        ensures
            r is Some <==> failure_of(self@) is Some,
            r matches Some(t) ==> t@ == failure_of(self@)->0,
    {
        match self {
            CallbackOutcome::StateMismatch => Some(
                "Warcraft Logs returned an invalid authorization state.".to_owned(),
            ),
            CallbackOutcome::Denied(e) => {
                let mut t = TextBuilder::new();
                t.push_str("Warcraft Logs authorization failed: ");
                t.push_str(e.as_str());
                Some(t.into_string())
            },
            CallbackOutcome::MissingCode => Some(
                "Warcraft Logs did not return an authorization code".to_owned(),
            ),
            _ => None,
        }
    }
}

} // verus!
