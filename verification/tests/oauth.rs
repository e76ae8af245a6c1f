use combatlog::oauth::{
    authorization_url, challenge_of_digest, decide_callback, find_last_value, form_urlencode,
    handle_callback, http_response, pkce_challenge, random_url_safe, request_target,
    token_request_body, CallbackOutcome,
};
use combatlog::rankings::REDIRECT_URI;

#[test]
fn oauth_url_uses_pkce_and_loopback_callback() {
    let url = url::Url::parse(&authorization_url("client-123", "state-456", "challenge-789")).unwrap();
    let query = url.query_pairs().collect::<std::collections::HashMap<_, _>>();
    assert_eq!(query.get("client_id").map(|v| v.as_ref()), Some("client-123"));
    assert_eq!(query.get("redirect_uri").map(|v| v.as_ref()), Some(REDIRECT_URI));
    assert_eq!(query.get("code_challenge_method").map(|v| v.as_ref()), Some("S256"));
}

#[test]
fn authorization_url_is_exact() {
    assert_eq!(
        authorization_url("client-123", "state-456", "challenge-789"),
        "https://www.warcraftlogs.com/oauth/authorize?client_id=client-123\
         &redirect_uri=http%3A%2F%2F127.0.0.1%3A48173%2Foauth%2Fcallback\
         &response_type=code&state=state-456&code_challenge=challenge-789\
         &code_challenge_method=S256"
    );
}

#[test]
fn token_request_body_is_form_encoded() {
    assert_eq!(
        token_request_body("client id", "ver", "c/d"),
        "client_id=client+id&redirect_uri=http%3A%2F%2F127.0.0.1%3A48173%2Foauth%2Fcallback\
         &grant_type=authorization_code&code=c%2Fd&code_verifier=ver"
    );
}

#[test]
fn form_encoding_matches_the_url_crate() {
    let pairs = vec![("a b", "\u{e9}*"), ("x&y", "1=2~")];
    let ours = form_urlencode(&pairs);
    assert_eq!(ours, "a+b=%C3%A9*&x%26y=1%3D2%7E");
    let theirs = url::form_urlencoded::Serializer::new(String::new()).extend_pairs(pairs.iter()).finish();
    assert_eq!(ours, theirs);
    assert_eq!(form_urlencode(&vec![]), "");
}

#[test]
fn pkce_challenge_matches_the_rfc_example() {
    assert_eq!(
        pkce_challenge("dBjftJeZ4CVP-mB92K27uhbUJU1p1r_wW1gFWFOEjXk"),
        "E9Melhoa2OwvFrEMTJguCHaoeK1t8URWbuGJSstw-cM"
    );
}

#[test]
fn challenge_uses_the_url_safe_alphabet_without_padding() {
    assert_eq!(challenge_of_digest(&[0xfb, 0xff]), "-_8");
    assert_eq!(challenge_of_digest(b"M"), "TQ");
    assert_eq!(challenge_of_digest(b"Man"), "TWFu");
    assert_eq!(challenge_of_digest(b""), "");
}

#[test]
fn random_strings_have_the_length_and_alphabet() {
    let a = random_url_safe(96).unwrap();
    assert_eq!(a.len(), 96);
    assert!(a.bytes().all(|b| b.is_ascii_alphanumeric()));
    let b = random_url_safe(40).unwrap();
    assert_eq!(b.chars().count(), 40);
    assert_ne!(random_url_safe(40).unwrap(), b);
    assert_eq!(random_url_safe(0).unwrap(), "");
}

fn expected_response(status: u16, label: &str, message: &str) -> String {
    let body = format!(
        "<!doctype html><meta charset=\"utf-8\"><title>combatlog.dev</title>\
         <style>body{{font:16px system-ui;background:#101014;color:#eee;display:grid;place-items:center;min-height:100vh;margin:0}}\
         main{{max-width:520px;padding:32px;border:1px solid #4d3479;border-radius:16px;background:#18151f}}h1{{color:#ad80fb}}</style>\
         <main><h1>{label}</h1><p>{message}</p></main>"
    );
    format!(
        "HTTP/1.1 {status} {label}\r\nContent-Type: text/html; charset=utf-8\r\nContent-Length: {}\r\nConnection: close\r\n\r\n{body}",
        body.len()
    )
}

#[test]
fn http_response_labels_and_measures_the_page() {
    assert_eq!(http_response(200, "Done."), expected_response(200, "OK", "Done."));
    assert_eq!(http_response(404, "Missing."), expected_response(404, "Error", "Missing."));
    let r = http_response(400, "\u{e9}t\u{e9}");
    assert_eq!(r, expected_response(400, "Error", "\u{e9}t\u{e9}"));
    assert!(r.contains("Content-Length: 346\r\n"));
}

#[test]
fn request_target_is_the_second_word_of_the_first_line() {
    assert_eq!(request_target("GET /oauth/callback?code=1 HTTP/1.1\r\nHost: x\r\n\r\n"), "/oauth/callback?code=1");
    assert_eq!(request_target(""), "/");
    assert_eq!(request_target("GET\r\nHost: x"), "/");
    assert_eq!(request_target("\nGET /x HTTP/1.1"), "/");
    assert_eq!(request_target("  GET\t\t/a  HTTP/1.1"), "/a");
    assert_eq!(request_target("GET\u{a0}/b\u{3000}HTTP/1.1"), "/b");
    assert_eq!(request_target("GET /\u{e9}"), "/\u{e9}");
}

#[test]
fn last_value_wins() {
    let pairs = vec![
        ("state".to_string(), "a".to_string()),
        ("code".to_string(), "c".to_string()),
        ("state".to_string(), "b".to_string()),
    ];
    assert_eq!(find_last_value(&pairs, "state"), Some("b".to_string()));
    assert_eq!(find_last_value(&pairs, "code"), Some("c".to_string()));
    assert_eq!(find_last_value(&pairs, "error"), None);
}

fn pairs(list: &[(&str, &str)]) -> Vec<(String, String)> {
    list.iter().map(|(k, v)| (k.to_string(), v.to_string())).collect()
}

#[test]
fn callback_decisions() {
    let cb = "/oauth/callback";
    assert!(matches!(decide_callback("/other", &pairs(&[("state", "s")]), "s"), CallbackOutcome::NotFound));
    assert!(matches!(decide_callback(cb, &pairs(&[]), "s"), CallbackOutcome::StateMismatch));
    assert!(matches!(decide_callback(cb, &pairs(&[("state", "t")]), "s"), CallbackOutcome::StateMismatch));
    match decide_callback(cb, &pairs(&[("state", "s"), ("error", "access_denied"), ("code", "c")]), "s") {
        CallbackOutcome::Denied(e) => assert_eq!(e, "access_denied"),
        _ => panic!("expected a denial"),
    }
    assert!(matches!(decide_callback(cb, &pairs(&[("state", "s")]), "s"), CallbackOutcome::MissingCode));
    match decide_callback(cb, &pairs(&[("code", "abc"), ("state", "s")]), "s") {
        CallbackOutcome::Code(c) => assert_eq!(c, "abc"),
        _ => panic!("expected a code"),
    }
}

#[test]
fn callback_requests_are_parsed_and_decided() {
    let request = b"GET /oauth/callback?state=s1&code=a%20b+c HTTP/1.1\r\nHost: 127.0.0.1\r\n\r\n";
    match handle_callback(request, "s1") {
        CallbackOutcome::Code(c) => assert_eq!(c, "a b c"),
        _ => panic!("expected a code"),
    }
    assert!(matches!(handle_callback(request, "s2"), CallbackOutcome::StateMismatch));
    let request = b"GET /favicon.ico HTTP/1.1\r\n\r\n";
    assert!(matches!(handle_callback(request, "s1"), CallbackOutcome::NotFound));
    let request = b"GET /oauth/callback?state=x&state=s1&error=access_denied HTTP/1.1\r\n";
    match handle_callback(request, "s1") {
        CallbackOutcome::Denied(e) => assert_eq!(e, "access_denied"),
        _ => panic!("expected a denial"),
    }
    let request = b"GET /oauth/callback?state=s1 HTTP/1.1\r\n";
    assert!(matches!(handle_callback(request, "s1"), CallbackOutcome::MissingCode));
    assert!(matches!(handle_callback(b"GET :x HTTP/1.1\r\n", "s1"), CallbackOutcome::BadUrl(_)));
    assert!(matches!(handle_callback(b"", "s1"), CallbackOutcome::NotFound));
    let request = b"GET /oauth/callback?state=s1&code=\xff HTTP/1.1\r\n";
    match handle_callback(request, "s1") {
        CallbackOutcome::Code(c) => assert_eq!(c, "\u{fffd}"),
        _ => panic!("expected a code"),
    }
}

#[test]
fn callback_replies_and_failures() {
    assert_eq!(
        CallbackOutcome::NotFound.reply(),
        Some(http_response(404, "Authorization callback not found."))
    );
    assert_eq!(CallbackOutcome::NotFound.failure(), None);
    assert_eq!(
        CallbackOutcome::StateMismatch.reply(),
        Some(http_response(400, "The authorization state did not match. Return to combatlog.dev and try again."))
    );
    assert_eq!(
        CallbackOutcome::StateMismatch.failure().as_deref(),
        Some("Warcraft Logs returned an invalid authorization state.")
    );
    let denied = CallbackOutcome::Denied("access_denied".to_string());
    assert_eq!(
        denied.reply(),
        Some(http_response(400, "Warcraft Logs authorization was cancelled. You can close this tab."))
    );
    assert_eq!(denied.failure().as_deref(), Some("Warcraft Logs authorization failed: access_denied"));
    assert_eq!(CallbackOutcome::MissingCode.reply(), None);
    assert_eq!(
        CallbackOutcome::MissingCode.failure().as_deref(),
        Some("Warcraft Logs did not return an authorization code")
    );
    let code = CallbackOutcome::Code("c".to_string());
    assert_eq!(
        code.reply(),
        Some(http_response(
            200,
            "Warcraft Logs is connected to combatlog.dev. You can close this tab and return to the app."
        ))
    );
    assert_eq!(code.failure(), None);
}
