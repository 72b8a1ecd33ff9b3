use apicase::auth::{
    answer_challenge, build_digest_header, capitalize, client_nonce, digest_retry, lifetime_in, lifetime_text,
    parse_digest_challenge, read_token, read_token_in, request_uri, token_key, token_step, token_usable, with_token, CachedToken, DigestOpts,
    TokenStep,
};
use apicase::model::{AuthSpec, AuthType, ClientAuth, DigestAuth, HttpSpec, Oauth2Auth};
use apicase::report::KvPair;
use apicase::request::{build, RequestBody};

fn md5_hex(s: &str) -> String {
    format!("{:x}", md5::compute(s.as_bytes()))
}

#[test]
fn parses_challenge_params() {
    let ch = parse_digest_challenge(
        r#"Digest realm="testrealm@host.com", qop="auth,auth-int", nonce="dcd98b7102dd2f0e8b11d0f600bfb0c093", opaque="5ccc069c403ebaf9f0171e9517f40e41""#,
    )
    .expect("应能解析");
    assert_eq!(ch.get("realm").unwrap(), "testrealm@host.com");
    assert_eq!(ch.get("nonce").unwrap(), "dcd98b7102dd2f0e8b11d0f600bfb0c093");
    assert_eq!(ch.get("opaque").unwrap(), "5ccc069c403ebaf9f0171e9517f40e41");
    assert_eq!(ch.get("qop").unwrap(), "auth,auth-int");
}

#[test]
fn parses_unquoted_and_mixed_schemes() {
    let ch = parse_digest_challenge("digest realm=r, nonce=n, algorithm=MD5, stale=false").expect("应能解析");
    assert_eq!(ch.get("realm").unwrap(), "r");
    assert_eq!(ch.get("algorithm").unwrap(), "MD5");
    assert_eq!(ch.get("stale").unwrap(), "false");

    let ch = parse_digest_challenge(r#"Basic realm="x", Digest realm="y", nonce="n""#).expect("应能解析");
    assert_eq!(ch.get("realm").unwrap(), "y", "应取 Digest 那一段");

    assert!(parse_digest_challenge(r#"Basic realm="x""#).is_none(), "没有 Digest 方案");
    assert!(parse_digest_challenge("").is_none());
}

#[test]
fn digest_matches_rfc2617_example() {
    let ch = parse_digest_challenge(
        r#"Digest realm="testrealm@host.com", qop="auth,auth-int", nonce="dcd98b7102dd2f0e8b11d0f600bfb0c093", opaque="5ccc069c403ebaf9f0171e9517f40e41""#,
    )
    .expect("应能解析");
    let h = build_digest_header(
        &ch,
        &DigestOpts {
            username: "Mufasa",
            password: "Circle Of Life",
            method: "GET",
            url: "http://host.com/dir/index.html",
            cnonce: Some("0a4f113b"),
            nc: Some("00000001"),
        },
        "unused",
    );
    assert!(h.contains(r#"response="6629fae49393a05397450978507c4ef1""#), "RFC 示例的 response 值: {h}");
    assert!(h.contains(r#"uri="/dir/index.html""#), "{h}");
    assert!(h.contains("qop=auth"), "{h}");
    assert!(h.contains(r#"opaque="5ccc069c403ebaf9f0171e9517f40e41""#), "{h}");
}

#[test]
fn digest_without_qop_uses_two_part_form() {
    let ch = parse_digest_challenge(r#"Digest realm="r", nonce="n""#).expect("应能解析");
    let h = build_digest_header(
        &ch,
        &DigestOpts { username: "u", password: "p", method: "GET", url: "http://h/a", cnonce: Some("c"), nc: None },
        "unused",
    );
    let ha1 = md5_hex("u:r:p");
    let ha2 = md5_hex("GET:/a");
    assert!(h.contains(&format!("response=\"{}\"", md5_hex(&format!("{ha1}:n:{ha2}")))), "{h}");
    assert!(!h.contains("qop"), "无 qop 时不该带 qop / nc / cnonce: {h}");
}

#[test]
fn digest_md5_sess_salts_ha1() {
    let ch = parse_digest_challenge(r#"Digest realm="r", nonce="n", algorithm=MD5-sess, qop="auth""#).expect("应能解析");
    let h = build_digest_header(
        &ch,
        &DigestOpts { username: "u", password: "p", method: "GET", url: "http://h/a", cnonce: Some("c"), nc: Some("00000001") },
        "unused",
    );
    let ha1 = md5_hex(&format!("{}:n:c", md5_hex("u:r:p")));
    let ha2 = md5_hex("GET:/a");
    let want = md5_hex(&format!("{ha1}:n:00000001:c:auth:{ha2}"));
    assert!(h.contains(&format!("response=\"{want}\"")), "{h}");
    assert!(h.contains("algorithm=MD5-sess"), "{h}");
}

#[test]
fn request_uri_extraction() {
    assert_eq!(request_uri("http://h/a/b?c=1"), "/a/b?c=1");
    assert_eq!(request_uri("https://h:8443/x"), "/x");
    assert_eq!(request_uri("http://h"), "/", "没有路径时用 /");
    assert_eq!(request_uri("http://h/"), "/");
}

#[test]
fn client_nonce_is_unique_per_call() {
    let a = client_nonce(1_785_369_600_000_000_000, 0, "main");
    let b = client_nonce(1_785_369_600_000_000_000, 1, "main");
    assert_ne!(a, b);
    assert_eq!(a.len(), 16);
    assert!(a.chars().all(|c| c.is_ascii_hexdigit()));
}

#[test]
fn token_type_is_capitalized() {
    assert_eq!(capitalize("bearer"), "Bearer");
    assert_eq!(capitalize("MAC"), "MAC");
    assert_eq!(capitalize(""), "");
}

fn digest_spec() -> HttpSpec {
    HttpSpec {
        method: "GET".into(),
        url: "http://h/a".into(),
        auth: AuthSpec {
            kind: AuthType::Digest,
            digest: Some(DigestAuth { username: "u".into(), password: "p".into() }),
            ..Default::default()
        },
        ..Default::default()
    }
}

#[test]
fn a_digest_challenge_is_answered_once() {
    let spec = digest_spec();
    let req = build(&spec);
    let hs = vec![KvPair::new("WWW-Authenticate", "Digest realm=\"r\", nonce=\"n\", qop=\"auth\"")];
    let retry = digest_retry(&spec, &req, 401, &hs, "cafe").expect("a challenge is answered");
    assert_eq!(retry.headers.len(), req.headers.len() + 1);
    let h = &retry.headers[retry.headers.len() - 1];
    assert_eq!(h.key, "Authorization");
    assert!(h.value.contains("cnonce=\"cafe\""), "{}", h.value);
    assert!(digest_retry(&spec, &req, 200, &hs, "cafe").is_none());
    assert!(digest_retry(&spec, &req, 401, &[], "cafe").is_none());
    let mut other = digest_spec();
    other.auth.kind = AuthType::Basic;
    assert!(digest_retry(&other, &req, 401, &hs, "cafe").is_none());
}

fn oauth() -> Oauth2Auth {
    Oauth2Auth {
        token_url: " http://h/token ".into(),
        client_id: "id".into(),
        client_secret: "a b".into(),
        scope: Some(" read ".into()),
        client_auth: ClientAuth::Body,
    }
}

#[test]
fn a_token_is_asked_for_as_the_client_is_told_to() {
    let TokenStep::Ask(req) = token_step(&oauth(), &None, 0) else { panic!("a token is asked for") };
    assert_eq!(req.method, "POST");
    assert_eq!(req.url, "http://h/token");
    assert_eq!(
        req.body,
        Some(RequestBody::Text(
            "grant_type=client_credentials&scope=read&client_id=id&client_secret=a%20b".into()
        ))
    );
    let mut o = oauth();
    o.client_auth = ClientAuth::Header;
    o.scope = None;
    let TokenStep::Ask(req) = token_step(&o, &None, 0) else { panic!("a token is asked for") };
    assert_eq!(req.headers[1], KvPair::new("Authorization", "Basic aWQ6YSBi"));
    assert_eq!(req.body, Some(RequestBody::Text("grant_type=client_credentials".into())));
    o.token_url = "  ".into();
    let TokenStep::Fail(e) = token_step(&o, &None, 0) else { panic!("an address is needed") };
    assert_eq!(e, "OAuth 2.0：请先填写 Access Token URL");
}

#[test]
fn a_token_is_used_until_it_expires() {
    let t = |at: u64| CachedToken { token: "T".into(), kind: "Bearer".into(), expires_at: at };
    assert!(token_usable(&t(0), 99));
    assert!(token_usable(&t(100), 99));
    assert!(!token_usable(&t(99), 99));
    let TokenStep::Use(kept) = token_step(&oauth(), &Some(t(100)), 99) else { panic!("it is still good") };
    assert_eq!(kept.token, "T");
    let TokenStep::Ask(_) = token_step(&oauth(), &Some(t(98)), 99) else { panic!("it has expired") };
}

#[test]
fn a_changed_secret_gets_its_own_token() {
    let mut o = oauth();
    let before = token_key(&o);
    o.client_secret = "other".into();
    assert_ne!(before, token_key(&o));
}

#[test]
fn replies_with_tokens_are_read() {
    let body = r#"{"access_token":"abc","token_type":"bearer","expires_in":3600}"#;
    assert_eq!(lifetime_text(body).as_deref(), Some("3600"));
    assert_eq!(lifetime_text(r#"{"expires_in":"60"}"#).as_deref(), Some("60"));
    assert_eq!(lifetime_text(r#"{"expires_in":true}"#), None);
    let t = read_token(200, body, Some(3_570_000), 1000).expect("a token");
    assert_eq!((t.token.as_str(), t.kind.as_str(), t.expires_at), ("abc", "Bearer", 3_571_000));
    let t = read_token(200, r#"{"access_token":"abc"}"#, None, 1000).expect("a token");
    assert_eq!((t.kind.as_str(), t.expires_at), ("Bearer", 0));
    let e = read_token(500, "boom", None, 0).expect_err("no success");
    assert!(e.contains("HTTP 500") && e.contains("boom"), "{e}");
    let e = read_token(200, "<html>", None, 0).expect_err("no JSON");
    assert!(e.contains("不是 JSON"), "{e}");
    let e = read_token(200, "{}", None, 0).expect_err("no token");
    assert!(e.contains("没有 access_token"), "{e}");
}

#[test]
fn a_token_is_sent_along() {
    let t = CachedToken { token: "T".into(), kind: "Bearer".into(), expires_at: 0 };
    let req = build(&HttpSpec { url: "http://h/a".into(), ..Default::default() });
    assert_eq!(with_token(&req, &t).headers, vec![KvPair::new("Authorization", "Bearer T")]);
}

#[test]
fn an_answer_holds_the_response() {
    let ch = parse_digest_challenge(r#"Digest realm="r", nonce="n", qop="auth", opaque="o""#).unwrap();
    assert_eq!(
        answer_challenge(&ch, "u", "http://x.test/a?b=1", "c", "00000001", "abc"),
        r#"Digest username="u", realm="r", nonce="n", uri="/a?b=1", response="abc", qop=auth, nc=00000001, cnonce="c", opaque="o""#
    );
}

#[test]
fn a_reply_that_was_read_before_gives_the_same_token() {
    let body = r#"{"access_token":"T","token_type":"bearer","expires_in":60}"#;
    let doc = apicase::json::parse_json(body);
    assert_eq!(lifetime_in(&doc).as_deref(), Some("60"));
    assert_eq!(lifetime_in(&None), None);
    let t = read_token_in(200, body, &doc, Some(1000), 5).unwrap();
    assert_eq!(t, read_token(200, body, Some(1000), 5).unwrap());
    assert_eq!((t.token.as_str(), t.kind.as_str(), t.expires_at), ("T", "Bearer", 1005));
    assert!(read_token_in(200, body, &None, None, 5).is_err());
}

#[test]
fn expired_token_is_not_reused() {
    let now = 1_000_000;
    let old = CachedToken { token: "OLD".into(), kind: "Bearer".into(), expires_at: now - 1 };
    assert!(!token_usable(&old, now), "已过期的条目应被判为失效");
}
