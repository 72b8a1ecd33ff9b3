use apicase::json::{js_string, parse_json, Json};
use apicase::redact::{
    clean_body, clip_body, is_secret_name, is_secret_target, mask_document, mask_secret, redact_assertions,
    redact_headers, redact_outputs, redact_vars, scrub_json_body, scrub_secrets, secret_values_of_strings,
};
use apicase::report::{AssertRecord, KvPair};
use apicase::table::SortedMap;

fn v(text: &str) -> Json {
    parse_json(text).unwrap()
}

fn texts(list: &[(&str, &str)]) -> SortedMap<String> {
    let mut m = SortedMap::new();
    for (k, x) in list {
        m.insert(k.to_string(), x.to_string());
    }
    m
}

#[test]
fn recognizes_secret_names() {
    for n in ["Authorization", "cookie", "Set-Cookie", "X-Api-Key", "api_key", "accessToken", "MY_SECRET", "password", "userAuth"] {
        assert!(is_secret_name(n), "{n} 应被识别为凭据");
    }
    for n in ["Content-Type", "user", "name", "X-Trace-Id", "count"] {
        assert!(!is_secret_name(n), "{n} 不该被识别为凭据");
    }
}

#[test]
fn masks_but_keeps_a_usable_hint() {
    assert_eq!(mask_secret("Bearer eyJhbGciOiJIUzI1NiJ9"), "Bearer eyJh***");
    assert_eq!(mask_secret("Basic QWxhZGRpbg=="), "Basic QWxh***");
    assert_eq!(mask_secret("abcdefghij"), "abcd***");
    assert_eq!(mask_secret("abcd"), "***", "太短的留前 4 位等于没掩");
    assert_eq!(mask_secret(""), "", "空值仍是空——能看出根本没带凭据");
    assert_eq!(mask_secret("密码密码密码"), "密码密码***");
}

#[test]
fn redacts_headers_and_vars() {
    let hs = vec![KvPair::new("Authorization", "Bearer abcdefgh"), KvPair::new("Content-Type", "application/json")];
    let out = redact_headers(&hs, true);
    assert_eq!(out[0].value, "Bearer abcd***");
    assert_eq!(out[1].value, "application/json", "非凭据头原样");
    assert_eq!(redact_headers(&hs, false), hs, "关掉脱敏就原样返回");

    let vars = texts(&[("token", "abcdefgh"), ("baseUrl", "http://x")]);
    let r = redact_vars(&vars, true);
    assert_eq!(r.get("token").unwrap(), "abcd***");
    assert_eq!(r.get("baseUrl").unwrap(), "http://x");
}

#[test]
fn scrubs_known_secret_values_anywhere() {
    let secrets = vec!["s3cr3t-token-value".to_string()];
    let body = r#"{"echo":{"headers":{"Authorization":"Bearer s3cr3t-token-value"}}}"#;
    let out = scrub_secrets(body, &secrets);
    assert!(!out.contains("s3cr3t-token-value"), "{out}");
    assert!(out.contains("***"), "{out}");
    assert_eq!(scrub_secrets("http://x?k=s3cr3t-token-value", &secrets), "http://x?k=***");
}

#[test]
fn short_values_are_not_used_for_literal_scrubbing() {
    let vars = texts(&[("token", "abc"), ("secret", "longenough")]);
    let s = secret_values_of_strings(&vars, true);
    assert_eq!(s, vec!["longenough".to_string()]);
}

#[test]
fn scrubs_json_response_by_field_name() {
    let body = r#"{"data":{"access_token":"brandnewtoken","user":"alice"},"nested":[{"password":"p@ssw0rd"}]}"#;
    let out = scrub_json_body(body, true);
    assert!(!out.contains("brandnewtoken"), "{out}");
    assert!(!out.contains("p@ssw0rd"), "{out}");
    assert!(out.contains("alice"), "非凭据字段保留：{out}");
    assert!(out.contains("bran***"), "{out}");
}

#[test]
fn untouched_json_keeps_its_original_text() {
    let pretty = "{\n  \"b\": 1,\n  \"a\": 2\n}";
    assert_eq!(scrub_json_body(pretty, true), pretty);
    assert_eq!(scrub_json_body("<html>token</html>", true), "<html>token</html>");
    assert_eq!(scrub_json_body("{坏 JSON", true), "{坏 JSON");
    assert_eq!(scrub_json_body(r#"{"token":"x"}"#, false), r#"{"token":"x"}"#, "关掉脱敏就原样");
}

#[test]
fn deep_nesting_is_bounded() {
    let mut text = r#"{"token":"abcdefgh"}"#.to_string();
    for _ in 0..50 {
        text = format!("{{\"n\":{text}}}");
    }
    let out = scrub_json_body(&js_string(&v(&text)), true);
    assert!(out.contains("abcdefgh"), "超过深度上限的部分保持原样，但不该崩");
}

#[test]
fn clips_on_char_boundaries() {
    let r = clip_body(Some("中文中文"), 7);
    assert_eq!(r.preview.as_deref(), Some("中文"));
    assert!(r.truncated);
    assert_eq!(r.bytes, 12, "bytes 记的是原始大小");

    let r = clip_body(Some("short"), 100);
    assert_eq!(r.preview.as_deref(), Some("short"));
    assert!(!r.truncated);

    assert_eq!(clip_body(None, 10).preview, None);
    assert_eq!(clip_body(Some(""), 10).preview.as_deref(), Some(""));
}

#[test]
fn scrubbing_happens_before_clipping() {
    let secret = "SUPERSECRETVALUE".to_string();
    let body = format!("prefix-{secret}-suffix");
    let r = clean_body(Some(&body), std::slice::from_ref(&secret), true, 12);
    let preview = r.preview.unwrap();
    assert!(!preview.contains("SUPER"), "凭据的任何片段都不该留下：{preview}");
    assert!(r.truncated);
}

#[test]
fn assertion_values_are_redacted() {
    let rec = |target: &str, actual: &str, expected: &str| AssertRecord {
        target: target.into(),
        op: "eq".into(),
        expected: expected.into(),
        actual: actual.into(),
        ok: true,
    };
    let out = redact_assertions(
        vec![
            rec("$.data.token", "S3CR3T-TOKEN-abcdef", "—"),
            rec("header.Authorization", "Bearer abcdefgh", "—"),
            rec("status", "200", "200"),
            rec("$.args.page", "2", "2"),
            rec("$.data.token", "∅", "—"),
        ],
        &[],
        true,
    );
    assert_eq!(out[0].actual, "S3CR***", "凭据路径的实际值要掩码");
    assert_eq!(out[1].actual, "Bearer abcd***");
    assert_eq!(out[2].actual, "200", "status 不是凭据，原样");
    assert_eq!(out[3].actual, "2", "普通字段原样");
    assert_eq!(out[4].actual, "∅", "路径不存在的占位符不掩码");
    assert_eq!(out[0].expected, "—", "无期望值的占位符不掩码");

    let out = redact_assertions(vec![rec("$.echo", "prefix-KNOWNSECRET-suffix", "x")], &["KNOWNSECRET".into()], true);
    assert!(!out[0].actual.contains("KNOWNSECRET"), "{}", out[0].actual);

    let raw = vec![rec("$.data.token", "PLAIN", "x")];
    assert_eq!(redact_assertions(raw.clone(), &[], false), raw);
}

#[test]
fn secret_target_detection() {
    for t in ["$.data.token", "header.Authorization", "$.data['api-key']", "$.a.password", "token"] {
        assert!(is_secret_target(t), "{t} 应判为凭据路径");
    }
    for t in ["status", "$.args.page", "$.data.name", "header.Content-Type"] {
        assert!(!is_secret_target(t), "{t} 不该判为凭据路径");
    }
}

#[test]
fn outputs_are_masked_in_report() {
    let mut outs: SortedMap<Json> = SortedMap::new();
    outs.insert("token".into(), v("\"abcdefgh\""));
    outs.insert("id".into(), v("42"));
    let r = redact_outputs(&outs, true);
    assert_eq!(r.get("token"), Some(&v("\"abcd***\"")));
    assert_eq!(r.get("id"), Some(&v("42")), "非凭据原样");
    assert_eq!(redact_outputs(&outs, false), outs);
}

#[test]
fn a_known_secret_leaves_nothing_behind() {
    let secrets = vec!["SECRETVALUE".to_string()];
    let r = clean_body(Some("a SECRETVALUE b SECRETVALUE"), &secrets, true, 1000);
    assert_eq!(r.preview.as_deref(), Some("a *** b ***"));
    assert_eq!(r.bytes, 27, "原文的大小");
    let raw = clean_body(Some("a SECRETVALUE"), &[], false, 1000);
    assert_eq!(raw.preview.as_deref(), Some("a SECRETVALUE"));
}

#[test]
fn a_document_is_masked_by_names() {
    let (next, hit) = mask_document(&v(r#"{"data":{"access_token":"abcdefgh","id":1}}"#));
    assert!(hit);
    assert_eq!(next, v(r#"{"data":{"access_token":"abcd***","id":1}}"#));
    let plain = r#"{"data":[1,"x"]}"#;
    assert_eq!(mask_document(&v(plain)), (v(plain), false));
}

#[test]
fn a_cleaned_body_says_how_large_it_was() {
    let secrets = ["SUPERSECRETVALUE".to_string()];
    let r = clean_body(Some("prefix-SUPERSECRETVALUE-suffix"), &secrets, true, 12);
    assert_eq!(r.bytes, 30, "bytes 记的是原始大小");
    assert_eq!(r.preview.as_deref(), Some("prefix-***-s"));
    assert!(r.truncated);
    let whole = clean_body(Some("prefix-SUPERSECRETVALUE-suffix"), &secrets, true, 20);
    assert_eq!((whole.bytes, whole.truncated), (30, false), "脱敏之后放得下就不算截断");
    let named = clean_body(Some(r#"{"token":"abcdefgh"}"#), &[], true, 1000);
    assert_eq!(named.bytes, 20);
    assert_eq!(clean_body(None, &secrets, true, 12).bytes, 0);
}
