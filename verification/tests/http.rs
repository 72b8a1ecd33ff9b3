use apicase::http::{
    accept_der, accept_pem, accept_proxy, accepts_any_certificate, body_file_error, ca_certificates, ca_format,
    check_content_type, client_key, form_file_error, jar_for, key_of, load_ca_certificates, payload, pool_is_full,
    prepare, proxy_at, proxy_choice, refuse_content_type,
    take_chunk, time_limit, CaFormat, ClientConfig, CookieConfig, Payload, ProxyChoice, ProxyConfig, RequestOptions,
    MAX_CACHED_CLIENTS, MAX_RESPONSE_BYTES,
};
use apicase::report::KvPair;
use apicase::request::{FormPart, HttpRequest, RequestBody};

const TEST_CA_PEM: &str = "-----BEGIN CERTIFICATE-----\n\
MIIDFzCCAf+gAwIBAgIUOOOO5K92DMLFjeHc18cNQ136Mh8wDQYJKoZIhvcNAQEL\n\
BQAwGjEYMBYGA1UEAwwPYXBpY2FzZS10ZXN0LWNhMCAXDTI2MDcyODA2MzYzOFoY\n\
DzIxMjYwNzA0MDYzNjM4WjAaMRgwFgYDVQQDDA9hcGljYXNlLXRlc3QtY2EwggEi\n\
MA0GCSqGSIb3DQEBAQUAA4IBDwAwggEKAoIBAQDRbq2skW/liHTfAbcAPimd/0OC\n\
OZUHkrVLLivzkq2QcMHyvDbZfGVtQwJlWzoMuBCVKuDM1IUJHjegf9ccqy59WyIN\n\
CjNEzNvOXFaWlUw6euL0FLlUnMIKojPbvOsjn2O4FFA+g0yl6eWQk4shAKrHO7d3\n\
+uAtGFR0zPZvkgG8Q0GhDVaoAVHii3YK0x2R2iCUSgwcEai28zMvNAIdvnQojpIB\n\
FodCXN4bgdmHjMeajaexLFBje3k+9BscbCuyprbgponS45cWZo/W0OJSKCSKscG2\n\
PqxI5ZauBpzACgeTp6zD8AHu2vbO8e1oB0OfyWMfQXS+4PSJipajTtbnUlYZAgMB\n\
AAGjUzBRMB0GA1UdDgQWBBQfIMo9w/DlilHgfO7nQbWMpC8zwjAfBgNVHSMEGDAW\n\
gBQfIMo9w/DlilHgfO7nQbWMpC8zwjAPBgNVHRMBAf8EBTADAQH/MA0GCSqGSIb3\n\
DQEBCwUAA4IBAQCZXRIWajEphFSkTCRgfRCDEU6i5ZOBYUamL6htmXT6q3Gw6ZuE\n\
WCCPRPbTPPawOqbcm93QPU+wD8Z4egPR9XQmHkBXdWah9/z8zsA51KqAqHk07m13\n\
kxr6ax3O28kuy7BonYaOm2axKIRKuvGNLFqjCKJzSM1pAyt75oj95GT/wGSoybkr\n\
8vW9QMl0LrAYptQAv9vRUSFqJzhSGlYONfBBlS7WL9tyF4sGn1AwuEZ2yvlwnw/V\n\
jAQHQ5W/qTrZoHrsS9zstP8ENCdKVzlCfq005tKEbPQ74tLVDHe76Sl5lqc6c1iS\n\
DH7Q58rzXuGXGM7MUx1dXEbGRbr7wGIvDp0E\n\
-----END CERTIFICATE-----\n";

#[test]
fn same_config_reuses_one_client() {
    let cfg = ClientConfig {
        proxy: Some(ProxyConfig { mode: "none".into(), url: None }),
        options: Some(RequestOptions { timeout_ms: Some(1000), ..Default::default() }),
        ..Default::default()
    };
    let first = key_of(&cfg, (0, 0));
    for _ in 0..3 {
        assert_eq!(key_of(&cfg, (0, 0)), first, "三次取用只该落一个条目");
    }
}

#[test]
fn different_configs_get_different_clients() {
    let configs = [
        ClientConfig::default(),
        ClientConfig { proxy: Some(ProxyConfig { mode: "none".into(), url: None }), ..Default::default() },
        ClientConfig {
            options: Some(RequestOptions { verify_ssl: Some(false), ..Default::default() }),
            ..Default::default()
        },
        ClientConfig {
            options: Some(RequestOptions { timeout_ms: Some(500), ..Default::default() }),
            ..Default::default()
        },
    ];
    for (i, a) in configs.iter().enumerate() {
        for (j, b) in configs.iter().enumerate() {
            assert_eq!(key_of(a, (0, 0)) == key_of(b, (0, 0)), i == j, "{i} {j}");
        }
    }
}

#[test]
fn cache_is_bounded() {
    let mut kept = 0usize;
    for _ in 0..MAX_CACHED_CLIENTS + 3 {
        if pool_is_full(kept) {
            kept = 0;
        }
        kept += 1;
        assert!(kept <= MAX_CACHED_CLIENTS, "实际 {kept}");
    }
    assert!(!pool_is_full(MAX_CACHED_CLIENTS - 1));
    assert!(pool_is_full(MAX_CACHED_CLIENTS));
}

#[test]
fn ca_file_change_invalidates_the_key() {
    let cfg = ClientConfig {
        options: Some(RequestOptions { ca_cert_path: Some("/tmp/ca.pem".into()), ..Default::default() }),
        ..Default::default()
    };
    assert_ne!(key_of(&cfg, (7, 1)), key_of(&cfg, (7, 15)), "文件内容变了，缓存键必须跟着变");
    assert_ne!(key_of(&cfg, (7, 1)), key_of(&cfg, (8, 1)));
}

#[test]
fn ca_certificate_loading() {
    assert_eq!(ca_format("ca.crt", TEST_CA_PEM.as_bytes()), Ok(CaFormat::Pem));
    assert_eq!(ca_format("ca.der", &[0x30, 0x82, 1, 2]), Ok(CaFormat::Der));
    let read = |bytes: &[u8]| Ok(bytes.to_vec());
    let one = load_ca_certificates("ca.crt", read(TEST_CA_PEM.as_bytes())).expect("单张 PEM 应解析成功");
    assert_eq!(one.len(), 1);

    // bundle：一个文件里串多张（CA 链的常见形态）
    let chain = format!("{TEST_CA_PEM}{TEST_CA_PEM}");
    assert_eq!(load_ca_certificates("chain.pem", read(chain.as_bytes())).expect("bundle 应解析成功").len(), 2);

    let err = load_ca_certificates("nope.crt", Err("No such file".into())).expect_err("应报错");
    assert!(err.contains("读取 CA 证书失败"), "错误应指明是读取阶段失败: {err}");
    assert_eq!(err, "读取 CA 证书失败（nope.crt）: No such file");

    // 内容不是证书 → 必须明确报错，不能静默忽略
    let err = load_ca_certificates("junk.crt", read(b"not a certificate at all")).expect_err("应报错");
    assert!(err.contains("解析 CA 证书失败"), "错误应指明是解析阶段失败: {err}");
    assert_eq!(err, ca_format("junk.crt", b"not a certificate at all").expect_err("应报错"));
}

#[test]
fn an_address_that_is_no_proxy_is_refused() {
    assert!(proxy_at("http://127.0.0.1:7890").is_ok());
    assert!(proxy_at("127.0.0.1:7890").is_ok());
    let err = proxy_at("http://[").expect_err("应报错");
    assert!(err.starts_with("代理地址非法: "), "{err}");
    assert_eq!(accept_proxy(Err("why".into())).err().as_deref(), Some("代理地址非法: why"));
}

#[test]
fn a_content_type_that_is_none_is_refused() {
    assert_eq!(check_content_type("f", "text/plain"), None);
    assert_eq!(check_content_type("f", "image/png; charset=utf-8"), None);
    let err = check_content_type("avatar", "no type").expect("应报错");
    assert!(err.starts_with("表单文件 Content-Type 非法（avatar → no type）: "), "{err}");
    assert_eq!(
        refuse_content_type("a", "b", Some("c".into())).as_deref(),
        Some("表单文件 Content-Type 非法（a → b）: c")
    );
    assert_eq!(refuse_content_type("a", "b", None), None);
}

#[test]
fn every_refusal_of_a_certificate_says_why() {
    let broken = "-----BEGIN CERTIFICATE-----\n!!!\n-----END CERTIFICATE-----\n";
    let err = ca_certificates("bad.pem", broken.as_bytes()).expect_err("应报错");
    assert!(err.starts_with("解析 CA 证书失败（bad.pem）——PEM 格式有误: "), "{err}");
    let err = ca_certificates("x", b"plain").expect_err("应报错");
    assert_eq!(err, "解析 CA 证书失败（x）——既不是 PEM（找不到 BEGIN CERTIFICATE）也不是 DER");
    assert_eq!(ca_certificates("a.der", &[0x30, 0x82, 1, 2]).expect("read later").len(), 1);

    assert_eq!(accept_pem("x", Ok(vec![])).expect_err("应报错"), "解析 CA 证书失败（x）——PEM 里没有找到证书");
    assert_eq!(accept_pem("x", Err("why".into())).expect_err("应报错"), "解析 CA 证书失败（x）——PEM 格式有误: why");
    assert_eq!(accept_der("x", Err("why".into())).expect_err("应报错"), "解析 CA 证书失败（x）——DER 格式有误: why");
}

#[test]
fn the_proxy_follows_the_setting() {
    let with = |mode: &str, url: Option<&str>| ClientConfig {
        proxy: Some(ProxyConfig { mode: mode.into(), url: url.map(str::to_string) }),
        ..Default::default()
    };
    assert!(matches!(proxy_choice(&ClientConfig::default()), ProxyChoice::System));
    assert!(matches!(proxy_choice(&with("none", None)), ProxyChoice::Direct));
    match proxy_choice(&with("custom", Some("http://127.0.0.1:7890"))) {
        ProxyChoice::Via(u) => assert_eq!(u, "http://127.0.0.1:7890"),
        _ => panic!("应走自定义代理"),
    }
}

#[test]
fn the_options_of_a_request_are_read() {
    let cfg = ClientConfig {
        options: Some(RequestOptions { verify_ssl: Some(false), timeout_ms: Some(0), ..Default::default() }),
        cookies: Some(CookieConfig { enabled: true, jar_path: Some("/w/jar".into()) }),
        ..Default::default()
    };
    assert!(accepts_any_certificate(&cfg));
    assert_eq!(time_limit(&cfg), None, "0 = 不限");
    let timed = ClientConfig {
        options: Some(RequestOptions { timeout_ms: Some(5), ..Default::default() }),
        ..Default::default()
    };
    assert_eq!(time_limit(&timed), Some(5));
    assert!(!accepts_any_certificate(&ClientConfig::default()));
    assert!(!client_key(&cfg).is_empty());
    assert!(client_key(&ClientConfig::default()).is_empty());
}

#[test]
fn only_valid_methods_are_sent() {
    let req = |m: &str| HttpRequest {
        method: m.into(),
        url: "http://x/".into(),
        headers: vec![KvPair::new("A", "b"), KvPair::new("", "dropped")],
        body: None,
    };
    let p = prepare(&req("post")).expect("a method");
    assert_eq!(p.method, "POST");
    assert_eq!(p.url, "http://x/");
    assert_eq!(p.headers, vec![KvPair::new("A", "b")]);
    assert!(prepare(&req("NOT A METHOD")).is_err());
    let mut bad = req("GET");
    bad.url = String::new();
    assert!(prepare(&bad).is_err());
}

#[test]
fn a_response_is_bounded() {
    assert!(take_chunk(0, 10).is_ok());
    assert!(take_chunk(MAX_RESPONSE_BYTES - 1, 1).is_ok());
    assert!(take_chunk(MAX_RESPONSE_BYTES, 1).is_err());
    assert!(take_chunk(usize::MAX, usize::MAX).is_err());
}

fn with_body(body: Option<RequestBody>) -> HttpRequest {
    HttpRequest { method: "POST".into(), url: "http://x.test".into(), headers: vec![], body }
}

#[test]
fn an_empty_text_is_no_payload() {
    assert_eq!(payload(&with_body(None)), Payload::Nothing);
    assert_eq!(payload(&with_body(Some(RequestBody::Text(String::new())))), Payload::Nothing);
    assert_eq!(payload(&with_body(Some(RequestBody::Text("{}".into())))), Payload::Text("{}".into()));
    assert_eq!(payload(&with_body(Some(RequestBody::File("/a.bin".into())))), Payload::File("/a.bin".into()));
}

#[test]
fn a_file_of_a_form_is_sent_under_a_name() {
    let part = |path: Option<&str>, name: Option<&str>, kind: Option<&str>| FormPart {
        name: "f".into(),
        value: "v".into(),
        file_path: path.map(Into::into),
        file_name: name.map(Into::into),
        content_type: kind.map(Into::into),
    };
    let sent = payload(&with_body(Some(RequestBody::Form(vec![
        part(None, None, None),
        part(Some("/tmp/a.png"), None, Some("image/png")),
        part(Some("/tmp/a.png"), Some("b.png"), None),
    ]))));
    let Payload::Form(parts) = sent else { panic!("应是表单") };
    assert_eq!(parts[0].file, None);
    assert_eq!(parts[0].value, "v");
    let first = parts[1].file.clone().unwrap();
    assert_eq!(first.path, "/tmp/a.png");
    assert_eq!(first.content_type.as_deref(), Some("image/png"));
    let second = parts[2].file.clone().unwrap();
    assert_eq!(second.name, "b.png");
    assert_eq!(second.content_type, None);
}

#[test]
fn only_enabled_cookies_have_a_jar() {
    let with = |enabled: bool| ClientConfig {
        cookies: Some(CookieConfig { enabled, jar_path: Some("/w/cookies.yml".into()) }),
        ..Default::default()
    };
    assert_eq!(jar_for(&ClientConfig::default()), None);
    assert_eq!(jar_for(&with(false)), None);
    assert_eq!(jar_for(&with(true)).as_deref(), Some("/w/cookies.yml"));
}

#[test]
fn a_new_certificate_makes_a_new_client() {
    let with = |path: &str| ClientConfig {
        options: Some(RequestOptions { ca_cert_path: Some(path.into()), ..Default::default() }),
        ..Default::default()
    };
    assert_ne!(key_of(&with("/ca.pem"), (1, 10)), key_of(&with("/ca.pem"), (2, 10)));
    assert_ne!(key_of(&with("/ca.pem"), (1, 10)), key_of(&with("/ca.pem"), (1, 11)));
    assert_eq!(key_of(&with(" "), (1, 10)), key_of(&with(""), (2, 20)));
}

#[test]
fn rejects_empty_url_and_bad_method() {
    let mut r = HttpRequest { method: "GET".into(), url: "   ".into(), headers: vec![], body: None };
    assert!(prepare(&r).is_err());
    r.url = "https://example.com".into();
    assert!(prepare(&r).is_ok());
    r.method = "BAD METHOD".into();
    assert!(prepare(&r).is_err());
}

#[test]
fn a_method_is_a_token() {
    let ok = |m: &str| {
        let r = HttpRequest { method: m.into(), url: "http://x".into(), headers: vec![], body: None };
        prepare(&r).is_ok()
    };
    for c in ' '..='~' {
        let token = c.is_ascii_alphanumeric() || "!#$%&'*+-.^_`|~".contains(c);
        assert_eq!(ok(&format!("A{c}B")), token, "{c}");
    }
    for m in ["get", "PURGE", " patch ", "A-VERY-LONG-EXTENSION-METHOD"] {
        assert!(ok(m), "{m}");
    }
    for m in ["", "  ", "查询", "A\u{7f}"] {
        assert!(!ok(m), "{m}");
    }
}

#[test]
fn missing_body_file_is_reported_clearly() {
    let r = with_body(Some(RequestBody::File("/tmp/apicase-not-exist-body.bin".into())));
    let Payload::File(path) = payload(&r) else { panic!("应是文件") };
    let err = body_file_error(&path, "没有这个文件");
    assert!(err.contains("读取请求体文件失败"), "错误应指明是请求体文件读取失败: {err}");
    assert_eq!(err, "读取请求体文件失败（/tmp/apicase-not-exist-body.bin）: 没有这个文件");
}

#[test]
fn missing_form_file_error_names_the_field() {
    let r = with_body(Some(RequestBody::Form(vec![FormPart {
        name: "avatar".into(),
        value: String::new(),
        file_path: Some("/tmp/apicase-not-exist-form.png".into()),
        file_name: Some("a.png".into()),
        content_type: Some("image/png".into()),
    }])));
    let Payload::Form(parts) = payload(&r) else { panic!("应是表单") };
    let err = form_file_error(&parts[0].name, &parts[0].file.as_ref().unwrap().path, "没有这个文件");
    assert!(err.contains("读取表单文件失败"), "{err}");
    assert!(err.contains("avatar"), "错误信息应带上字段名: {err}");
}
