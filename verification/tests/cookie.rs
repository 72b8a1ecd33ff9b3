use apicase::cookie::{
    attach, cookie_inputs, cookie_request, detach, legacy_path, refresh, to_yaml, writes_now, CookieInput, CookieJar, CookieKey,
};
use apicase::http::{client_key, ClientConfig, CookieConfig};
use apicase::report::KvPair;
use apicase::request::HttpRequest;
use apicase::yaml::load;

fn jar_with(url: &str, set_cookies: &[&str]) -> CookieJar {
    let mut jar = CookieJar::new();
    jar.receive(&set_cookies.iter().map(|s| s.to_string()).collect(), url);
    jar
}

fn input(domain: &str, name: &str, value: &str) -> CookieInput {
    CookieInput {
        domain: domain.into(),
        path: String::new(),
        name: name.into(),
        value: value.into(),
        secure: false,
        expires_ms: None,
    }
}

fn now_ms() -> u64 {
    std::time::SystemTime::now().duration_since(std::time::UNIX_EPOCH).unwrap().as_millis() as u64
}

fn get(url: &str) -> HttpRequest {
    HttpRequest { method: "GET".into(), url: url.into(), headers: vec![], body: None }
}

#[test]
fn stores_and_matches_by_domain() {
    let jar = jar_with("https://api.example.com/v1/login", &["sid=abc; Path=/"]);
    assert_eq!(jar.header_for("https://api.example.com/v1/me").as_deref(), Some("sid=abc"));
    assert_eq!(jar.header_for("https://other.com/v1/me"), None, "别的域不该拿到");
}

#[test]
fn multiple_cookies_join_into_one_header() {
    let jar = jar_with("http://localhost/api", &["a=1", "b=2"]);
    let h = jar.header_for("http://localhost/api").expect("应有 cookie");
    assert!(h.contains("a=1") && h.contains("b=2") && h.contains("; "), "实际 {h}");
}

#[test]
fn yaml_groups_by_domain_and_omits_defaults() {
    let mut jar = CookieJar::new();
    jar.put(None, &input("api.test", "sid", "abc")).expect("保存");
    jar.put(None, &CookieInput { secure: true, path: "/admin".into(), ..input(".team.test", "t", "1") })
        .expect("保存");

    let text = to_yaml(&jar.list());
    assert!(text.starts_with("# apicase"), "说明要在最上面：\n{text}");
    assert!(text.contains("expires 省略 = 会话 cookie"), "说明要讲清省略的含义");

    assert!(text.contains("api.test:\n  - name: sid\n    value: abc\n"), "实际：\n{text}");
    assert!(!text.contains("path: /\n"), "path: / 是默认值，不该写出来：\n{text}");
    assert!(text.contains(".team.test:"), "实际：\n{text}");
    assert!(text.contains("path: /admin") && text.contains("secure: true"));
    assert!(!text.contains("httpOnly"), "不该再写 httpOnly：\n{text}");
}

#[test]
fn yaml_round_trips() {
    let mut jar = CookieJar::new();
    let at = (now_ms() / 1000 + 86_400) * 1000;
    jar.put(None, &input("api.test", "sid", "abc")).expect("保存");
    jar.put(None, &CookieInput { expires_ms: Some(at), ..input(".team.test", "t", "1") }).expect("保存");

    let again = CookieJar::from_yaml(&to_yaml(&jar.list()));
    let (a, b) = (jar.list(), again.list());
    assert_eq!(a.len(), b.len());
    for (x, y) in a.iter().zip(b.iter()) {
        assert_eq!(
            (&x.domain, &x.path, &x.name, &x.value, x.secure, x.expires_ms, x.host_only),
            (&y.domain, &y.path, &y.name, &y.value, y.secure, y.expires_ms, y.host_only),
        );
    }
}

#[test]
fn yaml_accepts_handwritten_files() {
    let jar = CookieJar::from_yaml(
        "api.demo.com:\n  - name: sid\n    value: 12345\n    httpOnly: true\n\
         .demo.com:\n  - name: theme\n    value: dark\n    secure: 'true'\n",
    );
    let items = jar.list();
    assert_eq!(items.len(), 2);
    assert_eq!(jar.header_for("http://api.demo.com/x").as_deref(), Some("sid=12345"), "数字值按字符串收下");
    assert!(items.iter().any(|c| c.name == "theme" && c.secure && !c.host_only), "实际 {items:?}");

    let flat = CookieJar::from_yaml("- domain: a.test\n  name: k\n  value: v\n- domain: b.test\n  name: k2\n  value: v2\n");
    assert_eq!(flat.list().len(), 2);
}

#[test]
fn put_adds_a_cookie() {
    let mut jar = CookieJar::new();
    jar.put(None, &input("api.test", "sid", "abc")).expect("应能保存");

    let items = jar.list();
    assert_eq!(items.len(), 1);
    assert_eq!((items[0].name.as_str(), items[0].value.as_str()), ("sid", "abc"));
    assert_eq!(items[0].path, "/", "路径缺省补 /");
    assert!(items[0].host_only, "没写前导点就是 host-only");
    assert_eq!(jar.header_for("http://api.test/x").as_deref(), Some("sid=abc"));
}

#[test]
fn put_with_leading_dot_covers_subdomains() {
    let mut jar = CookieJar::new();
    jar.put(None, &input(".test.com", "t", "1")).expect("应能保存");

    assert!(!jar.list()[0].host_only, "带 Domain 属性不是 host-only");
    assert_eq!(jar.header_for("http://a.test.com/").as_deref(), Some("t=1"), "子域也该带上");
    assert_eq!(jar.header_for("http://test.com/").as_deref(), Some("t=1"));
}

#[test]
fn put_replaces_the_previous_key() {
    let mut jar = CookieJar::new();
    jar.put(None, &input("api.test", "sid", "old")).expect("应能保存");
    let prev = CookieKey { domain: "api.test".into(), path: "/".into(), name: "sid".into() };

    jar.put(Some(&prev), &input("api.test", "sid", "new")).expect("应能保存");
    assert_eq!(jar.list().len(), 1);
    assert_eq!(jar.list()[0].value, "new");

    jar.put(Some(&prev), &input("api.test", "token", "new")).expect("应能保存");
    let items = jar.list();
    assert_eq!(items.len(), 1, "改名后不该留下两条：{items:?}");
    assert_eq!(items[0].name, "token");
}

#[test]
fn put_keeps_the_expiry() {
    let mut jar = CookieJar::new();
    let at = (now_ms() / 1000 + 86_400) * 1000;
    jar.put(None, &CookieInput { expires_ms: Some(at), ..input("api.test", "k", "v") })
        .expect("应能保存");
    assert_eq!(jar.list()[0].expires_ms, Some(at));
}

#[test]
fn yaml_drops_only_the_broken_entry() {
    let jar = CookieJar::from_yaml(
        "api.demo.com:\n  - name: good\n    value: 1\n  - value: 没有名字\n  - name: bad-path\n    path: 不以斜杠开头\n",
    );
    let names: Vec<String> = jar.list().iter().map(|c| c.name.clone()).collect();
    assert_eq!(names, vec!["good"], "只有合法的那条该留下：{names:?}");
}

#[test]
fn persists_across_reload() {
    let jar = jar_with("http://localhost/api", &["sid=xyz"]);
    let again = CookieJar::from_yaml(&to_yaml(&jar.list()));
    assert_eq!(again.header_for("http://localhost/api").as_deref(), Some("sid=xyz"));
}

#[test]
fn broken_file_falls_back_to_empty() {
    assert!(CookieJar::from_yaml("{ 这不是 YAML: [").list().is_empty());
}

#[test]
fn migrates_the_legacy_json_jar() {
    let mut old = cookie_store::CookieStore::default();
    let url = reqwest::Url::parse("http://legacy.test/api").expect("URL");
    old.parse("sid=old; Path=/", &url).expect("解析");
    let mut buf: Vec<u8> = Vec::new();
    cookie_store::serde::json::save_incl_expired_and_nonpersistent(&old, &mut buf).expect("旧格式序列化");

    let jar = CookieJar::from_older(&String::from_utf8(buf).unwrap()).expect("旧格式");
    assert_eq!(jar.header_for("http://legacy.test/x").as_deref(), Some("sid=old"), "旧格式要读得回来");
    assert!(to_yaml(&jar.list()).contains("name: sid"));
    assert!(CookieJar::from_older("不是 JSON").is_none());
}

#[test]
fn manage_list_remove_clear() {
    let mut jar = jar_with("https://a.test/x", &["k1=v1; Path=/", "k2=v2; Path=/"]);
    jar.receive(&vec!["k3=v3".to_string()], "https://b.test/y");

    let items = jar.list();
    assert_eq!(items.len(), 3);
    assert_eq!(items[0].domain, "a.test", "按域排序");
    assert!(items[0].expires_ms.is_none(), "无 Expires 即会话 cookie");

    let it = items[0].clone();
    assert!(jar.remove(&it.domain, &it.path, &it.name));
    assert!(!jar.remove(&it.domain, &it.path, &it.name), "删过了就不该再有");
    assert_eq!(jar.list().len(), 2);

    assert_eq!(jar.clear(Some("a.test")), 1);
    assert_eq!(jar.list().len(), 1, "只该清掉 a.test 那条");
    assert_eq!(jar.clear(None), 1);
    assert!(jar.list().is_empty());
}

#[test]
fn put_rejects_bad_input() {
    let mut jar = CookieJar::new();
    let mut err = |i: CookieInput| jar.put(None, &i).expect_err("应报错");

    assert!(err(input("api.test", "  ", "v")).contains("名不能为空"));
    assert!(err(input("  ", "k", "v")).contains("域不能为空"));
    assert!(err(CookieInput { path: "x".into(), ..input("api.test", "k", "v") }).contains("/ 开头"));
    let past = err(CookieInput { expires_ms: Some(1_000), ..input("api.test", "k", "v") });
    assert!(past.contains("过期时间"), "实际 {past}");
    assert!(jar.list().is_empty(), "报错的这几条都不该留下痕迹");
}

#[test]
fn manual_cookie_header_wins() {
    let jar = jar_with("http://localhost/api", &["sid=fromjar"]);
    let mut req = get("http://localhost/api");
    req.headers = vec![KvPair::new("Cookie", "sid=manual")];
    assert!(!attach(&mut req, Some(&jar)), "已有 Cookie 头就不该再补");
    assert_eq!(req.headers.len(), 1);
    assert_eq!(req.headers[0].value, "sid=manual");

    let mut bare = get("http://localhost/api");
    assert!(attach(&mut bare, Some(&jar)), "没有就该补上");
    assert_eq!(bare.headers[0].value, "sid=fromjar");
}

#[test]
fn disabled_switch_attaches_nothing() {
    let cfg = ClientConfig { cookies: Some(CookieConfig { enabled: false, jar_path: None }), ..Default::default() };
    assert!(client_key(&cfg).is_empty());
    let mut req = get("http://localhost/api");
    assert!(!attach(&mut req, None));
    assert!(req.headers.is_empty());
}

#[test]
fn same_path_shares_one_jar() {
    let at = |p: &str| CookieConfig { enabled: true, jar_path: Some(p.into()) }.key();
    assert_eq!(at("/w/shared.yml"), at("/w/shared.yml"));
    assert_ne!(at("/w/shared.yml"), at("/w/other.yml"));
}

#[test]
fn a_cookie_line_is_composed() {
    let r = cookie_request(&CookieInput { secure: true, path: "/admin".into(), ..input(".team.test", "t", "1") }).unwrap();
    assert!(r.line.starts_with("t=1; Path=/admin"), "{}", r.line);
    assert!(r.line.contains("Domain=.team.test") && r.line.contains("Secure"), "{}", r.line);
    assert!(cookie_request(&input("a.test", "", "v")).is_err());
}

#[test]
fn what_was_put_is_taken_out() {
    let mut jar = CookieJar::new();
    assert!(!jar.is_dirty());
    jar.put(None, &input("api.test", "sid", "abc")).unwrap();
    assert!(jar.is_dirty());
    jar.mark_written();
    assert!(!jar.is_dirty());
    assert!(jar.remove("api.test", "/", "sid"));
    assert!(jar.is_dirty() && jar.list().is_empty());
    assert_eq!(jar.header_for("http://api.test/"), None);
}

#[test]
fn a_new_session_replaces_the_attached_cookie() {
    let mut jar = jar_with("http://localhost/api", &["sid=1"]);
    let mut req = get("http://localhost/api");
    let attached = attach(&mut req, Some(&jar));
    jar.receive(&vec!["sid=2".to_string()], "http://localhost/api");
    refresh(&mut req, Some(&jar), attached);
    assert_eq!(req.headers, vec![KvPair::new("Cookie", "sid=2")]);
    detach(&mut req);
    assert!(req.headers.is_empty());
}

#[test]
fn an_expired_cookie_leaves_the_jar() {
    let mut jar = jar_with("http://localhost/api", &["sid=1"]);
    jar.receive(&vec!["sid=1; Max-Age=0".to_string()], "http://localhost/api");
    assert_eq!(jar.header_for("http://localhost/api"), None);
    jar.gc();
    assert!(jar.list().is_empty());
}

#[test]
fn writes_are_spaced_out() {
    assert!(!writes_now(false, true, None), "没变就不写");
    assert!(writes_now(true, false, None));
    assert!(!writes_now(true, false, Some(999)));
    assert!(writes_now(true, false, Some(1000)));
    assert!(writes_now(true, true, Some(1)));
}

#[test]
fn entries_of_a_jar_file_are_read() {
    let v = load("a.test:\n  - name: k\n    value: v\n    expires: 2026-08-12T03:04:05Z\n").unwrap();
    let l = cookie_inputs(&v);
    assert_eq!(l.len(), 1);
    assert_eq!(l[0].expires_ms, Some(1_786_503_845_000));
    let key = CookieKey { domain: "a".into(), path: "/".into(), name: "n".into() };
    assert_eq!(key, key.clone());
}

#[test]
fn an_older_file_counts_only_where_there_is_no_other() {
    assert_eq!(legacy_path("/w/.apicase/cookies.yml").as_deref(), Some("/w/.apicase/cookies.json"));
    assert_eq!(legacy_path("/w/.apicase/cookies.json"), None);

    let older = r#"[{"raw_cookie":"sid=old; Path=/","path":["/",true],"domain":{"HostOnly":"api.test"},"expires":"SessionEnd"}]"#;
    let jar = CookieJar::load(None, Some(older));
    assert_eq!(jar.header_for("http://api.test/").as_deref(), Some("sid=old"));
    assert!(jar.is_dirty(), "旧文件读进来之后要按新格式写一遍");

    let newer = CookieJar::load(Some("api.test:\n  - { name: sid, value: new }\n"), Some(older));
    assert_eq!(newer.header_for("http://api.test/").as_deref(), Some("sid=new"));
    assert!(!newer.is_dirty());

    for none in [CookieJar::load(None, None), CookieJar::load(None, Some("坏掉了")), CookieJar::load(Some(": : ["), None)] {
        assert!(none.list().is_empty());
        assert!(!none.is_dirty());
    }
}

#[test]
fn marked_cookies_are_dropped() {
    let mut jar = jar_with("http://api.test/", &["a=1; Max-Age=3600", "b=2"]);
    let mut items = jar.list();
    for it in &mut items {
        it.expired = it.name == "a";
    }
    jar.drop_expired(&items);
    assert_eq!(jar.list().into_iter().map(|c| c.name).collect::<Vec<_>>(), ["b"]);
    jar.gc();
    assert_eq!(jar.list().len(), 1, "会话 cookie 不会过期");
}

#[test]
fn no_cookie_goes_along_twice() {
    let jar = jar_with("http://api.test/x/y", &["a=1; Path=/", "a=2; Path=/x", "b=3"]);
    let mut req = get("http://api.test/x/y");
    assert!(attach(&mut req, Some(&jar)));
    let sent = req.headers[0].value.clone();
    let mut parts: Vec<&str> = sent.split("; ").collect();
    parts.sort();
    assert_eq!(parts, ["a=1", "a=2", "b=3"]);
    assert!(!attach(&mut get("不是地址"), Some(&jar)));
}

#[test]
fn a_later_line_replaces_an_earlier_one() {
    let url = "http://localhost/api";
    let held = |lines: &[&str]| jar_with(url, lines).header_for(url);
    assert_eq!(held(&["sid=1", "sid=2; Max-Age=3600"]).as_deref(), Some("sid=2"));
    assert_eq!(held(&["sid=1; Max-Age=3600", "sid=2"]).as_deref(), Some("sid=2"));
    assert_eq!(held(&["sid=1; Max-Age=60", "sid=2; Expires=Wed, 01 Jan 2200 00:00:00 GMT"]).as_deref(), Some("sid=2"));
    assert_eq!(held(&["sid=1", "sid=2; Max-Age=0"]), None);
    assert_eq!(held(&["sid=2; Max-Age=0", "sid=1"]).as_deref(), Some("sid=1"));
    assert_eq!(jar_with(url, &["sid=2; Max-Age=0", "sid=1"]).list()[0].expires_ms, None);
}

#[test]
fn a_cookie_that_is_ended_keeps_the_rest() {
    let mut jar = jar_with("https://localhost/api", &["sid=1; Secure; Path=/"]);
    jar.receive(&vec!["sid=2; Path=/; Max-Age=0".to_string()], "https://localhost/api");
    let items = jar.list();
    assert_eq!(items.len(), 1);
    let it = &items[0];
    assert_eq!((it.value.as_str(), it.secure, it.host_only), ("1", true, true));
    assert_eq!((it.expires_ms, it.expired), (Some(0), true));
}

#[test]
fn a_later_entry_of_a_file_replaces_an_earlier_one() {
    let text = "localhost:\n  - { name: sid, value: '1' }\n  - { name: sid, value: '2', expires: '2200-01-01T00:00:00Z' }\n  - { name: x, value: '1', expires: '2200-01-01T00:00:00Z' }\n  - { name: x, value: '2' }\n";
    let jar = CookieJar::from_yaml(text);
    let got: Vec<(String, String, bool)> =
        jar.list().into_iter().map(|c| (c.name, c.value, c.expires_ms.is_some())).collect();
    assert_eq!(got, vec![("sid".into(), "2".into(), true), ("x".into(), "2".into(), false)]);
    let gone = CookieJar::from_yaml("localhost:\n  - { name: sid, value: '1' }\n  - { name: sid, value: '2', expires: '2001-01-01T00:00:00Z' }\n");
    assert_eq!(gone.header_for("http://localhost/"), None);
}

#[test]
fn a_jar_that_is_written_is_read_again() {
    let mut jar = CookieJar::new();
    let mut lasting = input("a.test", "sid", "max-age of a value");
    lasting.path = "/api".into();
    jar.put(None, &lasting).unwrap();
    let mut wide = input(".b.test", "t", "2");
    wide.expires_ms = Some(4_102_444_800_000);
    wide.secure = true;
    jar.put(None, &wide).unwrap();
    let items = jar.list();
    assert_eq!(items.len(), 2);
    assert_eq!(CookieJar::from_yaml(&to_yaml(&items)).list(), items);
}
