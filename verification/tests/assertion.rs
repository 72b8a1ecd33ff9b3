use apicase::assertion::{
    eval_assertions, eval_assertions_in, extract_outputs, extract_outputs_in, is_known_target, number_texts,
    number_texts_in, satisfies, take_outputs, take_outputs_in, NumKeys, RespView,
};
use apicase::json::{parse_json, Json};
use apicase::model::{AssertOp, Assertion, StepOutput};
use apicase::report::{AssertRecord, KvPair};


/// The number that a text is read as.
fn number(s: &str) -> Option<f64> {
    let t = s.trim();
    if t.is_empty() {
        return Some(0.0);
    }
    t.parse::<f64>().ok().filter(|f| f.is_finite())
}

/// A key that is ordered as numbers are.
fn key(f: f64) -> i64 {
    let b = f.to_bits() as i64;
    if b < 0 {
        i64::MIN.wrapping_sub(b)
    } else {
        b
    }
}

fn keys(list: &[Assertion], resp: &RespView) -> Vec<NumKeys> {
    number_texts(list, resp)
        .iter()
        .map(|t| NumKeys {
            actual: t.actual.as_deref().and_then(number).map(key),
            expected: number(&t.expected).map(key),
        })
        .collect()
}


fn headers() -> Vec<KvPair> {
    vec![KvPair::new("Content-Type", "application/json"), KvPair::new("X-Count", "7")]
}

fn resp<'a>(body: &'a str, hs: &'a [KvPair]) -> RespView<'a> {
    RespView { status: 200, headers: hs, body }
}

fn one(target: &str, op: AssertOp, value: Option<&str>, body: &str) -> AssertRecord {
    let hs = headers();
    let list = vec![Assertion { target: target.into(), op, value: value.map(str::to_string) }];
    let r = resp(body, &hs);
    let k = keys(&list, &r);
    eval_assertions(&list, &r, &k).remove(0)
}

fn v(text: &str) -> Json {
    parse_json(text).unwrap()
}

const BODY: &str = r#"{"code":0,"msg":"ok","data":{"token":"abcdef","count":7,"flag":true,"nil":null},"list":[1,2,3]}"#;

#[test]
fn status_target() {
    assert!(one("res.status", AssertOp::Eq, Some("200"), BODY).ok);
    assert!(!one("res.status", AssertOp::Eq, Some("404"), BODY).ok);
    assert!(one("res.status", AssertOp::Lt, Some("300"), BODY).ok);
    assert!(one(" res.status ", AssertOp::Gt, Some("199"), BODY).ok, "两端空白应忽略");
}

#[test]
fn header_target_is_case_insensitive() {
    assert!(one("res.headers.content-type", AssertOp::Contains, Some("json"), BODY).ok);
    assert!(one("res.headers.Content-Type", AssertOp::Contains, Some("json"), BODY).ok);
    assert!(one("res.headers.X-Count", AssertOp::Eq, Some("7"), BODY).ok);
    let miss = one("res.headers.nope", AssertOp::Exists, None, BODY);
    assert!(!miss.ok);
    assert_eq!(miss.actual, "∅");
}

#[test]
fn header_target_bracket_form() {
    assert!(one("res.headers['content-type']", AssertOp::Contains, Some("json"), BODY).ok);
    assert!(one("res.headers[\"X-Count\"]", AssertOp::Eq, Some("7"), BODY).ok);
    assert_eq!(one("res.headers['nope']", AssertOp::Exists, None, BODY).actual, "∅");
}

#[test]
fn body_target() {
    assert!(one("res.body.data.token", AssertOp::Eq, Some("abcdef"), BODY).ok);
    assert!(one("res.body.data.count", AssertOp::Eq, Some("7"), BODY).ok);
    assert!(one("res.body.list[2]", AssertOp::Eq, Some("3"), BODY).ok);
    assert!(one("res.body.data.flag", AssertOp::Eq, Some("true"), BODY).ok);
    assert!(one("res.body[\"data\"].token", AssertOp::Eq, Some("abcdef"), BODY).ok);
}

#[test]
fn body_key_with_hyphen() {
    let b = r#"{"user-name":"张三","x":{"a-b-c":1}}"#;
    assert!(one("res.body.user-name", AssertOp::Eq, Some("张三"), b).ok);
    assert!(one("res.body.x.a-b-c", AssertOp::Eq, Some("1"), b).ok);
}

#[test]
fn legacy_targets_are_invalid() {
    for t in ["status", "header.Content-Type", "$.data.token", "$", "data.token"] {
        assert_eq!(one(t, AssertOp::Exists, None, BODY).actual, "∅", "{t} 应判为无效目标");
    }
}

#[test]
fn malformed_targets_are_invalid() {
    for t in ["res", "res.", "resbody", "response.status", "res.bodyfoo", "res.statusx", "res.headers", "res.headers.", "res.foo"] {
        assert_eq!(one(t, AssertOp::Exists, None, BODY).actual, "∅", "{t} 应判为无效目标");
    }
}

#[test]
fn whole_body_target() {
    assert!(one("res.body", AssertOp::Contains, Some("abcdef"), BODY).ok);
    assert!(one("res.body", AssertOp::Exists, None, BODY).ok);
    let html = "<html>hello</html>";
    assert!(one("res.body", AssertOp::Contains, Some("hello"), html).ok);
    assert!(one("res.body", AssertOp::Matches, Some("^<html>"), html).ok);
}

#[test]
fn comparison_is_loose_across_types() {
    assert!(one("res.body.data.count", AssertOp::Eq, Some("7"), BODY).ok, "数字 vs 文本期望");
    assert!(one("res.body.code", AssertOp::Eq, Some("0"), BODY).ok);
    let s = r#"{"n":"7"}"#;
    assert!(one("res.body.n", AssertOp::Eq, Some("7"), s).ok, "字符串 vs 文本期望");
    assert!(one("res.body.n", AssertOp::Gt, Some("6"), s).ok, "字符串也参与数值比较");
}

#[test]
fn exists_treats_null_as_absent() {
    assert!(!one("res.body.data.nil", AssertOp::Exists, None, BODY).ok);
    assert!(one("res.body.data.nil", AssertOp::NotExists, None, BODY).ok);
    assert!(one("res.body.data.token", AssertOp::Exists, None, BODY).ok);
    assert!(one("res.body.nope", AssertOp::NotExists, None, BODY).ok);
    assert_eq!(one("res.body.data.nil", AssertOp::Exists, None, BODY).actual, "null", "取到 null 显示 null");
    assert_eq!(one("res.body.nope", AssertOp::Exists, None, BODY).actual, "∅", "路径不存在显示 ∅");
}

#[test]
fn valueless_ops_show_dash() {
    assert_eq!(one("res.body.a", AssertOp::Exists, Some("忽略"), BODY).expected, "—");
    assert_eq!(one("res.status", AssertOp::Eq, Some("200"), BODY).expected, "200");
}

#[test]
fn contains_and_matches() {
    assert!(one("res.body.msg", AssertOp::Contains, Some("o"), BODY).ok);
    assert!(!one("res.body.msg", AssertOp::Contains, Some("zzz"), BODY).ok);
    assert!(one("res.body.data.token", AssertOp::Matches, Some("^abc"), BODY).ok);
    assert!(!one("res.body.data.token", AssertOp::Matches, Some("^xyz"), BODY).ok);
    assert!(!one("res.body.data.token", AssertOp::Matches, Some("[unclosed"), BODY).ok);
}

#[test]
fn non_numeric_comparisons_are_false() {
    assert!(!one("res.body.msg", AssertOp::Gt, Some("1"), BODY).ok);
    assert!(!one("res.body.msg", AssertOp::Lt, Some("1"), BODY).ok);
    assert!(!one("res.body.data.count", AssertOp::Gt, Some("非数字"), BODY).ok);
}

#[test]
fn non_json_body_is_handled() {
    let r = one("res.body.a", AssertOp::Exists, None, "<html>not json</html>");
    assert!(!r.ok);
    assert_eq!(r.actual, "∅");
    assert!(one("res.status", AssertOp::Eq, Some("200"), "<html>").ok);
}

#[test]
fn blank_targets_are_skipped() {
    let hs = headers();
    let list = vec![
        Assertion { target: "  ".into(), op: AssertOp::Eq, value: Some("1".into()) },
        Assertion { target: "res.status".into(), op: AssertOp::Eq, value: Some("200".into()) },
    ];
    let r = resp(BODY, &hs);
    let k = keys(&list, &r);
    let out = eval_assertions(&list, &r, &k);
    assert_eq!(out.len(), 1);
    assert_eq!(out[0].target, "res.status");
}

#[test]
fn extracts_outputs() {
    let outs = vec![
        StepOutput { name: "token".into(), path: "$.data.token".into() },
        StepOutput { name: "n".into(), path: "$.data.count".into() },
        StepOutput { name: "missing".into(), path: "$.nope".into() },
        StepOutput { name: "  ".into(), path: "$.code".into() },
    ];
    let got = extract_outputs(&outs, BODY);
    assert_eq!(got.get("token"), Some(&v("\"abcdef\"")));
    assert_eq!(got.get("n"), Some(&v("7")));
    assert_eq!(got.get("missing"), Some(&Json::Null));
    assert_eq!(got.len(), 3, "空名字的输出被跳过");
}

#[test]
fn extract_outputs_on_non_json_body() {
    let outs = vec![StepOutput { name: "t".into(), path: "$.a".into() }];
    assert_eq!(extract_outputs(&outs, "plain text").get("t"), Some(&Json::Null));
}

#[test]
fn known_targets() {
    for t in ["res.status", " res.status ", "res.body", "res.body.a", "res.body[0]", "res.headers.X", "res.headers['a b']"] {
        assert!(is_known_target(t), "{t}");
    }
    for t in ["", "status", "res.statusx", "res.headers", "res.headers.", "$.a"] {
        assert!(!is_known_target(t), "{t}");
    }
}

#[test]
fn opposite_operators_exclude_each_other() {
    let none = NumKeys { actual: None, expected: None };
    for x in [None, Some(v("null")), Some(v("\"a\"")), Some(v("7"))] {
        assert_ne!(
            satisfies(&x, AssertOp::Exists, "", none),
            satisfies(&x, AssertOp::NotExists, "", none)
        );
        assert_ne!(satisfies(&x, AssertOp::Eq, "a", none), satisfies(&x, AssertOp::Ne, "a", none));
    }
    let k = NumKeys { actual: Some(key(2.5)), expected: Some(key(-1.0)) };
    assert!(satisfies(&Some(v("2.5")), AssertOp::Gt, "-1", k));
    assert!(!satisfies(&Some(v("2.5")), AssertOp::Lt, "-1", k));
}

#[test]
fn outputs_are_taken_from_every_part_of_a_response() {
    let hs = headers();
    let r = resp(BODY, &hs);
    let outs = vec![
        StepOutput { name: "code".into(), path: "res.status".into() },
        StepOutput { name: "kind".into(), path: "res.headers.content-type".into() },
        StepOutput { name: "token".into(), path: "res.body.data.token".into() },
        StepOutput { name: "old".into(), path: "$.data.token".into() },
        StepOutput { name: "gone".into(), path: "res.body.nope".into() },
    ];
    let got = take_outputs(&outs, &r);
    assert_eq!(got.get("code"), Some(&v("200")));
    assert_eq!(got.get("kind"), Some(&v("\"application/json\"")));
    assert_eq!(got.get("token"), Some(&v("\"abcdef\"")));
    assert_eq!(got.get("old"), Some(&v("\"abcdef\"")));
    assert_eq!(got.get("gone"), Some(&Json::Null));
}

#[test]
fn a_body_that_was_read_before_gives_the_same() {
    let body = r#"{"code":"0","items":[{"id":7}]}"#;
    let resp = RespView { status: 200, headers: &[], body };
    let doc = parse_json(body);
    let list = [
        Assertion { target: "res.body.code".into(), op: AssertOp::Eq, value: Some("0".into()) },
        Assertion { target: "res.body.items[0].id".into(), op: AssertOp::Gt, value: Some("6".into()) },
    ];
    let k = keys(&list, &resp);
    assert_eq!(number_texts_in(&list, &resp, &doc), number_texts(&list, &resp));
    assert_eq!(eval_assertions_in(&list, &resp, &doc, &k), eval_assertions(&list, &resp, &k));
    assert!(eval_assertions_in(&list, &resp, &doc, &k).iter().all(|r| r.ok));
    assert!(eval_assertions_in(&list, &resp, &None, &k).iter().all(|r| !r.ok), "不是 JSON 就没有路径");

    let outs = [StepOutput { name: "id".into(), path: "$.items[0].id".into() }];
    assert_eq!(extract_outputs_in(&outs, &doc).get("id"), parse_json("7").as_ref());
    assert_eq!(take_outputs_in(&outs, &resp, &doc).get("id"), parse_json("7").as_ref());
    assert_eq!(take_outputs_in(&outs, &resp, &None).get("id"), Some(&Json::Null));
}
