use apicase::emit::{
    block_header, maybe_typed_literal, parses_as_string, plain_round_trips, scalar_str, to_yaml, Quote,
};
use apicase::json::{parse_json, Json};

fn js(text: &str) -> Json {
    parse_json(text).unwrap()
}

#[test]
fn plain_scalars_stay_bare() {
    for s in ["bar", "http://x/y", "GET", "$.data.token", "step1", "a-b_c", "中文值", "-abc", "v1.2.3", "yes", "2026-07-30"] {
        assert_eq!(scalar_str(s, Quote::Strict), s, "{s} 不该被加引号");
    }
}

#[test]
fn string_values_that_look_typed_get_quoted() {
    for s in ["2", "200", "0.1", "-70", "1.10", "1e5", "0x1f", "+5", "true", "false", "True", "null", "~"] {
        let out = scalar_str(s, Quote::Strict);
        assert!(out.starts_with('\''), "{s} 在值位置应加引号，实际 {out}");
    }
    for s in ["yes", "no", "y", "n", "on", "off", "2026-07-30", "12:30", "007", "1_000", "v1", "0.1.0"] {
        assert_eq!(scalar_str(s, Quote::Strict), s, "{s} 本就读成字符串，不该加引号");
    }
}

#[test]
fn assertion_values_are_bare_but_payload_values_are_quoted() {
    let v = js(r#"{ "steps": [{ "request": { "query": [{ "name": "page", "value": "2" }] }, "assertions": [ { "target": "status", "op": "eq", "value": "200" }, { "target": "$.args.page", "op": "eq", "value": "2" }, { "target": "$.ok", "op": "eq", "value": "true" }, { "target": "$.msg", "op": "eq", "value": "ok" } ] }] }"#);
    let out = to_yaml(&v);
    assert!(out.contains("          value: '2'\n"), "query 的值该带引号：\n{out}");
    for want in ["        value: 200\n", "        value: 2\n", "        value: true\n", "        value: ok\n"] {
        assert!(out.contains(want), "断言期望值该裸写 {want:?}：\n{out}");
    }
}

#[test]
fn loose_still_quotes_when_it_must() {
    assert_eq!(scalar_str("1.10", Quote::Loose), "'1.10'", "往返有损");
    assert_eq!(scalar_str("", Quote::Loose), "''", "空串");
    assert_eq!(scalar_str("{{x}}", Quote::Loose), "'{{x}}'", "指示符开头");
    assert_eq!(scalar_str("a: b", Quote::Loose), "'a: b'", "含 key 分隔符");
}

#[test]
fn keys_only_need_round_trip() {
    for s in ["y", "n", "yes", "no", "on", "off", "x", "2", "200", "-70", "0.1", "true"] {
        assert_eq!(scalar_str(s, Quote::Loose), s, "key {s} 不该加引号");
    }
    for s in ["1.10", "1e5", "0x1f", "+5", "True", "null", "~"] {
        assert!(scalar_str(s, Quote::Loose).starts_with('\''), "key {s} 应加引号");
    }
}

#[test]
fn quote_check_matches_the_real_parser() {
    for s in ["yes", "007", "1_000", "bar", "2026-07-30"] {
        assert!(parses_as_string(s), "{s} 应判为字符串");
    }
    for s in ["2", "0.1", "true", "null", ".inf"] {
        assert!(!parses_as_string(s), "{s} 应判为非字符串");
    }
    for s in ["2", "1.10", "1e5", "0x1f", "+5", "True", "null", "~", "0.1", "-70"] {
        assert!(maybe_typed_literal(s), "{s} 必须进入验证");
    }
    for s in ["bar", "http://x/y", "$.args.foo", "GET", "yes"] {
        assert!(!maybe_typed_literal(s), "{s} 可走快速路径");
    }
}

#[test]
fn single_quotes_by_default_double_only_when_needed() {
    assert_eq!(scalar_str(r"{2,3}\d+", Quote::Strict), r"'{2,3}\d+'");
    assert_eq!(scalar_str(r" \d+", Quote::Strict), r"' \d+'", "首空格要引号，反斜杠仍原样");
    assert_eq!(scalar_str("a\tb", Quote::Strict), "\"a\\tb\"");
    assert_eq!(scalar_str("a\u{1}b", Quote::Strict), "\"a\\u0001b\"");
    assert_eq!(scalar_str("'quoted'", Quote::Strict), "'''quoted'''");
    for s in [r"^\d+$", r"C:\Users\a", "it's ok", "say \"hi\""] {
        assert_eq!(scalar_str(s, Quote::Strict), s, "{s} 不该被加引号");
    }
}

#[test]
fn braces_only_matter_at_the_start() {
    assert_eq!(scalar_str("{{baseUrl}}/get", Quote::Strict), "'{{baseUrl}}/get'");
    assert_eq!(scalar_str("{{host}}", Quote::Strict), "'{{host}}'");
    for s in ["http://x/{{id}}", "api/{{v}}/users", "a{b}c", "x{{b}}"] {
        assert_eq!(scalar_str(s, Quote::Strict), s, "{s} 的大括号不在首位，不该加引号");
    }
    assert_eq!(scalar_str("[a]", Quote::Strict), "'[a]'");
    assert_eq!(scalar_str("a[0]", Quote::Strict), "a[0]", "JSONPath 下标不该被加引号");
    assert_eq!(scalar_str("#tag", Quote::Strict), "'#tag'");
    assert_eq!(scalar_str("C#", Quote::Strict), "C#", "井号不在首位且前面没有空格");
}

#[test]
fn free_subtree_preserves_types() {
    for s in ["2", "0.1", "-70", "true", "false", "1.10"] {
        let out = scalar_str(s, Quote::Strict);
        assert!(out.starts_with('\''), "{s} 在 vars/json 里必须加引号保住字符串类型，实际 {out}");
    }
    for s in ["bar", "yes", "y", "2026-07-30", "007", "1_000"] {
        assert_eq!(scalar_str(s, Quote::Strict), s, "{s} 本就读成字符串");
    }
}

#[test]
fn round_trip_check_matches_the_real_parser() {
    for s in ["2", "0.1", "-70", "true", "007", "1_000", ".inf", "yes", "bar"] {
        assert!(plain_round_trips(s), "{s} 应判为往返等价");
    }
    for s in ["1.10", "1e5", "0x1f", "+5", "True", "null", "~"] {
        assert!(!plain_round_trips(s), "{s} 应判为往返有损");
    }
    for s in ["1.10", "1e5", "0x1f", "+5", "True", "null", "~", "0.1", "-70"] {
        assert!(maybe_typed_literal(s), "{s} 必须进入验证");
    }
    for s in ["bar", "http://x/y", "$.args.foo", "GET"] {
        assert!(!maybe_typed_literal(s), "{s} 可走快速路径");
    }
}

#[test]
fn yaml11_bool_aliases_need_no_quotes() {
    for s in ["y", "n", "yes", "no", "on", "off", "Y", "NO"] {
        assert_eq!(scalar_str(s, Quote::Strict), s, "{s} 不该加引号");
        assert_eq!(scalar_str(s, Quote::Loose), s, "key 位置的 {s} 也不必加");
    }
    assert_eq!(scalar_str("true", Quote::Strict), "'true'");
    assert_eq!(scalar_str("true", Quote::Loose), "true");
}

#[test]
fn step_ui_uses_block_style() {
    let v = js(r#"{ "steps": [{ "id": "a", "ui": { "x": 502, "y": -70 }, "request": { "method": "GET" } }] }"#);
    assert_eq!(
        to_yaml(&v),
        "steps:\n  - id: a\n    ui:\n      x: 502\n      y: -70\n    request:\n      method: GET\n"
    );
}

#[test]
fn sequence_indentation() {
    let v = js(r#"{ "steps": [ { "id": "get", "protocol": "http" }, { "id": "post" } ] }"#);
    assert_eq!(
        to_yaml(&v),
        "steps:\n  - id: get\n    protocol: http\n  - id: post\n"
    );
}

#[test]
fn multiline_uses_block_scalar() {
    let v = js(r#"{ "docs": "第一行\n第二行\n" }"#);
    assert_eq!(to_yaml(&v), "docs: |\n  第一行\n  第二行\n");

    let v = js(r#"{ "docs": "第一行\n第二行" }"#);
    assert_eq!(to_yaml(&v), "docs: |-\n  第一行\n  第二行\n");

    let v = js(r#"{ "docs": "a\n\nb\n" }"#);
    assert_eq!(to_yaml(&v), "docs: |\n  a\n\n  b\n");
}

#[test]
fn block_scalar_falls_back_when_unrepresentable() {
    assert_eq!(block_header("行尾有空格 \n第二行\n"), None, "行尾空格在块里会丢");
    assert_eq!(block_header("  首行缩进\n第二行\n"), None, "首行缩进需要显式指示符");
    assert_eq!(block_header("a\r\nb\n"), None, "CRLF 会被规范化");
    assert_eq!(block_header("a\n\n\n"), None, "多个尾换行需要 |+");
    let out = scalar_str("a\r\nb", Quote::Strict);
    assert_eq!(out, "\"a\\r\\nb\"");
}

#[test]
fn floats_keep_their_decimal_point() {
    let v = js(r#"{ "a": 1.0, "b": 1.5, "c": 10 }"#);
    assert_eq!(to_yaml(&v), "a: 1.0\nb: 1.5\nc: 10\n");
}

#[test]
fn empty_containers_use_flow_style() {
    let v = js(r#"{ "vars": {}, "steps": [] }"#);
    assert_eq!(to_yaml(&v), "vars: {}\nsteps: []\n");
}

#[test]
fn single_quote_escaping() {
    assert_eq!(scalar_str("it's", Quote::Strict), "it's", "普通撇号不触发引号");
    assert_eq!(scalar_str("'quoted'", Quote::Strict), "'''quoted'''");
}

#[test]
fn structural_indicators_get_quoted() {
    for s in ["- item", "{a}", "[a]", "#comment", "&anchor", "*ref", "!tag", "a: b", "a #b", "key:", "@at", "`tick`"] {
        let out = scalar_str(s, Quote::Strict);
        assert!(out.starts_with('\'') || out.starts_with('"'), "{s} 应加引号，实际 {out}");
    }
    assert_eq!(scalar_str("{{baseUrl}}/get", Quote::Strict), "'{{baseUrl}}/get'");
}

#[test]
fn nested_structures() {
    let v = js(r#"{ "body": { "type": "json", "json": { "a": 1, "b": [1, 2, { "c": "d" }] } } }"#);
    assert_eq!(
        to_yaml(&v),
        "body:\n  type: json\n  json:\n    a: 1\n    b:\n      - 1\n      - 2\n      - c: d\n"
    );
}

#[test]
fn no_two_texts_are_written_alike() {
    let texts = ["'", "''", "\"", "\\n", "\n", "a\nb", "a\nb\n", "a\\nb", "\u{7}", "\\u0007", "null", "'null'", "a: b", " a", ""];
    for a in texts {
        for b in texts {
            assert_eq!(scalar_str(a, Quote::Strict) == scalar_str(b, Quote::Strict), a == b, "{a:?} {b:?}");
        }
    }
    assert_eq!(scalar_str("it's: x", Quote::Strict), "'it''s: x'");
    assert_eq!(scalar_str("\u{7}\"\\", Quote::Strict), "\"\\u0007\\\"\\\\\"");
}

#[test]
fn a_block_never_begins_indented() {
    assert_eq!(block_header("\n  a\nb\n"), None, "块的缩进取自第一个非空行");
    assert_eq!(block_header("\n\n\ta\nb"), None);
    assert_eq!(block_header("  a\nb\n"), None);
    assert_eq!(block_header("\na\n  b\n"), Some("|"));
    assert_eq!(block_header("a\n\n  b"), Some("|-"));
}

#[test]
fn line_separators_are_written_as_escapes() {
    assert_eq!(scalar_str("a\u{2028}b", Quote::Strict), "\"a\\u2028b\"");
    assert_eq!(scalar_str("a\u{2029}b", Quote::Loose), "\"a\\u2029b\"");
    assert_eq!(scalar_str("\u{FFFF}", Quote::Strict), "\"\\uffff\"");
    assert_eq!(block_header("a\u{2028}\nb"), None);
}

#[test]
fn every_text_is_read_back() {
    let texts = [
        "\n  a\nb\n", "\na\n  b\n", "a\n\n  b", "  a\nb", "a \nb", "a\tb\nc", "a\n\n\n", "\n", "a\u{2028}b", "a\u{2029}\nb",
        "\u{FFFE}", "\u{85}", "\u{7f}", "\u{FEFF}x", "it's: \"x\" # y", "- a", "? b", "true", "0x1f", "1.10", "~", "", " ", "中文\n值",
    ];
    for t in texts {
        let v = Json::Object(vec![
            apicase::json::Member { name: "k".into(), value: Json::Str(t.into()) },
            apicase::json::Member { name: "l".into(), value: Json::Array(vec![Json::Str(t.into()), Json::Str("z".into())]) },
        ]);
        let text = to_yaml(&v);
        assert_eq!(apicase::yaml::load(&text).as_ref(), Ok(&v), "{t:?}\n{text}");
    }
}
