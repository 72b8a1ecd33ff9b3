use apicase::json::{js_string, parse_json, Json, Member};
use apicase::model::{AuthSpec, AuthType, BearerAuth, BodySpec, BodyType, FormItem, FormKind, HttpSpec, Kv};
use apicase::table::SortedMap;
use apicase::vars::{resolve_http, resolve_json, resolve_string, RunContext};

fn v(text: &str) -> Json {
    parse_json(text).unwrap()
}

fn ctx() -> RunContext {
    let mut c = RunContext::default();
    c.vars.insert("base".into(), v("\"http://x\""));
    c.vars.insert("n".into(), v("5"));
    c.vars.insert("obj".into(), v("{\"a\":1}"));
    c.vars.insert("nil".into(), v("null"));
    let mut outputs = SortedMap::new();
    outputs.insert("token".into(), v("\"T0K\""));
    c.steps.insert("login".into(), outputs);
    c
}

#[test]
fn substitutes_vars_and_outputs() {
    let c = ctx();
    assert_eq!(resolve_string("${{base}}/api", &c), "http://x/api");
    assert_eq!(resolve_string("${{ base }}/api", &c), "http://x/api", "内部空白忽略");
    assert_eq!(resolve_string("${{vars.base}}", &c), "http://x", "vars. 前缀可选");
    assert_eq!(resolve_string("${{n}}", &c), "5", "非字符串值转文本");
    assert_eq!(resolve_string("${{obj}}", &c), "{\"a\":1}", "结构体走 JSON");
    assert_eq!(resolve_string("Bearer ${{steps.login.outputs.token}}", &c), "Bearer T0K");
    assert_eq!(resolve_string("${{requests.login.outputs.token}}", &c), "T0K", "旧前缀仍认");
    assert_eq!(resolve_string("${{base}}/${{n}}/${{base}}", &c), "http://x/5/http://x", "多处替换");
}

#[test]
fn only_dollar_form_is_substituted() {
    let c = ctx();
    assert_eq!(resolve_string("${{base}}/api", &c), "http://x/api");
    assert_eq!(resolve_string("{{base}}/api", &c), "{{base}}/api");
    assert_eq!(resolve_string("Bearer {{steps.login.outputs.token}}", &c), "Bearer {{steps.login.outputs.token}}");
    assert_eq!(resolve_string("${{base}}/{{n}}", &c), "http://x/{{n}}");
}

#[test]
fn unresolved_expressions_are_kept_verbatim() {
    let c = ctx();
    assert_eq!(resolve_string("${{missing}}", &c), "${{missing}}");
    assert_eq!(resolve_string("${{nil}}", &c), "${{nil}}", "值为 null 同样保留");
    assert_eq!(resolve_string("${{steps.nope.outputs.x}}", &c), "${{steps.nope.outputs.x}}");
    assert_eq!(resolve_string("${{login.outputs.token}}", &c), "${{login.outputs.token}}", "缺 steps. 前缀不认");
}

#[test]
fn lone_dollar_is_untouched() {
    let c = ctx();
    assert_eq!(resolve_string("$.args.foo", &c), "$.args.foo");
    assert_eq!(resolve_string("$", &c), "$");
    assert_eq!(resolve_string("${base}", &c), "${base}", "单层花括号不是变量语法");
    assert_eq!(resolve_string("价格 $100 起", &c), "价格 $100 起");
    assert_eq!(resolve_string("$${{base}}", &c), "$http://x");
}

#[test]
fn malformed_braces_are_left_alone() {
    let c = ctx();
    for s in ["${{}}", "${{a}b}}", "$ {{base}}", "${{base", "}}base${{", "${{{base}}"] {
        let out = resolve_string(s, &c);
        assert!(!out.is_empty(), "{s} 不该被吃掉");
    }
    assert_eq!(resolve_string("${{a}b}}", &c), "${{a}b}}", "表达式内含右花括号时不构成替换");
    assert_eq!(resolve_string("${{}}", &c), "${{}}", "空表达式不替换");
    assert_eq!(resolve_string("${{ }}", &c), "${{ }}", "只有空白的表达式不替换");
    assert_eq!(resolve_string("${{{base}}", &c), "${{{base}}");
}

#[test]
fn multibyte_text_survives() {
    let c = ctx();
    assert_eq!(resolve_string("前缀${{base}}后缀：中文", &c), "前缀http://x后缀：中文");
    assert_eq!(resolve_string("没有变量的中文文本", &c), "没有变量的中文文本");
}

#[test]
fn vars_case_vars_override_environment() {
    let mut env: SortedMap<String> = SortedMap::new();
    env.insert("a".into(), "env".into());
    env.insert("b".into(), "envB".into());
    let cv = vec![Member { name: "a".into(), value: v("\"case\"") }];
    let c = RunContext::new(&env, Some(&cv));
    assert_eq!(resolve_string("${{a}}/${{b}}", &c), "case/envB");
}

#[test]
fn json_body_is_resolved_structurally() {
    let mut c = ctx();
    c.vars.insert("evil".into(), v(r#""a\"b""#));
    let body = v(r#"{"${{base}}":"${{evil}}","list":["${{n}}",{"k":"${{base}}"}]}"#);
    let out = resolve_json(&body, &c);
    assert_eq!(out, v(r#"{"http://x":"a\"b","list":["5",{"k":"http://x"}]}"#));
    assert!(parse_json(&js_string(&out)).is_some());
}

#[test]
fn resolves_whole_request() {
    let c = ctx();
    let h = HttpSpec {
        method: "POST".into(),
        url: "${{base}}/login".into(),
        query: vec![Kv::new("t", "${{steps.login.outputs.token}}")],
        headers: vec![Kv::new("X-${{n}}", "${{base}}")],
        auth: AuthSpec {
            kind: AuthType::Bearer,
            bearer: Some(BearerAuth { token: "${{steps.login.outputs.token}}".into() }),
            ..Default::default()
        },
        body: BodySpec {
            kind: BodyType::FormData,
            form_data: Some(vec![FormItem {
                name: "f".into(),
                value: "${{base}}/a.png".into(),
                enabled: true,
                description: None,
                kind: Some(FormKind::File),
            }]),
            ..Default::default()
        },
    };
    let r = resolve_http(&h, &c);
    assert_eq!(r.url, "http://x/login");
    assert_eq!(r.query[0].value, "T0K");
    assert_eq!(r.headers[0].name, "X-5");
    assert_eq!(r.auth.bearer.unwrap().token, "T0K");
    assert_eq!(r.body.form_data.unwrap()[0].value, "http://x/a.png", "文件路径也参与替换");
    assert_eq!(r.method, "POST", "方法不做替换");
}

#[test]
fn fast_path_for_plain_strings() {
    let c = ctx();
    let s = "http://plain/url?a=1";
    assert_eq!(resolve_string(s, &c), s);
}

#[test]
fn values_never_break_the_structure() {
    let mut c = ctx();
    c.vars.insert("quote".into(), v(r#""a\"]}""#));
    let got = resolve_json(&v(r#"{"a":["${{quote}}",1,null],"${{n}}":true}"#), &c);
    assert_eq!(got, v(r#"{"a":["a\"]}",1,null],"5":true}"#));
}
