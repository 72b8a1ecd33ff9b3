use apicase::case_file::{analyze_case, dump_case, parse_case};
use apicase::config::{dump_application_config, env_vars, parse_environments, timeout_source};
use apicase::emit::Quote;
use apicase::json::{member, parse_json, Json, Member};
use apicase::model::{
    AssertOp, Assertion, AuthType, BodyType, Case, HttpSpec, Kv, Step, StepOutput, StepUi,
    WorkspaceSettings, CASE_VERSION,
};
use apicase::number::Number;
use apicase::round_trip::{keeps_text, settles, tells};

fn js(text: &str) -> Json {
    parse_json(text).unwrap()
}

/// The settings of a text; a time limit that is written as text is read as a number.
fn parse_settings(text: &str) -> WorkspaceSettings {
    let quoted = timeout_source(text)
        .and_then(|t| t.trim().parse::<f64>().ok())
        .filter(|f| f.is_finite() && *f > 0.0)
        .map(|f| f as u64);
    apicase::config::parse_settings(text, quoted)
}

fn names(m: &[Member]) -> Vec<&str> {
    m.iter().map(|e| e.name.as_str()).collect()
}

const GOLDEN: &str = r#"apicase: v0.1
name: GET 回显参数
steps:
  - id: get
    protocol: http
    ui:
      x: 502
      y: -70
    request:
      method: GET
      url: ${{baseUrl}}/get
      query:
        - name: foo
          value: bar
        - name: page
          value: '2'
    assertions:
      - target: res.status
        op: eq
        value: 200
      - target: res.body.args.foo
        op: eq
        value: bar
      - target: res.body.args.page
        op: eq
        value: 2
    docs: |
      httpbin `/get`：把 URL 的 query 参数原样回显到响应体 `$.args`。
      在「参数」页可看到 foo / page 两个查询参数（与 URL 双向同步）。
"#;


fn sample_case() -> Case {
    parse_case(
        r#"
apicase: v0.1
name: 登录后取用户
vars:
  base: http://localhost
  retries: 3
steps:
  - id: login
    protocol: http
    request:
      method: POST
      url: '{{base}}/login'
      headers:
        - name: X-Trace
          value: t1
          description: 链路追踪
        - name: X-Off
          value: v
          enabled: false
      auth:
        type: basic
        basic:
          username: u
          password: p
      body:
        type: json
        json:
          user: alice
          pwd: '123'
    outputs:
      token: res.body.data.token
    assertions:
      - target: res.status
        op: eq
        value: '200'
  - id: profile
    protocol: http
    dependsOn:
      - login
    request:
      method: GET
      url: '{{base}}/me'
      auth:
        type: bearer
        bearer:
          token: '{{steps.login.outputs.token}}'
    assertions:
      - target: res.body.data.name
        op: exists
"#,
    )
    .expect("应能解析")
}


const APP_YML: &str = r#"# apicase 工作空间配置
environment:
  dev:
    baseUrl: http://localhost:8080
    retries: 3
  prod:
    baseUrl: https://api.example.com
settings:
  verifySsl: false
  timeoutMs: 5000
  caCert: certs/ca.pem
  useCustomCa: true
custom:
  keep: me
"#;


#[test]
fn golden_case_roundtrips_verbatim() {
    let c = parse_case(GOLDEN).expect("应能解析");
    assert_eq!(dump_case(&c), GOLDEN);
}

#[test]
fn ui_coordinate_key_y_is_not_quoted() {
    let c = parse_case(GOLDEN).expect("应能解析");
    let out = dump_case(&c);
    assert!(out.contains("      y: -70\n"), "y 不该带引号：\n{out}");
    assert!(!out.contains("'y'"), "输出里不该再出现 'y'：\n{out}");
    let legacy = GOLDEN.replace("y: -70", "'y': -70");
    let c2 = parse_case(&legacy).expect("旧写法应仍能解析");
    assert_eq!(c2.requests[0].ui, c.requests[0].ui, "两种写法解析结果必须一致");
}

#[test]
fn step_ui_replaces_the_top_level_node_table() {
    let c = parse_case(GOLDEN).expect("应能解析");
    assert_eq!(c.requests[0].ui, Some(StepUi { x: Number::PosInt(502), y: Number::NegInt(-70) }));
    let legacy = "apicase: v0.1\nsteps:\n  - id: a\n    protocol: http\nui:\n  nodes:\n    a:\n      x: 1\n      y: 2\n";
    let c2 = parse_case(legacy).expect("应能解析");
    assert_eq!(c2.requests[0].ui, None, "顶层 ui.nodes 不再被读取");
    assert!(!dump_case(&c2).contains("ui:"), "也不该再写出来");
}

#[test]
fn broken_coordinates_fall_back_to_auto_layout() {
    for bad in ["ui: { x: 一, y: 2 }", "ui: { x: 1 }", "ui: hello", "ui: {}"] {
        let text = format!("apicase: v0.1\nsteps:\n  - id: a\n    protocol: http\n    {bad}\n");
        let c = parse_case(&text).unwrap_or_else(|e| panic!("{bad} 不该让解析失败：{e}"));
        assert_eq!(c.requests[0].ui, None, "{bad} 应回退为无坐标");
        assert_eq!(c.requests[0].id, "a", "{bad} 不该影响 step 本身");
    }
}

#[test]
fn parses_structure() {
    let c = sample_case();
    assert_eq!(c.version, "v0.1");
    assert_eq!(c.name.as_deref(), Some("登录后取用户"));
    assert_eq!(c.requests.len(), 2);

    let login = &c.requests[0];
    assert_eq!(login.id, "login");
    assert_eq!(login.http.method, "POST");
    assert_eq!(login.http.headers.len(), 2);
    assert!(login.http.headers[0].enabled);
    assert_eq!(login.http.headers[0].description.as_deref(), Some("链路追踪"));
    assert!(!login.http.headers[1].enabled, "enabled: false 应被读到");
    assert_eq!(login.http.auth.kind, AuthType::Basic);
    assert_eq!(login.http.auth.basic.as_ref().unwrap().username, "u");
    assert_eq!(login.outputs, vec![StepOutput { name: "token".into(), path: "res.body.data.token".into() }]);
    assert_eq!(login.assertions[0].value.as_deref(), Some("200"));

    let profile = &c.requests[1];
    assert_eq!(profile.depends_on, vec!["login"]);
    assert_eq!(profile.assertions[0].op, AssertOp::Exists);
    assert_eq!(profile.assertions[0].value, None);

    let vars = c.vars.as_ref().unwrap();
    assert_eq!(member(vars, "retries"), Some(&js(r#"3"#)));
    assert_eq!(names(vars), vec!["base", "retries"]);
}

#[test]
fn bare_scalars_are_read_then_normalized() {
    let c = parse_case(
        r#"
apicase: 0.1
name: 123
steps:
  - id: 42
    protocol: http
    request:
      method: GET
      url: http://x/a
      query:
        - name: page
          value: 2
          description: 456
        - name: 1
          value: 1
        - name: flag
          value: true
      headers:
        - name: X-Count
          value: 7
    assertions:
      - target: res.status
        op: eq
        value: 200
"#,
    )
    .expect("应能解析");
    assert_eq!(c.version, "0.1");
    assert_eq!(c.name.as_deref(), Some("123"));
    let st = &c.requests[0];
    assert_eq!(st.id, "42");
    assert_eq!(st.http.query[0].value, "2");
    assert_eq!(st.http.query[0].description.as_deref(), Some("456"));
    assert_eq!(st.http.query[1].name, "1");
    assert_eq!(st.http.query[1].value, "1");
    assert_eq!(st.http.query[2].value, "true");
    assert_eq!(st.http.headers[0].value, "7");
    assert_eq!(st.assertions[0].value.as_deref(), Some("200"));

    let out = dump_case(&c);
    for want in ["apicase: '0.1'", "name: '123'", "id: '42'", "value: '2'", "name: '1'", "value: 'true'"] {
        assert!(out.contains(want), "输出应含 {want}：\n{out}");
    }
    let c2 = parse_case(&out).expect("重解析");
    assert_eq!(c2, c);
    assert_eq!(dump_case(&c2), out, "二次序列化应完全一致");
    assert!(out.contains("        value: 200\n"), "断言期望值该裸写：\n{out}");
}

#[test]
fn free_subtree_keeps_user_types() {
    let text = r#"apicase: v0.1
vars:
  num: 3
  str: '3'
  yes_str: yes
  flag: true
  flag_str: 'true'
steps:
  - id: a
    protocol: http
    request:
      method: POST
      url: http://x
      body:
        type: json
        json:
          n: 1
          s: '1'
          b: false
          bs: 'false'
"#;
    let c = parse_case(text).expect("应能解析");
    let vars = c.vars.as_ref().unwrap();
    assert_eq!(*member(vars, "num").unwrap(), js(r#"3"#), "数字保持数字");
    assert_eq!(*member(vars, "str").unwrap(), js(r#""3""#), "带引号的仍是字符串");
    assert_eq!(*member(vars, "yes_str").unwrap(), js(r#""yes""#), "yes 按 1.2 读成字符串");
    assert_eq!(*member(vars, "flag").unwrap(), js(r#"true"#));
    assert_eq!(*member(vars, "flag_str").unwrap(), js(r#""true""#));

    let json = c.requests[0].http.body.json.as_ref().unwrap().as_object().unwrap();
    assert_eq!(*member(json, "n").unwrap(), js(r#"1"#));
    assert_eq!(*member(json, "s").unwrap(), js(r#""1""#));
    assert_eq!(*member(json, "b").unwrap(), js(r#"false"#));
    assert_eq!(*member(json, "bs").unwrap(), js(r#""false""#));

    assert_eq!(dump_case(&c), text);
}

#[test]
fn parse_dump_parse_is_idempotent() {
    let c = sample_case();
    let text = dump_case(&c);
    let c2 = parse_case(&text).expect("重解析应成功");
    assert_eq!(c, c2);
    assert_eq!(dump_case(&c2), text, "二次序列化应完全一致");
}

#[test]
fn malformed_values_fall_back_instead_of_failing() {
    let c = parse_case(
        r#"
apicase: v0.1
steps:
  - id: a
    request:
      method: get
      url: http://x
      auth:
        type: 我不认识
      body:
        type: 也不认识
    assertions:
      - target: res.status
        op: equals
        value: '1'
      - op: eq
        value: '2'
    dependsOn: 不是数组
    outputs: 也不是对象
"#,
    )
    .expect("不该失败");
    let st = &c.requests[0];
    assert_eq!(st.http.method, "GET", "方法统一大写");
    assert_eq!(st.protocol, "http", "protocol 缺省补 http");
    assert_eq!(st.http.auth.kind, AuthType::NoAuth);
    assert_eq!(st.http.body.kind, BodyType::NoBody);
    assert_eq!(st.assertions.len(), 1, "没有 target 的断言被丢弃");
    assert_eq!(st.assertions[0].op, AssertOp::Eq, "认不出的 op 回落 eq");
    assert!(st.depends_on.is_empty());
    assert!(st.outputs.is_empty());
}

#[test]
fn missing_step_id_is_numbered() {
    let c = parse_case("apicase: v0.1\nsteps:\n  - request:\n      url: http://a\n  - request:\n      url: http://b\n")
        .expect("应能解析");
    assert_eq!(c.requests[0].id, "step1");
    assert_eq!(c.requests[1].id, "step2");
}

#[test]
fn analyze_rejects_non_cases() {
    assert!(!analyze_case("这不是: [有效\n  yaml").valid, "语法错");
    assert!(!analyze_case("- 1\n- 2\n").valid, "顶层是数组");
    assert!(!analyze_case("name: x\n").valid, "没有 steps");

    let r = analyze_case("apicase: v0.1\nsteps:\n  - id: a\n    http:\n      url: http://x\n");
    assert!(!r.valid, "旧的 http: 报文键应判无效");
    assert!(r.error.unwrap().contains("http:"), "错误应指明原因");

    let r = analyze_case("apicase: v0.1\nsteps: []\n");
    assert!(r.valid, "空 steps 是有效 case（新建时就是这样）");
    assert_eq!(r.case.unwrap().requests.len(), 0);
}

#[test]
fn empty_document_is_handled() {
    assert!(!analyze_case("").valid);
    assert_eq!(parse_case("").expect("空文档应能解析").requests.len(), 0);
    assert_eq!(parse_case("# 只有注释\n").expect("纯注释应能解析").version, "v0.1");
}

#[test]
fn body_kinds_roundtrip() {
    let cases = [
        ("json", "      body:\n        type: json\n        json:\n          a: 1\n"),
        ("xml", "      body:\n        type: xml\n        xml: <a/>\n"),
        ("text", "      body:\n        type: text\n        contentType: text/csv\n        text: a,b\n"),
        ("binary", "      body:\n        type: binary\n        contentType: image/png\n        filePath: /p/a.png\n"),
        (
            "form-urlencoded",
            "      body:\n        type: form-urlencoded\n        urlencoded:\n          - name: a\n            value: '1'\n",
        ),
        (
            "form-data",
            "      body:\n        type: form-data\n        formData:\n          - name: f\n            type: file\n            value: /p/a.png\n          - name: t\n            value: v\n",
        ),
    ];
    for (kind, body) in cases {
        let text = format!("apicase: v0.1\nsteps:\n  - id: a\n    protocol: http\n    request:\n      method: POST\n      url: http://x\n{body}");
        let c = parse_case(&text).unwrap_or_else(|e| panic!("{kind} 应能解析: {e}"));
        assert_eq!(c.requests[0].http.body.kind, BodyType::from(kind));
        assert_eq!(dump_case(&c), text, "{kind} 往返应逐字一致");
    }
}

#[test]
fn auth_kinds_roundtrip() {
    let variants = [
        "      auth:\n        type: bearer\n        bearer:\n          token: t\n",
        "      auth:\n        type: basic\n        basic:\n          username: u\n          password: p\n",
        "      auth:\n        type: apikey\n        apikey:\n          key: k\n          value: v\n          in: query\n",
        "      auth:\n        type: digest\n        digest:\n          username: u\n          password: p\n",
        "      auth:\n        type: oauth2\n        oauth2:\n          tokenUrl: http://t\n          clientId: c\n          clientSecret: s\n          scope: read\n          clientAuth: body\n",
    ];
    for auth in variants {
        let text = format!("apicase: v0.1\nsteps:\n  - id: a\n    protocol: http\n    request:\n      method: GET\n      url: http://x\n{auth}");
        let c = parse_case(&text).expect("应能解析");
        assert_eq!(dump_case(&c), text, "auth 往返应逐字一致");
    }
    let text = "apicase: v0.1\nsteps:\n  - id: a\n    protocol: http\n    request:\n      method: GET\n      url: http://x\n      auth:\n        type: oauth2\n        oauth2:\n          tokenUrl: http://t\n          clientId: c\n          clientSecret: s\n";
    let c = parse_case(text).expect("应能解析");
    assert_eq!(dump_case(&c), text);
}

#[test]
fn defaults_are_trimmed_on_dump() {
    let mut c = Case { version: CASE_VERSION.into(), ..Default::default() };
    c.requests.push(Step {
        id: "a".into(),
        protocol: "http".into(),
        ui: None,
        http: HttpSpec {
            method: "GET".into(),
            url: "http://x".into(),
            headers: vec![Kv::new("H", "v"), Kv { name: "  ".into(), value: "  ".into(), enabled: true, description: None }],
            ..Default::default()
        },
        depends_on: vec![],
        outputs: vec![],
        assertions: vec![],
        docs: None,
    });
    let out = dump_case(&c);
    assert_eq!(
        out,
        "apicase: v0.1\nsteps:\n  - id: a\n    protocol: http\n    request:\n      method: GET\n      url: http://x\n      headers:\n        - name: H\n          value: v\n"
    );
    assert!(!out.contains("enabled"), "enabled: true 不落盘");
    assert!(!out.contains("dependsOn"), "空 dependsOn 不落盘");
}

#[test]
fn valueless_assert_ops_drop_their_value() {
    let mut c = Case { version: CASE_VERSION.into(), ..Default::default() };
    c.requests.push(Step {
        id: "a".into(),
        protocol: "http".into(),
        ui: None,
        http: HttpSpec { url: "http://x".into(), ..Default::default() },
        depends_on: vec![],
        outputs: vec![],
        assertions: vec![Assertion { target: "res.body.a".into(), op: AssertOp::Exists, value: Some("被忽略".into()) }],
        docs: None,
    });
    let out = dump_case(&c);
    assert!(out.contains("op: exists\n"), "{out}");
    assert!(!out.contains("被忽略"), "exists 不该落 value：{out}");
}

#[test]
fn parses_environments_in_written_order() {
    let envs = parse_environments(APP_YML);
    assert_eq!(names(&envs), vec!["dev", "prod"], "环境顺序按书写序");
    let dev = env_vars(&envs, "dev");
    assert_eq!(dev.get("baseUrl").map(String::as_str), Some("http://localhost:8080"));
    assert_eq!(dev.get("retries").map(String::as_str), Some("3"), "非字符串值转成字符串");
    assert!(env_vars(&envs, "不存在").is_empty());
}

#[test]
fn parses_settings() {
    let s = parse_settings(APP_YML);
    assert!(!s.verify_ssl);
    assert!(s.use_custom_ca);
    assert_eq!(s.ca_cert, "certs/ca.pem");
    assert_eq!(s.timeout_ms, 5000);
}

#[test]
fn broken_config_falls_back_to_defaults() {
    for bad in ["这不是: [有效\n  yaml", "", "environment: 不是对象\n", "settings: 42\n"] {
        let s = parse_settings(bad);
        assert_eq!(s, WorkspaceSettings::default(), "坏配置应回落默认：{bad:?}");
        assert!(parse_environments(bad).is_empty());
    }
    assert_eq!(parse_settings("settings:\n  timeoutMs: -5\n").timeout_ms, 0);
    assert_eq!(parse_settings("settings:\n  timeoutMs: 很久\n").timeout_ms, 0);
    assert!(parse_settings("settings:\n  verifySsl: 随便\n").verify_ssl);
}

#[test]
fn dump_app_config_preserves_unknown_keys() {
    let envs = parse_environments(APP_YML);
    let st = parse_settings(APP_YML);
    let out = dump_application_config(APP_YML, &envs, Some(&st));
    assert!(out.contains("custom:\n  keep: me\n"), "未知顶层键应保留：\n{out}");
    assert_eq!(parse_settings(&out), st);
    assert_eq!(parse_environments(&out), envs);
}

#[test]
fn dump_app_config_drops_all_default_settings() {
    let envs = parse_environments(APP_YML);
    let out = dump_application_config(APP_YML, &envs, Some(&WorkspaceSettings::default()));
    assert!(!out.contains("settings:"), "全默认时不该写 settings 键：\n{out}");
}

#[test]
fn dump_app_config_keeps_unknown_settings_keys() {
    let base = "settings:\n  verifySsl: false\n  myFutureFlag: true\n";
    let out = dump_application_config(base, &Vec::new(), Some(&parse_settings(base)));
    assert!(out.contains("myFutureFlag: true"), "未知 settings 键应保留：\n{out}");
    assert!(out.contains("verifySsl: false"), "{out}");
}

#[test]
fn dump_app_config_leaves_settings_untouched_when_none() {
    let out = dump_application_config(APP_YML, &parse_environments(APP_YML), None);
    assert_eq!(parse_settings(&out), parse_settings(APP_YML));
}

#[test]
fn a_case_that_is_written_is_read_back() {
    let c = sample_case();
    assert_eq!(parse_case(&dump_case(&c)).expect("it was written"), c);
}

#[test]
fn quoted_time_limits_are_numbers_too() {
    assert_eq!(parse_settings("settings:\n  timeoutMs: '3000'\n").timeout_ms, 3000);
    assert_eq!(parse_settings("settings:\n  timeoutMs: 2500.9\n").timeout_ms, 2500);
    assert_eq!(parse_settings("settings:\n  timeoutMs: '-3'\n").timeout_ms, 0);
    assert_eq!(timeout_source("settings:\n  timeoutMs: 3\n"), None);
}

#[test]
fn the_number_of_cases_at_a_time_is_bounded() {
    assert_eq!(parse_settings("settings:\n  concurrency: 8\n").concurrency, 8);
    assert_eq!(parse_settings("settings:\n  concurrency: 0\n").concurrency, 1);
    assert_eq!(parse_settings("settings:\n  concurrency: 1000\n").concurrency, 64);
    let s = WorkspaceSettings { concurrency: 4, ..WorkspaceSettings::default() };
    let out = dump_application_config("", &Vec::new(), Some(&s));
    assert!(out.contains("concurrency: 4"), "{out}");
    assert_eq!(parse_settings(&out), s);
}

#[test]
fn only_bad_yaml_is_no_case() {
    for odd in ["", "5", "steps: 1", "steps: [1, null, {id: [a]}]", "vars: x\nname: [1]"] {
        assert!(parse_case(odd).is_ok(), "{odd}");
    }
    assert!(parse_case("a: [").is_err());
    assert!(parse_environments("a: [").is_empty());
    assert_eq!(parse_settings("a: ["), parse_settings(""));
}

#[test]
fn one_writing_settles_a_case() {
    let odd = parse_case(
        "steps:\n  - request:\n      method: post\n      query: [{ name: ' ', value: '' }, { name: a, value: b, description: ' ' }]\n      body: { type: json }\n    dependsOn: ['', x]\n    outputs: { ' t ': $.a, t: $.b, ' ': $.c }\n    assertions: [{ target: ' ', op: eq }, { target: res.status, op: exists, value: 1 }]\n    docs: ' '\n",
    )
    .unwrap();
    let once = parse_case(&dump_case(&odd)).unwrap();
    assert_ne!(once, odd);
    assert_eq!(parse_case(&dump_case(&once)).unwrap(), once);
    assert!(keeps_text(&odd));
    assert!(keeps_text(&once));
    assert!(keeps_text(&sample_case()));
    assert!(settles(&odd) && settles(&once) && settles(&sample_case()));
}

#[test]
fn the_text_of_a_case_keeps_every_character() {
    let mut c = sample_case();
    for odd in ["a: b", "- x", " # y", "\t", "\"'", "\n  a\nb\n", "x\n\n", "~", "0x1f", "1e3", "null", "\u{2028}", "\u{feff}a", "\u{7}"] {
        c.name = Some(odd.to_string());
        c.requests[0].http.url = odd.to_string();
        assert!(keeps_text(&c), "{odd:?}");
    }
}

#[test]
fn types_are_kept_below_vars_and_in_what_is_sent() {
    let c = parse_case(
        "vars:\n  assertions: '200'\n  n: 3\nsteps:\n  - id: a\n    request:\n      url: http://x\n      body:\n        type: json\n        json:\n          assertions:\n            - value: '200'\n            - 200\n    assertions:\n      - target: res.status\n        op: eq\n        value: '200'\n",
    )
    .unwrap();
    let text = dump_case(&c);
    assert!(text.contains("  assertions: '200'\n"), "{text}");
    assert!(text.contains("            - value: '200'\n            - 200\n"), "{text}");
    assert!(text.contains("        value: 200\n"), "{text}");
    assert!(keeps_text(&c));
    assert_eq!(parse_case(&text).unwrap(), c);
}

#[test]
fn what_is_read_says_what_was_written() {
    let a = js(r#"{"a":[1,-2,0.5,"x",true,null],"b":{}}"#);
    assert!(tells(&a, &a.clone(), Quote::Strict));
    for other in [
        r#"{"a":[1,-2,0.5,"x",true],"b":{}}"#,
        r#"{"a":[1,2,0.5,"x",true,null],"b":{}}"#,
        r#"{"a":[1,-2,0.25,"x",true,null],"b":{}}"#,
        r#"{"a":[1,-2,0.5,"y",true,null],"b":{}}"#,
        r#"{"b":{},"a":[1,-2,0.5,"x",true,null]}"#,
        "[]",
    ] {
        assert!(!tells(&a, &js(other), Quote::Strict), "{other}");
    }
    let (text, number) = (js(r#"{"v":"200"}"#), js(r#"{"v":200}"#));
    assert!(tells(&text, &number, Quote::Loose), "the characters are the same");
    assert!(!tells(&number, &text, Quote::Loose));
    assert!(!tells(&text, &number, Quote::Strict));
    assert!(tells(&Json::Number(Number::PosInt(3)), &Json::Number(Number::NegInt(3)), Quote::Free));
}
