use apicase::assertion::{number_texts, NumKeys, RespView};
use apicase::auth::{digest_retry, read_token, token_key, token_step, with_token, CachedToken, TokenStep};
use apicase::http::{prepare, ClientConfig, HttpResponse, ProxyConfig, RequestOptions};
use apicase::json::{parse_json, Json};
use apicase::model::{AuthType, Step};
use apicase::report::{
    CaseResult, CaseStatus, EnvironmentInfo, KvPair, RunOptions, RunReport, RunStatus, StepResult, StepStatus,
    WorkspaceInfo,
};
use apicase::report_json::case_to_json;
use apicase::request::{build, HttpRequest};
use apicase::run::{open_file, open_text};
use apicase::runner::{
    begin_report, blocked_from_outcomes, blocked_steps, fail_step, finish_report, finish_step, halts, push_case,
    takes_more, topo_order, with_dependencies, BatchMeta, CaseAction, CaseRun, RunOpts, StepOutcome,
    DEFAULT_MAX_BODY_BYTES,
};
use apicase::table::SortedMap;
use apicase::vars::{resolve_http, RunContext};
use std::cell::RefCell;

/// What a server answers.
struct Reply {
    status: u16,
    headers: Vec<KvPair>,
    body: String,
}

impl Reply {
    fn json(body: impl Into<String>) -> Self {
        Reply { status: 200, headers: vec![KvPair::new("Content-Type", "application/json")], body: body.into() }
    }
    fn status(status: u16) -> Self {
        Reply { status, headers: vec![], body: String::new() }
    }
    fn with_header(mut self, k: &str, v: &str) -> Self {
        self.headers.push(KvPair::new(k, v));
        self
    }
    fn with_body(mut self, b: &str) -> Self {
        self.body = b.into();
        self
    }
}

/// A request as a server sees it.
#[derive(Clone, Debug)]
struct Seen {
    method: String,
    path: String,
    headers: Vec<KvPair>,
    body: String,
}

impl Seen {
    fn header(&self, name: &str) -> Option<&str> {
        self.headers.iter().find(|h| h.key.eq_ignore_ascii_case(name)).map(|h| h.value.as_str())
    }
}

const BASE: &str = "http://mock.test";

/// A server that answers without a network, and the tokens that a runner keeps.
struct MockServer {
    base: String,
    reply: Box<dyn Fn(&Seen) -> Reply>,
    seen: RefCell<Vec<Seen>>,
    tokens: RefCell<Vec<(String, CachedToken)>>,
}

impl MockServer {
    fn start(reply: impl Fn(&Seen) -> Reply + 'static) -> Self {
        MockServer {
            base: BASE.into(),
            reply: Box::new(reply),
            seen: RefCell::new(Vec::new()),
            tokens: RefCell::new(Vec::new()),
        }
    }

    fn requests(&self) -> Vec<Seen> {
        self.seen.borrow().clone()
    }

    fn send(&self, req: &HttpRequest) -> Result<HttpResponse, String> {
        let p = prepare(req)?;
        let Some(path) = p.url.strip_prefix(&self.base) else {
            return Err(format!("连接被拒绝 ({})", p.url));
        };
        let seen = Seen {
            method: p.method.clone(),
            path: path.to_string(),
            headers: p.headers.clone(),
            body: req.body_text().unwrap_or("").to_string(),
        };
        let r = (self.reply)(&seen);
        self.seen.borrow_mut().push(seen);
        Ok(HttpResponse { status: r.status, status_text: "".into(), headers: r.headers, body: r.body, elapsed_ms: 1 })
    }

    fn token(&self, step: &Step, ctx: &RunContext) -> Result<Option<CachedToken>, String> {
        let spec = resolve_http(&step.http, ctx);
        if spec.auth.kind != AuthType::Oauth2 {
            return Ok(None);
        }
        let Some(o) = spec.auth.oauth2 else { return Ok(None) };
        let key = token_key(&o);
        let kept = self.tokens.borrow().iter().find(|(k, _)| *k == key).map(|(_, t)| t.clone());
        match token_step(&o, &kept, 1_000) {
            TokenStep::Use(t) => Ok(Some(t)),
            TokenStep::Fail(e) => Err(e),
            TokenStep::Ask(req) => {
                let r = self.send(&req)?;
                let t = read_token(r.status, &r.body, Some(3_600_000), 1_000)?;
                self.tokens.borrow_mut().push((key, t.clone()));
                Ok(Some(t))
            }
        }
    }

    fn send_with_auth(&self, step: &Step, ctx: &RunContext) -> Result<(HttpRequest, HttpResponse), String> {
        let spec = resolve_http(&step.http, ctx);
        let mut req = build(&spec);
        if let Some(t) = self.token(step, ctx)? {
            req = with_token(&req, &t);
        }
        let resp = self.send(&req)?;
        if let Some(again) = digest_retry(&spec, &req, resp.status, &resp.headers, "c0ffee") {
            let resp = self.send(&again)?;
            return Ok((again, resp));
        }
        Ok((req, resp))
    }

    fn run_step(&self, step: &Step, ctx: &RunContext, opts: &RunOpts) -> (StepResult, SortedMap<Json>) {
        match self.send_with_auth(step, ctx) {
            Ok((sent, resp)) => {
                let view = RespView { status: resp.status, headers: &resp.headers, body: &resp.body };
                let keys = keys(step, &view);
                finish_step(step, ctx, opts, &sent, &resp, &keys, 1)
            }
            Err(e) => (fail_step(step, ctx, opts, &e, 1), SortedMap::new()),
        }
    }

    fn run_case(&self, text: &str, file: &str, opts: &RunOpts) -> CaseResult {
        let case = match open_text(text, file, 0) {
            Ok(c) => c,
            Err(skipped) => return skipped,
        };
        let mut run = CaseRun::begin(&case, &opts.environment.vars);
        loop {
            match run.next(&case, false) {
                CaseAction::Done => break,
                CaseAction::Skipped => {}
                CaseAction::Run(i) => {
                    let (r, out) = self.run_step(&case.requests[i], &run.ctx, opts);
                    run.record(&case.requests[i], r, out, opts);
                }
            }
        }
        run.finish(&case, file, 0, 1)
    }

    fn run_batch(
        &self,
        files: &[(&str, Result<String, String>)],
        opts: &RunOpts,
        progress: &mut dyn FnMut(&RunReport) -> bool,
    ) -> RunReport {
        let mut report = begin_report(meta(), opts, 0);
        let mut cancelled = progress(&report);
        let mut stopped = false;
        for (file, text) in files {
            if !takes_more(cancelled, stopped) {
                break;
            }
            let r = match open_file(text, file, 0) {
                Err(s) => s,
                Ok(_) => self.run_case(text.as_ref().unwrap(), file, opts),
            };
            stopped = halts(opts.stop_on_failure, r.status);
            push_case(&mut report, r, 1);
            cancelled = progress(&report) || cancelled;
        }
        finish_report(&mut report, cancelled, stopped, 5, 5);
        progress(&report);
        report
    }
}

fn number(t: &str) -> Option<f64> {
    let t = t.trim();
    if t.is_empty() {
        return Some(0.0);
    }
    t.parse().ok()
}

fn key(f: f64) -> i64 {
    let b = f.to_bits() as i64;
    if b < 0 {
        i64::MIN.wrapping_sub(b)
    } else {
        b
    }
}

fn keys(step: &Step, view: &RespView) -> Vec<NumKeys> {
    number_texts(&step.assertions, view)
        .iter()
        .map(|t| NumKeys {
            actual: t.actual.as_deref().and_then(number).map(key),
            expected: number(&t.expected).map(key),
        })
        .collect()
}

fn direct(env_vars: &[(&str, &str)]) -> RunOpts {
    let mut vars = SortedMap::new();
    for (k, v) in env_vars {
        vars.insert(k.to_string(), v.to_string());
    }
    let mut o = RunOpts::for_batch(EnvironmentInfo { name: "test".into(), vars });
    o.client = ClientConfig {
        proxy: Some(ProxyConfig { mode: "none".into(), url: None }),
        options: Some(RequestOptions { timeout_ms: Some(10_000), ..Default::default() }),
        ..Default::default()
    };
    o
}

fn meta() -> BatchMeta {
    BatchMeta {
        workspace: WorkspaceInfo { name: "w".into(), root: "/w".into() },
        tool_version: "0.1.0".into(),
        options: RunOptions {
            targets: vec![".".into()],
            recursive: true,
            environment: "test".into(),
            concurrency: 1,
            stop_on_failure: false,
            max_body_bytes: DEFAULT_MAX_BODY_BYTES,
            continue_on_assertion_failure: false,
        },
    }
}

fn steps_with_deps(spec: &[(&str, &[&str])]) -> Vec<Step> {
    spec.iter()
        .map(|(id, deps)| Step {
            id: (*id).into(),
            protocol: "http".into(),
            ui: None,
            http: apicase::model::HttpSpec::default(),
            depends_on: deps.iter().map(|d| d.to_string()).collect(),
            outputs: vec![],
            assertions: vec![],
            docs: None,
        })
        .collect()
}


#[test]
fn topo_order_respects_dependencies() {
    let steps = steps_with_deps(&[("c", &["b"]), ("a", &[]), ("b", &["a"])]);
    let order: Vec<&str> = topo_order(&steps).iter().map(|&i| steps[i].id.as_str()).collect();
    assert_eq!(order, vec!["a", "b", "c"]);
}

#[test]
fn topo_order_survives_cycles() {
    let steps = steps_with_deps(&[("a", &["b"]), ("b", &["a"])]);
    let order = topo_order(&steps);
    assert_eq!(order.len(), 2, "成环时仍要把每个 step 排进去一次");

    let steps = steps_with_deps(&[("a", &["a"])]);
    assert_eq!(topo_order(&steps).len(), 1);

    let steps = steps_with_deps(&[("a", &["幽灵"])]);
    assert_eq!(topo_order(&steps).len(), 1);
}

const LOGIN_CASE: &str = r#"
apicase: v0.1
name: 登录后取用户
steps:
  - id: login
    protocol: http
    request:
      method: POST
      url: ${{base}}/login
      body:
        type: json
        json:
          user: alice
    outputs:
      token: $.data.token
    assertions:
      - target: res.status
        op: eq
        value: 200
      - target: res.body.data.token
        op: exists
  - id: profile
    protocol: http
    dependsOn:
      - login
    request:
      method: GET
      url: ${{base}}/me
      auth:
        type: bearer
        bearer:
          token: ${{steps.login.outputs.token}}
    assertions:
      - target: res.body.name
        op: eq
        value: alice
"#;


fn case_hitting(base: &str, path: &str, expect_code: &str) -> String {
    format!(
        "apicase: v0.1\nsteps:\n  - id: a\n    request:\n      method: GET\n      url: {base}{path}\n    assertions:\n      - target: res.body.code\n        op: eq\n        value: '{expect_code}'\n"
    )
}


#[test]
fn runs_a_multi_step_case_end_to_end() {
    let srv = MockServer::start(|req| match req.path.as_str() {
        "/login" => Reply::json(r#"{"data":{"token":"tok-abcdef-123"}}"#),
        "/me" => {
            if req.header("authorization") == Some("Bearer tok-abcdef-123") {
                Reply::json(r#"{"name":"alice"}"#)
            } else {
                Reply::status(401).with_body("no token")
            }
        }
        _ => Reply::status(404),
    });

    let opts = direct(&[("base", &srv.base)]);
    let r = srv.run_case(LOGIN_CASE, "a/login.yml", &opts);

    assert_eq!(r.status, CaseStatus::Passed, "{r:#?}");
    assert_eq!(r.name, "登录后取用户");
    assert_eq!(r.file, "a/login.yml");
    assert_eq!(r.steps.len(), 2);
    assert!(r.steps.iter().all(|s| s.status == StepStatus::Passed));

    let me = srv.requests().into_iter().find(|q| q.path == "/me").expect("应发过 /me");
    assert_eq!(me.header("authorization"), Some("Bearer tok-abcdef-123"));

    let login = srv.requests().into_iter().find(|q| q.path == "/login").expect("应发过 /login");
    assert_eq!(login.method, "POST");
    assert!(login.body.contains("alice"), "{}", login.body);
    assert_eq!(login.header("content-type"), Some("application/json; charset=utf-8"));
}

#[test]
fn failed_and_error_are_distinguished() {
    let srv = MockServer::start(|_| Reply::json(r#"{"code":1}"#));
    let opts = direct(&[("base", &srv.base)]);

    let failing = format!(
        "apicase: v0.1\nsteps:\n  - id: a\n    request:\n      method: GET\n      url: {}/x\n    assertions:\n      - target: res.body.code\n        op: eq\n        value: '0'\n",
        srv.base
    );
    let r = srv.run_case(&failing, "f.yml", &opts);
    assert_eq!(r.status, CaseStatus::Failed);
    assert_eq!(r.steps[0].status, StepStatus::Failed);
    assert!(r.steps[0].response.is_some(), "failed 时响应是有的");
    assert!(r.steps[0].error.is_none());

    let broken = "apicase: v0.1\nsteps:\n  - id: a\n    request:\n      method: GET\n      url: http://127.0.0.1:1/x\n";
    let r = srv.run_case(broken, "e.yml", &opts);
    assert_eq!(r.status, CaseStatus::Error);
    assert_eq!(r.steps[0].status, StepStatus::Error);
    assert!(r.steps[0].error.is_some());
    assert_eq!(r.steps[0].request.as_ref().unwrap().url, "http://127.0.0.1:1/x");
}

#[test]
fn cases_do_not_share_outputs() {
    let srv = MockServer::start(|_| Reply::json(r#"{"v":"从上一个 case 泄漏"}"#));
    let opts = direct(&[("base", &srv.base)]);

    let producer = format!(
        "apicase: v0.1\nsteps:\n  - id: p\n    request:\n      method: GET\n      url: {}/a\n    outputs:\n      leaked: $.v\n",
        srv.base
    );
    let consumer = format!(
        "apicase: v0.1\nsteps:\n  - id: c\n    request:\n      method: GET\n      url: {}/b?got=${{{{steps.p.outputs.leaked}}}}\n",
        srv.base
    );
    srv.run_case(&producer, "p.yml", &opts);
    srv.run_case(&consumer, "c.yml", &opts);

    let last = srv.requests().pop().expect("应有请求");
    assert!(last.path.contains("%7B%7Bsteps.p.outputs.leaked%7D%7D") || last.path.contains("${{steps.p.outputs.leaked}}"),
        "另一个 case 的 outputs 不该可见，未解析的变量应原样发出：{}", last.path);
}

#[test]
fn tests_case_vars_override_environment() {
    let srv = MockServer::start(|_| Reply::json("{}"));
    let opts = direct(&[("who", "环境")]);
    let text = format!(
        "apicase: v0.1\nvars:\n  who: 用例\nsteps:\n  - id: a\n    request:\n      method: GET\n      url: {}/x?w=${{{{who}}}}\n",
        srv.base
    );
    srv.run_case(&text, "v.yml", &opts);
    let q = srv.requests().pop().unwrap();
    assert!(q.path.contains("w=%E7%94%A8%E4%BE%8B") || q.path.contains("w=用例"), "{}", q.path);
}

#[test]
fn report_is_redacted_while_downstream_gets_the_real_value() {
    let srv = MockServer::start(|req| match req.path.as_str() {
        "/login" => Reply::json(r#"{"data":{"token":"S3CR3T-TOKEN-VALUE"}}"#),
        _ => Reply::json(format!(
            r#"{{"echoedAuth":"{}"}}"#,
            req.header("authorization").unwrap_or("")
        )),
    });

    let text = format!(
        r#"apicase: v0.1
steps:
  - id: login
    request:
      method: POST
      url: {base}/login
    outputs:
      token: $.data.token
  - id: use
    dependsOn:
      - login
    request:
      method: GET
      url: {base}/echo
      auth:
        type: bearer
        bearer:
          token: ${{{{steps.login.outputs.token}}}}
"#,
        base = srv.base
    );

    let r = srv.run_case(&text, "s.yml", &direct(&[]));
    assert_eq!(r.status, CaseStatus::Passed, "{r:#?}");

    let echo = srv.requests().into_iter().find(|q| q.path == "/echo").unwrap();
    assert_eq!(echo.header("authorization"), Some("Bearer S3CR3T-TOKEN-VALUE"));

    let dump = format!("{:?}", case_to_json(&r));
    assert!(!dump.contains("S3CR3T-TOKEN-VALUE"), "报告里不该出现凭据原文：{dump}");
    assert_eq!(r.steps[0].outputs.get("token"), Some(&parse_json("\"S3CR***\"").unwrap()), "outputs 掩码");
    let req_auth = r.steps[1].request.as_ref().unwrap().headers.iter().find(|h| h.key == "Authorization").unwrap();
    assert_eq!(req_auth.value, "Bearer S3CR***", "请求头掩码");
    let body = r.steps[1].response.as_ref().unwrap().body.preview.as_ref().unwrap();
    assert!(body.contains("***"), "响应体里的凭据字面值被替换：{body}");
}

#[test]
fn debug_mode_keeps_everything_raw() {
    let srv = MockServer::start(|_| Reply::json(r#"{"access_token":"RAWTOKENVALUE"}"#));
    let mut opts = RunOpts::for_debug(EnvironmentInfo { name: "d".into(), vars: SortedMap::new() });
    opts.client = direct(&[]).client;
    let text = format!("apicase: v0.1\nsteps:\n  - id: a\n    request:\n      method: GET\n      url: {}/x\n", srv.base);
    let r = srv.run_case(&text, "d.yml", &opts);
    let body = r.steps[0].response.as_ref().unwrap().body.preview.as_ref().unwrap();
    assert!(body.contains("RAWTOKENVALUE"), "调试运行不脱敏：{body}");
}

#[test]
fn large_bodies_are_clipped_in_reports() {
    let big = "x".repeat(200_000);
    let srv = MockServer::start(move |_| Reply::json(format!(r#"{{"pad":"{big}"}}"#)));
    let opts = direct(&[]);
    let text = format!("apicase: v0.1\nsteps:\n  - id: a\n    request:\n      method: GET\n      url: {}/x\n", srv.base);
    let r = srv.run_case(&text, "b.yml", &opts);
    let b = &r.steps[0].response.as_ref().unwrap().body;
    assert!(b.truncated);
    assert_eq!(b.preview.as_ref().unwrap().len(), DEFAULT_MAX_BODY_BYTES);
    assert!(b.bytes > 200_000, "bytes 记的是原始大小：{}", b.bytes);
}

#[test]
fn stop_on_failure_also_halts_steps_within_a_case() {
    let srv = MockServer::start(|_| Reply::json(r#"{"code":1}"#));
    let text = format!(
        "apicase: v0.1\nsteps:\n  - id: a\n    request:\n      method: GET\n      url: {b}/a\n    assertions:\n      - target: res.body.code\n        op: eq\n        value: '0'\n  - id: b\n    dependsOn:\n      - a\n    request:\n      method: GET\n      url: {b}/b\n",
        b = srv.base
    );
    let mut opts = direct(&[]);
    opts.stop_on_failure = true;
    let r = srv.run_case(&text, "x.yml", &opts);
    assert_eq!(r.steps.len(), 1, "第一步没过就不该跑第二步");
    assert!(!srv.requests().iter().any(|q| q.path == "/b"));
}

#[test]
fn digest_retries_with_the_challenge() {
    let srv = MockServer::start(|req| match req.header("authorization") {
        Some(a) if a.starts_with("Digest ") && a.contains("username=\"u\"") => Reply::json(r#"{"ok":true}"#),
        _ => Reply::status(401)
            .with_header("WWW-Authenticate", r#"Digest realm="r", nonce="n", qop="auth""#)
            .with_body("unauthorized"),
    });

    let text = format!(
        "apicase: v0.1\nsteps:\n  - id: a\n    request:\n      method: GET\n      url: {}/secure\n      auth:\n        type: digest\n        digest:\n          username: u\n          password: p\n    assertions:\n      - target: res.status\n        op: eq\n        value: '200'\n",
        srv.base
    );
    let r = srv.run_case(&text, "d.yml", &direct(&[]));
    assert_eq!(r.status, CaseStatus::Passed, "{r:#?}");
    assert_eq!(srv.requests().len(), 2, "应当是「首发 401 + 带摘要重发」两次");
    let auth = r.steps[0].request.as_ref().unwrap().headers.iter().find(|h| h.key == "Authorization");
    assert!(auth.is_some(), "报告应记录实际发出的认证头");
    assert!(auth.unwrap().value.contains("***"), "认证头要掩码：{:?}", auth);
}

#[test]
fn oauth2_exchanges_token_once_and_reuses_it() {
    let srv = MockServer::start(|req| match req.path.as_str() {
        "/token" => Reply::json(r#"{"access_token":"OA2-TOKEN-XYZ","token_type":"bearer","expires_in":3600}"#),
        _ => Reply::json(format!(r#"{{"seen":"{}"}}"#, req.header("authorization").unwrap_or(""))),
    });

    let text = format!(
        r#"apicase: v0.1
steps:
  - id: a
    request:
      method: GET
      url: {base}/x
      auth:
        type: oauth2
        oauth2:
          tokenUrl: {base}/token
          clientId: cid
          clientSecret: csec
"#,
        base = srv.base
    );
        let files = [("1.yml", Ok(text.clone())), ("2.yml", Ok(text))];
    let report = srv.run_batch(&files, &direct(&[]), &mut |_| false);
    assert_eq!(report.summary.passed, 2, "{report:#?}");

    let token_calls = srv.requests().iter().filter(|q| q.path == "/token").count();
    assert_eq!(token_calls, 1, "两个 case 只该换一次 token，实际 {token_calls} 次");

    let api = srv.requests().into_iter().filter(|q| q.path == "/x").collect::<Vec<_>>();
    assert_eq!(api.len(), 2);
    assert!(api.iter().all(|q| q.header("authorization") == Some("Bearer OA2-TOKEN-XYZ")));
}

#[test]
fn invalid_cases_are_skipped_with_a_reason() {
    let srv = MockServer::start(|_| Reply::json("{}"));
    let opts = direct(&[]);
    for (text, hint) in [
        ("这不是: [有效\n  yaml", "YAML"),
        ("name: 没有 steps\n", "steps"),
        ("apicase: v0.1\nsteps: []\n", "请求"),
    ] {
        let r = srv.run_case(text, "x.yml", &opts);
        assert_eq!(r.status, CaseStatus::Skipped, "{text}");
        let reason = r.skip_reason.expect("必须给出原因——静默跳过会让人以为全跑过了");
        assert!(reason.contains(hint), "原因应提到 {hint}，实际：{reason}");
    }
}

#[test]
fn batch_reports_progress_and_summary() {
    let srv = MockServer::start(|_| Reply::json(r#"{"code":0}"#));
    let files = [
        ("1.yml", Ok(case_hitting(BASE, "/a", "0"))),
        ("2.yml", Ok(case_hitting(BASE, "/b", "999"))),
        ("3.yml", Ok("不是 case".to_string())),
    ];
    let mut seen: Vec<(usize, RunStatus)> = Vec::new();
    let report = srv.run_batch(&files, &direct(&[]), &mut |r| {
        seen.push((r.cases.len(), r.status));
        false
    });
    assert_eq!(report.status, RunStatus::Done);
    assert_eq!(report.summary.total, 3);
    assert_eq!((report.summary.passed, report.summary.failed, report.summary.skipped), (1, 1, 1));
    assert!(report.finished_at.is_some());
    assert_eq!(seen.first(), Some(&(0, RunStatus::Running)), "开跑时先发一次空快照");
    assert_eq!(seen.last(), Some(&(3, RunStatus::Done)));
    assert_eq!(seen.len(), 5, "1 次开跑 + 3 次完成 + 1 次收尾：{seen:?}");
    let counts: Vec<usize> = seen.iter().map(|(n, _)| *n).collect();
    assert!(counts.windows(2).all(|w| w[0] <= w[1]), "{counts:?}");
}

#[test]
fn unreadable_files_are_skipped_not_dropped() {
    let srv = MockServer::start(|_| Reply::json("{}"));
    let report = srv.run_batch(&[("gone.yml", Err("No such file".to_string()))], &direct(&[]), &mut |_| false);
    assert_eq!(report.summary.skipped, 1);
    assert!(report.cases[0].skip_reason.as_ref().unwrap().contains("读取失败"));
}

#[test]
fn cancellation_stops_at_case_boundary() {
    let srv = MockServer::start(|_| Reply::json(r#"{"code":0}"#));
    let files = [
        ("1.yml", Ok(case_hitting(BASE, "/a", "0"))),
        ("2.yml", Ok(case_hitting(BASE, "/b", "0"))),
        ("3.yml", Ok(case_hitting(BASE, "/c", "0"))),
    ];
    let report = srv.run_batch(&files, &direct(&[]), &mut |r| !r.cases.is_empty());
    assert_eq!(report.status, RunStatus::Cancelled);
    assert_eq!(report.cases.len(), 1, "取消后不再开新的 case");
    assert_eq!(report.cases[0].status, CaseStatus::Passed);
}

#[test]
fn stop_on_failure_halts_the_batch() {
    let srv = MockServer::start(|_| Reply::json(r#"{"code":1}"#));
    let files = [
        ("1.yml", Ok(case_hitting(BASE, "/a", "1"))),
        ("2.yml", Ok(case_hitting(BASE, "/b", "0"))),
        ("3.yml", Ok(case_hitting(BASE, "/c", "1"))),
    ];
    let mut opts = direct(&[]);
    opts.stop_on_failure = true;
    let report = srv.run_batch(&files, &opts, &mut |_| false);
    assert_eq!(report.cases.len(), 2);
    assert_eq!(report.status, RunStatus::Done, "主动停止不算「取消」");
}

#[test]
fn a_failure_holds_back_only_what_depends_on_it() {
    let steps = steps_with_deps(&[("a", &[]), ("b", &["a"]), ("c", &["b"]), ("d", &[])]);
    let held = blocked_steps(&steps, &vec!["a".to_string()]);
    let got: Vec<(&str, &str)> = held.iter().map(|b| (b.id.as_str(), b.cause.as_str())).collect();
    assert_eq!(got, vec![("b", "a"), ("c", "a")]);

    let failed = [StepOutcome { id: "a".into(), status: StepStatus::Failed }];
    assert_eq!(blocked_from_outcomes(&steps, &failed, false).len(), 2);
    assert!(blocked_from_outcomes(&steps, &failed, true).is_empty());
    let error = [StepOutcome { id: "a".into(), status: StepStatus::Error }];
    assert_eq!(blocked_from_outcomes(&steps, &error, true).len(), 2);
}

#[test]
fn the_asked_steps_come_with_what_they_need() {
    let steps = steps_with_deps(&[("c", &["b"]), ("a", &[]), ("b", &["a"]), ("x", &[])]);
    assert_eq!(with_dependencies(&steps, &vec!["c".to_string()]), vec![1, 2, 0]);
    assert_eq!(with_dependencies(&steps, &vec!["没有".to_string()]), Vec::<usize>::new());
}

#[test]
fn a_skipped_step_names_the_failure_behind_it() {
    let srv = MockServer::start(|_| Reply::json(r#"{"code":1}"#));
    let text = format!(
        "apicase: v0.1\nsteps:\n  - id: a\n    request: {{ url: {b}/a }}\n    assertions:\n      - {{ target: res.body.code, op: eq, value: 0 }}\n  - id: b\n    dependsOn: [a]\n    request: {{ url: {b}/b }}\n  - id: c\n    dependsOn: [b]\n    request: {{ url: {b}/c }}\n",
        b = BASE
    );
    let r = srv.run_case(&text, "x.yml", &direct(&[]));
    assert_eq!(r.status, CaseStatus::Failed);
    assert_eq!(r.steps.len(), 3);
    assert_eq!(r.steps[2].skip_reason.as_deref(), Some("上游 a 失败"));
    assert_eq!(srv.requests().len(), 1);
    let mut opts = direct(&[]);
    opts.continue_on_assertion_failure = true;
    assert_eq!(srv.run_case(&text, "x.yml", &opts).steps[2].status, StepStatus::Passed);
}

#[test]
fn an_error_tells_no_known_credential() {
    let opts = direct(&[("apiToken", "S3CR3T-TOKEN-VALUE")]);
    let text = "apicase: v0.1\nsteps:\n  - id: a\n    request:\n      method: GET\n      url: http://x/q?key=${{apiToken}}\n";
    let case = open_text(text, "e.yml", 0).unwrap();
    let run = CaseRun::begin(&case, &opts.environment.vars);
    let error = "请求失败: error sending request for url (http://x/q?key=S3CR3T-TOKEN-VALUE)";
    let r = fail_step(&case.requests[0], &run.ctx, &opts, error, 1);
    assert_eq!(r.error.as_deref(), Some("请求失败: error sending request for url (http://x/q?key=***)"));
    assert_eq!(r.request.unwrap().url, "http://x/q?key=***");

    let mut raw = opts.clone();
    raw.redact = false;
    assert_eq!(fail_step(&case.requests[0], &run.ctx, &raw, error, 1).error.as_deref(), Some(error));
}
