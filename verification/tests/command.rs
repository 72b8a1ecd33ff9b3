use apicase::case_file::{dump_case, parse_case};
use apicase::command::{
    choose_proxy, detail_of, empty_input, filter_cases, filter_of, is_report_file, is_shown, keeps_file, local_stamp,
    mixed_targets, new_case, new_case_name, new_case_path, newest_first, no_session, output_format, pick_report,
    show_env, shrink, split_targets, start_of, tool_request, Detail, Format, ReportFilter, RunParams, Start,
};
use apicase::http::ProxyConfig;
use apicase::report::{
    AssertRecord, BodyRecord, CaseResult, CaseStatus, EnvironmentInfo, ResponseRecord, RunOptions, RunReport,
    RunStatus, RunSummary, StepResult, StepStatus, ToolInfo, WorkspaceInfo, REPORT_SCHEMA_VERSION,
};
use apicase::run::{parse_vars, ReportSink};
use apicase::table::SortedMap;
use apicase::workspace::Workspace;

#[test]
fn vars_split_on_the_first_equals_only() {
    let got = parse_vars(&["a=1".into(), "token=ab=cd==".into(), " k =v".into()]).expect("应能解析");
    assert_eq!(
        got,
        vec![
            ("a".into(), "1".into()),
            ("token".into(), "ab=cd==".into()),
            ("k".into(), "v".into())
        ],
        "值里的 = 要原样保留（base64 / JWT 里全是）"
    );
    assert!(parse_vars(&["没有等号".into()]).is_err());
    assert!(parse_vars(&["=光有值".into()]).is_err());
}

#[test]
fn shrink_keeps_the_shape_and_the_failing_evidence() {
    let mut r = RunReport {
        schema_version: REPORT_SCHEMA_VERSION,
        tool: ToolInfo { name: "apicase".into(), version: "0".into() },
        started_at: "2026-08-03T00:00:00.000Z".into(),
        finished_at: None,
        duration_ms: 1,
        status: RunStatus::Done,
        workspace: WorkspaceInfo { name: "w".into(), root: "/w".into() },
        environment: EnvironmentInfo { name: "dev".into(), vars: SortedMap::new() },
        options: RunOptions {
            targets: vec![],
            recursive: true,
            environment: "dev".into(),
            concurrency: 1,
            stop_on_failure: false,
            max_body_bytes: 65536,
            continue_on_assertion_failure: false,
        },
        summary: RunSummary::default(),
        cases: vec![],
    };
    let body = |s: &str| BodyRecord { preview: Some(s.into()), bytes: s.len(), truncated: false };
    let resp = |s: &str| ResponseRecord {
        status: 200,
        status_text: "OK".into(),
        headers: vec![],
        body: body(s),
        elapsed_ms: 1,
    };
    let mk = |id: &str, st: StepStatus, ok: bool| StepResult {
        id: id.into(),
        status: st,
        duration_ms: 1,
        request: None,
        response: Some(resp(&"x".repeat(10_000))),
        outputs: SortedMap::new(),
        assertions: vec![AssertRecord {
            target: "res.status".into(),
            op: "eq".into(),
            expected: "200".into(),
            actual: "500".into(),
            ok,
        }],
        error: None,
        skip_reason: None,
    };
    r.cases = vec![CaseResult {
        file: "a.yml".into(),
        name: "a".into(),
        status: CaseStatus::Failed,
        skip_reason: None,
        started_at: "2026-08-03T00:00:00.000Z".into(),
        duration_ms: 2,
        steps: vec![mk("ok", StepStatus::Passed, true), mk("bad", StepStatus::Failed, false)],
    }];
    r.summary = RunSummary::of(&r.cases);

    let small = shrink(&r, Detail::Summary);
    assert_eq!(small.summary, r.summary, "统计不变");
    assert_eq!(small.cases[0].steps.len(), 2, "step 数不变，计数才对得上");

    let passed = &small.cases[0].steps[0];
    assert!(passed.response.is_none(), "通过的 step 不留报文");
    assert!(passed.assertions.is_empty(), "通过的断言没有可看的");

    let failed = &small.cases[0].steps[1];
    let kept = failed.response.as_ref().expect("失败的 step 要留现场");
    assert_eq!(kept.body.bytes, 10_000, "原始大小要保住");
    assert!(kept.body.truncated && kept.body.preview.as_ref().unwrap().len() <= 2048);
    assert_eq!(failed.assertions.len(), 1, "失败的断言留着");

    assert_eq!(shrink(&r, Detail::Full), r, "full 原样返回");
}

#[test]
fn local_stamp_is_fourteen_digits() {
    for (now, off) in [(0, 0), (1_785_771_022_000, 8 * 3600), (1_785_771_022_000, -5 * 3600)] {
        let s = local_stamp(now, off);
        assert_eq!(s.len(), 14, "{s}");
        assert!(s.chars().all(|c| c.is_ascii_digit()), "{s}");
    }
    assert_eq!(local_stamp(0, 3600), "19700101010000");
    assert_eq!(local_stamp(1_785_771_022_000, 8 * 3600), "20260803233022");
}

fn ws() -> Workspace {
    Workspace::open("/w".into(), Some("environment:\n  dev: { base: http://d }\n  prod: {}\n".into()), None)
}

#[test]
fn the_newest_report_comes_first() {
    let files = ["20260801000000-a.html", "20260803000000-b.html", "20260802000000.html"].map(String::from).to_vec();
    let sorted = newest_first(&files);
    assert_eq!(sorted[0], "20260803000000-b.html");
    assert_eq!(pick_report(&ws(), None, false, false, &files), Ok(sorted[0].clone()));
    assert!(pick_report(&ws(), None, false, false, &vec![]).is_err());
    assert_eq!(pick_report(&ws(), Some("/x/r.html"), true, false, &vec![]), Ok("/x/r.html".into()));
    assert!(pick_report(&ws(), Some("没有"), false, false, &vec![]).is_err());
}

#[test]
fn cases_are_filtered_by_status() {
    assert!(is_shown(ReportFilter::All, CaseStatus::Passed));
    assert!(is_shown(ReportFilter::Bad, CaseStatus::Error) && is_shown(ReportFilter::Bad, CaseStatus::Failed));
    assert!(!is_shown(ReportFilter::Failed, CaseStatus::Error));
    assert!(matches!(filter_of(None), ReportFilter::Bad) || matches!(filter_of(None), ReportFilter::All));
    assert!(matches!(filter_of(Some("error")), ReportFilter::Error));
    assert!(matches!(detail_of(Some("full")), Detail::Full));
    assert!(matches!(detail_of(None), Detail::Summary));
}

#[test]
fn output_follows_the_flags_then_the_terminal() {
    assert!(matches!(output_format(true, Some(Format::Text), true), Format::Json));
    assert!(matches!(output_format(false, Some(Format::Json), true), Format::Json));
    assert!(matches!(output_format(false, None, true), Format::Text));
}

#[test]
fn a_dash_means_the_input() {
    let (stdin, rest) = split_targets(&vec!["-".into(), "a.yml".into()]);
    assert!(stdin && rest == vec!["a.yml"]);
    assert!(mixed_targets(stdin, &rest).is_some());
    assert!(mixed_targets(true, &vec![]).is_none() && mixed_targets(false, &rest).is_none());
    assert!(empty_input(" \n").is_some() && empty_input("x").is_none());
}

#[test]
fn the_proxy_of_a_run_is_the_one_that_was_asked_for() {
    let stored = Some(ProxyConfig { mode: "custom".into(), url: Some("http://s".into()) });
    assert_eq!(choose_proxy(None, None, stored.clone()), stored);
    let none = choose_proxy(Some("none".into()), None, stored).unwrap();
    assert_eq!(none.mode, "none");
}

#[test]
fn environments_are_shown_by_name() {
    assert_eq!(show_env(&ws(), Some("prod")).unwrap().name, "prod");
    assert_eq!(show_env(&ws(), None).unwrap().name, "dev");
    assert!(show_env(&ws(), Some("没有")).is_err());
    assert!(no_session(&ws()).is_none());
    assert!(no_session(&Workspace::open("/w".into(), None, None)).is_some());
}

#[test]
fn a_new_case_is_a_case() {
    let c = new_case("登录", "POST", "http://x/login");
    assert_eq!(c.requests.len(), 1);
    assert_eq!(parse_case(&dump_case(&c)).unwrap(), c);
}

#[test]
fn a_tool_runs_one_case_at_a_time_unless_told() {
    let p = |report: bool| RunParams {
        target: Some("api".into()),
        content: None,
        env: Some("prod".into()),
        steps: vec!["a".into()],
        vars: vec![("k".into(), "v".into())],
        concurrency: None,
        bail: true,
        report,
    };
    let r = tool_request(&ws(), p(false), None);
    assert_eq!(r.concurrency, Some(1));
    assert!(r.stop_on_failure && r.recursive);
    assert_eq!(r.report, ReportSink::NoReport);
    assert_eq!(r.vars, vec![("k".to_string(), "v".to_string())]);
    assert_eq!(tool_request(&ws(), p(true), None).report, ReportSink::Auto);
}

#[test]
fn only_the_asked_cases_are_kept() {
    let case = |status: CaseStatus| CaseResult {
        file: "a.yml".into(),
        name: "a".into(),
        status,
        skip_reason: None,
        started_at: "2026-08-03T00:00:00.000Z".into(),
        duration_ms: 2,
        steps: vec![],
    };
    let r = RunReport {
        schema_version: REPORT_SCHEMA_VERSION,
        tool: ToolInfo { name: "apicase".into(), version: "0".into() },
        started_at: "2026-08-03T00:00:00.000Z".into(),
        finished_at: None,
        duration_ms: 1,
        status: RunStatus::Done,
        workspace: WorkspaceInfo { name: "w".into(), root: "/w".into() },
        environment: EnvironmentInfo { name: "dev".into(), vars: SortedMap::new() },
        options: RunOptions {
            targets: vec![],
            recursive: true,
            environment: "dev".into(),
            concurrency: 1,
            stop_on_failure: false,
            max_body_bytes: 65536,
            continue_on_assertion_failure: false,
        },
        summary: RunSummary::default(),
        cases: vec![case(CaseStatus::Passed), case(CaseStatus::Failed), case(CaseStatus::Error)],
    };
    let bad = filter_cases(r, ReportFilter::Bad);
    assert_eq!(bad.cases.iter().map(|c| c.status).collect::<Vec<_>>(), vec![CaseStatus::Failed, CaseStatus::Error]);
}

#[test]
fn the_workspace_is_looked_for_in_order() {
    let some = |s: &str| Some(s.to_string());
    let at = |r: Start| match r {
        Start::At(d) => format!("at {d}"),
        Start::Above(d) => format!("above {d}"),
    };
    assert_eq!(at(start_of(some("/a"), some("/b"), some("c.yml"), "/d".into())), "at /a");
    assert_eq!(at(start_of(None, some("/b"), some("c.yml"), "/d".into())), "at /b");
    assert_eq!(at(start_of(None, None, some("c.yml"), "/d".into())), "above c.yml");
    assert_eq!(at(start_of(None, None, None, "/d".into())), "above /d");
}

#[test]
fn a_report_is_an_html_file() {
    assert!(is_report_file("/w/reports/a.html"));
    assert!(!is_report_file("/w/reports/a.htm"));
    assert!(!is_report_file("/w/html"));
}

#[test]
fn a_new_case_gets_an_extension_and_a_name() {
    assert_eq!(new_case_path("api/login"), "api/login.yml");
    assert_eq!(new_case_path("api/login.yaml"), "api/login.yaml");
    assert_eq!(new_case_path("v1.2/login"), "v1.2/login.yml");
    assert_eq!(new_case_name(None, "api/login.yml"), "login");
    assert_eq!(new_case_name(Some("登录".into()), "api/login.yml"), "登录");
}

#[test]
fn a_file_is_replaced_only_by_force() {
    assert_eq!(keeps_file("a.yml", true, false).as_deref(), Some("a.yml 已存在（要覆盖加 --force）"));
    assert_eq!(keeps_file("a.yml", true, true), None);
    assert_eq!(keeps_file("a.yml", false, false), None);
}
