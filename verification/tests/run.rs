use apicase::case_file::parse_case;
use apicase::discover::ReadFile;
use apicase::list::{list, matches_query};
use apicase::model::Case;
use apicase::output::{
    case_text, check_report_text, cookies_text, environment_text, environments_text, items_text, list_text,
};
use apicase::report::{CaseResult, CaseStatus, RunReport, RunStatus, StepResult, StepStatus};
use apicase::run::{
    build_opts, content_report, exit_code, missing_target, open_file, open_selected, open_text, parse_vars, read_case, report_path, report_sink,
    resolve_targets, run_options, select_steps, target_roots, ReportSink, RunRequest, STDIN_FILE,
};
use apicase::runner::{push_case, skipped_case};
use apicase::table::SortedMap;
use apicase::workspace::Workspace;

fn ws() -> Workspace {
    Workspace::open(
        "/w".into(),
        Some("environment:\n  dev: { who: env }\nsettings:\n  concurrency: 3\n".into()),
        None,
    )
}

fn step(status: StepStatus) -> StepResult {
    StepResult {
        id: "a".into(),
        status,
        duration_ms: 1,
        request: None,
        response: None,
        outputs: SortedMap::new(),
        assertions: vec![],
        error: None,
        skip_reason: None,
    }
}

fn case(status: CaseStatus, st: StepStatus) -> CaseResult {
    CaseResult {
        file: "a.yml".into(),
        name: "a".into(),
        status,
        skip_reason: None,
        started_at: "1970-01-01T00:00:00.000Z".into(),
        duration_ms: 1,
        steps: vec![step(st)],
    }
}

fn report(c: CaseResult) -> RunReport {
    let w = ws();
    content_report(&w, "0.1.0", &build_opts(&w, &RunRequest::default()), c, false, 0, 1)
}

#[test]
fn all_passing_exits_zero() {
    assert_eq!(exit_code(&report(case(CaseStatus::Passed, StepStatus::Passed)), false), 0);
}

#[test]
fn assertion_failure_exits_one() {
    let r = report(case(CaseStatus::Failed, StepStatus::Failed));
    assert_eq!(exit_code(&r, false), 1, "断言失败是 1，不是 3");
}

#[test]
fn transport_error_exits_three() {
    let r = report(case(CaseStatus::Error, StepStatus::Error));
    assert_eq!(exit_code(&r, false), 3, "连不上是 3，不是 1");
}

#[test]
fn unparsable_case_exits_three() {
    let skipped = open_text("这不是: [有效\n  yaml\n", "broken.yml", 0).expect_err("不是用例");
    assert_eq!(skipped.status, CaseStatus::Skipped);
    assert_eq!(exit_code(&report(skipped), false), 3);
}

#[test]
fn an_interrupted_run_says_so() {
    assert_eq!(exit_code(&report(case(CaseStatus::Passed, StepStatus::Passed)), true), 130);
}

#[test]
fn usage_errors_exit_two() {
    let roots = target_roots(&ws(), &RunRequest { targets: vec!["不存在的目录".into()], ..RunRequest::default() }).unwrap();
    assert_eq!(roots, vec!["不存在的目录"], "按进程工作目录解析");
    let e = missing_target(&roots, &vec![false]).expect("目标不存在");
    assert!(e.contains("不存在的目录"), "{e}");
    assert_eq!(missing_target(&roots, &vec![true]), None);
    assert!(parse_vars(&["没有等号".into()]).is_err(), "--var 格式");
    assert!(resolve_targets(&ws(), &vec!["/w".into()], &vec![]).is_err(), "工作空间里没有用例");
}

#[test]
fn report_lands_in_the_workspace_with_a_meaningful_name() {
    let w = ws();
    let (targets, rels) = resolve_targets(&w, &vec!["/w/冒烟.yml".into()], &vec!["/w/冒烟.yml".into()]).unwrap();
    assert_eq!(targets[0].file, "冒烟.yml");
    let p = report_path(&w, &ReportSink::Auto, &rels, "20260803143022").expect("有报告");
    assert_eq!(p, "/w/.apicase/reports/20260803143022-冒烟.html");
    assert_eq!(report_path(&w, &ReportSink::NoReport, &rels, "20260803143022"), None);
    assert_eq!(report_path(&w, &ReportSink::Path("/x.html".into()), &rels, "s").as_deref(), Some("/x.html"));
    let scratch = Workspace::open("/w".into(), None, None);
    assert_eq!(report_path(&scratch, &ReportSink::Auto, &rels, "20260803143022"), None);
    assert_eq!(report_sink(None, true, false), ReportSink::NoReport);
    assert_eq!(report_sink(Some("r.html".into()), false, true), ReportSink::Path("r.html".into()));
}

#[test]
fn what_was_asked_for_wins_over_the_settings() {
    let w = ws();
    let base = build_opts(&w, &RunRequest::default());
    assert_eq!(base.concurrency, 3);
    assert_eq!(base.environment.vars.get("who").map(String::as_str), Some("env"));
    let asked = RunRequest {
        vars: vec![("who".into(), "asked".into())],
        concurrency: Some(1000),
        insecure: true,
        timeout_ms: Some(7),
        stop_on_failure: true,
        ..RunRequest::default()
    };
    let o = build_opts(&w, &asked);
    assert_eq!(o.concurrency, 64);
    assert!(o.stop_on_failure);
    assert_eq!(o.environment.vars.get("who").map(String::as_str), Some("asked"));
    let opts = o.client.options.as_ref().unwrap();
    assert_eq!((opts.verify_ssl, opts.timeout_ms), (Some(false), Some(7)));
    let ro = run_options(&o, vec!["api".into()], true);
    assert_eq!((ro.environment.as_str(), ro.concurrency, ro.recursive), ("dev", 64, true));
}

const TWO: &str = "apicase: v0.1\nname: 两步\nsteps:\n  - id: b\n    dependsOn: [a]\n    request: { url: http://x/b }\n  - id: a\n    request: { url: http://x/a }\n  - id: c\n    request: { url: http://x/c }\n";

#[test]
fn selected_steps_bring_their_dependencies() {
    let c: Case = read_case(TWO).unwrap();
    let picked = select_steps(c.clone(), &vec!["b".into()]).unwrap();
    let ids: Vec<&str> = picked.requests.iter().map(|s| s.id.as_str()).collect();
    assert_eq!(ids, vec!["a", "b"]);
    assert!(select_steps(c, &vec!["没有".into()]).is_err());
    assert!(read_case("name: 没有 steps\n").is_err());
}

#[test]
fn a_case_given_as_text_is_reported() {
    let r = report(skipped_case(STDIN_FILE, "坏了", 0));
    assert_eq!(r.status, RunStatus::Done);
    assert_eq!(r.summary.skipped, 1);
    assert_eq!(r.cases[0].file, "<stdin>");
    let mut more = r;
    push_case(&mut more, case(CaseStatus::Passed, StepStatus::Passed), 9);
    assert_eq!((more.summary.total, more.duration_ms), (2, 9));
}

#[test]
fn cases_are_listed_and_searched() {
    let file = |p: &str, t: &str| ReadFile { path: p.into(), text: Ok(t.into()) };
    let files = vec![file("/w/api/two.yml", TWO), file("/w/bad.yml", "不是")];
    let all = list(&ws(), &files, None);
    assert_eq!(all.len(), 2);
    assert_eq!(all[0].file, "api/two.yml");
    assert_eq!(all[0].name.as_deref(), Some("两步"));
    assert_eq!(all[0].steps.len(), 3);
    assert!(!all[1].valid && all[1].error.is_some());
    assert_eq!(list(&ws(), &files, Some("HTTP://X/C")).len(), 1);
    assert_eq!(list(&ws(), &files, Some("找不到")).len(), 0);
    assert!(matches_query(&all[0], "两步"));
}

#[test]
fn values_are_printed_as_json() {
    let c = parse_case(TWO).unwrap();
    let t = case_text(&c).unwrap();
    let v: serde_json::Value = serde_json::from_str(&t).unwrap();
    assert_eq!(v["requests"][0]["dependsOn"][0], "a");
    let items = list(&ws(), &vec![ReadFile { path: "/w/x.yml".into(), text: Err("没有".into()) }], None);
    let v: serde_json::Value = serde_json::from_str(&items_text(&items).unwrap()).unwrap();
    assert_eq!(v[0]["valid"], false);
    let chk = apicase::check::check(&ws(), &vec![ReadFile { path: "/w/x.yml".into(), text: Ok(TWO.into()) }]);
    let v: serde_json::Value = serde_json::from_str(&check_report_text(&chk).unwrap()).unwrap();
    assert_eq!(v["total"], 1);
    assert_eq!(list_text(&vec!["a".into()]).unwrap(), "[\n  \"a\"\n]");
    assert_eq!(cookies_text(&vec![]).unwrap(), "[]");
    let env = ws().env_info(None);
    let v: serde_json::Value = serde_json::from_str(&environment_text(&env).unwrap()).unwrap();
    assert_eq!(v["vars"]["who"], "env");
    let v: serde_json::Value = serde_json::from_str(&environments_text(&vec!["dev".into()], "dev").unwrap()).unwrap();
    assert_eq!(v["default"], "dev");
}

#[test]
fn selected_steps_come_from_the_file() {
    let text = "apicase: v0.1\nsteps:\n  - id: a\n    request: { method: GET, url: http://x }\n  - id: b\n    request: { method: GET, url: http://y }\n";
    let read: Result<String, String> = Ok(text.into());
    let picked = open_selected(&read, "/w/c.yml", "c.yml", &vec!["b".to_string()], 0).unwrap();
    assert_eq!(picked.requests.len(), 1);
    assert_eq!(picked.requests[0].id, "b");
    let missing = open_selected(&read, "/w/c.yml", "c.yml", &vec!["z".to_string()], 0).unwrap_err();
    assert_eq!(missing.status, CaseStatus::Skipped);
    assert_eq!(missing.file, "c.yml");

    let gone: Result<String, String> = Err("没有这个文件".into());
    let why = |r: Result<Case, CaseResult>| r.unwrap_err().skip_reason.unwrap();
    assert_eq!(why(open_file(&gone, "c.yml", 0)), "读取失败：没有这个文件");
    assert_eq!(
        why(open_selected(&gone, "/w/c.yml", "c.yml", &vec!["b".to_string()], 0)),
        "读取 /w/c.yml 失败：没有这个文件"
    );
    let empty: Result<String, String> = Ok("apicase: v0.1\nsteps: []\n".into());
    assert_eq!(why(open_file(&empty, "c.yml", 0)), "用例没有任何请求");
}
