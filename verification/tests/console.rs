use apicase::check::{check_text as check_case, CheckReport};
use apicase::console::{case_line, case_mark, check_text, human_ms, list_table, name_column, run_header, run_summary};
use apicase::list::ListItem;
use apicase::report::{
    AssertRecord, AssertSummary, CaseResult, CaseStatus, EnvironmentInfo, RunOptions, RunReport, RunStatus, RunSummary,
    StepResult, StepStatus, StepSummary, ToolInfo, WorkspaceInfo, REPORT_SCHEMA_VERSION,
};
use apicase::style::{ColorWhen, Style};
use apicase::table::SortedMap;

fn plain() -> Style {
    Style::resolve(ColorWhen::Never, false, false)
}

fn case(status: CaseStatus, steps: Vec<StepResult>) -> CaseResult {
    CaseResult {
        file: "api/login.yml".into(),
        name: "登录".into(),
        status,
        skip_reason: None,
        started_at: "2026-08-03T00:00:00.000Z".into(),
        duration_ms: 318,
        steps,
    }
}

fn step(id: &str, status: StepStatus) -> StepResult {
    StepResult {
        id: id.into(),
        status,
        duration_ms: 12,
        request: None,
        response: None,
        outputs: SortedMap::new(),
        assertions: Vec::new(),
        error: None,
        skip_reason: None,
    }
}


fn sample_report() -> RunReport {
    RunReport {
        schema_version: REPORT_SCHEMA_VERSION,
        tool: ToolInfo { name: "apicase".into(), version: "0.1.0".into() },
        started_at: "2026-08-03T00:00:00.000Z".into(),
        finished_at: Some("2026-08-03T00:00:03.000Z".into()),
        duration_ms: 3218,
        status: RunStatus::Done,
        workspace: WorkspaceInfo { name: "demo".into(), root: "/demo".into() },
        environment: EnvironmentInfo { name: "dev".into(), vars: SortedMap::new() },
        options: RunOptions {
            targets: vec![".".into()],
            recursive: true,
            environment: "dev".into(),
            concurrency: 1,
            stop_on_failure: false,
            max_body_bytes: 65536,
            continue_on_assertion_failure: false,
        },
        summary: RunSummary::default(),
        cases: Vec::new(),
    }
}

#[test]
fn human_ms_switches_units() {
    assert_eq!(human_ms(42), "42ms");
    assert_eq!(human_ms(999), "999ms");
    assert_eq!(human_ms(3218), "3.2s");
    assert_eq!(human_ms(65_000), "1m5s");
}

#[test]
fn failed_case_line_carries_the_failing_assertion() {
    let mut st = step("login", StepStatus::Failed);
    st.assertions = vec![
        AssertRecord {
            target: "res.status".into(),
            op: "eq".into(),
            expected: "200".into(),
            actual: "200".into(),
            ok: true,
        },
        AssertRecord {
            target: "res.body.data.token".into(),
            op: "exists".into(),
            expected: "—".into(),
            actual: "∅".into(),
            ok: false,
        },
    ];
    let out = case_line(&case(CaseStatus::Failed, vec![st]), plain(), 24);
    assert!(out.contains("✕"), "{out}");
    assert!(out.contains("断言 1/2 未通过"), "{out}");
    assert!(out.contains("res.body.data.token"), "失败的断言要列出来：{out}");
    assert!(!out.contains("res.status"), "通过的断言不该占地方：{out}");
}

#[test]
fn error_case_line_shows_the_transport_error() {
    let mut st = step("login", StepStatus::Error);
    st.error = Some("连接被拒绝 (127.0.0.1:8080)".into());
    let out = case_line(&case(CaseStatus::Error, vec![st]), plain(), 24);
    assert!(out.contains("!"), "{out}");
    assert!(out.contains("连接被拒绝 (127.0.0.1:8080)"), "{out}");
}

#[test]
fn skipped_step_shows_its_root_cause() {
    let st = StepResult::skipped("createOrder", "上游 login 失败");
    let out = case_line(&case(CaseStatus::Failed, vec![st]), plain(), 24);
    assert!(out.contains("上游 login 失败"), "{out}");
}

#[test]
fn summary_lists_cases_steps_and_assertions_separately() {
    let mut r = sample_report();
    r.summary = RunSummary {
        total: 12,
        passed: 10,
        failed: 1,
        error: 1,
        skipped: 0,
        assertions: AssertSummary { total: 54, passed: 52, failed: 2 },
        steps: StepSummary { total: 28, passed: 25, failed: 1, error: 1, skipped: 1 },
    };
    let out = run_summary(&r, None, plain());
    assert!(out.contains("用例"), "{out}");
    assert!(out.contains("请求"), "{out}");
    assert!(out.contains("断言"), "{out}");
    let case_row = out.lines().find(|l| l.starts_with("用例")).expect("应有用例行");
    assert!(!case_row.contains("跳过"), "计数为 0 的档不占位置：{case_row}");
    let step_row = out.lines().find(|l| l.starts_with("请求")).expect("应有请求行");
    assert!(step_row.contains("跳过"), "请求级跳过 1 要显示：{step_row}");
}

#[test]
fn cancelled_run_says_so() {
    let mut r = sample_report();
    r.status = RunStatus::Cancelled;
    assert!(run_summary(&r, None, plain()).contains("运行被中断"));
}

#[test]
fn seconds_are_rounded_to_a_tenth() {
    for ms in 1_000..60_000u64 {
        assert_eq!(human_ms(ms), format!("{:.1}s", ms as f64 / 1000.0), "{ms}");
    }
    assert_eq!(human_ms(60_000), "1m0s");
}

#[test]
fn a_run_begins_with_where_and_how_many() {
    let r = sample_report();
    let h = run_header(&r.workspace, &r.environment, 3, plain());
    assert!(h.contains("demo") && h.contains("dev") && h.contains('3'), "{h}");
    assert_eq!(name_column(&vec!["a".into(), "登录.yml".into()]), name_column(&vec!["登录.yml".into()]));
    assert_ne!(case_mark(CaseStatus::Passed, plain()), case_mark(CaseStatus::Failed, plain()));
}

#[test]
fn a_table_of_cases_has_a_row_for_each() {
    let it = |file: &str, valid: bool| ListItem {
        file: file.into(),
        path: format!("/w/{file}"),
        name: Some("登录".into()),
        valid,
        error: if valid { None } else { Some("坏了".into()) },
        steps: vec![],
    };
    let t = list_table(&[it("a.yml", true), it("b.yml", false)], plain());
    assert!(t.contains("a.yml") && t.contains("b.yml") && t.contains("坏了"), "{t}");
    assert!(!list_table(&[], plain()).is_empty());
}

#[test]
fn issues_are_printed_with_their_place() {
    let bad = check_case("apicase: v0.1\nsteps:\n  - id: a\n    request: { method: GET }\n", "t.yml");
    let t = check_text(&CheckReport::of_one(bad), plain());
    assert!(t.contains("t.yml") && t.contains("steps[0].request.url"), "{t}");
}
