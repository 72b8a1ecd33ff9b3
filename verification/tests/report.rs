use apicase::json::parse_json;
use apicase::report::{
    AssertRecord, CaseResult, CaseStatus, EnvironmentInfo, RunOptions, RunReport, RunStatus, RunSummary,
    StepResult, StepStatus, ToolInfo, WorkspaceInfo, REPORT_SCHEMA_VERSION,
};
use apicase::report_json::{
    case_status_name, report_from_json, report_to_json, run_status_name, step_status_name, step_to_json,
};
use apicase::json::{js_string, Json};
use apicase::table::SortedMap;

fn case(status: CaseStatus, asserts: &[bool]) -> CaseResult {
    CaseResult {
        file: "a.yml".into(),
        name: "a".into(),
        status,
        skip_reason: None,
        started_at: "2026-07-30T00:00:00.000Z".into(),
        duration_ms: 1,
        steps: vec![StepResult {
            id: "s1".into(),
            status: StepStatus::Passed,
            duration_ms: 1,
            request: None,
            response: None,
            outputs: SortedMap::new(),
            assertions: asserts
                .iter()
                .map(|ok| AssertRecord {
                    target: "res.status".into(),
                    op: "eq".into(),
                    expected: "200".into(),
                    actual: "200".into(),
                    ok: *ok,
                })
                .collect(),
            error: None,
            skip_reason: None,
        }],
    }
}


#[test]
fn summary_counts_cases_and_assertions() {
    let cases = vec![
        case(CaseStatus::Passed, &[true, true]),
        case(CaseStatus::Failed, &[true, false]),
        case(CaseStatus::Error, &[]),
        case(CaseStatus::Skipped, &[]),
    ];
    let s = RunSummary::of(&cases);
    assert_eq!((s.total, s.passed, s.failed, s.error, s.skipped), (4, 1, 1, 1, 1));
    assert_eq!((s.assertions.total, s.assertions.passed, s.assertions.failed), (4, 3, 1));
}

#[test]
fn summary_counts_steps_separately_from_cases() {
    let mut cases = vec![case(CaseStatus::Failed, &[false])];
    cases[0].steps.push(StepResult::skipped("s2", "上游 s1 失败"));
    cases[0].steps.push(StepResult::skipped("s3", "上游 s1 失败"));
    let s = RunSummary::of(&cases);
    assert_eq!((s.total, s.skipped), (1, 0), "用例级 skipped 只算「用例本身没跑」");
    assert_eq!(
        (s.steps.total, s.steps.passed, s.steps.failed, s.steps.error, s.steps.skipped),
        (3, 1, 0, 0, 2),
        "step 级要如实算出 2 个跳过"
    );
}

#[test]
fn status_serializes_to_stable_strings() {
    assert_eq!(step_status_name(StepStatus::Passed), "passed");
    assert_eq!(case_status_name(CaseStatus::Skipped), "skipped");
    assert_eq!(run_status_name(RunStatus::Cancelled), "cancelled");
}

#[test]
fn report_json_roundtrips() {
    let r = RunReport {
        schema_version: REPORT_SCHEMA_VERSION,
        tool: ToolInfo { name: "apicase".into(), version: "0.1.0".into() },
        started_at: "2026-07-30T00:00:00.000Z".into(),
        finished_at: None,
        duration_ms: 12,
        status: RunStatus::Running,
        workspace: WorkspaceInfo { name: "w".into(), root: "/w".into() },
        environment: EnvironmentInfo { name: "dev".into(), vars: SortedMap::new() },
        options: RunOptions {
            targets: vec!["a".into()],
            recursive: true,
            environment: "dev".into(),
            concurrency: 1,
            stop_on_failure: false,
            max_body_bytes: 65536,
            continue_on_assertion_failure: false,
        },
        summary: RunSummary::default(),
        cases: vec![case(CaseStatus::Passed, &[true])],
    };
    let json = js_string(&report_to_json(&r));
    assert!(json.contains("\"schemaVersion\":2"), "字段名必须是 camelCase：{json}");
    assert!(json.contains("\"finishedAt\":null"), "运行中 finishedAt 是 null");
    assert_eq!(report_from_json(&parse_json(&json).expect("反序列化")).expect("反序列化"), r);
}

#[test]
fn skipped_step_carries_only_a_reason() {
    let s = StepResult::skipped("queryOrder", "上游 payOrder 失败");
    assert_eq!(s.status, StepStatus::Skipped);
    assert_eq!(s.skip_reason.as_deref(), Some("上游 payOrder 失败"));
    assert!(s.request.is_none() && s.response.is_none() && s.assertions.is_empty());
    assert_eq!(s.duration_ms, 0);
    let json = js_string(&step_to_json(&s));
    assert!(json.contains("\"status\":\"skipped\""), "{json}");
    assert!(json.contains("\"skipReason\""), "字段名必须是 camelCase：{json}");
    let passed = js_string(&step_to_json(&case(CaseStatus::Passed, &[true]).steps[0]));
    assert!(!passed.contains("skipReason"), "空 skipReason 不落盘：{passed}");
}

#[test]
fn blocking_rule_depends_on_status_and_switch() {
    for (st, off, on) in [
        (StepStatus::Error, true, true),
        (StepStatus::Skipped, true, true),
        (StepStatus::Failed, true, false),
        (StepStatus::Passed, false, false),
        (StepStatus::Running, false, false),
    ] {
        assert_eq!(st.blocks_downstream(false), off, "{st:?} 关开关时");
        assert_eq!(st.blocks_downstream(true), on, "{st:?} 开开关时");
    }
}

#[test]
fn older_reports_have_no_counts_of_steps() {
    let text = r#"{"schemaVersion":1,"tool":{"name":"apicase","version":"0"},"startedAt":"a","durationMs":1,"status":"done","workspace":{"name":"w","root":"/w"},"environment":{"name":"dev","vars":{"b":"2","a":"1"}},"options":{"targets":[],"recursive":true,"environment":"dev","concurrency":1,"stopOnFailure":false,"maxBodyBytes":10},"summary":{"total":0,"passed":0,"failed":0,"error":0,"skipped":0,"assertions":{"total":0,"passed":0,"failed":0}},"cases":[],"new":true}"#;
    let r = report_from_json(&parse_json(text).unwrap()).expect("an older report");
    assert_eq!(r.finished_at, None);
    assert_eq!(r.summary.steps.total, 0);
    assert!(!r.options.continue_on_assertion_failure);
    assert_eq!(r.environment.vars.entries[0].key, "a");
    for (from, to) in [
        ("\"durationMs\":1,", ""),
        ("\"durationMs\":1", "\"durationMs\":1.5"),
        ("\"durationMs\":1", "\"durationMs\":-1"),
        ("\"status\":\"done\"", "\"status\":\"gone\""),
        ("\"cases\":[]", "\"cases\":{}"),
        ("\"schemaVersion\":1", "\"schemaVersion\":4294967296"),
    ] {
        let broken = text.replace(from, to);
        assert!(report_from_json(&parse_json(&broken).unwrap()).is_none(), "{to}");
    }
    assert!(report_from_json(&Json::Null).is_none());
}
