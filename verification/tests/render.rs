use apicase::json::{parse_json, Json};
use apicase::render::{parse_report_html, render_html, report_data, report_shell, to_json, DATA_CLOSE, DATA_OPEN};
use apicase::report::{
    AssertRecord, BodyRecord, CaseResult, CaseStatus, EnvironmentInfo, KvPair, ResponseRecord, RunOptions, RunReport,
    RunStatus, RunSummary, StepResult, StepStatus, ToolInfo, WorkspaceInfo, REPORT_SCHEMA_VERSION,
};
use apicase::table::SortedMap;

fn json_of(r: &RunReport) -> String {
    to_json(r, None).unwrap()
}

/// A writer, with times as durations.
struct ReportWriter;

impl ReportWriter {
    fn interval(cases: usize) -> std::time::Duration {
        std::time::Duration::from_millis(apicase::render::ReportWriter::interval(cases))
    }
}

fn sample(body: &str) -> RunReport {
    RunReport {
        schema_version: REPORT_SCHEMA_VERSION,
        tool: ToolInfo { name: "apicase".into(), version: "0.1.0".into() },
        started_at: "2026-07-30T00:00:00.000Z".into(),
        finished_at: Some("2026-07-30T00:00:03.000Z".into()),
        duration_ms: 3000,
        status: RunStatus::Done,
        workspace: WorkspaceInfo { name: "演示".into(), root: "/w".into() },
        environment: EnvironmentInfo {
            name: "dev".into(),
            vars: {
                let mut m = SortedMap::new();
                m.insert("baseUrl".to_string(), "http://x".to_string());
                m
            },
        },
        options: RunOptions {
            targets: vec!["01-登录".into()],
            recursive: true,
            environment: "dev".into(),
            concurrency: 1,
            stop_on_failure: false,
            max_body_bytes: 65536,
            continue_on_assertion_failure: false,
        },
        summary: RunSummary { total: 1, passed: 1, ..Default::default() },
        cases: vec![CaseResult {
            file: "01-登录/a.yml".into(),
            name: "登录".into(),
            status: CaseStatus::Passed,
            skip_reason: None,
            started_at: "2026-07-30T00:00:00.000Z".into(),
            duration_ms: 12,
            steps: vec![StepResult {
                id: "s1".into(),
                status: StepStatus::Passed,
                duration_ms: 12,
                request: None,
                response: Some(ResponseRecord {
                    status: 200,
                    status_text: "OK".into(),
                    headers: vec![KvPair::new("Content-Type", "application/json")],
                    body: BodyRecord { preview: Some(body.into()), bytes: body.len(), truncated: false },
                    elapsed_ms: 10,
                }),
                outputs: SortedMap::new(),
                assertions: vec![AssertRecord {
                    target: "res.status".into(),
                    op: "eq".into(),
                    expected: "200".into(),
                    actual: "200".into(),
                    ok: true,
                }],
                error: None,
                skip_reason: None,
            }],
        }],
    }
}


#[test]
fn report_write_interval_grows_with_report_size() {
    assert_eq!(ReportWriter::interval(0), std::time::Duration::from_millis(1000));
    assert_eq!(ReportWriter::interval(10), std::time::Duration::from_millis(1000), "小报告不受影响");
    assert_eq!(ReportWriter::interval(50), std::time::Duration::from_millis(1000), "临界点仍是 1 秒");
    assert_eq!(ReportWriter::interval(100), std::time::Duration::from_millis(2000));
    assert_eq!(ReportWriter::interval(500), std::time::Duration::from_millis(10_000));
}

#[test]
fn render_then_parse_roundtrips() {
    let r = sample(r#"{"ok":true}"#);
    let html = render_html(&r);
    let back = parse_report_html(&html).expect("应能读回");
    assert_eq!(back, r);
}

#[test]
fn shell_and_rendered_differ_only_in_the_data_block() {
    let shell = report_shell();
    let rendered = render_html(&sample("{}"));
    let cut = |s: &str| {
        let a = s.find(DATA_OPEN).expect("应有数据块") + DATA_OPEN.len();
        let b = s[a..].find(DATA_CLOSE).expect("应有闭合") + a;
        (s[..a].to_string(), s[b..].to_string())
    };
    assert_eq!(cut(&shell), cut(&rendered));
    assert!(shell.contains(&format!("{DATA_OPEN}{DATA_CLOSE}")));
}

#[test]
fn script_tags_in_body_cannot_break_out() {
    let evil = r#"{"html":"</script><script>alert(1)</script>"}"#;
    let html = render_html(&sample(evil));
    let data_start = html.find(DATA_OPEN).unwrap() + DATA_OPEN.len();
    let data_end = html[data_start..].find(DATA_CLOSE).unwrap() + data_start;
    let block = &html[data_start..data_end];
    assert!(!block.contains("</script"), "数据块内不该出现未转义的闭合标签");
    assert!(block.contains(r"<\/script"), "应被转义成 <\\/script");
    let back = parse_report_html(&html).expect("应能读回");
    assert_eq!(
        back.cases[0].steps[0].response.as_ref().unwrap().body.preview.as_deref(),
        Some(evil)
    );
}

#[test]
fn line_separators_are_escaped() {
    let r = sample("a\u{2028}b\u{2029}c");
    let html = render_html(&r);
    assert!(!html.contains('\u{2028}'), "U+2028 必须被转义");
    assert!(!html.contains('\u{2029}'), "U+2029 必须被转义");
    assert_eq!(parse_report_html(&html).unwrap(), r);
}

#[test]
fn only_recognizes_its_own_reports() {
    assert!(parse_report_html("").is_none());
    assert!(parse_report_html("<html><body>普通网页</body></html>").is_none());
    assert!(parse_report_html(&report_shell()).is_none(), "空壳没有数据");
    assert!(parse_report_html(&format!("{DATA_OPEN}不是 JSON{DATA_CLOSE}")).is_none());

    let mut r = sample("{}");
    r.schema_version = REPORT_SCHEMA_VERSION + 1;
    let json = json_of(&r);
    assert!(parse_report_html(&format!("{DATA_OPEN}{json}{DATA_CLOSE}")).is_none());
}

#[test]
fn older_reports_still_parse() {
    let mut r = sample("{}");
    r.schema_version = 1;
    let json = json_of(&r);
    let back = parse_report_html(&format!("{DATA_OPEN}{json}{DATA_CLOSE}"));
    assert_eq!(back.map(|p| p.schema_version), Some(1), "v1 报告要读得回来");
}

#[test]
fn skipped_step_shows_its_reason() {
    let mut r = sample("{}");
    r.cases[0].steps.push(StepResult::skipped("下游", "上游 s1 失败"));
    let html = render_html(&r);
    assert!(html.contains("上游 s1 失败"), "跳过原因要进报告");
    let back = parse_report_html(&html).expect("读得回来");
    let last = back.cases[0].steps.last().unwrap();
    assert_eq!(last.status, StepStatus::Skipped);
    assert_eq!(last.skip_reason.as_deref(), Some("上游 s1 失败"));
}

#[test]
fn report_is_fully_self_contained() {
    let html = render_html(&sample("{}"));
    for marker in ["<link ", "src=\"http", "src='http", "@import", "url(http"] {
        assert!(!html.contains(marker), "报告不该引用外部资源：{marker}");
    }
    assert!(html.contains("<style>"), "样式内联");
    assert!(html.starts_with("<!doctype html>"), "是一份完整文档");
    assert!(html.ends_with("</html>\n"));
}

#[test]
fn report_writer_throttles_after_the_first_write() {
    let mut w = apicase::render::ReportWriter::new("/w/r.html".to_string());
    assert_eq!(w.path(), "/w/r.html");
    assert!(w.maybe_write(5_000, 1), "第一次回调就该落盘");
    assert!(!w.maybe_write(5_999, 1), "1s 内的第二次应被节流掉");
    assert!(w.maybe_write(6_000, 1));
    w.write_now(6_100);
    assert!(!w.maybe_write(7_000, 1));
    assert!(w.maybe_write(7_100, 1));
}

#[test]
fn the_printed_report_says_where_it_was_written() {
    let r = sample("{}");
    let plain = to_json(&r, None).unwrap();
    assert!(plain.starts_with("{\n  \"schemaVersion\": 2"), "{plain}");
    assert!(!plain.contains("reportFile"));
    let with = to_json(&r, Some("/w/r.html")).unwrap();
    assert!(with.contains("\"reportFile\": \"/w/r.html\""), "{with}");
}

#[test]
fn the_data_of_a_page_is_found() {
    assert_eq!(report_data(&format!("x{DATA_OPEN} {{}} {DATA_CLOSE}y")).as_deref().map(str::trim), Some("{}"));
    assert_eq!(report_data("nothing"), None);
    assert_eq!(report_data(&format!("{DATA_OPEN}{{}}")), None);
}

#[test]
fn the_data_of_a_page_comes_first() {
    let shell = report_shell();
    let at = shell.find(DATA_OPEN).expect("应有数据块");
    assert!(shell[..at].ends_with("<div id=\"cases\"></div>\n"));
    assert!(shell[at + DATA_OPEN.len()..].starts_with(DATA_CLOSE));
    let mut odd = sample(DATA_OPEN);
    odd.workspace.name = format!("{DATA_OPEN}{{}}{DATA_CLOSE}");
    assert_eq!(parse_report_html(&render_html(&odd)), Some(odd));
}

#[test]
fn a_deep_output_is_read_back() {
    let deep = format!("{}7{}", "[".repeat(100), "]".repeat(100));
    let mut r = sample("{}");
    r.cases[0].steps[0].outputs.insert("deep".to_string(), parse_json(&deep).expect("valid"));
    r.cases[0].steps[0].outputs.insert("none".to_string(), Json::Null);
    assert_eq!(parse_report_html(&render_html(&r)), Some(r.clone()));
    r.schema_version = REPORT_SCHEMA_VERSION + 1;
    assert_eq!(parse_report_html(&render_html(&r)), None);
}
