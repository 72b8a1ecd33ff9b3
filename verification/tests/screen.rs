use apicase::cookie::CookieItem;
use apicase::docs::topics;
use apicase::report::{
    CaseResult, CaseStatus, EnvironmentInfo, RunOptions, RunReport, RunStatus, RunSummary, ToolInfo, WorkspaceInfo,
    REPORT_SCHEMA_VERSION,
};
use apicase::screen::{
    all_topics, cookie_removed, cookies, cookies_cleared, environment, environments, report, reports, workspace_made,
};
use apicase::style::{ColorWhen, Style};
use apicase::table::SortedMap;
use apicase::workspace::Workspace;

fn plain() -> Style {
    Style::resolve(ColorWhen::Never, false, false)
}

fn cookie(domain: &str, name: &str) -> CookieItem {
    CookieItem {
        domain: domain.into(),
        path: "/".into(),
        name: name.into(),
        value: "1".into(),
        secure: false,
        expires_ms: None,
        expired: false,
        host_only: true,
    }
}

fn run(files: &[&str]) -> RunReport {
    RunReport {
        schema_version: REPORT_SCHEMA_VERSION,
        tool: ToolInfo { name: "apicase".into(), version: "0".into() },
        started_at: "2026-08-03T00:00:00.000Z".into(),
        finished_at: None,
        duration_ms: 1,
        status: RunStatus::Done,
        workspace: WorkspaceInfo { name: "w".into(), root: "/w".into() },
        environment: EnvironmentInfo { name: "dev".into(), vars: SortedMap::new() },
        options: RunOptions {
            targets: vec![],
            recursive: true,
            environment: "dev".into(),
            concurrency: 1,
            stop_on_failure: false,
            max_body_bytes: 65536,
            continue_on_assertion_failure: false,
        },
        summary: RunSummary::default(),
        cases: files
            .iter()
            .map(|f| CaseResult {
                file: f.to_string(),
                name: "登录".into(),
                status: CaseStatus::Passed,
                skip_reason: None,
                started_at: "2026-08-03T00:00:00.000Z".into(),
                duration_ms: 318,
                steps: vec![],
            })
            .collect(),
    }
}

#[test]
fn environments_mark_the_first() {
    let names = vec!["dev".to_string(), "prod".to_string()];
    assert_eq!(environments(&names, "dev", plain()), "dev (默认)\nprod\n");
    assert_eq!(
        environments(&vec![], "", plain()),
        "没有配置任何环境（application.yml 的 environment 键）\n"
    );
}

#[test]
fn an_environment_lists_its_variables() {
    let mut vars = SortedMap::new();
    vars.insert("who".into(), "me".to_string());
    let e = EnvironmentInfo { name: "dev".into(), vars };
    assert_eq!(environment(&e, plain()), "环境 dev\n  who                  me\n");
    let none = EnvironmentInfo { name: "dev".into(), vars: SortedMap::new() };
    assert_eq!(environment(&none, plain()), "环境 dev\n");
}

#[test]
fn cookies_are_counted() {
    assert_eq!(cookies(&vec![], plain()), "jar 里没有 cookie\n");
    let text = cookies(&vec![cookie("api.test", "sid"), cookie("b.test", "t")], plain());
    let line = format!("{:28} {:10} {:20} 1\n", "api.test", "/", "sid");
    assert!(text.starts_with(&line), "{text}");
    assert!(text.ends_with("\n\n2 条\n"), "{text}");
}

#[test]
fn a_cookie_that_is_not_there_is_an_error() {
    assert_eq!(cookie_removed(true, "a.test", "/", "sid").unwrap(), "已删除 a.test / sid\n");
    assert_eq!(cookie_removed(false, "a.test", "/", "sid").unwrap_err(), "jar 里没有 a.test / sid");
    assert_eq!(cookies_cleared(3, None), "已清空 3 条\n");
    assert_eq!(cookies_cleared(0, Some("a.test")), "已清空 0 条（a.test）\n");
}

#[test]
fn reports_are_shown_from_the_root() {
    let ws = Workspace::open("/w".into(), None, None);
    assert_eq!(reports(&ws, &vec![], plain()), "还没有报告（跑一次 apicase run 就有了）\n");
    let files = vec!["/w/reports/b.html".to_string(), "/w/reports/a.html".to_string()];
    assert_eq!(reports(&ws, &files, plain()), "reports/b.html\nreports/a.html\n");
}

#[test]
fn a_report_has_a_line_for_each_case_and_a_summary() {
    let text = report(&run(&["a.yml", "api/login.yml"]), Some("/w/reports/r.html"), plain());
    let at = |s: &str| text.find(s).unwrap_or_else(|| panic!("{s} 不在：{text}"));
    assert!(at("a.yml") < at("api/login.yml"));
    assert!(at("api/login.yml") < at("/w/reports/r.html"));
}

#[test]
fn every_topic_has_a_line() {
    let text = all_topics(plain());
    assert_eq!(text.lines().count(), topics().len());
    for (line, t) in text.lines().zip(topics()) {
        assert_eq!(line, format!("{:12} {}", t.name, t.about));
    }
}

#[test]
fn a_made_workspace_says_what_comes_next() {
    assert_eq!(
        workspace_made("/w", plain()),
        "已初始化工作空间：/w\n下一步：apicase new 用例名 && apicase run\n"
    );
    let colored = Style::resolve(ColorWhen::Always, false, false);
    assert_ne!(workspace_made("/w", colored), workspace_made("/w", plain()));
}
