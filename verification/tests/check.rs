use apicase::check::{check, check_text, inspect, CheckReport, Issue, Severity};
use apicase::case_file::parse_case;
use apicase::discover::ReadFile;
use apicase::run::{EXIT_ERROR, EXIT_OK};
use apicase::workspace::Workspace;

fn issues_of(yaml: &str) -> Vec<Issue> {
    check_text(yaml, "t.yml").issues
}


#[test]
fn clean_case_has_no_issues() {
    let r = check_text(
        "apicase: v0.1\nsteps:\n  - id: a\n    request:\n      method: GET\n      url: http://x/a\n\
         \n    assertions:\n      - { target: res.status, op: eq, value: 200 }\n",
        "t.yml",
    );
    assert!(r.ok, "{:?}", r.issues);
    assert!(r.issues.is_empty(), "{:?}", r.issues);
}

#[test]
fn broken_yaml_is_a_single_error() {
    let r = check_text("这不是: [有效\n  yaml", "t.yml");
    assert!(!r.ok);
    assert_eq!(r.issues.len(), 1);
    assert_eq!(r.issues[0].severity, Severity::Error);
}

#[test]
fn dangling_dependency_and_duplicate_id_are_errors() {
    let is = issues_of(
        "apicase: v0.1\nsteps:\n  - id: a\n    request: { url: http://x }\n\
         \n  - id: a\n    dependsOn: [幽灵]\n    request: { url: http://x }\n",
    );
    let msgs: Vec<&str> = is.iter().map(|i| i.message.as_str()).collect();
    assert!(msgs.iter().any(|m| m.contains("id 重复")), "{msgs:?}");
    assert!(msgs.iter().any(|m| m.contains("依赖的请求不存在")), "{msgs:?}");
    assert!(is.iter().all(|i| i.severity == Severity::Error));
    assert_eq!(is[1].at, "steps[1].dependsOn[0]", "位置要精确到那一条");
}

#[test]
fn unknown_assert_target_is_a_warning() {
    let is = issues_of(
        "apicase: v0.1\nsteps:\n  - id: a\n    request: { url: http://x }\n\
         \n    assertions:\n      - { target: status, op: eq, value: 200 }\n\
         \n      - { target: res.bodyfoo, op: eq, value: 1 }\n",
    );
    assert_eq!(is.len(), 2, "{is:?}");
    assert!(is.iter().all(|i| i.severity == Severity::Warning));
    assert!(is[0].message.contains("认不出的断言目标"));
    assert!(check_text(
        "apicase: v0.1\nsteps:\n  - id: a\n    request: { url: http://x }\n\
         \n    assertions:\n      - { target: status, op: eq, value: 200 }\n",
        "t.yml"
    )
    .ok, "只有 warning 时 ok 仍为 true");
}

#[test]
fn empty_url_is_an_error() {
    let is = issues_of("apicase: v0.1\nsteps:\n  - id: a\n    request: { method: GET }\n");
    assert_eq!(is.len(), 1);
    assert_eq!(is[0].severity, Severity::Error);
    assert_eq!(is[0].at, "steps[0].request.url");
}

#[test]
fn cycles_are_reported_once_with_the_path() {
    let is = issues_of(
        "apicase: v0.1\nsteps:\n  - id: a\n    dependsOn: [b]\n    request: { url: http://x }\n\
         \n  - id: b\n    dependsOn: [a]\n    request: { url: http://x }\n",
    );
    let cycles: Vec<&Issue> = is.iter().filter(|i| i.message.starts_with("依赖成环")).collect();
    assert_eq!(cycles.len(), 1, "只报第一条：{is:?}");
    assert!(cycles[0].message.contains("→"), "{}", cycles[0].message);
}

#[test]
fn empty_steps_short_circuits() {
    let r = check_text("apicase: v0.1\nsteps: []\n", "t.yml");
    assert!(!r.ok);
    assert_eq!(r.issues.len(), 1, "空用例不必再往下查每个字段");
}

fn exit_of(r: &CheckReport) -> u8 {
    if r.errors > 0 {
        EXIT_ERROR
    } else {
        EXIT_OK
    }
}

#[test]
fn check_exits_on_errors_but_not_on_warnings() {
    let ws = Workspace::open("/w".to_string(), Some("environment:\n  dev: {}\n".to_string()), None);
    let warn = ReadFile {
        path: "/w/warn.yml".into(),
        text: Ok("apicase: v0.1\nsteps:\n  - id: a\n    request: { url: http://x }\n\
                  \n    assertions:\n      - { target: status, op: eq, value: 200 }\n".into()),
    };
    let err = ReadFile {
        path: "/w/err.yml".into(),
        text: Ok("apicase: v0.1\nsteps:\n  - id: a\n    dependsOn: [幽灵]\n    request: { url: http://x }\n".into()),
    };
    let one = check(&ws, &vec![warn]);
    assert_eq!(exit_of(&one), 0, "只有警告时不该拦住 CI");
    assert_eq!((one.total, one.ok, one.errors, one.warnings), (1, 1, 0, 1));
    let two = check(&ws, &vec![err, ReadFile { path: "/w/gone.yml".into(), text: Err("没有".into()) }]);
    assert_eq!(exit_of(&two), 3, "有错误就该拦住");
    assert_eq!((two.total, two.ok, two.errors, two.warnings), (2, 0, 2, 0));
    assert_eq!(two.results[0].file, "err.yml");
    assert!(two.results[1].issues[0].message.contains("没有"));
}

#[test]
fn a_case_can_be_checked_before_it_is_written() {
    let c = parse_case("steps:\n  - id: a\n    request: { url: http://x }\n").unwrap();
    assert!(inspect(&c).is_empty());
    let own = parse_case("steps:\n  - id: a\n    dependsOn: [a]\n    request: { url: http://x }\n").unwrap();
    let is = inspect(&own);
    assert!(is.iter().any(|i| i.severity == Severity::Error), "{is:?}");
}
