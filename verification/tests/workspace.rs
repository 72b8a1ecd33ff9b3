use apicase::model::WorkspaceSettings;
use apicase::workspace::{
    gitignore_text, join_path, nearest_root, relative_path, report_file_name, report_file_name_multi,
    Workspace, CONFIG_TEMPLATE, COOKIE_JAR,
};

fn open(config: Option<&str>) -> Workspace {
    Workspace::open("/w/demo".to_string(), config.map(str::to_string), None)
}

#[test]
fn report_file_name_matches_the_frontend() {
    let s = "20260803143022";
    assert_eq!(report_file_name(s, "api/login.yml"), "20260803143022-login.html");
    assert_eq!(report_file_name(s, "smoke.YAML"), "20260803143022-smoke.html", "后缀大小写不敏感");
    assert_eq!(report_file_name(s, "api"), "20260803143022-api.html", "目录名照用");
    assert_eq!(report_file_name(s, "a:b*c?.yml"), "20260803143022-a-b-c.html", "非法字符换 -，连续的合并");
    assert_eq!(report_file_name(s, "...yml"), "20260803143022.html", "清完是空的就只留时间戳");
    assert_eq!(report_file_name(s, "用例目录"), "20260803143022-用例目录.html");
    let long = "长".repeat(30);
    assert_eq!(report_file_name(s, &long), format!("{s}-{}.html", "长".repeat(20)));
}

#[test]
fn find_walks_up_to_the_config_file() {
    let dirs = vec!["/w/api/v2".to_string(), "/w/api".to_string(), "/w".to_string(), "/".to_string()];
    assert_eq!(nearest_root(&dirs, &vec![false, false, true, true]).as_deref(), Some("/w"));
    assert_eq!(nearest_root(&dirs, &vec![true, false, true, false]).as_deref(), Some("/w/api/v2"));
    assert_eq!(nearest_root(&dirs, &vec![false, false, false, false]), None);
}

#[test]
fn discover_falls_back_to_the_target_directory() {
    let ws = open(None);
    assert!(ws.is_scratch(), "没有 application.yml 就是未锚定");
    let jar = ws.client_config(None).cookies.expect("应有 cookie 配置");
    assert!(!jar.enabled && jar.jar_path.is_none(), "未锚定不带 cookie jar");
}

#[test]
fn anchoring_restores_the_full_behaviour() {
    let ws = open(Some(CONFIG_TEMPLATE));
    assert!(!ws.is_scratch(), "有配置就是锚定的");
    let jar = ws.client_config(None).cookies.expect("应有 cookie 配置");
    assert!(jar.enabled && jar.jar_path.is_some(), "锚定后 jar 照常");
}

#[test]
fn open_falls_back_to_defaults_without_a_config() {
    let ws = open(None);
    assert_eq!(ws.settings, WorkspaceSettings::default());
    assert!(ws.env_names().is_empty());
    assert_eq!(ws.default_env(), "default", "一套环境都没有时用 default");
}

#[test]
fn config_drives_env_and_client() {
    let ws = open(Some(
        "environment:\n  dev: { baseUrl: http://dev }\n  prod: { baseUrl: http://prod }\n\
         settings:\n  verifySsl: false\n  useCustomCa: true\n  caCert: certs/ca.pem\n  timeoutMs: 3000\n",
    ));
    assert_eq!(ws.env_names(), vec!["dev", "prod"], "保持书写顺序");
    assert_eq!(ws.default_env(), "dev", "缺省 = 第一套");
    assert_eq!(ws.env_info(None).vars.get("baseUrl").map(String::as_str), Some("http://dev"));
    assert_eq!(ws.env_info(Some("prod")).vars.get("baseUrl").map(String::as_str), Some("http://prod"));
    assert!(ws.env_info(Some("没这套")).vars.is_empty(), "环境名不存在得到空表，不报错");

    let cfg = ws.client_config(None);
    let opts = cfg.options.expect("应有请求选项");
    assert_eq!(opts.verify_ssl, Some(false));
    assert_eq!(opts.timeout_ms, Some(3000));
    assert_eq!(opts.ca_cert_path.as_deref(), Some("/w/demo/certs/ca.pem"), "CA 的相对路径要还原成绝对路径");
    let jar = cfg.cookies.expect("应有 cookie 配置");
    assert!(jar.enabled);
    assert_eq!(jar.jar_path, Some(join_path("/w/demo", COOKIE_JAR)));
    assert!(!ws.run_opts(ws.env_info(None), None).continue_on_assertion_failure);
}

#[test]
fn init_is_idempotent_and_gitignore_is_written_once() {
    let once = gitignore_text("").expect("nothing is ignored yet");
    assert_eq!(once, ".apicase/\n");
    assert_eq!(gitignore_text(&once), None, "不重复追加");
    assert_eq!(gitignore_text("dist").as_deref(), Some("dist\n.apicase/\n"));
}

#[test]
fn rel_is_relative_and_slash_separated() {
    let ws = open(None);
    assert_eq!(ws.rel("/w/demo/api/login.yml"), "api/login.yml");
    assert_eq!(ws.rel("/somewhere/else.yml"), "/somewhere/else.yml", "空间外的原样返回");
    assert_eq!(relative_path("/w/demo", "/w/demonstration/a.yml"), "/w/demonstration/a.yml");
}

#[test]
fn relative_targets_resolve_against_the_workspace_root() {
    let ws = open(None);
    assert_eq!(ws.resolve("api/login.yml"), "/w/demo/api/login.yml");
    assert_eq!(ws.resolve("/abs/login.yml"), "/abs/login.yml");
}

#[test]
fn several_targets_are_counted_in_the_name_of_a_report() {
    let two = vec!["api/login.yml".to_string(), "smoke.yml".to_string()];
    assert_eq!(report_file_name_multi("20260803143022", &two), "20260803143022-login等2项.html");
    let one = vec!["api/login.yml".to_string()];
    assert_eq!(report_file_name_multi("20260803143022", &one), "20260803143022-login.html");
    assert_eq!(report_file_name_multi("20260803143022", &Vec::new()), "20260803143022.html");
}

#[test]
fn the_workspace_says_how_many_cases_run_at_a_time() {
    let ws = open(Some("settings:\n  concurrency: 3\n  continueOnAssertionFailure: true\n"));
    let o = ws.run_opts(ws.env_info(None), None);
    assert_eq!(o.concurrency, 3);
    assert!(o.continue_on_assertion_failure);
    assert_eq!(ws.info().name, "demo");
    assert_eq!(ws.reports_dir(), "/w/demo/.apicase/reports");
}
