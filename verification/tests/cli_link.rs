use apicase::cli_link::{candidates, plan_install, plan_uninstall, status, Candidate, Found, LinkStatus};

fn dirs(first: (bool, bool), second: (bool, bool)) -> Vec<Candidate> {
    vec![
        Candidate { dir: "/home/me/.local/bin".into(), in_path: first.0, writable: first.1 },
        Candidate { dir: "/usr/local/bin".into(), in_path: second.0, writable: second.1 },
    ]
}

#[test]
fn user_dir_is_preferred_over_the_global_one() {
    let c = candidates(Some("/home/me"), Some("/usr/local/bin"));
    assert!(c[0].ends_with(".local/bin"), "首选应是 ~/.local/bin：{c:?}");
    assert!(c.iter().any(|p| p == "/usr/local/bin"), "全局目录应作为次选：{c:?}");
    assert_eq!(candidates(None, None), Vec::<String>::new());
}

#[test]
fn install_rejects_a_missing_source() {
    let e = plan_install(false, "/绝不存在的/apicase", status(&None, &dirs((true, true), (true, true)), "apicase"))
        .expect_err("应当失败");
    assert!(e.contains("找不到命令行工具"), "{e}");
}

#[test]
fn install_then_uninstall_round_trips() {
    let s = status(&None, &dirs((true, true), (true, true)), "apicase");
    let done = plan_install(true, "/src/apicase", s).expect("该装得上");
    assert_eq!(done.link, "/home/me/.local/bin/apicase");
    assert!(!done.needs_path_setup && !done.already);
    let found = Some(Found { link: done.link.clone(), ours: true });
    let again = status(&found, &dirs((true, true), (true, true)), "apicase");
    assert_eq!(again, LinkStatus::Installed { link: done.link.clone() });
    assert!(plan_install(true, "/src/apicase", again.clone()).expect("已经装好").already);
    assert_eq!(plan_uninstall(again), Ok(Some(done.link)));
    assert_eq!(plan_uninstall(status(&None, &dirs((true, true), (true, true)), "apicase")), Ok(None));
}

#[test]
fn foreign_link_is_recognised_and_left_alone() {
    let found = Some(Found { link: "/usr/local/bin/apicase".into(), ours: false });
    let s = status(&found, &dirs((true, true), (true, true)), "apicase");
    assert_eq!(s, LinkStatus::Foreign { link: "/usr/local/bin/apicase".into() });
    assert!(plan_install(true, "/src/apicase", s.clone()).is_err());
    assert!(plan_uninstall(s).is_err());
}

#[test]
fn writability_is_probed_not_guessed() {
    let s = status(&None, &dirs((true, false), (true, true)), "apicase");
    assert_eq!(
        s,
        LinkStatus::Missing { target: Some("/usr/local/bin/apicase".into()), needs_path_setup: false }
    );
    let none = status(&None, &dirs((false, true), (true, false)), "apicase");
    assert_eq!(
        none,
        LinkStatus::Missing { target: Some("/home/me/.local/bin/apicase".into()), needs_path_setup: true }
    );
    assert!(plan_install(true, "/src/apicase", LinkStatus::Missing { target: None, needs_path_setup: true }).is_err());
}
