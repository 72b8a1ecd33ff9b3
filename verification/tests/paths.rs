use apicase::http::ProxyConfig;
use apicase::paths::{
    app_config_dir, app_settings_file, legacy_app_config_dir, legacy_app_settings_file, legacy_config_base,
    moves_settings, parse_app_prefs, pick_settings_file, AppPrefs, System, APP_DIR_NAME, APP_IDENTIFIER,
    SETTINGS_FILE,
};

#[test]
fn config_dir_is_dot_apicase_under_home() {
    let dir = app_config_dir(None, Some("/home/me")).expect("有主目录");
    assert_eq!(dir, format!("/home/me/{APP_DIR_NAME}"), "应直接挂在主目录下");
    let old = legacy_app_config_dir(Some("/home/me/.config")).expect("老位置应能推导");
    assert!(old.ends_with(APP_IDENTIFIER), "{old}");
    assert_ne!(old, dir, "新老位置不该是同一个");
    assert_eq!(app_settings_file(None, Some("/home/me")), Some(format!("{dir}/{SETTINGS_FILE}")));
    assert_eq!(app_config_dir(None, None), None);
}

#[test]
fn legacy_settings_are_moved_once() {
    assert!(moves_settings(false, false, true), "该搬");
    assert!(!moves_settings(false, true, false), "搬过了");
    assert!(!moves_settings(false, true, true), "新文件在就不该动");
    assert!(!moves_settings(true, false, true), "同一个文件不必搬");
    assert!(!moves_settings(false, false, false), "没有老文件时不该「搬」");
}

#[test]
fn prefs_fall_back_to_the_legacy_file() {
    let (new, old) = (Some("/new.json".to_string()), Some("/old.json".to_string()));
    assert_eq!(pick_settings_file(new.clone(), false, old.clone()), old, "新文件没有 → 读老的");
    assert_eq!(pick_settings_file(new.clone(), true, old.clone()), new);
    assert_eq!(parse_app_prefs(r#"{"proxy":{"mode":"none"}}"#).proxy, Some(ProxyConfig { mode: "none".into(), url: None }));
}

#[test]
fn settings_migrate_from_the_real_legacy_location() {
    let new_file = app_settings_file(None, Some("/fake")).expect("应能算出新位置");
    let base = legacy_config_base(System::Other, None, Some("/fake")).expect("应能算出老目录");
    assert_eq!(base, "/fake/.config");
    let old_file = legacy_app_settings_file(Some(&base)).expect("应能算出老位置");
    assert_eq!(new_file, "/fake/.apicase/settings.json", "新位置就该是 ~/.apicase/settings.json");
    assert_ne!(new_file, old_file);
    assert_eq!(app_config_dir(Some("/钉住的目录"), Some("/fake")).as_deref(), Some("/钉住的目录"));
    assert_eq!(app_settings_file(Some("/钉住的目录"), Some("/fake")).as_deref(), Some("/钉住的目录/settings.json"));
    assert_eq!(app_settings_file(Some("相对路径"), Some("/fake")), Some(new_file), "相对路径应按未设置处理");
}

#[test]
fn each_system_has_its_directory_for_settings() {
    let at = |s, g: Option<&str>| legacy_config_base(s, g, Some("/h"));
    assert_eq!(at(System::Mac, Some("/x")).as_deref(), Some("/h/Library/Application Support"));
    assert_eq!(at(System::Windows, Some("C:/Roaming")).as_deref(), Some("C:/Roaming"));
    assert_eq!(at(System::Windows, Some("")), None);
    assert_eq!(at(System::Windows, None), None);
    assert_eq!(at(System::Other, Some("/xdg")).as_deref(), Some("/xdg"));
    assert_eq!(at(System::Other, Some("xdg")).as_deref(), Some("/h/.config"));
    assert_eq!(legacy_config_base(System::Other, None, None), None);
}

#[test]
fn anything_unreadable_falls_back_to_defaults() {
    for text in ["", "不是 JSON", "null", "[]", "{}", r#"{"theme":"dark"}"#] {
        assert_eq!(parse_app_prefs(text), AppPrefs::default(), "输入：{text:?}");
    }
}

#[test]
fn proxy_modes_are_parsed_like_the_frontend() {
    let p = |s: &str| parse_app_prefs(s).proxy;

    assert_eq!(
        p(r#"{"proxy":{"mode":"none","url":""}}"#),
        Some(ProxyConfig { mode: "none".into(), url: None }),
        "直连不需要地址"
    );
    assert_eq!(
        p(r#"{"proxy":{"mode":"custom","url":" http://127.0.0.1:7890 "}}"#),
        Some(ProxyConfig { mode: "custom".into(), url: Some("http://127.0.0.1:7890".into()) }),
        "地址要去掉首尾空白"
    );

    assert_eq!(p(r#"{"proxy":{"mode":"system","url":""}}"#), None);
    assert_eq!(p(r#"{"proxy":{"mode":"socks5"}}"#), None);
    assert_eq!(p(r#"{"proxy":"字符串不是对象"}"#), None);
    assert_eq!(p(r#"{"proxy":{"mode":"custom","url":"  "}}"#), None);
    assert_eq!(p(r#"{"proxy":{"mode":"custom"}}"#), None);
}

#[test]
fn reads_the_real_frontend_shape_and_ignores_the_rest() {
    let real = r#"{
      "recentWorkspaces": ["/Users/me/demo"],
      "theme": "system",
      "proxy": {"mode": "custom", "url": "http://127.0.0.1:7890"},
      "shortcuts": {},
      "shortcutsEnabled": true,
      "showHiddenFiles": true
    }"#;
    assert_eq!(
        parse_app_prefs(real).proxy,
        Some(ProxyConfig { mode: "custom".into(), url: Some("http://127.0.0.1:7890".into()) })
    );
}
