use apicase::agents::{section, splice, state, State, Written};

const BEGIN: &str = "<!-- apicase:begin -->";
const END: &str = "<!-- apicase:end -->";

#[test]
fn creates_then_stays_idempotent() {
    assert_eq!(state(None, true), State::Absent);
    let (text, w) = apicase::agents::write(None, true);
    assert_eq!(w, Written::Created);
    assert_eq!(state(Some(&text), true), State::Ready);
    let (again, w) = apicase::agents::write(Some(&text), true);
    assert_eq!(w, Written::Unchanged, "第二次不该有改动");
    assert_eq!(again, text);
    for must in ["apicase docs", "apicase check", "apicase run --json", "failed", "skipped", ".apicase/cookies.yml"] {
        assert!(text.contains(must), "应含 `{must}`");
    }
}

#[test]
fn appends_to_an_existing_file_without_touching_it() {
    let theirs = "# 我的项目\n\n构建：`make all`\n";
    let (text, w) = apicase::agents::write(Some(theirs), true);
    assert_eq!(w, Written::Appended);
    assert!(text.starts_with(theirs), "用户原有内容要一字不动地留在前面：\n{text}");
    assert!(text.contains(BEGIN) && text.contains(END));
    assert_eq!(state(Some(&text), true), State::Ready);
}

#[test]
fn updates_only_its_own_section() {
    let (text, w) = apicase::agents::write(Some(&format!("前言\n\n{BEGIN}\n旧内容\n{END}\n\n后记\n")), true);
    assert_eq!(w, Written::Updated);
    assert!(text.starts_with("前言\n"), "前面的内容要留住：\n{text}");
    assert!(text.trim_end().ends_with("后记"), "后面的内容也要留住：\n{text}");
    assert!(!text.contains("旧内容"), "自己那一段应被替换");
    assert_eq!(text.matches(BEGIN).count(), 1, "标记不该重复");
}

#[test]
fn an_outdated_section_reads_as_stale() {
    let old = format!("{BEGIN}\n旧版本的说明\n{END}\n");
    assert_eq!(state(Some(&old), true), State::Stale);
    let (text, w) = apicase::agents::write(Some(&old), true);
    assert_eq!(w, Written::Updated);
    assert_eq!(state(Some(&text), true), State::Ready, "更新过就该是最新");
    assert_eq!(state(Some(&text), false), State::Stale);
}

#[test]
fn a_broken_marker_is_treated_as_absent() {
    let broken = format!("正文\n{BEGIN}\n没有结束标记\n");
    assert_eq!(state(Some(&broken), true), State::Absent);
    let (text, w) = apicase::agents::write(Some(&broken), true);
    assert_eq!(w, Written::Appended, "应追加而不是切片");
    assert!(text.contains("没有结束标记"), "用户内容不该被切掉：\n{text}");
}

#[test]
fn fallback_paths_are_conventional_not_local() {
    let with = section(false);
    assert!(with.contains("/Applications/Apicase.app"), "应给 macOS 的约定位置");
    assert!(with.contains("不要自行下载安装"), "要挡住 AI 自己去下载");
    assert!(!with.contains("/Users/"), "绝不能出现本机路径：\n{with}");
    let without = section(true);
    assert!(!without.contains("/Applications/"), "已在 PATH 时不该有兜底段落");
    assert!(without.len() < with.len());
}

#[test]
fn only_a_whole_section_is_replaced() {
    assert_eq!(splice("a", "b"), None);
    assert_eq!(splice(&format!("{END} {BEGIN}"), "b"), None);
    assert_eq!(splice(&format!("x{BEGIN}y{END}z"), "b\n").as_deref(), Some("xbz"));
}

#[test]
fn a_stray_mark_costs_nothing_on_the_second_write() {
    for theirs in [
        format!("正文\n{BEGIN}\n没有结束标记\n"),
        format!("正文\n{END}\n没有开始标记"),
        format!("{END}\n{BEGIN}\n{BEGIN}\n"),
    ] {
        let (once, w) = apicase::agents::write(Some(&theirs), true);
        assert_eq!(w, Written::Appended);
        assert!(once.starts_with(&theirs));
        let (twice, w) = apicase::agents::write(Some(&once), true);
        assert_eq!((twice.as_str(), w), (once.as_str(), Written::Unchanged));
        let (other, w) = apicase::agents::write(Some(&once), false);
        assert_eq!(w, Written::Updated);
        assert!(other.starts_with(&theirs), "{other}");
        assert_eq!(other, apicase::agents::write(Some(&theirs), false).0);
    }
    let nested = format!("{BEGIN}\nmine\n{BEGIN}\nold\n{END}\nrest\n");
    let (text, w) = apicase::agents::write(Some(&nested), true);
    assert_eq!(w, Written::Updated);
    assert!(text.starts_with(&format!("{BEGIN}\nmine\n{BEGIN}\n")) && text.ends_with("\nrest\n"));
    assert!(!text.contains("old"));
    assert_eq!(state(Some(&text), true), State::Ready);
}
