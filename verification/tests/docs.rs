use apicase::docs::{heading_level, heading_matches, lines, topic_list, topics};

/// A document with the headings that the topics name.
const SPEC: &str = "# 用例文件\n\n全文的开头。\n\n## 总览\n\n```yaml\napicase: v0.1\nsteps:\n  - id: a\n    dependsOn: [b]\n    request:\n      url: ${{baseUrl}}/x\n```\n\n\
## 顶层字段\n\napicase、name、vars。\n\n## step（请求节点）\n\nid 必填。\n\n### request（http 报文）\n\nmethod 与 url。\n\n\
#### auth（认证）\n\nbearer 等。\n\n#### body（请求体）\n\njson 等。\n\n### outputs（输出提取）\n\n路径。\n\n### assertions（断言）\n\neq 等。\n\n\
## 变量与透传\n\n优先级。\n\n## application.yml（工作空间配置）\n\nenvironment。\n\n## cookies.yml（cookie 会话）\n\n按域。\n";

fn topic(name: Option<&str>) -> String {
    apicase::docs::topic(SPEC, name)
}

fn sections(headings: &[&str]) -> String {
    apicase::docs::sections(SPEC, &headings.iter().map(|h| h.to_string()).collect())
}

#[test]
fn every_topic_resolves_to_its_own_section() {
    for t in &topics() {
        let text = topic(Some(&t.name));
        assert!(!text.trim().is_empty(), "主题 {} 是空的", t.name);
        if t.headings.is_empty() {
            continue;
        }
        for h in &t.headings {
            assert!(text.contains(h.as_str()), "主题 {} 应含标题「{h}」", t.name);
        }
        assert!(text.len() < SPEC.len(), "主题 {} 退化成了全文（标题多半改名了）", t.name);
    }
}

#[test]
fn case_topic_is_the_default_and_covers_the_essentials() {
    let d = topic(None);
    assert_eq!(d, topic(Some("case")));
    for must in ["apicase: v0.1", "steps:", "dependsOn", "${{baseUrl}}"] {
        assert!(d.contains(must), "默认主题里应有 `{must}`");
    }
}

#[test]
fn unknown_topic_falls_back_with_an_explanation() {
    let t = topic(Some("没这个"));
    assert!(t.starts_with("（没有名为 `没这个` 的主题"), "{t}");
    assert!(t.contains("assertions"), "要列出可选主题");
    assert!(t.contains("steps:"), "回落的内容仍要有用");
}

#[test]
fn a_section_carries_its_subsections() {
    let s = sections(&["step（请求节点）"]);
    assert!(s.contains("### request"), "子节要跟着走：{s}");
    assert!(!s.contains("## 变量与透传"), "不该越过下一个同级标题");
}

#[test]
fn heading_level_only_counts_real_headings() {
    assert_eq!(heading_level("## 总览"), Some(2));
    assert_eq!(heading_level("### a"), Some(3));
    assert_eq!(heading_level("#没空格"), None);
    assert_eq!(heading_level("普通行"), None);
}

#[test]
fn a_section_ends_at_a_heading_of_its_level() {
    let s = sections(&["outputs（输出提取）"]);
    assert_eq!(s, "### outputs（输出提取）\n\n路径。\n\n");
    assert_eq!(sections(&["没有的标题"]), SPEC, "摘不到就给全文");
    assert_eq!(sections(&["总览", "变量与透传"]).matches("## ").count(), 2);
}

#[test]
fn lines_are_split_like_text_lines() {
    assert_eq!(lines("a\r\nb\n\nc"), vec!["a", "b", "", "c"]);
    assert!(lines("").is_empty());
    assert!(heading_matches("## 总览 ", "总览") && !heading_matches("总览", "总览"));
    assert!(topic_list().starts_with("case（") && topic_list().contains("、all（"));
}
