use apicase::case_file::{dump_case, parse_case};
use apicase::discover::ReadFile;
use apicase::docs::topics;
use apicase::json::{parse_json, Json};
use apicase::list::list;
use apicase::output::{docs_text, listed_text, shown_text, tool_docs_text};
use apicase::workspace::Workspace;

const CASE: &str = "apicase: v0.1\nname: 登录\nsteps:\n  - id: a\n    request: { method: GET, url: http://x }\n";

fn member<'a>(v: &'a Json, name: &str) -> &'a Json {
    let Json::Object(l) = v else { panic!("应是对象") };
    &l.iter().find(|m| m.name == name).unwrap_or_else(|| panic!("缺 {name}")).value
}

#[test]
fn a_list_is_answered_with_its_length() {
    let ws = Workspace::open("/w".into(), None, None);
    let files = vec![ReadFile { path: "/w/a.yml".into(), text: Ok(CASE.into()) }];
    let v = parse_json(&listed_text(&list(&ws, &files, None)).unwrap()).unwrap();
    assert!(matches!(member(&v, "cases"), Json::Array(l) if l.len() == 1));
    assert_eq!(member(&v, "total"), &parse_json("1").unwrap());
}

#[test]
fn a_case_is_answered_with_its_text() {
    let v = parse_json(&shown_text("a.yml", CASE).unwrap()).unwrap();
    assert_eq!(member(&v, "file"), &Json::Str("a.yml".into()));
    let written = dump_case(&parse_case(CASE).unwrap());
    assert_eq!(member(&v, "yaml"), &Json::Str(written));
    let bad = parse_json(&shown_text("a.yml", "steps: 1").unwrap()).unwrap();
    assert_eq!(member(&bad, "valid"), &Json::Bool(false));
    assert_eq!(member(&bad, "raw"), &Json::Str("steps: 1".into()));
}

#[test]
fn the_description_is_answered_by_topic() {
    let doc = "# 用例\n\n## 变量与透传\n\n优先级。\n\n## 其他\n\n别的。\n";
    let v = parse_json(&docs_text(doc, Some("vars")).unwrap()).unwrap();
    assert_eq!(member(&v, "topic"), &Json::Str("vars".into()));
    assert!(matches!(member(&v, "markdown"), Json::Str(t) if t.contains("优先级") && !t.contains("别的")));
    let first = parse_json(&docs_text(doc, None).unwrap()).unwrap();
    assert_eq!(member(&first, "topic"), &Json::Str("case".into()));
    let tool = parse_json(&tool_docs_text(doc, Some("vars")).unwrap()).unwrap();
    assert!(matches!(member(&tool, "availableTopics"), Json::Array(l) if l.len() == topics().len()));
}
