use apicase::json::{parse_json, Json};
use apicase::jsonpath::get;

fn v(text: &str) -> Json {
    parse_json(text).unwrap()
}

fn doc() -> Json {
    v(r#"{"data":{"token":"abc","list":[10,20,{"deep":true}],"空 键":1,"a.b":2},"n":0,"arr":[],"nil":null}"#)
}

#[test]
fn basic_paths() {
    let d = doc();
    assert_eq!(get(&d, "$.data.token"), Some(&v("\"abc\"")));
    assert_eq!(get(&d, "data.token"), Some(&v("\"abc\"")), "前导 $. 可省");
    assert_eq!(get(&d, "$.data.list[1]"), Some(&v("20")));
    assert_eq!(get(&d, "$.data.list[2].deep"), Some(&v("true")));
    assert_eq!(get(&d, "$"), Some(&d), "单独的 $ 取根");
    assert_eq!(get(&d, "  $.n  "), Some(&v("0")), "两端空白应忽略");
}

#[test]
fn quoted_keys() {
    let d = doc();
    assert_eq!(get(&d, "$.data['空 键']"), Some(&v("1")));
    assert_eq!(get(&d, "$.data[\"a.b\"]"), Some(&v("2")));
    assert_eq!(get(&d, "$.data.a.b"), None, "不加引号时 a.b 是两层，取不到");
}

#[test]
fn null_value_vs_missing() {
    let d = doc();
    assert_eq!(get(&d, "$.nil"), Some(&v("null")));
    assert_eq!(get(&d, "$.nope"), None);
    assert_eq!(get(&d, "$.nil.x"), None, "在 null 上继续取路径是不存在");
}

#[test]
fn invalid_paths_return_none() {
    let d = doc();
    for p in ["$.data.list[", "$.data.list[a]", "$.data['未闭合", "$..data", "$.data..token", "$.[0]", "$.data list"] {
        assert_eq!(get(&d, p), None, "{p} 应判为无效");
    }
}

#[test]
fn out_of_range_and_type_mismatch() {
    let d = doc();
    assert_eq!(get(&d, "$.data.list[9]"), None, "越界");
    assert_eq!(get(&d, "$.arr[0]"), None, "空数组");
    assert_eq!(get(&d, "$.n[0]"), None, "在数字上取下标");
    assert_eq!(get(&d, "$.data.list.token"), None, "在数组上取 key");
}

#[test]
fn non_json_body_yields_none() {
    assert!(parse_json("<html></html>").is_none());
    assert!(parse_json("").is_none());
    assert_eq!(parse_json("{\"a\":1}"), Some(v("{\"a\":1}")));
}

#[test]
fn the_beginning_of_a_path_may_be_left_out() {
    let d = doc();
    for p in ["data.token", "data.list[2].deep", "n", "nope", "data list", "data['a.b']", "data.list[1]  "] {
        let found = get(&d, p);
        assert_eq!(get(&d, &format!(".{p}")), found, "{p}");
        assert_eq!(get(&d, &format!("${p}")), found, "{p}");
        assert_eq!(get(&d, &format!("$.{p}")), found, "{p}");
    }
    assert_eq!(get(&d, "data['a.b']"), Some(&v("2")));
    let dollar = v(r#"{"$x":1,"x":2}"#);
    assert_eq!(get(&dollar, "$x"), Some(&v("2")));
    assert_eq!(get(&dollar, "$$x"), Some(&v("1")));
}

#[test]
fn a_quoted_key_may_hold_anything_but_its_quote() {
    let d = v(r#"{"a]b":1,"it's":2,"":3,"x\"y":4}"#);
    assert_eq!(get(&d, "['a]b']"), Some(&v("1")));
    assert_eq!(get(&d, "[\"it's\"]"), Some(&v("2")));
    assert_eq!(get(&d, "['']"), Some(&v("3")));
    assert_eq!(get(&d, "['x\"y']"), Some(&v("4")));
    assert_eq!(get(&d, "['it's']"), None);
    assert_eq!(get(&v("[1]"), "['a']"), None);
}
