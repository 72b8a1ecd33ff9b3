use apicase::discover::{
    enters, extension, file_stem, find_all, is_among, is_yaml_file, sorted_paths, takes_in_walk, with_extension,
};

/// The files that a walk over these paths finds, in order.
fn walk(files: &[&str], recursive: bool) -> Vec<String> {
    let found: Vec<String> = files
        .iter()
        .filter(|f| {
            let dirs: Vec<&str> = f.split('/').rev().skip(1).collect();
            (recursive || dirs.is_empty()) && dirs.iter().all(|d| enters(d)) && takes_in_walk(f)
        })
        .map(|f| f.to_string())
        .collect();
    sorted_paths(&found)
}

#[test]
fn walk_filters_and_sorts() {
    let files = [
        "b.yml",
        "a.yaml",
        "application.yml",
        "api/login.yml",
        ".hidden/secret.yml",
        ".env.yml",
        "node_modules/dep.yml",
        "target/out.yml",
        "dist/bundle.yml",
        "readme.md",
    ];
    assert_eq!(walk(&files, true), vec!["a.yaml", "api/login.yml", "b.yml"], "按路径排序、过滤掉不该跑的");
    assert_eq!(walk(&files, false), vec!["a.yaml", "b.yml"], "非递归只看这一层");
}

#[test]
fn explicit_file_is_never_filtered() {
    for rel in ["application.yml", ".hidden/x.yml", "notes.md"] {
        assert_eq!(find_all(&vec![vec![rel.to_string()]]), vec![rel], "{rel}");
    }
    assert!(find_all(&vec![vec![]]).is_empty());
}

#[test]
fn multiple_targets_are_deduped_in_order() {
    let v = |l: &[&str]| l.iter().map(|s| s.to_string()).collect::<Vec<_>>();
    let got = find_all(&vec![v(&["smoke.yml"]), v(&["api/login.yml", "api/order.yml"]), v(&["api/login.yml"])]);
    assert_eq!(got, vec!["smoke.yml", "api/login.yml", "api/order.yml"], "保持首次出现的顺序，重复的不再追加");
    assert!(is_among(&got, "smoke.yml") && !is_among(&got, "other.yml"));
}

#[test]
fn paths_are_ordered_by_their_parts() {
    let v = ["a-b/x.yml", "a/y.yml", "a.yml"].map(String::from).to_vec();
    assert_eq!(sorted_paths(&v), vec!["a/y.yml", "a-b/x.yml", "a.yml"]);
    assert!(is_yaml_file("x.YML") && is_yaml_file("d/x.yaml") && !is_yaml_file("yml") && !is_yaml_file(".yml"));
}

#[test]
fn extensions_are_those_of_the_name() {
    assert_eq!(extension("a.tar.gz").as_deref(), Some("gz"));
    assert_eq!(extension(".gitignore"), None);
    assert_eq!(extension("readme"), None);
    assert_eq!(file_stem("/w/a.b.yml"), "a.b");
    assert_eq!(file_stem("/w/.gitignore"), ".gitignore");
    assert_eq!(with_extension("/w.d/cookies.yml", "json"), "/w.d/cookies.json");
    assert_eq!(with_extension("/w.d/cookies", "json"), "/w.d/cookies.json");
    assert_eq!(with_extension("/", "json"), "/");
}
