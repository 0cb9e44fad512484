use labelgen::data::{FormatError, FormatString, LabelGroupSpec, LabelSpec, LabelsFile};
use labelgen::labels::{build_labels, Label};
use labelgen::sync::plan_sync;

fn fmt(s: &str) -> FormatString {
    FormatString::parse(s).unwrap()
}

fn spec(repos: Option<&[&str]>, description: Option<&str>, colour: Option<&str>) -> LabelSpec {
    LabelSpec {
        repos: repos.map(|r| r.iter().map(|s| s.to_string()).collect()),
        description: description.map(fmt),
        colour: colour.map(|c| c.to_string()),
    }
}

fn group(pattern: &str, labels: &[&str]) -> LabelGroupSpec {
    LabelGroupSpec {
        label_spec: spec(None, None, None),
        repeatable: false,
        pattern: fmt(pattern),
        labels: labels.iter().map(|s| s.to_string()).collect(),
        elaborated_labels: Vec::new(),
        subgroups: Vec::new(),
    }
}

fn file(groups: Vec<(&str, LabelGroupSpec)>) -> LabelsFile {
    LabelsFile {
        groups: groups.into_iter().map(|(n, g)| (n.to_string(), g)).collect(),
    }
}

fn names(labels: &[Label]) -> Vec<String> {
    labels.iter().map(|l| l.name.clone()).collect()
}

#[test]
fn nested_patterns_compose_with_depth_keys() {
    let mut outer = group("outer/{0}-{}", &[]);
    outer.subgroups.push(("inner".to_string(), group("inner-{}", &["x"])));
    let out = build_labels("any", &file(vec![("root", outer)])).unwrap();
    assert_eq!(names(&out), vec!["outer/x-inner-x"]);
}

#[test]
fn out_of_scope_group_drops_subtree() {
    let mut g = group("{}", &["a"]);
    g.label_spec = spec(Some(&["repoA"]), None, None);
    g.subgroups.push(("sub".to_string(), group("s-{}", &["b"])));
    let f = file(vec![("g", g)]);
    assert!(build_labels("repoB", &f).unwrap().is_empty());
    assert_eq!(names(&build_labels("repoA", &f).unwrap()), vec!["a", "s-b"]);
}

#[test]
fn out_of_scope_elaborated_label_is_skipped() {
    let mut g = group("{}", &[]);
    g.elaborated_labels.push(("only-a".to_string(), spec(Some(&["repoA"]), None, None)));
    g.elaborated_labels.push(("all".to_string(), spec(None, None, None)));
    let f = file(vec![("g", g)]);
    assert_eq!(names(&build_labels("repoB", &f).unwrap()), vec!["all"]);
}

#[test]
fn colours_and_descriptions_follow_precedence() {
    let mut root = group("{}", &[]);
    root.label_spec = spec(None, Some("root {}"), Some("111111"));
    let mut mid = group("{}", &["plain"]);
    mid.label_spec = spec(None, Some("mid {stem}"), Some("222222"));
    mid.elaborated_labels.push(("own".to_string(), spec(None, Some("own {}"), Some("333333"))));
    mid.elaborated_labels.push(("bare".to_string(), spec(None, None, None)));
    root.subgroups.push(("mid".to_string(), mid));
    root.subgroups.push(("leaf".to_string(), group("{}", &["inherit"])));
    let out = build_labels("r", &file(vec![("root", root)])).unwrap();
    let get = |n: &str| out.iter().find(|l| l.name == n).unwrap();
    assert_eq!((get("own").colour.as_str(), get("own").description.as_str()), ("333333", "own own"));
    assert_eq!((get("bare").colour.as_str(), get("bare").description.as_str()), ("222222", "mid bare"));
    assert_eq!((get("plain").colour.as_str(), get("plain").description.as_str()), ("222222", "mid plain"));
    assert_eq!(
        (get("inherit").colour.as_str(), get("inherit").description.as_str()),
        ("111111", "root inherit")
    );
}

#[test]
fn no_settings_give_default_colour_and_empty_description() {
    let mut g = group("{}", &["p"]);
    g.elaborated_labels.push(("e".to_string(), spec(None, None, None)));
    let out = build_labels("r", &file(vec![("g", g)])).unwrap();
    assert_eq!(out.len(), 2);
    for l in &out {
        assert_eq!(l.colour, "7f7f7f");
        assert_eq!(l.description, "");
    }
}

#[test]
fn output_sorted_and_duplicates_kept() {
    let f = file(vec![
        ("one", group("{}", &["zeta", "beta"])),
        ("two", group("{}", &["alpha", "beta"])),
    ]);
    assert_eq!(names(&build_labels("r", &f).unwrap()), vec!["alpha", "beta", "beta", "zeta"]);
    let g = file(vec![
        ("two", group("{}", &["alpha", "beta"])),
        ("one", group("{}", &["zeta", "beta"])),
    ]);
    assert_eq!(names(&build_labels("r", &g).unwrap()), vec!["alpha", "beta", "beta", "zeta"]);
}

#[test]
fn unknown_key_aborts_resolution() {
    let f = file(vec![("g", group("{missing}-{}", &["a"]))]);
    assert!(matches!(build_labels("r", &f), Err(FormatError::UnknownKey(k)) if k == "missing"));
}

#[test]
fn description_key_unknown_aborts() {
    let mut g = group("{}", &["a"]);
    g.label_spec = spec(None, Some("{0}"), None);
    let f = file(vec![("g", g)]);
    assert!(matches!(build_labels("r", &f), Err(FormatError::UnknownKey(k)) if k == "0"));
}

#[test]
fn stem_key_visible_to_patterns() {
    let mut outer = group("{stem}:{}", &[]);
    outer.subgroups.push(("s".to_string(), group("[{}]", &["x"])));
    let out = build_labels("r", &file(vec![("o", outer)])).unwrap();
    assert_eq!(names(&out), vec!["x:[x]"]);
}

#[test]
fn deep_keys_count_from_the_leaf() {
    let mut a = group("{1}|{0}|{}", &[]);
    let mut b = group("b{}", &[]);
    b.subgroups.push(("c".to_string(), group("c{}", &["x"])));
    a.subgroups.push(("b".to_string(), b));
    let out = build_labels("r", &file(vec![("a", a)])).unwrap();
    assert_eq!(names(&out), vec!["cx|x|bcx"]);
}

#[test]
fn many_levels_use_two_digit_keys() {
    let mut node = group("{}", &["x"]);
    for _ in 0..11 {
        let mut parent = group("{}", &[]);
        parent.subgroups.push(("n".to_string(), node));
        node = parent;
    }
    node.pattern = fmt("{10}/{}");
    let out = build_labels("r", &file(vec![("top", node)])).unwrap();
    assert_eq!(names(&out), vec!["x/x"]);
}

#[test]
fn sync_creates_missing_and_deletes_unwanted() {
    let wanted = vec![
        Label { name: "a".into(), colour: "1".into(), description: String::new() },
        Label { name: "b".into(), colour: "2".into(), description: String::new() },
    ];
    let existing: Vec<String> = vec!["b".into(), "old".into(), "keep".into(), "mine".into()];
    let all: Vec<String> = vec!["keep".into()];
    let repo: Vec<String> = vec!["mine".into()];
    let plan = plan_sync(&wanted, &existing, &all, Some(&repo));
    assert_eq!(plan.create, vec![0]);
    assert_eq!(plan.delete, vec!["old".to_string()]);
    let plan = plan_sync(&wanted, &existing, &all, None);
    assert_eq!(plan.delete, vec!["old".to_string(), "mine".to_string()]);
}
