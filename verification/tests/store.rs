use regolix::scan::RuleInfo;
use regolix::store::{extract_all, PolicyStore};

fn pair(name: &str, source: &str) -> (String, String) {
    (name.to_string(), source.to_string())
}

#[test]
fn new_store_is_empty() {
    let store = PolicyStore::new();
    assert!(store.get_all().is_empty());
    assert!(store.get_rules().is_empty());
}

#[test]
fn put_keeps_each_policy() {
    let mut store = PolicyStore::new();
    store.put("a.rego".to_string(), "package a\n".to_string());
    store.put("b.rego".to_string(), "package b\n".to_string());
    assert_eq!(
        store.get_all(),
        &vec![pair("a.rego", "package a\n"), pair("b.rego", "package b\n")]
    );
}

#[test]
fn put_under_a_known_name_replaces_the_text() {
    let mut store = PolicyStore::new();
    store.put("a.rego".to_string(), "allow := true\n".to_string());
    store.put("b.rego".to_string(), "deny := true\n".to_string());
    store.put("a.rego".to_string(), "other := 1\n".to_string());
    assert_eq!(
        store.get_all(),
        &vec![pair("a.rego", "other := 1\n"), pair("b.rego", "deny := true\n")]
    );
    let rules = store.get_rules();
    assert_eq!(rules.len(), 2);
    assert_eq!(rules[0].0, "a.rego");
    assert_eq!(rules[0].1.len(), 1);
    assert_eq!(rules[0].1[0].name, "other");
    assert_eq!(rules[1].0, "b.rego");
    assert_eq!(rules[1].1[0].name, "deny");
}

#[test]
fn get_rules_follows_the_registered_text() {
    let mut store = PolicyStore::new();
    store.put("p".to_string(), "# d\nallow := true\n".to_string());
    let first = store.get_rules();
    assert_eq!(first[0].1[0].description, "d");
    store.put("p".to_string(), "\nallow := true\n".to_string());
    let second = store.get_rules();
    assert_eq!(second[0].1[0].description, "");
    assert_eq!(second[0].1[0].start_line, 2);
}

#[test]
fn extract_all_scans_each_policy_for_itself() {
    let policies = vec![
        pair("one", "# about x"),
        pair("two", "x := 1\n"),
        pair("three", "package p\n"),
        pair("four", "allow if {\n"),
        pair("five", "}\ny := 2\n"),
    ];
    let all = extract_all(&policies);
    assert_eq!(all.len(), 5);
    assert_eq!(all[0], ("one".to_string(), Vec::<RuleInfo>::new()));
    assert_eq!(
        all[1],
        (
            "two".to_string(),
            vec![RuleInfo {
                name: "x".to_string(),
                description: String::new(),
                start_line: 1,
                end_line: 1,
            }]
        )
    );
    assert_eq!(all[2].1, Vec::<RuleInfo>::new());
    assert_eq!(all[3].1[0].end_line, 1);
    assert_eq!(all[4].1[0].name, "y");
    assert_eq!(all[4].1[0].start_line, 2);
}

#[test]
fn extract_all_of_nothing_is_nothing() {
    assert!(extract_all(&Vec::new()).is_empty());
}

#[test]
fn items_are_reached_from_the_crate_root() {
    assert_eq!(regolix::extract_rule_name("allow := true"), Some("allow".to_string()));
    assert_eq!(regolix::find_rule_end(&["a if {", "}"], 0), 2);
    let rules: Vec<regolix::RuleInfo> = regolix::parse_rules("allow := true\n");
    assert_eq!(rules.len(), 1);
    let store = regolix::PolicyStore::new();
    assert!(regolix::extract_all(store.get_all()).is_empty());
}
