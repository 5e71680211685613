use regolix::scan::{parse_rules, RuleInfo};

fn rule(name: &str, description: &str, start_line: usize, end_line: usize) -> RuleInfo {
    RuleInfo {
        name: name.to_string(),
        description: description.to_string(),
        start_line,
        end_line,
    }
}

#[test]
fn empty_text_has_no_rules() {
    assert_eq!(parse_rules(""), Vec::<RuleInfo>::new());
}

#[test]
fn text_without_heads_has_no_rules() {
    let source = "package authz\n\nimport data.users\nimport rego.v1\n\n# only a comment\ninput.x == 1\n";
    assert!(parse_rules(source).is_empty());
}

#[test]
fn only_comments_have_no_rules() {
    assert!(parse_rules("# one\n# two\n# ====\n#\n").is_empty());
}

#[test]
fn only_blank_lines_have_no_rules() {
    assert!(parse_rules("\n\n   \n\t\n").is_empty());
}

#[test]
fn unbalanced_open_brace_ends_at_last_line() {
    let rules = parse_rules("allow if {\n  input.x == 1\n  input.y == 2\n");
    assert_eq!(rules, vec![rule("allow", "", 1, 3)]);
}

#[test]
fn unbalanced_close_brace_is_passed_over() {
    let rules = parse_rules("}\n}\nallow := true\n}\n");
    assert_eq!(rules, vec![rule("allow", "", 3, 3)]);
}

#[test]
fn default_rule_with_comment_above() {
    let rules = parse_rules("# default deny\ndefault allow := false");
    assert_eq!(rules, vec![rule("allow", "default deny", 1 + 1, 2)]);
}

#[test]
fn default_rule_on_later_line() {
    let rules = parse_rules("package p\nimport rego.v1\n# default deny\ndefault allow := false\n");
    assert_eq!(rules.len(), 1);
    assert_eq!(rules[0].name, "allow");
    assert_eq!(rules[0].description, "default deny");
    assert_eq!(rules[0].start_line, 4);
    assert_eq!(rules[0].end_line, 4);
}

#[test]
fn body_ends_three_lines_below_head() {
    let rules = parse_rules("package p\n\nallow if {\n    input.a == 1\n    input.b == 2\n}\n");
    assert_eq!(rules, vec![rule("allow", "", 3, 6)]);
    assert_eq!(rules[0].end_line, rules[0].start_line + 3);
}

#[test]
fn closest_of_two_comments_describes() {
    let rules = parse_rules("# first line\n# second line\nallow if {\n  true\n}\n");
    assert_eq!(rules, vec![rule("allow", "second line", 3, 5)]);
}

#[test]
fn blank_line_parts_comment_and_rule() {
    let rules = parse_rules("# about allow\n\nallow := true\n");
    assert_eq!(rules, vec![rule("allow", "", 3, 3)]);
}

#[test]
fn divider_is_no_description() {
    let rules = parse_rules("# =======\nallow := true\n");
    assert_eq!(rules, vec![rule("allow", "", 2, 2)]);
}

#[test]
fn dashed_divider_is_no_description() {
    let rules = parse_rules("# --- === ---\nallow := true\n");
    assert_eq!(rules, vec![rule("allow", "", 2, 2)]);
}

#[test]
fn divider_below_comment_keeps_comment() {
    let rules = parse_rules("# what allow does\n# -----\nallow := true\n");
    assert_eq!(rules, vec![rule("allow", "what allow does", 3, 3)]);
}

#[test]
fn bare_marker_is_no_description() {
    let rules = parse_rules("#\nallow := true\n");
    assert_eq!(rules, vec![rule("allow", "", 2, 2)]);
}

#[test]
fn repeated_markers_are_stripped() {
    let rules = parse_rules("###   Section   \nallow := true\n");
    assert_eq!(rules, vec![rule("allow", "Section", 2, 2)]);
}

#[test]
fn package_then_described_default() {
    let rules = parse_rules("package p\n\n# desc\ndefault x := 1\n");
    assert_eq!(rules, vec![rule("x", "desc", 4, 4)]);
}

#[test]
fn rules_come_in_source_order() {
    let source = "package p\n\
# a\n\
default allow := false\n\
\n\
# b\n\
allow if {\n\
    some x in input.xs\n\
    x == {\"k\": {\"n\": 1}}\n\
}\n\
deny contains msg if {\n\
    msg := \"no\"\n\
}\n\
\n\
limit = 3\n";
    let rules = parse_rules(source);
    assert_eq!(
        rules,
        vec![
            rule("allow", "a", 3, 3),
            rule("allow", "b", 6, 9),
            rule("deny", "", 10, 12),
            rule("limit", "", 14, 14),
        ]
    );
    for w in rules.windows(2) {
        assert!(w[0].start_line < w[1].start_line);
        assert!(w[0].end_line < w[1].start_line);
    }
    for r in &rules {
        assert!(r.start_line <= r.end_line);
    }
}

#[test]
fn same_name_twice_gives_two_records() {
    let rules = parse_rules("allow := true\nallow := false\n");
    assert_eq!(rules, vec![rule("allow", "", 1, 1), rule("allow", "", 2, 2)]);
}

#[test]
fn heads_inside_a_body_are_skipped() {
    let rules = parse_rules("allow if {\n    x := 1\n    y = 2\n}\nz := 3\n");
    assert_eq!(rules, vec![rule("allow", "", 1, 4), rule("z", "", 5, 5)]);
}

#[test]
fn comment_inside_a_body_describes_nothing() {
    let rules = parse_rules("allow if {\n# inside }\nnext := 1\n");
    assert_eq!(rules, vec![rule("allow", "", 1, 2), rule("next", "", 3, 3)]);
}

#[test]
fn description_is_used_once() {
    let rules = parse_rules("# about a\na := 1\nb := 2\n");
    assert_eq!(rules, vec![rule("a", "about a", 2, 2), rule("b", "", 3, 3)]);
}

#[test]
fn declaration_clears_pending_comment() {
    let rules = parse_rules("# about\nimport data.x\nallow := true\n");
    assert_eq!(rules, vec![rule("allow", "", 3, 3)]);
}

#[test]
fn other_line_clears_pending_comment() {
    let rules = parse_rules("# about\ninput.x == 1\nallow := true\n");
    assert_eq!(rules, vec![rule("allow", "", 3, 3)]);
}

#[test]
fn declaration_that_looks_like_a_rule_is_none() {
    assert!(parse_rules("import = 1\npackage := 2\n").is_empty());
}

#[test]
fn brace_on_head_line_closed_on_head_line() {
    let rules = parse_rules("sizes := {1, 2, 3}\nnext := 1\n");
    assert_eq!(rules, vec![rule("sizes", "", 1, 1), rule("next", "", 2, 2)]);
}

#[test]
fn brace_in_string_is_counted() {
    let rules = parse_rules("allow if {\n    input.s == \"}\"\n}\nnext := 1\n");
    assert_eq!(rules, vec![rule("allow", "", 1, 2), rule("next", "", 4, 4)]);
}

#[test]
fn carriage_returns_end_lines_too() {
    let rules = parse_rules("package p\r\n\r\n# desc\r\nallow if {\r\n  true\r\n}\r\n");
    assert_eq!(rules, vec![rule("allow", "desc", 4, 6)]);
}

#[test]
fn indented_lines_are_trimmed() {
    let rules = parse_rules("   \t# about  \n\t  allow := true   \n");
    assert_eq!(rules, vec![rule("allow", "about", 2, 2)]);
}

#[test]
fn names_may_hold_letters_of_any_script() {
    let rules = parse_rules("\u{a0}gr\u{f6}\u{df}e_2 := 1\n");
    assert_eq!(rules, vec![rule("gr\u{f6}\u{df}e_2", "", 1, 1)]);
}

#[test]
fn scanning_twice_gives_the_same() {
    let source = "# d\nallow if {\n  true\n}\n";
    assert_eq!(parse_rules(source), parse_rules(source));
}
