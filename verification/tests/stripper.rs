use efficiency_analyzer::drivers::{
    apply_complexity_dictionary, parse_header, strip_code, strip_code_modular, CommonMetrics,
    EfficiencyOverride,
};

#[test]
fn test_rescript_include_stripping() {
    let content = r#"
        /* Comment block */
        include ApiLogic
        // Another comment
        open OtherModule
    "#;
    let stripped = strip_code(content);
    println!("Stripped: '{}'", stripped);

    let mut includes = Vec::new();
    for line in stripped.lines() {
        let trim = line.trim();
        if trim.starts_with("include ") {
            if let Some(dep) = trim.split_whitespace().nth(1) {
                includes.push(dep.replace(";", "").to_string());
            }
        }
    }

    assert!(includes.contains(&"ApiLogic".to_string()), "Failed to parse include from stripped code");
}

#[test]
fn strip_keeps_plain_text_as_it_is() {
    let text = "let x = 1 + 2\nlet y = x - 1\n";
    assert_eq!(strip_code(text), text);
    assert_eq!(strip_code_modular(text, false), text);
}

#[test]
fn strip_drops_line_comment_and_keeps_its_line_feed() {
    assert_eq!(strip_code("a // note\nb"), "a \nb");
    assert_eq!(strip_code("a // open to the end"), "a ");
}

#[test]
fn strip_drops_block_comment() {
    assert_eq!(strip_code("a /* x\ny */ b"), "a \n b");
    assert_eq!(strip_code("a /* never closed"), "a ");
    assert_eq!(strip_code("/*\n*/"), "\n");
}

#[test]
fn strip_keeps_every_line_feed() {
    let text = "a /* one\ntwo\n*/ b \"three\nfour\\\nfive\" c // six\nd `x\ny` 'p\nq'\n";
    let feeds = |s: &str| s.matches('\n').count();
    for single in [true, false] {
        let out = strip_code_modular(text, single);
        assert_eq!(feeds(&out), feeds(text));
        assert_eq!(out.lines().count(), text.lines().count());
    }
    assert_eq!(strip_code("x = \"a\\\nb\" + 1"), "x = \n + 1");
    assert_eq!(strip_code("x = \"a\nb\" + 1"), "x = \n + 1");
}

#[test]
fn strip_drops_strings_with_their_quotes() {
    assert_eq!(strip_code("f(\"text\") + g(`tick`)"), "f() + g()");
    assert_eq!(strip_code("x = 'single'"), "x = ");
}

#[test]
fn strip_single_quote_is_code_in_the_other_mode() {
    assert_eq!(strip_code_modular("let f = x' => 'a", false), "let f = x' => 'a");
    assert_eq!(strip_code_modular("let f = x' => 'a", true), "let f = xa");
}

#[test]
fn strip_escape_takes_the_next_character_with_it() {
    assert_eq!(strip_code("a \"x\\\"y\" b"), "a  b");
    assert_eq!(strip_code("a \"x\\\\\" b"), "a  b");
    assert_eq!(strip_code("a \"x\\\ny\" b"), "a \n b");
    assert_eq!(strip_code("a \"x\\ty\" b"), "a  b");
}

#[test]
fn strip_comment_marker_inside_string_is_no_comment() {
    assert_eq!(strip_code("a \"// not\" b // yes\nc"), "a  b \nc");
}

#[test]
fn header_ignore_strict_role() {
    assert!(matches!(parse_header("// @efficiency: ignore"), EfficiencyOverride::Ignore));
    assert!(matches!(parse_header("// @efficiency: ignored"), EfficiencyOverride::Ignore));
    assert!(matches!(parse_header("// @efficiency: strict"), EfficiencyOverride::Strict));
    match parse_header("/* @efficiency-role: util-pure */") {
        EfficiencyOverride::Role(r) => assert_eq!(r, "util-pure"),
        _ => panic!("role expected"),
    }
    match parse_header("// @efficiency-role data_model") {
        EfficiencyOverride::Role(r) => assert_eq!(r, "data_model"),
        _ => panic!("role expected"),
    }
}

#[test]
fn header_singleton_is_orchestrator() {
    match parse_header("// @efficiency: singleton\nlet x = 1") {
        EfficiencyOverride::Role(r) => assert_eq!(r, "orchestrator"),
        _ => panic!("role expected"),
    }
}

#[test]
fn header_absent_without_pragma_or_tag() {
    assert!(matches!(parse_header("let x = 1"), EfficiencyOverride::Absent));
    assert!(matches!(parse_header("// @efficiency: !!!"), EfficiencyOverride::Absent));
    assert!(matches!(parse_header(""), EfficiencyOverride::Absent));
}

#[test]
fn header_first_prefix_with_a_tag_decides() {
    match parse_header("@efficiency-role: a1\n@efficiency: b2") {
        EfficiencyOverride::Role(r) => assert_eq!(r, "b2"),
        _ => panic!("role expected"),
    }
}

#[test]
fn dictionary_weighs_occurrences() {
    let dict = vec![("unwrap".to_string(), 2000u64), ("todo".to_string(), 500u64)];
    let text = "a.unwrap(); b.unwrap(); // todo";
    assert_eq!(apply_complexity_dictionary(text, &dict), 4500);
    assert_eq!(apply_complexity_dictionary(text, &Vec::new()), 0);
    assert_eq!(apply_complexity_dictionary("aaaa", &vec![("aa".to_string(), 1000u64)]), 2000);
}

#[test]
fn default_metrics_are_blank() {
    let m = CommonMetrics::default();
    assert_eq!(m.loc, 0);
    assert_eq!(m.logic_count, 0);
    assert_eq!(m.complexity_penalty, 0);
    assert!(m.hotspot_symbol.is_none());
    assert!(m.dependencies.is_empty());
}
