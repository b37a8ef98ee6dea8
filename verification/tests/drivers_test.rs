use efficiency_analyzer::drivers::config::{analyze_config, config_metrics_with};
use efficiency_analyzer::drivers::css::analyze_css;
use efficiency_analyzer::drivers::html::analyze_html;
use efficiency_analyzer::drivers::rescript::analyze_rescript;
use efficiency_analyzer::drivers::rust::{analyze_rust, RustWalker};

#[test]
fn css_counts_rules_imports_and_nesting() {
    let css = "@import url(\"base.css\");\n@import 'theme.css';\n\n.a { color: red; }\n@media print { .b { .c { x: y } } }\n/* { */\n";
    let m = analyze_css(css, &Vec::new()).unwrap();
    assert_eq!(m.loc, 5);
    assert_eq!(m.dependencies, vec!["base.css".to_string(), "theme.css".to_string()]);
    assert_eq!(m.external_calls, 2);
    assert_eq!(m.logic_count, 4);
    assert_eq!(m.max_nesting, 3);
    assert_eq!(m.state_count, 0);
}

#[test]
fn css_penalty_is_taken_without_comments() {
    let dict = vec![("!important".to_string(), 1500u64)];
    let m = analyze_css("a { b: c !important; } /* !important */", &dict).unwrap();
    assert_eq!(m.complexity_penalty, 1500);
}

#[test]
fn css_unbalanced_close_is_passed_over() {
    let m = analyze_css("} } .a { }", &Vec::new()).unwrap();
    assert_eq!(m.max_nesting, 1);
    assert_eq!(m.logic_count, 1);
}

#[test]
fn html_counts_tags_imports_and_indentation() {
    let html = "import React from \"react\";\nimport './side.css';\nconst x = require('lib/x');\n<div>\n    <span>\n        text\n    </span>\n</div>\n";
    let m = analyze_html(html, &Vec::new()).unwrap();
    assert_eq!(m.loc, 8);
    assert_eq!(
        m.dependencies,
        vec!["react".to_string(), "./side.css".to_string(), "lib/x".to_string()]
    );
    assert_eq!(m.external_calls, 3);
    assert_eq!(m.logic_count, 2);
    assert_eq!(m.max_nesting, 4);
}

#[test]
fn html_counts_opening_tags() {
    let m = analyze_html("<div>\n  <p>x</p>\n</div>", &Vec::new()).unwrap();
    assert_eq!(m.logic_count, 2);
    assert_eq!(m.loc, 3);
    assert_eq!(m.max_nesting, 1);
    assert!(m.dependencies.is_empty());
    assert_eq!(m.complexity_penalty, 0);
    let odd = analyze_html("<!-- note --><a><br/></a> 1 < 2 <", &Vec::new()).unwrap();
    assert_eq!(odd.logic_count, 3);
}

#[test]
fn html_import_without_path_is_left_out() {
    let m = analyze_html("import ;\nrequire(unclosed\n", &Vec::new()).unwrap();
    assert!(m.dependencies.is_empty());
    assert_eq!(m.loc, 2);
}

#[test]
fn html_penalty_counts_in_the_whole_text() {
    let dict = vec![("onclick".to_string(), 250u64)];
    let m = analyze_html("<a onclick=x>\n<b onclick=y>", &dict).unwrap();
    assert_eq!(m.complexity_penalty, 500);
}

#[test]
fn config_counts_top_level_keys() {
    let m = analyze_config("{\n  \"a\": 1,\n  \"b\": {\"c\": 2},\n\n  \"d\": []\n}", &Vec::new()).unwrap();
    assert_eq!(m.logic_count, 3);
    assert_eq!(m.loc, 5);
    assert!(m.dependencies.is_empty());
}

#[test]
fn config_that_is_no_object_has_no_keys() {
    assert_eq!(analyze_config("[1, 2, 3]", &Vec::new()).unwrap().logic_count, 0);
    assert_eq!(analyze_config("not json at all", &Vec::new()).unwrap().logic_count, 0);
    assert_eq!(analyze_config("not json at all", &Vec::new()).unwrap().loc, 1);
    assert_eq!(config_metrics_with("x\n\ny", Some(7), &Vec::new()).logic_count, 7);
    assert_eq!(config_metrics_with("x\n\ny", None, &Vec::new()).loc, 2);
    let dict = vec![("x".to_string(), 1250u64)];
    assert_eq!(config_metrics_with("x\n\nxy", None, &dict).complexity_penalty, 2500);
}

#[test]
fn rust_walker_tracks_depth_and_counts() {
    let mut w = RustWalker::default();
    let outer = w.enter_fn();
    w.enter_block();
    w.branch();
    w.enter_block();
    w.branch();
    w.assignment();
    w.leave_block();
    w.leave_block();
    w.leave_fn(outer);
    w.use_item("std :: collections :: HashMap");
    w.mod_item("graph", false);
    w.mod_item("inline", true);
    w.typed_pattern(true);
    w.typed_pattern(false);
    assert_eq!(w.metrics.max_nesting, 2);
    assert_eq!(w.metrics.logic_count, 2);
    assert_eq!(w.metrics.state_count, 2);
    assert_eq!(
        w.metrics.dependencies,
        vec!["std::collections::HashMap".to_string(), "graph".to_string()]
    );
    assert_eq!(w.metrics.external_calls, 2);
    assert_eq!(w.current_depth, 0);
}

#[test]
fn rust_walker_starts_depth_anew_inside_a_function() {
    let mut w = RustWalker::default();
    w.enter_block();
    w.enter_block();
    let outer = w.enter_fn();
    assert_eq!(outer, 2);
    w.enter_block();
    assert_eq!(w.current_depth, 1);
    w.leave_block();
    w.leave_block();
    assert_eq!(w.current_depth, 0);
    w.leave_fn(outer);
    assert_eq!(w.current_depth, 2);
    assert_eq!(w.metrics.max_nesting, 2);
}

#[test]
fn rust_driver_adds_lines_and_penalty_to_the_walk() {
    let mut w = RustWalker::default();
    w.branch();
    let dict = vec![("unsafe".to_string(), 3000u64)];
    let m = analyze_rust("fn main() {\n\n    unsafe { }\n}\n", Some(w), &dict).unwrap();
    assert_eq!(m.loc, 3);
    assert_eq!(m.logic_count, 1);
    assert_eq!(m.complexity_penalty, 3000);
}

#[test]
fn rust_driver_fails_soft() {
    let dict = vec![("fn".to_string(), 3000u64)];
    let m = analyze_rust("fn broken( {\n  oops\n", None, &dict).unwrap();
    assert_eq!(m.loc, 2);
    assert_eq!(m.logic_count, 0);
    assert_eq!(m.complexity_penalty, 3000);
    assert!(m.dependencies.is_empty());
}

#[test]
fn every_driver_counts_a_line_that_is_not_blank() {
    let text = "\n   \n  x  \n";
    assert_eq!(analyze_css(text, &Vec::new()).unwrap().loc, 1);
    assert_eq!(analyze_html(text, &Vec::new()).unwrap().loc, 1);
    assert_eq!(analyze_config(text, &Vec::new()).unwrap().loc, 1);
    assert_eq!(analyze_rescript(text, &Vec::new()).unwrap().loc, 1);
    assert_eq!(analyze_rust(text, None, &Vec::new()).unwrap().loc, 1);
    assert_eq!(analyze_rust(text, Some(RustWalker::default()), &Vec::new()).unwrap().loc, 1);
    assert_eq!(analyze_css("  \n\t\n", &Vec::new()).unwrap().loc, 0);
}
