use efficiency_analyzer::drivers::rescript::{
    analyze_rescript, analyze_with_tags, extract_dependencies, scan, RescriptParser, UNIT,
};

#[test]
fn test_rescript_dot_dependency_extraction() {
    let content = r#"
        let x = Logger.info("test")
        let y = Constants.MAX_WIDTH
    "#;

    let dict = Vec::new();
    let metrics = analyze_rescript(content, &dict).unwrap();

    assert!(metrics.dependencies.contains(&"Logger".to_string()), "Failed to extract Logger dependency");
    assert!(metrics.dependencies.contains(&"Constants".to_string()), "Failed to extract Constants dependency");
}

fn chars(s: &str) -> Vec<char> {
    s.chars().collect()
}

fn texts(v: &Vec<Vec<char>>) -> Vec<String> {
    v.iter().map(|c| c.iter().collect()).collect()
}

#[test]
fn dependencies_from_open_include_and_module() {
    let deps = extract_dependencies(
        &chars("open Belt;\ninclude Api\nmodule L = Core.Log;\nlet x = 1\n"),
        &Vec::new(),
    );
    assert_eq!(texts(&deps), vec!["Belt", "Api", "Core.Log"]);
}

#[test]
fn dependencies_from_dots_skip_lower_case_and_repeats() {
    let deps = extract_dependencies(&chars("let a = Foo.bar(baz.Qux.x)\nlet b = Foo.y\n"), &Vec::new());
    assert_eq!(texts(&deps), vec!["Foo", "Qux"]);
}

#[test]
fn dependencies_from_tags_skip_builtins() {
    let tags = vec![
        Some("Button".to_string()),
        Some("React.Fragment".to_string()),
        Some("Icon.Small".to_string()),
        None,
        Some("Button".to_string()),
    ];
    let deps = extract_dependencies(&chars("let x = 1"), &tags);
    assert_eq!(texts(&deps), vec!["Button", "Icon"]);
}

#[test]
fn tags_are_found_in_the_text() {
    let m = analyze_rescript("let v = <Sidebar size=1 />\nlet w = <div />", &Vec::new()).unwrap();
    assert_eq!(m.dependencies, vec!["Sidebar".to_string()]);
    assert_eq!(m.external_calls, 1);
}

#[test]
fn scanner_counts_branches_and_state() {
    let r = scan(&chars("let f = x => if a then b else c\nlet m = ref 0\nfor i in l"));
    assert_eq!(r.logic_count, 4);
    assert_eq!(r.state_count, 1);
}

#[test]
fn scanner_ignores_comments_and_strings() {
    let r = scan(&chars("// if else for\n/* switch */ \"if\" `while`"));
    assert_eq!(r.logic_count, 0);
    assert_eq!(r.state_count, 0);
    assert_eq!(r.scopes.len(), 1);
}

#[test]
fn scanner_names_function_scopes() {
    let r = scan(&chars("let go = () => { switch x }"));
    let names: Vec<String> = r.scopes.iter().map(|s| s.name.iter().collect()).collect();
    assert_eq!(names, vec!["go", "root"]);
    assert!(r.scopes[0].is_function);
    assert_eq!(r.scopes[0].depth, 1);
    assert_eq!(r.scopes[0].start_line, 1);
    assert_eq!(r.scopes[0].complexity, 2 * UNIT);
    assert_eq!(r.scopes[1].complexity, 2 * UNIT);
    assert_eq!(r.logic_count, 2);
}

#[test]
fn hotspot_is_the_heaviest_function() {
    let text = "let small = () => { if a }\nlet big = () => {switch a for b}\n";
    let m = analyze_with_tags(text, &Vec::new(), &Vec::new());
    assert_eq!(m.hotspot_symbol, Some("Function: `big`".to_string()));
    assert_eq!(m.hotspot_lines, Some((2, 2)));
    assert_eq!(m.hotspot_reason, Some("High Local Complexity (5.0). Logic heavy.".to_string()));
    assert_eq!(m.loc, 2);
    assert_eq!(m.max_nesting, 1);
}

#[test]
fn global_scope_is_blamed_without_functions() {
    let dict = vec![("x".to_string(), 60000u64)];
    let m = analyze_with_tags("x", &dict, &Vec::new());
    assert_eq!(m.complexity_penalty, 60000);
    assert_eq!(m.hotspot_symbol, None);
    assert_eq!(m.hotspot_reason, Some("Global Scope Complexity".to_string()));
    let calm = analyze_with_tags("x", &vec![("x".to_string(), 50000u64)], &Vec::new());
    assert_eq!(calm.hotspot_reason, None);
}

#[test]
fn parser_type_gives_the_same_as_the_function() {
    let text = "open A\nlet f = () => { if x }";
    let a = RescriptParser::new(text).analyze(&Vec::new()).unwrap();
    let b = analyze_rescript(text, &Vec::new()).unwrap();
    assert_eq!(a.loc, b.loc);
    assert_eq!(a.logic_count, b.logic_count);
    assert_eq!(a.dependencies, b.dependencies);
    assert_eq!(a.hotspot_symbol, b.hotspot_symbol);
}

#[test]
fn empty_text_has_no_lines() {
    let m = analyze_rescript("", &Vec::new()).unwrap();
    assert_eq!(m.loc, 0);
    assert_eq!(m.logic_count, 0);
    assert!(m.dependencies.is_empty());
}
