use efficiency_analyzer::rescript_auto_discovery::ReScriptAutoDiscovery;

#[test]
fn test_jsx_auto_discovery() {
    let mut discovery = ReScriptAutoDiscovery::new();
    let files = vec![
        "src/components/Sidebar.res".to_string(),
        "src/components/SceneList.res".to_string(),
        "src/components/VisualPipeline.res".to_string(),
    ];

    discovery.build_registry(&files).unwrap();

    let sidebar_content = r#"
        <SceneList />
        <SomeOtherComponent />
        "#;

    let deps =
        discovery.find_same_directory_jsx_deps(sidebar_content, "src/components/Sidebar.res");

    assert!(deps.contains(&"src/components/SceneList.res".to_string()));
}

#[test]
fn test_module_registry() {
    let mut discovery = ReScriptAutoDiscovery::new();
    let files = vec!["src/components/SceneList.res".to_string()];

    discovery.build_registry(&files).unwrap();

    assert_eq!(
        discovery.resolve_rescript_dependency("SceneList", "src/components/Sidebar.res"),
        Some("src/components/SceneList.res".to_string())
    );
}

#[test]
fn discovery_only_knows_modules() {
    let mut discovery = ReScriptAutoDiscovery::new();
    discovery.build_registry(&vec!["src/a/Style.css".to_string(), "src/a/View.res".to_string()]).unwrap();
    assert_eq!(discovery.resolve_rescript_dependency("Style", "src/a/View.res"), None);
    assert_eq!(
        discovery.resolve_rescript_dependency("View.Inner", "src/b/Other.res"),
        Some("src/a/View.res".to_string())
    );
    assert_eq!(discovery.resolve_rescript_dependency("Missing.Inner", "src/b/Other.res"), None);
}

#[test]
fn jsx_is_seen_in_the_same_directory_only() {
    let mut discovery = ReScriptAutoDiscovery::new();
    discovery.build_registry(&vec!["src/a/Card.res".to_string()]).unwrap();
    assert_eq!(
        discovery.resolve_jsx_dependency("src/a/Page.res", "Card"),
        Some("src/a/Card.res".to_string())
    );
    assert_eq!(discovery.resolve_jsx_dependency("src/b/Page.res", "Card"), None);
    assert_eq!(
        discovery.find_same_directory_jsx_deps("<Card /> <Card> <card/>", "src/a/Page.res"),
        vec!["src/a/Card.res".to_string(), "src/a/Card.res".to_string()]
    );
}
