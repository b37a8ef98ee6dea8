use efficiency_analyzer::resolver::Resolver;
use efficiency_analyzer::table::PathTable;

#[test]
fn test_rescript_dotted_module_resolution() {
    let mut registry = PathTable::new();
    registry.insert("ComplexSystem".to_string(), vec!["src/systems/ComplexSystem.res".to_string()]);

    let resolver = Resolver::new(registry);

    let results = resolver.resolve("ComplexSystem.SubModule");
    assert!(results.contains(&"src/systems/ComplexSystem.res".to_string()), "Failed to resolve ComplexSystem.SubModule");
}

#[test]
fn test_rust_inline_module_resolution() {
    let mut registry = PathTable::new();
    registry.insert("feature".to_string(), vec!["backend/src/api/feature.rs".to_string()]);

    let resolver = Resolver::new(registry);

    let results = resolver.resolve("feature::Logic");
    assert!(results.contains(&"backend/src/api/feature.rs".to_string()), "Failed to resolve feature::Logic");
}

#[test]
fn test_standard_resolution() {
    let mut registry = PathTable::new();
    registry.insert("User".to_string(), vec!["src/core/User.res".to_string()]);

    let resolver = Resolver::new(registry);

    let results = resolver.resolve("User");
    assert!(results.contains(&"src/core/User.res".to_string()));
}

#[test]
fn resolver_ambiguity_returns_both_sorted() {
    let mut registry = PathTable::new();
    registry.insert("Logic".to_string(), vec!["b/Logic".to_string(), "a/Logic".to_string()]);
    let resolver = Resolver::new(registry);
    assert_eq!(resolver.resolve("Logic"), vec!["a/Logic".to_string(), "b/Logic".to_string()]);
}

#[test]
fn resolver_result_is_sorted_and_without_repeats() {
    let mut registry = PathTable::new();
    registry.add("Mod", "z/Mod.res".to_string());
    registry.add("Mod", "a/Mod.res".to_string());
    registry.add("Mod", "z/Mod.res".to_string());
    let resolver = Resolver::new(registry);
    let once = resolver.resolve("Mod.Sub::Mod");
    assert_eq!(once, vec!["a/Mod.res".to_string(), "z/Mod.res".to_string()]);
    assert_eq!(resolver.resolve("Mod.Sub::Mod"), once);
}

#[test]
fn resolver_miss_is_empty() {
    let resolver = Resolver::new(PathTable::new());
    assert!(resolver.resolve("Nothing").is_empty());
    assert!(resolver.resolve("").is_empty());
}

#[test]
fn resolver_trims_and_uses_last_segment() {
    let mut registry = PathTable::new();
    registry.insert("Logic".to_string(), vec!["src/Logic.rs".to_string()]);
    registry.insert("System".to_string(), vec!["src/System.rs".to_string()]);
    let resolver = Resolver::new(registry);
    assert_eq!(resolver.resolve("  Generic::System::Logic "), vec!["src/Logic.rs".to_string()]);
    assert_eq!(resolver.resolve("System::Inline"), vec!["src/System.rs".to_string()]);
}

#[test]
fn resolver_falls_back_to_file_stem() {
    let mut registry = PathTable::new();
    registry.insert("MyHelper".to_string(), vec!["src/utils/MyHelper.js".to_string()]);
    let resolver = Resolver::new(registry);
    assert_eq!(resolver.resolve("./utils/MyHelper"), vec!["src/utils/MyHelper.js".to_string()]);
    assert_eq!(resolver.resolve("../x/MyHelper.js"), vec!["src/utils/MyHelper.js".to_string()]);
}

#[test]
fn resolver_leading_dot_is_no_module() {
    let mut registry = PathTable::new();
    registry.insert("".to_string(), vec!["odd".to_string()]);
    registry.insert("hidden".to_string(), vec!["src/hidden".to_string()]);
    let resolver = Resolver::new(registry);
    assert!(resolver.resolve(".hidden").is_empty());
    assert_eq!(resolver.resolve("hidden.x"), vec!["src/hidden".to_string()]);
}

#[test]
fn table_insert_replaces_and_add_appends() {
    let mut t = PathTable::new();
    t.insert("k".to_string(), vec!["a".to_string()]);
    t.add("k", "b".to_string());
    assert_eq!(t.get("k"), Some(&vec!["a".to_string(), "b".to_string()]));
    t.insert("k".to_string(), vec!["c".to_string()]);
    assert_eq!(t.get("k"), Some(&vec!["c".to_string()]));
    assert_eq!(t.get("other"), None);
    assert_eq!(t.len(), 1);
    t.add("new", "n".to_string());
    assert_eq!(t.len(), 2);
    assert_eq!(t.key_at(1), "new");
    assert_eq!(t.position("new"), Some(1));
}
