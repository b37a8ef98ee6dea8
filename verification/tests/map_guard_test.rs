use efficiency_analyzer::guard::ExclusionRules;
use efficiency_analyzer::map_guard::{
    append_to_unified_task, check_tasks_count, classify_map_task, find_unmapped, get_map_paths,
    listed_unmapped, map_paths, unified_task_start, update_map,
};

fn rules() -> ExclusionRules {
    ExclusionRules { folders: vec!["vendor".to_string()], files: Vec::new(), extensions: Vec::new() }
}

fn chars(s: &str) -> Vec<char> {
    s.chars().collect()
}

fn texts(v: &Vec<Vec<char>>) -> Vec<String> {
    v.iter().map(|c| c.iter().collect()).collect()
}

const MAP: &str = "# Map\n## Core\n* [User](src/core/User.res): users\n\n## 🆕 Unmapped Modules\n* [src/a/Gone.res](src/a/Gone.res): New module detected. Please classify. #new\n* [src/a/Here.res](src/a/Here.res): New module detected. Please classify. #new\n* [docs](docs/readme.md): odd\n## Later\n* [x](src/a/Other.res)\n";

#[test]
fn map_paths_are_written_as_the_map_writes_them() {
    let targets = vec![Some("src/core/User.res".to_string()), Some("file:///h/robust-virtual-tour-builder/src\\b.res".to_string())];
    let labels = vec![Some("User".to_string()), Some("src/core/User.res".to_string()), Some("backend/src/m.rs".to_string())];
    assert_eq!(
        texts(&map_paths(&targets, &labels)),
        vec!["src/core/User.res", "src/b.res", "backend/src/m.rs"]
    );
}

#[test]
fn map_paths_are_read_off_the_text() {
    assert_eq!(
        texts(&get_map_paths(MAP)),
        vec!["src/core/User.res", "src/a/Gone.res", "src/a/Here.res", "docs/readme.md", "src/a/Other.res"]
    );
}

#[test]
fn unmapped_files_are_sources_the_map_does_not_name() {
    let files = vec![
        "../../src/core/User.res".to_string(),
        "../../src/core/New.res".to_string(),
        "../../src/vendor/Lib.res".to_string(),
        "../../src/notes.txt".to_string(),
        "..\\..\\src\\win\\W.res".to_string(),
    ];
    let mapped = vec![chars("src/core/User.res")];
    assert_eq!(
        texts(&find_unmapped(&files, &rules(), &mapped)),
        vec!["src/core/New.res", "src/win/W.res"]
    );
}

#[test]
fn listed_entries_are_those_of_the_unmapped_section() {
    assert_eq!(
        listed_unmapped(MAP),
        vec!["src/a/Gone.res".to_string(), "src/a/Here.res".to_string(), "docs/readme.md".to_string()]
    );
    assert!(listed_unmapped("# Map\n* [a](b.res)\n").is_empty());
}

#[test]
fn leftover_entries_go_and_new_modules_come() {
    let existing = vec!["src/a/Here.res".to_string(), "docs/readme.md".to_string()];
    let modules = vec![chars("src/n/One.res"), chars("src/a/Here.res"), chars("src/n/Two.res")];
    let update = update_map(MAP, &rules(), &existing, &modules);
    assert_eq!(
        update.content,
        Some("# Map\n## Core\n* [User](src/core/User.res): users\n\n## 🆕 Unmapped Modules\n* [src/n/Two.res](src/n/Two.res): New module detected. Please classify. #new\n* [src/n/One.res](src/n/One.res): New module detected. Please classify. #new\n* [src/a/Here.res](src/a/Here.res): New module detected. Please classify. #new\n## Later\n* [x](src/a/Other.res)\n".to_string())
    );
}

#[test]
fn map_in_order_is_left_alone() {
    let existing = vec!["src/a/Gone.res".to_string(), "src/a/Here.res".to_string()];
    let tidy = "# Map\n## 🆕 Unmapped Modules\n* [src/a/Here.res](src/a/Here.res): new\n## Later\n";
    let update = update_map(tidy, &rules(), &existing, &Vec::new());
    assert_eq!(update.content, None);
    assert!(update.has_unmapped_items);
    let empty = update_map("# Map\n## 🆕 Unmapped Modules\n\n## Later\n* [x](y.res)\n", &rules(), &existing, &Vec::new());
    assert_eq!(empty.content, None);
    assert!(!empty.has_unmapped_items);
    let none = update_map("# Map\n", &rules(), &existing, &Vec::new());
    assert_eq!(none.content, None);
    assert!(!none.has_unmapped_items);
}

#[test]
fn heading_is_added_where_it_is_missing() {
    let update = update_map("# Map", &rules(), &Vec::new(), &vec![chars("src/n/One.res")]);
    assert_eq!(
        update.content,
        Some("# Map\n\n## 🆕 Unmapped Modules\n* [src/n/One.res](src/n/One.res): New module detected. Please classify. #new\n".to_string())
    );
}

#[test]
fn completed_tasks_are_summed_up_beyond_ninety() {
    let many: Vec<String> = (1..=91).map(|i| format!("{:03}_Done.md", i)).collect();
    let mut all = many.clone();
    all.push("120_Open.md".to_string());
    let task = check_tasks_count(&many, &vec!["120_Open.md".to_string()], &all).unwrap();
    assert_eq!(task.name, "121_Aggregate_Completed_Tasks.md");
    assert!(task.body.starts_with("# Task 121: Aggregate Completed Tasks\n\n## 🚨 Trigger\nCompleted tasks count exceeds 90 (Current: 91).\n"));
    assert!(task.body.ends_with("definitive high-level history of the project.\"\n"));
    let ninety: Vec<String> = many[..90].to_vec();
    assert!(check_tasks_count(&ninety, &Vec::new(), &all).is_none());
    assert!(check_tasks_count(&many, &vec!["130_Aggregate_Completed_Tasks.md".to_string()], &all).is_none());
    let mut mixed = many[..90].to_vec();
    mixed.push("notes.txt".to_string());
    assert!(check_tasks_count(&mixed, &Vec::new(), &all).is_none());
}

#[test]
fn map_task_is_asked_for_once() {
    let task = classify_map_task(&vec!["004_Other.md".to_string()], &vec!["004_Other.md".to_string(), "009_Done.md".to_string()]).unwrap();
    assert_eq!(task.name, "010_Classify_Map_Entries.md");
    assert_eq!(
        task.body,
        "# Task 10: Classify New Map Entries\n\n## 🚨 Trigger\nNew modules were detected and added to the 'Unmapped Modules' section of `MAP.md`.\n\n## Objective\nMove the entries from 'Unmapped Modules' to their appropriate semantic sections in `MAP.md`.\n"
    );
    assert!(classify_map_task(&vec!["005_Classify_Map_Entries.md".to_string()], &Vec::new()).is_none());
}

#[test]
fn test_tasks_are_listed_once() {
    let start = unified_task_start(7);
    assert_eq!(start.name, "007_Test_Generation_Unified.md");
    let one = append_to_unified_task(&start.body, "Test_User", "New").unwrap();
    assert!(one.ends_with("## Tasks\n- [ ] Test_User (New)\n"));
    assert_eq!(append_to_unified_task(&one, "Test_User", "Update"), None);
    let two = append_to_unified_task(&one, "Test_Use", "New").unwrap();
    assert!(two.ends_with("- [ ] Test_User (New)\n- [ ] Test_Use (New)\n"));
    assert_eq!(append_to_unified_task("no line feed", "T", "d"), Some("no line feed\n- [ ] T (d)\n".to_string()));
}
