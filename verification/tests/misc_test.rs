use efficiency_analyzer::agent::{Complexity, MapParser, SessionManager, ThinkingEngine, Usage};
use efficiency_analyzer::guard::{
    check_tests, get_mapped_files, get_next_id, is_project_source, mapped_files_from, task_exists,
    ExclusionRules, GuardConfig,
};
use efficiency_analyzer::order::{sort_dedup, sort_texts, text_lt};
use efficiency_analyzer::paths::{
    components, directory, extension, file_name, file_stem, join, parent,
};
use efficiency_analyzer::state::{AnalyzerState, FileHistory};
use efficiency_analyzer::taxonomy::{
    driver_for, infer_taxonomy, is_marked_ignored, platform_for, scan_root,
};
use efficiency_analyzer::text::{
    centi_chars, count_matches, decimal_chars, decimal_chars_3, lines, replace, split, trim,
};

fn chars(s: &str) -> Vec<char> {
    s.chars().collect()
}

fn text(v: &Vec<char>) -> String {
    v.iter().collect()
}

fn texts(v: &Vec<Vec<char>>) -> Vec<String> {
    v.iter().map(text).collect()
}

fn opt(v: Option<Vec<char>>) -> Option<String> {
    v.map(|c| c.iter().collect())
}

#[test]
fn lines_follow_line_feeds() {
    assert_eq!(texts(&lines(&chars("a\nb\r\n\nc"))), vec!["a", "b", "", "c"]);
    assert_eq!(texts(&lines(&chars("a\n"))), vec!["a"]);
    assert_eq!(texts(&lines(&chars("a\r"))), vec!["a\r"]);
    assert!(lines(&chars("")).is_empty());
    assert_eq!(texts(&lines(&chars("\n"))), vec![""]);
}

#[test]
fn split_trim_replace_count() {
    assert_eq!(texts(&split(&chars("a::b::"), &chars("::"))), vec!["a", "b", ""]);
    assert_eq!(texts(&split(&chars(""), &chars(","))), vec![""]);
    assert_eq!(text(&trim(&chars(" \t x y \n"))), "x y");
    assert_eq!(text(&trim(&chars("   "))), "");
    assert_eq!(text(&replace(&chars("a.b.c"), &chars("."), &chars("::"))), "a::b::c");
    assert_eq!(text(&replace(&chars("aaa"), &chars("aa"), &chars("b"))), "ba");
    assert_eq!(count_matches(&chars("abababa"), &chars("aba")), 2);
    assert_eq!(count_matches(&chars("abc"), &chars("")), 4);
    assert_eq!(count_matches(&chars("abc"), &chars("x")), 0);
}

#[test]
fn numbers_are_written_in_decimal() {
    assert_eq!(text(&decimal_chars(0)), "0");
    assert_eq!(text(&decimal_chars(9076)), "9076");
    assert_eq!(text(&decimal_chars_3(7)), "007");
    assert_eq!(text(&decimal_chars_3(42)), "042");
    assert_eq!(text(&decimal_chars_3(1234)), "1234");
    assert_eq!(text(&centi_chars(5)), "0.05");
    assert_eq!(text(&centi_chars(150)), "1.50");
    assert_eq!(text(&centi_chars(123456)), "1234.56");
}

#[test]
fn texts_are_ordered_character_by_character() {
    assert!(text_lt(&chars("a"), &chars("b")));
    assert!(text_lt(&chars("a"), &chars("ab")));
    assert!(text_lt(&chars(""), &chars("a")));
    assert!(!text_lt(&chars("b"), &chars("a")));
    assert!(!text_lt(&chars("a"), &chars("a")));
    assert!(text_lt(&chars("Z"), &chars("a")));
    let list = vec![chars("pear"), chars("apple"), chars("fig"), chars("apple")];
    assert_eq!(texts(&sort_texts(&list)), vec!["apple", "apple", "fig", "pear"]);
    assert_eq!(texts(&sort_dedup(&list)), vec!["apple", "fig", "pear"]);
}

#[test]
fn paths_are_taken_apart_at_separators() {
    assert_eq!(opt(file_name(&chars("src/core/User.res"))), Some("User.res".to_string()));
    assert_eq!(opt(file_name(&chars("src/core/"))), Some("core".to_string()));
    assert_eq!(opt(file_name(&chars(""))), None);
    assert_eq!(opt(file_name(&chars("a/.."))), None);
    assert_eq!(opt(file_stem(&chars("src/core/User.test.res"))), Some("User.test".to_string()));
    assert_eq!(opt(file_stem(&chars(".bashrc"))), Some(".bashrc".to_string()));
    assert_eq!(opt(file_stem(&chars("Makefile"))), Some("Makefile".to_string()));
    assert_eq!(opt(extension(&chars("a/b.tar.gz"))), Some("gz".to_string()));
    assert_eq!(opt(extension(&chars(".bashrc"))), None);
    assert_eq!(opt(extension(&chars("Makefile"))), None);
    assert_eq!(opt(parent(&chars("a/b/c.rs"))), Some("a/b".to_string()));
    assert_eq!(opt(parent(&chars("c.rs"))), Some("".to_string()));
    assert_eq!(opt(parent(&chars("/c.rs"))), Some("/".to_string()));
    assert_eq!(opt(parent(&chars(""))), None);
    assert_eq!(opt(parent(&chars("/"))), None);
    assert_eq!(text(&directory(&chars(""))), ".");
    assert_eq!(components(&chars("src/systems/x/File.res")), 4);
    assert_eq!(components(&chars("/a//b/./c")), 4);
    assert_eq!(components(&chars("./a")), 2);
    assert_eq!(components(&chars("")), 0);
    assert_eq!(text(&join(&chars("a/b"), &chars("c.rs"))), "a/b/c.rs");
    assert_eq!(text(&join(&chars("a/b/"), &chars("c.rs"))), "a/b/c.rs");
    assert_eq!(text(&join(&chars(""), &chars("c.rs"))), "c.rs");
    assert_eq!(text(&join(&chars("a"), &chars("/abs"))), "/abs");
}

fn rules() -> ExclusionRules {
    ExclusionRules {
        folders: vec!["node_modules".to_string(), "/target/".to_string()],
        files: vec!["Generated.res".to_string()],
        extensions: vec![".test.js".to_string(), ".gen.res".to_string()],
    }
}

#[test]
fn project_sources_have_a_source_extension_and_are_not_excluded() {
    let r = rules();
    assert!(is_project_source("src/core/User.res", &r));
    assert!(is_project_source("backend/src/main.rs", &r));
    assert!(is_project_source("web/index.html", &r));
    assert!(!is_project_source("docs/README.md", &r));
    assert!(!is_project_source("src/app.json", &r));
    assert!(!is_project_source("web/node_modules/lib/index.js", &r));
    assert!(!is_project_source("backend\\target\\debug\\x.rs", &r));
    assert!(!is_project_source("src/Generated.res", &r));
    assert!(!is_project_source("src/User.test.js", &r));
    assert!(!is_project_source("src/Types.gen.res", &r));
    assert!(!is_project_source("src/noextension", &r));
}

#[test]
fn guard_defaults_and_suspended_check() {
    let c = GuardConfig::default();
    assert_eq!(c.tasks_dir, "../../tasks");
    assert_eq!(c.map_file, "../../MAP.md");
    assert!(check_tests(&c, "src/core/User.res").is_ok());
}

#[test]
fn next_id_is_one_above_the_greatest_number() {
    let names = vec![
        "001_First.md".to_string(),
        "017_Other_Thing.md".to_string(),
        "notes.md".to_string(),
        "9x_bad.md".to_string(),
        "_CONCISE_SUMMARY.md".to_string(),
    ];
    assert_eq!(get_next_id(&names), 18);
    assert_eq!(get_next_id(&Vec::new()), 1);
    assert!(task_exists(&names, "Other_Thing"));
    assert!(!task_exists(&names, "Missing"));
    assert!(!task_exists(&Vec::new(), ""));
}

#[test]
fn mapped_files_come_from_targets_and_labels() {
    let map = "# Map\n* [Main](src/Main.res): entry\n* [src/core/User.res](src/core/User.res)\n* [abs](file:///home/u/robust-virtual-tour-builder/backend/src/main.rs)\n* [win](src\\ui\\View.res)\n";
    assert_eq!(
        get_mapped_files(map),
        vec![
            "../../src/Main.res".to_string(),
            "../../src/core/User.res".to_string(),
            "../../backend/src/main.rs".to_string(),
            "../../src/ui/View.res".to_string(),
        ]
    );
    assert!(get_mapped_files("no links here").is_empty());
}

#[test]
fn mapped_files_from_captures() {
    let targets = vec![Some("file:///elsewhere/x.rs".to_string()), None];
    let labels = vec![
        Some("src/a.res".to_string()),
        Some("backend/src/b.rs".to_string()),
        Some("src/noext".to_string()),
        Some("other/c.res".to_string()),
        Some("src/a.res".to_string()),
    ];
    assert_eq!(
        mapped_files_from(&targets, &labels),
        vec![
            "../../file:///elsewhere/x.rs".to_string(),
            "../../src/a.res".to_string(),
            "../../backend/src/b.rs".to_string(),
        ]
    );
}

#[test]
fn taxonomy_by_header_and_by_place() {
    assert_eq!(infer_taxonomy("src/x/Thing.res", "// @efficiency-role: state-reducer"), "state-reducer");
    assert_eq!(infer_taxonomy("src/x/Thing.res", "// @efficiency: ignore"), "ignored");
    assert_eq!(infer_taxonomy("src/x/data.json", "// @efficiency: ignore"), "infra-config");
    assert_eq!(infer_taxonomy("Cargo.toml", ""), "infra-config");
    assert_eq!(infer_taxonomy("backend/src/MAIN.rs", ""), "orchestrator");
    assert_eq!(infer_taxonomy("src/Systems/Nav.res", ""), "service-orchestrator");
    assert_eq!(infer_taxonomy("src/core/Math.res", ""), "domain-logic");
    assert_eq!(infer_taxonomy("src/core/Types.res", ""), "data-model");
    assert_eq!(infer_taxonomy("src/components/Button.res", ""), "ui-component");
    assert_eq!(infer_taxonomy("src/x/style.css", ""), "ui-component");
    assert_eq!(infer_taxonomy("src/x/AppState.res", ""), "state-reducer");
    assert_eq!(infer_taxonomy("src/x/ApiFetch.res", ""), "infra-adapter");
    assert_eq!(infer_taxonomy("src/utils/Str.res", ""), "util-pure");
    assert_eq!(infer_taxonomy("src/x/Thing.res", ""), "unknown");
    assert_eq!(infer_taxonomy("src/x/Thing.res", "// @efficiency: strict"), "unknown");
}

#[test]
fn drivers_and_platforms_go_by_extension_and_path() {
    assert_eq!(driver_for("a/b.rs"), "rust");
    assert_eq!(driver_for("a/b.res"), "rescript");
    assert_eq!(driver_for("a/b.js"), "web");
    assert_eq!(driver_for("a/b.jsx"), "web");
    assert_eq!(driver_for("a/b.html"), "web");
    assert_eq!(driver_for("a/b.css"), "css");
    assert_eq!(driver_for("a/b.toml"), "config");
    assert_eq!(driver_for("a/noext"), "config");
    assert_eq!(platform_for("src/x.rs"), "backend");
    assert_eq!(platform_for("backend/web/x.js"), "backend");
    assert_eq!(platform_for("src/x.res"), "frontend");
    assert!(is_marked_ignored("// @efficiency-role: ignored"));
    assert!(is_marked_ignored("/* @efficiency-role ignored */"));
    assert!(!is_marked_ignored("// @efficiency: ignore"));
    assert_eq!(scan_root("src"), "../../src");
    assert_eq!(scan_root("../../backend"), "../../backend");
}

#[test]
fn state_remembers_failures_and_actions() {
    let mut s = AnalyzerState::default();
    assert!(!s.dirty);
    assert_eq!(s.get_drag_multiplier_at("src/a.res", 1000), 100);
    s.record_action_at("src/a.res", "De-bloat", 1000);
    assert!(s.dirty);
    assert!(s.is_locked_at("src/a.res", 1000 + 3599));
    assert!(!s.is_locked_at("src/a.res", 1000 + 3600));
    assert!(!s.is_locked_at("src/b.res", 1000));
    s.mark_failure_at("src/a.res", 5000);
    s.mark_failure_at("src/a.res", 6000);
    s.mark_failure_at("src/a.res", 7000);
    assert_eq!(s.paths.len(), 1);
    let h: &FileHistory = &s.histories[0];
    assert_eq!(h.failure_count, 3);
    assert_eq!(h.stability_score, 0);
    assert_eq!(h.last_failure_timestamp, Some(7000));
    assert_eq!(h.last_action, Some("De-bloat".to_string()));
    assert_eq!(h.last_action_timestamp, 1000);
    assert_eq!(s.get_drag_multiplier_at("src/a.res", 7000 + 86399), 150);
    assert_eq!(s.get_drag_multiplier_at("src/a.res", 7000 + 86400), 100);
    assert_eq!(s.get_drag_multiplier_at("src/a.res", 10), 150);
}

#[test]
fn stability_goes_down_by_a_fifth() {
    let mut s = AnalyzerState::default();
    s.record_action_at("f", "x", 1);
    s.mark_failure_at("f", 2);
    assert_eq!(s.histories[0].stability_score, 30);
    s.mark_failure_at("g", 3);
    assert_eq!(s.histories[1].stability_score, 0);
    assert_eq!(s.histories[1].failure_count, 1);
    assert_eq!(s.histories[0].failure_count, 1);
}

#[test]
fn state_with_the_clock() {
    let mut s = AnalyzerState::default();
    s.mark_failure("x");
    assert!(s.histories[0].last_failure_timestamp.unwrap() > 1_600_000_000);
    assert_eq!(s.get_drag_multiplier("x"), 150);
    assert_eq!(s.get_drag_multiplier("y"), 100);
    s.record_action("d", "Merge");
    assert!(s.is_locked("d"));
    assert!(!s.is_locked("e"));
    let dirs = vec!["d".to_string(), "e".to_string()];
    assert_eq!(s.locked_now(&dirs), vec!["d".to_string()]);
    assert_eq!(s.locked_among(&dirs, u64::MAX), Vec::<String>::new());
}

#[test]
fn map_parser_reads_bracketed_files() {
    let files = MapParser::get_known_files("- [src/Main.res] main\n- [no dot]\n] [x.y\nplain\n[a.b] and [c.d]");
    assert_eq!(files, vec!["src/Main.res".to_string(), "a.b".to_string()]);
}

#[test]
fn names_of_sessions_and_thought_processes() {
    assert_eq!(ThinkingEngine::generate_tp_id(1712345678), "TP_1712345678");
    let s = SessionManager::starting_at(42);
    assert_eq!(s.session_id, "SID_42");
    assert_eq!(s.session_path, "sessions/SID_42");
    assert!(Complexity::Simple != Complexity::Complex);
    let u = Usage { prompt_tokens: 1, completion_tokens: 2, total_tokens: 3 };
    assert_eq!(u.total_tokens, u.prompt_tokens + u.completion_tokens);
}
