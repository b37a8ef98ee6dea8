use efficiency_analyzer::consolidator::Cluster;
use efficiency_analyzer::drivers::CommonMetrics;
use efficiency_analyzer::graph::DependencyGraph;
use efficiency_analyzer::synth::{
    assess_files, budget_for, calculate_dynamic_limit, decide_folders, decide_pods, entry_points,
    file_units, find_flattens, find_folders, find_pods, find_slices, synthesize, Budget,
    ExceptionRule, FileLoad, FileRecord, Folder, Pod, Settings, Standing,
};
use efficiency_analyzer::units::{generate_strategic_directive, Buffer, WorkUnit};

fn settings() -> Settings {
    Settings {
        min_dead_code_loc: 20,
        base_loc_limit: 400,
        hard_ceiling_loc: 800,
        soft_floor_loc: 150,
        merge_score_threshold: 150,
        nesting_weight: 15,
        density_weight: 50,
        drag_target: 180,
        state_weight: 30,
        max_depth_threshold: 4,
    }
}

fn record(path: &str, role: &str, loc: usize, driver: &str, content: &str) -> FileRecord {
    let mut metrics = CommonMetrics::default();
    metrics.loc = loc;
    FileRecord {
        path: path.to_string(),
        content: content.to_string(),
        role: role.to_string(),
        metrics,
        platform: "frontend".to_string(),
        driver: driver.to_string(),
    }
}

fn load(raw_limit: usize) -> FileLoad {
    FileLoad {
        drag: 125,
        pod_drag: 110,
        p_mod: 100,
        nesting_factor: 30,
        density_factor: 12,
        coupling: 5,
        raw_limit,
    }
}

fn standing(path: &str, loc: usize) -> Standing {
    Standing {
        path: path.to_string(),
        loc,
        platform: "frontend".to_string(),
        drag: 125,
        pod_drag: 110,
        p_mod: 100,
        role_known: true,
        surgical: false,
        dead: false,
    }
}

#[test]
fn budget_is_clamped_between_floor_and_ceiling() {
    let s = settings();
    let none: Vec<ExceptionRule> = Vec::new();
    assert_eq!(calculate_dynamic_limit(0, &s, &none, "src/a.res"), 150);
    assert_eq!(calculate_dynamic_limit(149, &s, &none, "src/a.res"), 150);
    assert_eq!(calculate_dynamic_limit(400, &s, &none, "src/a.res"), 400);
    assert_eq!(calculate_dynamic_limit(800, &s, &none, "src/a.res"), 800);
    assert_eq!(calculate_dynamic_limit(usize::MAX, &s, &none, "src/a.res"), 800);
}

#[test]
fn budget_is_pinned_by_the_first_rule_that_applies() {
    let s = settings();
    let rules = vec![
        ExceptionRule { pattern: "legacy".to_string(), max_loc: Some(60), multiplier: None },
        ExceptionRule { pattern: "src/".to_string(), max_loc: None, multiplier: Some(200) },
        ExceptionRule { pattern: "big".to_string(), max_loc: Some(5000), multiplier: None },
    ];
    assert_eq!(calculate_dynamic_limit(400, &s, &rules, "src/legacy/x.res"), 60);
    assert_eq!(calculate_dynamic_limit(400, &s, &rules, "src/big/x.res"), 400);
    assert_eq!(calculate_dynamic_limit(400, &s, &rules, "lib/big/x.res"), 5000);
    assert_eq!(calculate_dynamic_limit(1, &s, &rules, "lib/big/x.res"), 5000);
    assert_eq!(calculate_dynamic_limit(400, &s, &rules, "lib/x.res"), 400);
}

#[test]
fn dead_code_detection_makes_one_surgical_unit() {
    let s = settings();
    let mut g = DependencyGraph::new();
    g.add_dependency("A", "B");
    let all = vec!["A".to_string(), "B".to_string(), "C".to_string()];
    let dead = g.find_dead_code(&all, &vec!["A".to_string()]);
    assert_eq!(dead, vec!["C".to_string()]);
    let records = vec![
        record("A", "orchestrator", 10, "rescript", ""),
        record("B", "util-pure", 10, "rescript", ""),
        record("C", "util-pure", 21, "rescript", ""),
    ];
    let loads = vec![load(400), load(400), load(400)];
    let stage = assess_files(&records, &loads, &dead, &s, &Vec::new(), &Vec::new());
    assert!(stage.units[0].is_empty());
    assert!(stage.units[1].is_empty());
    assert_eq!(stage.units[2].len(), 1);
    match &stage.units[2][0] {
        WorkUnit::Surgical { file, action, reason, complexity, platform, .. } => {
            assert_eq!(file, "C");
            assert_eq!(action, "Audit & Delete");
            assert_eq!(reason, "Unreachable Module. Not referenced by any entry point. (LOC: 21)");
            assert_eq!(*complexity, 0);
            assert_eq!(platform, "frontend");
        }
        _ => panic!("surgical unit expected"),
    }
    assert!(stage.standings[2].surgical && stage.standings[2].dead);
    assert!(!stage.standings[1].surgical && !stage.standings[1].dead);
}

#[test]
fn short_dead_file_is_let_pass() {
    let s = settings();
    let out = file_units(&record("C", "util-pure", 20, "rescript", ""), &load(400), true, &s, &Vec::new(), &Vec::new());
    assert!(out.units.is_empty());
    assert!(!out.surgical);
}

#[test]
fn bloated_file_gets_a_reason_with_its_numbers() {
    let s = settings();
    let mut r = record("src/core/Big.res", "domain-logic", 500, "rescript", "");
    r.metrics.hotspot_symbol = Some("Function: `run`".to_string());
    r.metrics.hotspot_reason = Some("High Local Complexity (7.5). Logic heavy.".to_string());
    let out = file_units(&r, &load(400), false, &s, &Vec::new(), &Vec::new());
    assert_eq!(out.limit, 400);
    assert!(out.surgical);
    assert_eq!(out.units.len(), 1);
    match &out.units[0] {
        WorkUnit::Surgical { action, reason, complexity, .. } => {
            assert_eq!(action, "De-bloat");
            assert_eq!(
                reason,
                "[Nesting: 0.30, Density: 0.12, Coupling: 0.05] | Drag: 1.25 | LOC: 500/400  🎯 Target: Function: `run` (High Local Complexity (7.5). Logic heavy.)"
            );
            assert_eq!(*complexity, 1125);
        }
        _ => panic!("surgical unit expected"),
    }
    assert_eq!(
        generate_strategic_directive(&out.units[0]),
        "Decompose & Flatten: Use guard clauses to reduce nesting and extract dense logic into private helper functions."
    );
}

#[test]
fn hotspot_lines_are_named_without_a_symbol() {
    let s = settings();
    let mut r = record("src/core/Big.res", "domain-logic", 401, "rescript", "");
    r.metrics.hotspot_lines = Some((12, 32));
    let out = file_units(&r, &load(400), false, &s, &Vec::new(), &Vec::new());
    match &out.units[0] {
        WorkUnit::Surgical { reason, complexity, .. } => {
            assert!(reason.ends_with("LOC: 401/400  Hotspot: Lines 12-32 ()"));
            assert_eq!(*complexity, 135);
        }
        _ => panic!("surgical unit expected"),
    }
}

#[test]
fn unknown_role_is_an_ambiguity_and_never_bloated() {
    let s = settings();
    let out = file_units(&record("src/x/What.res", "unknown", 5000, "rescript", ""), &load(400), false, &s, &Vec::new(), &Vec::new());
    assert_eq!(out.units.len(), 1);
    assert!(matches!(&out.units[0], WorkUnit::Ambiguity { file, .. } if file == "src/x/What.res"));
    assert!(!out.surgical);
}

#[test]
fn violations_are_found_outside_comments_and_strings() {
    let s = settings();
    let forbidden = vec!["Js.log".to_string(), "Obj.magic".to_string(), "absent".to_string()];
    let text = "let a = Js.log(1)\n// Obj.magic in a comment\nlet b = \"Obj.magic\"\nlet c = 'Obj.magic'";
    let out = file_units(&record("src/a.res", "util-pure", 4, "rescript", text), &load(400), false, &s, &Vec::new(), &forbidden);
    assert_eq!(out.units.len(), 2);
    assert!(matches!(&out.units[0], WorkUnit::Violation { pattern, .. } if pattern == "Js.log"));
    assert!(matches!(&out.units[1], WorkUnit::Violation { pattern, .. } if pattern == "Obj.magic"));
    let web = file_units(&record("src/a.js", "util-pure", 4, "web", text), &load(400), false, &s, &Vec::new(), &forbidden);
    assert_eq!(web.units.len(), 1);
    assert_eq!(
        generate_strategic_directive(&out.units[0]),
        "Pattern Fix: Replace the forbidden 'Js.log' pattern with the recommended functional alternative (Logger, Result/Option, etc)."
    );
}

#[test]
fn conflict_lock_keeps_the_surgical_file_out_of_merges() {
    let s = settings();
    let records = vec![
        record("src/x/F.res", "util-pure", 500, "rescript", ""),
        record("src/x/One.res", "util-pure", 40, "rescript", ""),
        record("src/x/Two.res", "util-pure", 50, "rescript", ""),
    ];
    let loads = vec![load(400), load(400), load(400)];
    let stage = assess_files(&records, &loads, &Vec::new(), &s, &Vec::new(), &Vec::new());
    let surgical: Vec<&WorkUnit> = stage
        .units
        .iter()
        .flatten()
        .filter(|u| matches!(u, WorkUnit::Surgical { .. }))
        .collect();
    assert_eq!(surgical.len(), 1);
    assert!(matches!(surgical[0], WorkUnit::Surgical { file, .. } if file == "src/x/F.res"));

    let pods = find_pods(&stage.standings, s.hard_ceiling_loc);
    assert_eq!(pods.len(), 1);
    assert_eq!(pods[0].cluster.files, vec!["src/x/One.res", "src/x/Two.res"]);
    assert_eq!(pods[0].cluster.root_folder, "src/x");
    let (merges, taken) = decide_pods(&pods, &vec![400], &s, &Vec::new(), &Vec::new());
    let (held, none_taken) =
        decide_pods(&pods, &vec![400], &s, &Vec::new(), &vec!["src/x".to_string()]);
    assert!(held.is_empty());
    assert!(none_taken.is_empty());
    assert_eq!(merges.len(), 1);
    match &merges[0] {
        WorkUnit::Merge { folder, files, reason, platform, .. } => {
            assert_eq!(folder, "src/x");
            assert!(!files.contains(&"src/x/F.res".to_string()));
            assert_eq!(platform, "frontend");
            assert_eq!(
                reason,
                "Recursive Feature Pod: 2 files in subtree sum to 90 LOC (fits in context). Max Drag: 1.10"
            );
        }
        _ => panic!("merge expected"),
    }
    assert_eq!(taken, vec!["src/x/One.res".to_string(), "src/x/Two.res".to_string()]);
    assert!(find_folders(&stage.standings, &taken, &Vec::new()).is_empty());

    let folders = find_folders(&stage.standings, &Vec::new(), &Vec::new());
    assert_eq!(folders.len(), 1);
    assert_eq!(folders[0].paths, vec!["src/x/One.res", "src/x/Two.res"]);
    assert_eq!(folders[0].names, vec!["One.res", "Two.res"]);
    assert_eq!(folders[0].total_loc, 90);
}

#[test]
fn pod_over_its_budget_is_not_merged() {
    let s = settings();
    let pod = Pod {
        platform: "backend".to_string(),
        extension: "rs".to_string(),
        cluster: Cluster {
            root_folder: "backend/src/api".to_string(),
            files: vec!["a.rs".to_string(), "b.rs".to_string()],
            total_loc: 300,
            max_drag: 400,
        },
    };
    let (none, taken) = decide_pods(&vec![pod], &vec![299], &s, &Vec::new(), &Vec::new());
    assert!(none.is_empty());
    assert!(taken.is_empty());
}

fn folder(total: u128, count: usize) -> Folder {
    let names: Vec<String> = (0..count).map(|i| format!("f{}.res", i)).collect();
    Folder {
        dir: "src/ui".to_string(),
        extension: "res".to_string(),
        paths: names.iter().map(|n| format!("src/ui/{}", n)).collect(),
        names,
        total_loc: total,
        drag: 100,
        p_mod: 100,
        platform: "frontend".to_string(),
    }
}

#[test]
fn merge_score_scenario() {
    let s = settings();
    let units = decide_folders(&vec![folder(400, 5)], &vec![800], &s, &Vec::new());
    assert_eq!(units.len(), 1);
    match &units[0] {
        WorkUnit::Merge { folder, files, reason, .. } => {
            assert_eq!(folder, "src/ui");
            assert_eq!(files.len(), 5);
            assert_eq!(reason, "Read Tax high (Score 5.00). Projected Limit: 800 (Drag 1.00)");
        }
        _ => panic!("merge expected"),
    }
    assert!(decide_folders(&vec![folder(1000, 5)], &vec![800], &s, &Vec::new()).is_empty());
    assert!(decide_folders(&vec![folder(400, 5)], &vec![399], &s, &Vec::new()).is_empty());
    assert!(decide_folders(&vec![folder(700, 2)], &vec![800], &s, &Vec::new()).is_empty());
}

#[test]
fn deep_folder_is_to_be_flattened() {
    let s = settings();
    let mut deep = standing("../../src/a/b/c/d/One.res", 5000);
    deep.platform = "backend".to_string();
    deep.role_known = false;
    let st = vec![
        standing("src/a/Top.res", 10),
        deep,
        standing("../../src/a/b/c/d/Two.css", 10),
        standing("../../src/a/b/c/Three.res", 10),
    ];
    let units = find_flattens(&st, &s);
    assert_eq!(units.len(), 1);
    match &units[0] {
        WorkUnit::Structure { file, action, reason, platform, .. } => {
            assert_eq!(file, "../../src/a/b/c/d");
            assert_eq!(action, "Flatten Hierarchy");
            assert_eq!(reason, "Folder depth is 5. Flatten to reduce traversal tax.");
            assert_eq!(platform, "backend");
        }
        _ => panic!("structure expected"),
    }
    assert_eq!(
        generate_strategic_directive(&units[0]),
        "Hierarchy Cleanup: Move these modules 1-2 levels higher to reduce the directory traversal tax."
    );
    let mut f = folder(5000, 2);
    f.dir = "../../src/a/b/c/d".to_string();
    assert!(decide_folders(&vec![f], &vec![800], &s, &Vec::new()).is_empty());
}

#[test]
fn locked_folders_and_taken_files_are_left_alone() {
    let st = vec![
        standing("src/a/One.res", 10),
        standing("src/a/Two.res", 20),
        standing("src/a/Three.res", 30),
        standing("src/b/One.res", 10),
        standing("src/b/Two.res", 20),
        standing("src/b/Style.css", 20),
    ];
    let folders = find_folders(&st, &vec!["src/a/Two.res".to_string()], &vec!["src/b".to_string()]);
    assert_eq!(folders.len(), 1);
    assert_eq!(folders[0].dir, "src/a");
    assert_eq!(folders[0].names, vec!["One.res", "Three.res"]);
    assert_eq!(folders[0].total_loc, 40);
    assert_eq!(folders[0].drag, 125);
    assert_eq!(folders[0].p_mod, 100);
}

#[test]
fn structural_vertical_slice() {
    let st = vec![
        standing("src/scenes/Scene.res", 10),
        standing("src/scenes/Scene.css", 10),
        standing("src/logic/Scene.js", 10),
        standing("src/logic/Nav.js", 10),
        standing("src/a/Abc.res", 10),
        standing("src/b/Abc.css", 10),
    ];
    let units = find_slices(&st);
    assert_eq!(units.len(), 1);
    match &units[0] {
        WorkUnit::Structure { file, action, reason, platform, .. } => {
            assert_eq!(file, "Scene");
            assert_eq!(action, "Vertical Slice");
            assert_eq!(
                reason,
                "Feature fragmented across 3 files: [`src/logic/Scene.js`, `src/scenes/Scene.css`, `src/scenes/Scene.res`]"
            );
            assert_eq!(platform, "frontend");
        }
        _ => panic!("structure expected"),
    }
    assert_eq!(
        generate_strategic_directive(&units[0]),
        "Vertical Slicing: Group related UI and Logic files into a single 'Feature Pod' folder."
    );
}

#[test]
fn slice_counts_every_file_of_the_stem() {
    let mut unknown = standing("src/a/Abc.res", 10);
    unknown.role_known = false;
    let mut surgical = standing("src/b/Abc.css", 10);
    surgical.surgical = true;
    let st = vec![unknown, surgical, standing("src/c/Abc.js", 10), standing("src/c/x", 1)];
    let units = find_slices(&st);
    assert_eq!(units.len(), 1);
    match &units[0] {
        WorkUnit::Structure { file, reason, .. } => {
            assert_eq!(file, "Abc");
            assert_eq!(
                reason,
                "Feature fragmented across 3 files: [`src/a/Abc.res`, `src/b/Abc.css`, `src/c/Abc.js`]"
            );
        }
        _ => panic!("structure expected"),
    }
}

#[test]
fn slice_needs_more_than_two_files_and_more_than_one_directory() {
    let same_dir = vec![
        standing("src/a/Scene.res", 1),
        standing("src/a/Scene.css", 1),
        standing("src/a/Scene.js", 1),
    ];
    assert!(find_slices(&same_dir).is_empty());
    let two = vec![standing("src/a/Scene.res", 1), standing("src/b/Scene.css", 1)];
    assert!(find_slices(&two).is_empty());
}

#[test]
fn entry_points_are_gathered() {
    let records = vec![
        record("../../src/Main.res", "orchestrator", 1, "rescript", ""),
        record("../../src/a/Util.res", "util-pure", 1, "rescript", "// KEEP"),
        record("../../src/a/Other.res", "util-pure", 1, "rescript", ""),
        record("../../src/hooks/UseX.res", "service-orchestrator", 1, "rescript", ""),
    ];
    let entries = entry_points(
        &vec!["src/index.js".to_string()],
        &vec!["../../src/Map.res".to_string()],
        &records,
        &vec!["KEEP".to_string(), "never".to_string()],
    );
    assert_eq!(
        entries,
        vec![
            "../../src/index.js".to_string(),
            "../../src/Map.res".to_string(),
            "../../src/Main.res".to_string(),
            "../../src/a/Util.res".to_string(),
            "../../src/hooks/UseX.res".to_string(),
        ]
    );
}

#[test]
fn buffer_files_units_by_driver_or_under_system() {
    let mut b = Buffer::new();
    b.file("rescript", WorkUnit::Ambiguity { file: "a".to_string(), strategy: String::new() });
    b.file(
        "rescript",
        WorkUnit::Violation { file: "a".to_string(), pattern: "p".to_string(), strategy: String::new() },
    );
    b.file(
        "css",
        WorkUnit::Merge {
            folder: "f".to_string(),
            files: Vec::new(),
            reason: String::new(),
            strategy: String::new(),
            platform: String::new(),
        },
    );
    assert_eq!(b.names, vec!["system".to_string(), "rescript".to_string()]);
    assert_eq!(b.units[0].len(), 2);
    assert_eq!(b.units[1].len(), 1);
}

fn budgets() -> Vec<Budget> {
    vec![
        Budget { p_mod: 100, drag: 110, raw: 400 },
        Budget { p_mod: 100, drag: 125, raw: 350 },
        Budget { p_mod: 100, drag: 110, raw: 1 },
    ]
}

fn is_surgical(u: &WorkUnit) -> bool {
    matches!(u, WorkUnit::Surgical { .. })
}

fn names_file(u: &WorkUnit, path: &str) -> bool {
    match u {
        WorkUnit::Ambiguity { file, .. } => file == path,
        WorkUnit::Violation { file, .. } => file == path,
        WorkUnit::Surgical { file, .. } => file == path,
        WorkUnit::Structure { file, .. } => file == path,
        WorkUnit::Merge { .. } => false,
    }
}

fn merge_takes(u: &WorkUnit, path: &str) -> bool {
    match u {
        WorkUnit::Merge { folder, files, .. } => {
            files.iter().any(|f| f == path || format!("{}/{}", folder, f) == path)
        }
        _ => false,
    }
}

#[test]
fn budget_is_looked_up_by_multiplier_and_drag() {
    let table = budgets();
    assert_eq!(budget_for(&table, 100, 110), 400);
    assert_eq!(budget_for(&table, 100, 125), 350);
    assert_eq!(budget_for(&table, 125, 100), 0);
    assert_eq!(budget_for(&Vec::new(), 100, 110), 0);
}

#[test]
fn run_with_dead_code_has_one_surgical_unit() {
    let s = settings();
    let mut g = DependencyGraph::new();
    g.add_dependency("A", "B");
    let all = vec!["A".to_string(), "B".to_string(), "C".to_string()];
    let dead = g.find_dead_code(&all, &vec!["A".to_string()]);
    let records = vec![
        record("A", "orchestrator", 10, "rescript", ""),
        record("B", "util-pure", 10, "rescript", ""),
        record("C", "util-pure", 21, "rescript", ""),
    ];
    let loads = vec![load(400), load(400), load(400)];
    let run = synthesize(
        &records, &loads, &dead, &s, &Vec::new(), &Vec::new(), &Vec::new(), &budgets(),
    );
    let of_files: Vec<&WorkUnit> = run.stage.units.iter().flatten().collect();
    let all_units: Vec<&WorkUnit> = of_files.iter().copied().chain(run.units.iter()).collect();
    let surgical: Vec<&&WorkUnit> = all_units.iter().filter(|u| is_surgical(u)).collect();
    assert_eq!(surgical.len(), 1);
    match surgical[0] {
        WorkUnit::Surgical { file, action, .. } => {
            assert_eq!(file, "C");
            assert_eq!(action, "Audit & Delete");
        }
        _ => panic!("surgical unit expected"),
    }
    assert!(all_units.iter().all(|u| !names_file(u, "B")));
    assert!(all_units.iter().all(|u| !merge_takes(u, "C")));
}

#[test]
fn run_keeps_the_surgical_file_out_of_every_merge() {
    let s = settings();
    let records = vec![
        record("src/x/F.res", "util-pure", 500, "rescript", ""),
        record("src/x/One.res", "util-pure", 40, "rescript", ""),
        record("src/x/Two.res", "util-pure", 50, "rescript", ""),
    ];
    let loads = vec![load(400), load(400), load(400)];
    let run = synthesize(
        &records, &loads, &Vec::new(), &s, &Vec::new(), &Vec::new(), &Vec::new(), &budgets(),
    );
    let of_files: Vec<&WorkUnit> = run.stage.units.iter().flatten().collect();
    let surgical: Vec<&&WorkUnit> = of_files.iter().filter(|u| is_surgical(u)).collect();
    assert_eq!(surgical.len(), 1);
    match surgical[0] {
        WorkUnit::Surgical { file, action, complexity, .. } => {
            assert_eq!(file, "src/x/F.res");
            assert_eq!(action, "De-bloat");
            assert_eq!(*complexity, 1125);
        }
        _ => panic!("surgical unit expected"),
    }
    assert!(run.units.iter().all(|u| !is_surgical(u)));
    assert!(run.units.iter().all(|u| !merge_takes(u, "src/x/F.res")));
    let merges: Vec<&WorkUnit> =
        run.units.iter().filter(|u| matches!(u, WorkUnit::Merge { .. })).collect();
    assert_eq!(merges.len(), 1);
    assert!(merge_takes(merges[0], "src/x/One.res"));
    assert!(merge_takes(merges[0], "src/x/Two.res"));
    assert_eq!(run.taken, vec!["src/x/One.res".to_string(), "src/x/Two.res".to_string()]);
    assert!(run.folders.is_empty());

    let held = synthesize(
        &records,
        &loads,
        &Vec::new(),
        &s,
        &Vec::new(),
        &Vec::new(),
        &vec!["src/x".to_string()],
        &budgets(),
    );
    assert!(held.units.iter().all(|u| !matches!(u, WorkUnit::Merge { .. })));
    assert!(held.taken.is_empty());

    let tight = vec![Budget { p_mod: 100, drag: 110, raw: 10 }];
    let mut low = settings();
    low.soft_floor_loc = 50;
    let shallow = synthesize(
        &records, &loads, &Vec::new(), &low, &Vec::new(), &Vec::new(), &Vec::new(), &tight,
    );
    assert!(shallow.taken.is_empty());
    assert_eq!(shallow.folders.len(), 1);
    assert_eq!(shallow.folders[0].names, vec!["One.res", "Two.res"]);
    assert!(shallow.units.iter().all(|u| !merge_takes(u, "src/x/F.res")));
}
