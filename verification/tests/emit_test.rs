use efficiency_analyzer::emit::{collect_rows, format_groups, render_plan, Row, RowKind};
use efficiency_analyzer::synth::Settings;
use efficiency_analyzer::tasks::{
    find_zombies, plan_task_files, task_docs, TaskDoc, TaxonomyRole, Templates,
};
use efficiency_analyzer::units::WorkUnit;

fn settings() -> Settings {
    Settings {
        min_dead_code_loc: 20,
        base_loc_limit: 400,
        hard_ceiling_loc: 800,
        soft_floor_loc: 150,
        merge_score_threshold: 150,
        nesting_weight: 15,
        density_weight: 50,
        drag_target: 180,
        state_weight: 30,
        max_depth_threshold: 4,
    }
}

fn templates() -> Templates {
    Templates {
        legend: "Legend.\n\n".to_string(),
        surgical_objective: "Cut. n={nesting_w} d={density_w} t={drag_t}".to_string(),
        violation_objective: "Fix.".to_string(),
        structural_objective: "Move.".to_string(),
        merge_objective: "Merge above {merge_t}.".to_string(),
        ambiguity_objective: "Roles:\n{roles}".to_string(),
    }
}

fn taxonomy() -> Vec<(String, TaxonomyRole)> {
    vec![
        ("util-pure".to_string(), TaxonomyRole { multiplier: 120, desc: Some("helpers".to_string()) }),
        ("unknown".to_string(), TaxonomyRole { multiplier: 100, desc: None }),
    ]
}

fn surgical(file: &str, action: &str, reason: &str, platform: &str) -> WorkUnit {
    WorkUnit::Surgical {
        file: file.to_string(),
        action: action.to_string(),
        reason: reason.to_string(),
        strategy: String::new(),
        platform: platform.to_string(),
        complexity: 0,
    }
}

fn units() -> Vec<WorkUnit> {
    vec![
        WorkUnit::Ambiguity { file: "src/x/What.res".to_string(), strategy: String::new() },
        surgical("src/core/Big.res", "De-bloat", "[Nesting: 0.30, Density: 0.12] (AI Context Fog: long)", "frontend"),
        surgical("src/core/Also.res", "De-bloat", "[Nesting: 0.10, Density: 0.02]", "frontend"),
        surgical("backend/src/old.rs", "Audit & Delete", "Unreachable Module.", "backend"),
        WorkUnit::Violation { file: "src/a.res".to_string(), pattern: "Js.log".to_string(), strategy: String::new() },
        WorkUnit::Violation { file: "backend/src/b.rs".to_string(), pattern: "unwrap".to_string(), strategy: String::new() },
        WorkUnit::Merge {
            folder: "src/ui".to_string(),
            files: vec!["b.res".to_string(), "a.res".to_string()],
            reason: "Read Tax high".to_string(),
            strategy: String::new(),
            platform: "frontend".to_string(),
        },
        WorkUnit::Structure {
            file: "Scene".to_string(),
            action: "Vertical Slice".to_string(),
            reason: "Feature fragmented".to_string(),
            strategy: String::new(),
            platform: "frontend".to_string(),
        },
    ]
}

#[test]
fn plan_has_its_sections_in_order() {
    let doc = render_plan("system", "Legend.\n", &units()).unwrap();
    assert_eq!(doc.name, "SYSTEM_PLAN.md");
    let expected = "# SYSTEM MASTER PLAN\nLegend.\n\
## ⚠️ PRECURSOR: AMBIGUITY RESOLUTION (1)\n- [ ] `src/x/What.res`\n\n---\n\n\
## 🛠️ SURGICAL REFACTOR TASKS (3)\n\
- [ ] **backend/src/old.rs**\n  - *Reason:* Unreachable Module.\n\
- [ ] **src/core/Also.res**\n  - *Reason:* [Nesting: 0.10, Density: 0.02]\n\
- [ ] **src/core/Big.res**\n  - *Reason:* [Nesting: 0.30, Density: 0.12] (AI Context Fog: long)\n\n---\n\n\
## 🏗️ STRUCTURAL REFACTOR TASKS (1)\n- [ ] **Scene** (Action: Vertical Slice)\n  - *Reason:* Feature fragmented\n\n---\n\n\
## 🧩 MERGE TASKS (1)\n### Merge Folder: `src/ui`\n- **Reason:** Read Tax high\n- **Files:**\n  - `src/ui/b.res`\n  - `src/ui/a.res`\n";
    assert_eq!(doc.body, expected);
}

#[test]
fn plan_of_nothing_is_nothing() {
    assert!(render_plan("rust", "Legend", &Vec::new()).is_none());
    let only_violation = vec![WorkUnit::Violation {
        file: "a".to_string(),
        pattern: "p".to_string(),
        strategy: String::new(),
    }];
    let doc = render_plan("rust", "Legend", &only_violation).unwrap();
    assert_eq!(doc.name, "RUST_PLAN.md");
    assert_eq!(doc.body, "# RUST MASTER PLAN\nLegend");
}

fn chars(s: &str) -> Vec<char> {
    s.chars().collect()
}

fn texts(v: &Vec<Vec<char>>) -> Vec<String> {
    v.iter().map(|c| c.iter().collect()).collect()
}

#[test]
fn groups_are_sorted_by_action_and_lines_within() {
    let rows = vec![
        Row { key: chars("B"), directive: chars("d-b"), entry: chars("zeta") },
        Row { key: chars("A"), directive: chars("d-a"), entry: chars("beta") },
        Row { key: chars("B"), directive: chars("other"), entry: chars("alpha") },
        Row { key: chars("A"), directive: chars("d-a"), entry: chars("alpha") },
    ];
    let expected = vec![
        "\n### 🔧 Action: A\n**Directive:** d-a\n",
        "alpha",
        "beta",
        "\n### 🔧 Action: B\n**Directive:** d-b\n",
        "zeta",
        "\n### 🔧 Action: B\n**Directive:** other\n",
        "alpha",
    ];
    assert_eq!(texts(&format_groups(&rows)), expected);
    let turned: Vec<Row> = rows.into_iter().rev().collect();
    assert_eq!(texts(&format_groups(&turned)), expected);
}

#[test]
fn plan_does_not_depend_on_the_order_of_the_units() {
    let there = render_plan("system", "Legend.\n", &units()).unwrap();
    let mut turned = units();
    turned.reverse();
    let back = render_plan("system", "Legend.\n", &turned).unwrap();
    assert_eq!(there.body, back.body);
    assert_eq!(there.name, back.name);
}

#[test]
fn rows_are_split_by_kind_and_platform() {
    let all = units();
    let fe = collect_rows(&all, &RowKind::Violation { backend: false });
    assert_eq!(fe.len(), 1);
    assert_eq!(fe[0].key.iter().collect::<String>(), "Fix Pattern `Js.log`");
    assert_eq!(fe[0].entry.iter().collect::<String>(), "`src/a.res`");
    let be = collect_rows(&all, &RowKind::Violation { backend: true });
    assert_eq!(be.len(), 1);
    assert_eq!(be[0].entry.iter().collect::<String>(), "`backend/src/b.rs`");
    let merge = collect_rows(&all, &RowKind::Merge { backend: false });
    assert_eq!(
        merge[0].entry.iter().collect::<String>(),
        "Folder: `src/ui` (Metric: Read Tax high)\n    - `src/ui/a.res`\n    - `src/ui/b.res`"
    );
    let cut = collect_rows(&all, &RowKind::Surgical { backend: false, domain: chars("src/core") });
    assert_eq!(cut.len(), 2);
    assert_eq!(
        cut[0].entry.iter().collect::<String>(),
        "- **src/core/Big.res** (Metric: [Nesting: 0.30, Density: 0.12])\n"
    );
    assert!(collect_rows(&all, &RowKind::Surgical { backend: true, domain: chars("src/core") }).is_empty());
}

fn summary(docs: &Vec<TaskDoc>) -> Vec<(String, String, usize)> {
    docs.iter().map(|d| (d.category.clone(), d.platform.clone(), d.lines.len())).collect()
}

#[test]
fn tasks_come_in_priority_order() {
    let docs = task_docs(&units(), &templates(), &settings(), &taxonomy());
    assert_eq!(
        summary(&docs),
        vec![
            ("Classify_Ambiguous_Files".to_string(), "".to_string(), 2),
            ("Structural_Refactor".to_string(), "Frontend".to_string(), 2),
            ("Fix_Violations".to_string(), "Frontend".to_string(), 2),
            ("Fix_Violations".to_string(), "Backend".to_string(), 2),
            ("Surgical_Refactor_CORE".to_string(), "Frontend".to_string(), 3),
            ("Surgical_Refactor_SRC".to_string(), "Backend".to_string(), 2),
            ("Merge_Folders".to_string(), "Frontend".to_string(), 2),
        ]
    );
    assert_eq!(docs[0].objective, "Roles:\n*   **util-pure**: helpers\n*   **unknown**: \n");
    assert_eq!(docs[4].objective, "Cut. n=0.15 d=0.50 t=1.80");
    assert_eq!(docs[6].objective, "Merge above 1.50.");
    assert_eq!(
        docs[4].lines,
        vec![
            "\n### 🔧 Action: De-bloat\n**Directive:** Decompose & Flatten: Use guard clauses to reduce nesting and extract dense logic into private helper functions.\n".to_string(),
            "- **src/core/Also.res** (Metric: [Nesting: 0.10, Density: 0.02])\n".to_string(),
            "- **src/core/Big.res** (Metric: [Nesting: 0.30, Density: 0.12])\n".to_string(),
        ]
    );
}

#[test]
fn task_files_reuse_names_and_count_on() {
    let docs = task_docs(&units(), &templates(), &settings(), &taxonomy());
    let pending = vec!["007_Fix_Violations_FRONTEND.md".to_string(), "notes.md".to_string()];
    let others = vec!["041_Done_Long_Ago.md".to_string()];
    let files = plan_task_files(&docs, &pending, &others);
    let names: Vec<&str> = files.iter().map(|f| f.name.as_str()).collect();
    assert_eq!(
        names,
        vec![
            "042_Classify_Ambiguous_Files.md",
            "043_Structural_Refactor_FRONTEND.md",
            "007_Fix_Violations_FRONTEND.md",
            "044_Fix_Violations_BACKEND.md",
            "045_Surgical_Refactor_CORE_FRONTEND.md",
            "046_Surgical_Refactor_SRC_BACKEND.md",
            "047_Merge_Folders_FRONTEND.md",
        ]
    );
    assert_eq!(
        files[2].body,
        "# Task 007: Fix Violations FRONTEND\n\n## Objective\nFix.\n\n## Tasks\n\n### 🔧 Action: Fix Pattern `Js.log`\n**Directive:** Pattern Fix: Replace the forbidden 'Js.log' pattern with the recommended functional alternative (Logger, Result/Option, etc).\n\n- [ ] `src/a.res`\n"
    );
    assert!(files[0].body.starts_with("# Task 042: Classify Ambiguous Files\n\n## Objective\nRoles:\n"));
}

#[test]
fn task_number_is_reused_from_the_other_directories() {
    let docs = task_docs(
        &vec![WorkUnit::Ambiguity { file: "f".to_string(), strategy: String::new() }],
        &templates(),
        &settings(),
        &Vec::new(),
    );
    let others =
        vec!["012_Else.md".to_string(), "007_Classify_Ambiguous_Files.md".to_string()];
    let files = plan_task_files(&docs, &Vec::new(), &others);
    assert_eq!(files.len(), 1);
    assert_eq!(files[0].name, "007_Classify_Ambiguous_Files.md");
    assert!(files[0].body.starts_with("# Task 007: Classify Ambiguous Files\n"));
    let pending = vec!["003_Classify_Ambiguous_Files.md".to_string()];
    let kept = plan_task_files(&docs, &pending, &others);
    assert_eq!(kept[0].name, "003_Classify_Ambiguous_Files.md");
    let fresh = plan_task_files(&docs, &Vec::new(), &vec!["012_Else.md".to_string()]);
    assert_eq!(fresh[0].name, "013_Classify_Ambiguous_Files.md");
}

#[test]
fn first_task_ever_is_number_one() {
    let docs = task_docs(
        &vec![WorkUnit::Ambiguity { file: "f".to_string(), strategy: String::new() }],
        &templates(),
        &settings(),
        &Vec::new(),
    );
    let files = plan_task_files(&docs, &Vec::new(), &Vec::new());
    assert_eq!(files.len(), 1);
    assert_eq!(files[0].name, "001_Classify_Ambiguous_Files.md");
}

#[test]
fn two_runs_give_the_same_files() {
    let pending = vec!["003_Merge_Folders_FRONTEND.md".to_string()];
    let first = plan_task_files(&task_docs(&units(), &templates(), &settings(), &taxonomy()), &pending, &Vec::new());
    let second = plan_task_files(&task_docs(&units(), &templates(), &settings(), &taxonomy()), &pending, &Vec::new());
    assert_eq!(first.len(), second.len());
    for (a, b) in first.iter().zip(second.iter()) {
        assert_eq!(a.name, b.name);
        assert_eq!(a.body, b.body);
    }
    let written: Vec<String> = first.iter().map(|f| f.name.clone()).collect();
    let mut after: Vec<String> = pending.clone();
    for n in &written {
        if !after.contains(n) {
            after.push(n.clone());
        }
    }
    let third = plan_task_files(&task_docs(&units(), &templates(), &settings(), &taxonomy()), &after, &Vec::new());
    for (a, b) in first.iter().zip(third.iter()) {
        assert_eq!(a.name, b.name);
        assert_eq!(a.body, b.body);
    }
    let p1 = render_plan("system", "L", &units()).unwrap();
    let p2 = render_plan("system", "L", &units()).unwrap();
    assert_eq!(p1.body, p2.body);
}

#[test]
fn zombies_are_planner_tasks_that_were_not_written() {
    let pending = vec![
        "003_Merge_Folders_FRONTEND.md".to_string(),
        "004_Surgical_Refactor_CORE_FRONTEND.md".to_string(),
        "005_Fix_Violations_BACKEND.md".to_string(),
        "006_Classify_Map_Entries.md".to_string(),
        "007_Classify_Ambiguous_Files.md".to_string(),
        "008_Write_Docs.md".to_string(),
    ];
    let written = vec![
        "004_Surgical_Refactor_CORE_FRONTEND.md".to_string(),
        "009_Structural_Refactor_FRONTEND.md".to_string(),
    ];
    let gone = find_zombies(&pending, &written);
    assert_eq!(
        gone,
        vec![
            "003_Merge_Folders_FRONTEND.md".to_string(),
            "005_Fix_Violations_BACKEND.md".to_string(),
            "007_Classify_Ambiguous_Files.md".to_string(),
        ]
    );
    let mut after: Vec<String> = pending.iter().filter(|n| !gone.contains(n)).cloned().collect();
    for n in &written {
        if !after.contains(n) {
            after.push(n.clone());
        }
    }
    let planner: Vec<&String> = after
        .iter()
        .filter(|n| {
            n.contains("Surgical_Refactor_")
                || n.contains("Merge_Folders_")
                || n.contains("Fix_Violations_")
                || n.contains("Structural_Refactor_")
                || n.contains("Classify_Ambiguous_Files")
        })
        .collect();
    assert_eq!(planner.len(), written.len());
    for n in planner {
        assert!(written.contains(n));
    }
}
