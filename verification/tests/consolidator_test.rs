use efficiency_analyzer::consolidator::{
    calculate_merge_score, find_recursive_clusters, FileInfo, FolderStats,
};

#[test]
fn test_merge_score_respects_ceiling() {
    let ceiling = 800;

    let stats_small = FolderStats {
        file_count: 5,
        total_loc: 400,
    };
    assert!(calculate_merge_score(stats_small, ceiling) > 0);

    let stats_huge = FolderStats {
        file_count: 5,
        total_loc: 1000,
    };
    assert_eq!(calculate_merge_score(stats_huge, ceiling), 0);

    let stats_border = FolderStats {
        file_count: 5,
        total_loc: 850,
    };
    assert!(calculate_merge_score(stats_border, ceiling) > 0);
}

#[test]
fn merge_score_exact_values() {
    assert_eq!(calculate_merge_score(FolderStats { file_count: 5, total_loc: 400 }, 800), 500);
    assert_eq!(calculate_merge_score(FolderStats { file_count: 5, total_loc: 850 }, 800), 250);
    assert_eq!(calculate_merge_score(FolderStats { file_count: 4, total_loc: 1300 }, 2000), 40);
    assert_eq!(calculate_merge_score(FolderStats { file_count: 1, total_loc: 10 }, 800), 0);
    assert_eq!(calculate_merge_score(FolderStats { file_count: 3, total_loc: 880 }, 800), 150);
    assert_eq!(calculate_merge_score(FolderStats { file_count: 3, total_loc: 881 }, 800), 0);
    assert_eq!(calculate_merge_score(FolderStats { file_count: 2, total_loc: 599 }, 800), 200);
    assert_eq!(calculate_merge_score(FolderStats { file_count: 2, total_loc: 600 }, 800), 100);
}

fn file(path: &str, loc: usize, drag: u64) -> FileInfo {
    FileInfo { path: path.to_string(), loc, drag }
}

#[test]
fn cluster_supersession() {
    let files = vec![
        file("x/y/a.res", 100, 120),
        file("x/y/b.res", 100, 150),
        file("x/y/z/c.res", 150, 110),
        file("x/y/z/d.res", 150, 300),
    ];
    let clusters = find_recursive_clusters(files, 800);
    assert_eq!(clusters.len(), 1);
    assert_eq!(clusters[0].root_folder, "x/y");
    assert_eq!(
        clusters[0].files,
        vec!["x/y/a.res", "x/y/b.res", "x/y/z/c.res", "x/y/z/d.res"]
    );
    assert_eq!(clusters[0].total_loc, 500);
    assert_eq!(clusters[0].max_drag, 300);
}

#[test]
fn cluster_too_big_leaves_the_parts() {
    let files = vec![
        file("x/y/a.res", 300, 100),
        file("x/y/b.res", 300, 100),
        file("x/y/z/c.res", 150, 100),
        file("x/y/z/d.res", 150, 210),
        file("x/w/e.res", 10, 100),
    ];
    let clusters = find_recursive_clusters(files, 800);
    assert_eq!(clusters.len(), 1);
    assert_eq!(clusters[0].root_folder, "x/y/z");
    assert_eq!(clusters[0].files, vec!["x/y/z/c.res", "x/y/z/d.res"]);
    assert_eq!(clusters[0].total_loc, 300);
    assert_eq!(clusters[0].max_drag, 210);
}

#[test]
fn clusters_are_disjoint_and_within_budget() {
    let files = vec![
        file("../../src/a/one.res", 300, 100),
        file("../../src/a/two.res", 300, 100),
        file("../../src/b/one.res", 200, 100),
        file("../../src/b/two.res", 250, 100),
        file("../../src/b/deep/three.res", 50, 100),
        file("../../src/c/alone.res", 700, 100),
    ];
    let clusters = find_recursive_clusters(files, 800);
    assert_eq!(clusters.len(), 2);
    for c in &clusters {
        assert!(c.total_loc <= 800);
        assert!(c.files.len() > 1);
    }
    for f in &clusters[0].files {
        assert!(!clusters[1].files.contains(f));
    }
    assert_eq!(clusters[0].root_folder, "src/a");
    assert_eq!(clusters[1].root_folder, "src/b");
    assert_eq!(clusters[1].total_loc, 500);
}

#[test]
fn single_files_make_no_cluster() {
    assert!(find_recursive_clusters(vec![file("a/b.res", 10, 100)], 800).is_empty());
    assert!(find_recursive_clusters(Vec::new(), 800).is_empty());
}

#[test]
fn backslashes_are_read_as_separators() {
    let clusters = find_recursive_clusters(
        vec![file("p\\q\\a.res", 1, 100), file("p/q/b.res", 2, 100)],
        10,
    );
    assert_eq!(clusters.len(), 1);
    assert_eq!(clusters[0].root_folder, "p/q");
    assert_eq!(clusters[0].total_loc, 3);
}
