use efficiency_analyzer::graph::DependencyGraph;

fn names(list: &[&str]) -> Vec<String> {
    list.iter().map(|s| s.to_string()).collect()
}

#[test]
fn dead_code_detection() {
    let mut g = DependencyGraph::new();
    g.add_dependency("A", "B");
    let dead = g.find_dead_code(&names(&["A", "B", "C"]), &names(&["A"]));
    assert_eq!(dead, names(&["C"]));
}

#[test]
fn dead_code_follows_chains_and_stays_within_files() {
    let mut g = DependencyGraph::new();
    g.add_dependency("A", "B");
    g.add_dependency("B", "C");
    g.add_dependency("C", "A");
    g.add_dependency("D", "E");
    g.add_dependency("A", "outside");
    g.add_dependency("outside", "F");
    let all = names(&["A", "B", "C", "D", "E", "F"]);
    assert_eq!(g.find_dead_code(&all, &names(&["A"])), names(&["D", "E", "F"]));
    assert_eq!(g.find_dead_code(&all, &names(&["D", "missing"])), names(&["A", "B", "C", "F"]));
    assert_eq!(g.find_dead_code(&all, &Vec::new()), all);
}

#[test]
fn more_edges_and_more_entries_never_add_dead_files() {
    let all = names(&["A", "B", "C", "D"]);
    let mut g = DependencyGraph::new();
    g.add_dependency("A", "B");
    let before = g.find_dead_code(&all, &names(&["A"]));
    assert_eq!(before, names(&["C", "D"]));
    g.add_dependency("B", "C");
    let after = g.find_dead_code(&all, &names(&["A"]));
    assert_eq!(after, names(&["D"]));
    for f in &after {
        assert!(before.contains(f));
    }
    let wider = g.find_dead_code(&all, &names(&["A", "D"]));
    assert!(wider.is_empty());
}

#[test]
fn cycles_are_reported_as_trails_back_to_their_start() {
    let mut g = DependencyGraph::new();
    g.add_dependency("A", "B");
    g.add_dependency("B", "C");
    g.add_dependency("C", "A");
    g.add_dependency("C", "D");
    let cycles = g.detect_cycles();
    assert_eq!(cycles, vec![names(&["A", "B", "C"])]);
}

#[test]
fn no_cycle_in_a_tree_and_a_self_loop_is_one() {
    let mut g = DependencyGraph::new();
    g.add_dependency("A", "B");
    g.add_dependency("A", "C");
    assert!(g.detect_cycles().is_empty());
    g.add_dependency("C", "C");
    assert_eq!(g.detect_cycles(), vec![names(&["C"])]);
    assert!(DependencyGraph::new().detect_cycles().is_empty());
}

#[test]
fn self_loop_alone_is_one_cycle() {
    let mut g = DependencyGraph::new();
    g.add_dependency("a", "a");
    assert_eq!(g.detect_cycles(), vec![vec!["a".to_string()]]);
}

#[test]
fn cycles_come_in_the_order_of_the_walk() {
    let mut g = DependencyGraph::new();
    g.add_dependency("A", "B");
    g.add_dependency("B", "A");
    g.add_dependency("B", "C");
    g.add_dependency("C", "B");
    g.add_dependency("A", "A");
    g.add_dependency("D", "A");
    assert_eq!(
        g.detect_cycles(),
        vec![names(&["A", "B"]), names(&["B", "C"]), names(&["A"])]
    );
}
