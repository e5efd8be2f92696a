use prune_graph::builder::graph_read;
use prune_graph::graph::Graph;
use prune_graph::prune::prune;
use prune_graph::FatalError;

fn lines(rows: &[&str]) -> Vec<String> {
    rows.iter().map(|r| r.to_string()).collect()
}

fn build(rows: &[&str]) -> Graph {
    let (g, _idx) = graph_read(
        &lines(rows),
        false,
        &"column_3".to_string(),
        &None,
        false,
        4,
    )
    .expect("graph should build");
    g
}

#[test]
fn test_prune_global_default() {
    // b carries the greatest summed weight and is removed; the graph is
    // edgeless afterwards.
    let mut g = build(&["a\tb\t1.0", "b\tc\t1.0"]);
    let excl = prune(&mut g, 0, false).expect("pruning should run");
    assert_eq!(excl, vec!["b"]);
    assert_eq!(g.edge_count(), 0);
    assert_eq!(g.survivors(), vec!["a", "c"]);
}

#[test]
fn test_prune_runs_to_no_edges() {
    let mut g = build(&[
        "a\tb\t1.0",
        "b\tc\t1.0",
        "c\td\t1.0",
        "d\ta\t1.0",
    ]);
    let excl = prune(&mut g, 0, false).expect("pruning should run");
    assert_eq!(g.edge_count(), 0);
    let survivors = g.survivors();
    assert_eq!(survivors.len() + excl.len(), 4);
    for s in &survivors {
        assert!(!excl.contains(s));
    }
}

#[test]
fn test_prune_keep_heavy() {
    // Keeping the heavy node removes exactly its neighbors.
    let mut g = build(&["a\tb\t1.0", "b\tc\t1.0"]);
    let excl = prune(&mut g, 0, true).expect("pruning should run");
    assert_eq!(excl, vec!["a", "c"]);
    assert_eq!(g.survivors(), vec!["b"]);
    assert_eq!(g.edge_count(), 0);
}

#[test]
fn test_prune_per_component() {
    // Each multi-node component eliminates its own heaviest node; the
    // tie inside each pair resolves to the smaller label.
    let mut g = build(&["a\tb\t1.0", "c\td\t2.0"]);
    let excl = prune(&mut g, 1, false).expect("pruning should run");
    assert_eq!(excl, vec!["a", "c"]);
    assert_eq!(g.survivors(), vec!["b", "d"]);
    assert_eq!(g.edge_count(), 0);
}

#[test]
fn test_prune_modes_agree_on_content() {
    // Global and per-component runs may remove in different orders but
    // here end with the same partition.
    let rows = ["a\tb\t1.0", "c\td\t2.0"];
    let mut g1 = build(&rows);
    let mut g2 = build(&rows);
    let mut e1 = prune(&mut g1, 0, false).expect("pruning should run");
    let mut e2 = prune(&mut g2, 1, false).expect("pruning should run");
    e1.sort();
    e2.sort();
    assert_eq!(e1, e2);
    assert_eq!(g1.survivors(), g2.survivors());
}

#[test]
fn test_prune_deterministic() {
    let rows = [
        "a\tb\t0.9998",
        "b\tc\t0.8519",
        "c\td\t1.5552",
        "d\te\t1.0504",
        "e\ta\t0.4336",
        "f\tg\t0.7",
    ];
    let mut g1 = build(&rows);
    let mut g2 = build(&rows);
    let e1 = prune(&mut g1, 1, false).expect("pruning should run");
    let e2 = prune(&mut g2, 1, false).expect("pruning should run");
    assert_eq!(e1, e2);
    assert_eq!(g1.survivors(), g2.survivors());
    assert_eq!(g1.edge_count(), 0);
}

#[test]
fn test_prune_empty_graph_is_fatal() {
    let (mut g, _idx) = graph_read(
        &Vec::new(),
        false,
        &"column_3".to_string(),
        &None,
        false,
        4,
    )
    .expect("empty input builds an empty graph");
    assert_eq!(g.node_count(), 0);
    let r = prune(&mut g, 0, false);
    assert_eq!(r.err(), Some(FatalError::EmptyGraph));
}

#[test]
fn test_prune_end_to_end_with_filter() {
    // A small end-to-end run: edges admitted by a strict ratio filter,
    // global mode, default precision.
    let rows = [
        "n1\tn2\t0.95",
        "n1\tn3\t0.10",
        "n2\tn3\t0.60",
        "n3\tn4\t0.25",
        "n4\tn5\t0.15",
    ];
    let (mut g, _idx) = graph_read(
        &lines(&rows),
        false,
        &"column_3".to_string(),
        &Some("column_3 > 0.2".to_string()),
        false,
        4,
    )
    .expect("graph should build");
    assert_eq!(g.node_count(), 5);
    assert_eq!(g.edge_count(), 3);
    let excl = prune(&mut g, 0, false).expect("pruning should run");
    // n2 weighs 1.55, the most; then n3 weighs 0.25: n1/n3 and n4/n5
    // rows were filtered out, leaving n3-n4; its tie resolves to n3.
    assert_eq!(excl, vec!["n2", "n3"]);
    assert_eq!(g.survivors(), vec!["n1", "n4", "n5"]);
    assert_eq!(g.edge_count(), 0);
}

#[test]
fn test_prune_self_loop_global() {
    // A self-loop doubles its node's weight; removing the node removes
    // the loop.
    let mut g = build(&["a\ta\t1.0", "b\tc\t0.5"]);
    let excl = prune(&mut g, 0, false).expect("pruning should run");
    assert_eq!(excl, vec!["a", "b"]);
    assert_eq!(g.edge_count(), 0);
    assert_eq!(g.survivors(), vec!["c"]);
}

#[test]
fn test_prune_stops_when_nothing_removable() {
    // Keeping heavy nodes, the heaviest can end up isolated while only
    // negative-weight edges remain elsewhere; such an iteration
    // eliminates nothing and the run stops rather than spinning.
    let mut g = build(&["a\tb\t5.0", "c\td\t-1.0"]);
    let excl = prune(&mut g, 0, true).expect("pruning should run");
    assert_eq!(excl, vec!["b"]);
    assert_eq!(g.edge_count(), 1);
}

#[test]
fn test_prune_per_component_skips_self_loop_components() {
    // A node whose only edge is a self-loop forms a single-node
    // component, which per-component mode never selects from; its loop
    // survives while real components are pruned to completion.
    let mut g = build(&["a\ta\t1.0", "b\tc\t0.5"]);
    let excl = prune(&mut g, 1, false).expect("pruning should run");
    assert_eq!(excl, vec!["b"]);
    assert_eq!(g.edge_count(), 1);
    assert_eq!(g.survivors(), vec!["a", "c"]);
}
