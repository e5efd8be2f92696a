use prune_graph::builder::{graph_read, graph_subset};
use prune_graph::components::connected_components;
use prune_graph::graph::{find_heaviest_node, get_nodes_weight, Graph};
use prune_graph::FatalError;

fn lines(rows: &[&str]) -> Vec<String> {
    rows.iter().map(|r| r.to_string()).collect()
}

fn build(rows: &[&str], field: &str, filter: Option<&str>) -> Graph {
    let filter = filter.map(|f| f.to_string());
    let (g, _idx) = graph_read(&lines(rows), false, &field.to_string(), &filter, false, 4)
        .expect("graph should build");
    g
}

#[test]
fn test_graph_read_small_rows() {
    let g = build(
        &["a\tb\t0.5", "b\tc\t0.25", "c\td\t0.125"],
        "column_3",
        None,
    );
    assert_eq!(g.node_count(), 4);
    assert_eq!(g.edge_count(), 3);
    assert_eq!(g.survivors(), vec!["a", "b", "c", "d"]);
}

#[test]
fn test_graph_read_header_row() {
    let rows = ["x\ty\tratio", "a\tb\t0.5", "a\tc\t0.75"];
    let (g, _idx) = graph_read(
        &lines(&rows),
        true,
        &"ratio".to_string(),
        &None,
        false,
        4,
    )
    .expect("graph should build");
    assert_eq!(g.node_count(), 3);
    assert_eq!(g.edge_count(), 2);
}

#[test]
fn test_graph_read_duplicate_labels_once() {
    let g = build(&["a\tb\t1.0", "a\tb\t1.0", "b\ta\t1.0"], "column_3", None);
    // A multigraph keeps all three edges but only two nodes.
    assert_eq!(g.node_count(), 2);
    assert_eq!(g.edge_count(), 3);
}

#[test]
fn test_graph_read_missing_weight_field() {
    let r = graph_read(
        &lines(&["a\tb\t0.5"]),
        false,
        &"column_9".to_string(),
        &None,
        false,
        4,
    );
    assert_eq!(r.err(), Some(FatalError::MissingWeightField));
}

#[test]
fn test_graph_read_field_count_mismatch() {
    let r = graph_read(
        &lines(&["a\tb\t0.5", "c\td"]),
        false,
        &"column_3".to_string(),
        &None,
        false,
        4,
    );
    assert_eq!(r.err(), Some(FatalError::FieldCountMismatch));
}

#[test]
fn test_graph_read_unparsable_weight() {
    let r = graph_read(
        &lines(&["a\tb\tbogus"]),
        false,
        &"column_3".to_string(),
        &None,
        false,
        4,
    );
    assert_eq!(r.err(), Some(FatalError::UnparsableWeight));
}

#[test]
fn test_graph_read_bad_filter_expression() {
    let r = graph_read(
        &lines(&["a\tb\t0.5"]),
        false,
        &"column_3".to_string(),
        &Some("((".to_string()),
        false,
        4,
    );
    assert_eq!(r.err(), Some(FatalError::BadFilterExpression));
}

#[test]
fn test_graph_read_nan_skips_edge() {
    let g = build(&["a\tb\tNaN", "b\tc\t0.5"], "column_3", None);
    // The NaN row still adds its nodes, but no edge.
    assert_eq!(g.node_count(), 3);
    assert_eq!(g.edge_count(), 1);
}

#[test]
fn test_filter_strictness() {
    // With `column_3 > 0.2`, a row at exactly 0.2 is excluded and a row
    // at 0.3 is included.
    let g = build(
        &["a\tb\t0.2", "c\td\t0.3"],
        "column_3",
        Some("column_3 > 0.2"),
    );
    assert_eq!(g.node_count(), 4);
    assert_eq!(g.edge_count(), 1);
}

#[test]
fn test_filter_uses_rounded_values() {
    // 0.20004 rounds to 0.2000 at four digits, so the strict filter
    // drops it; unrounded it would pass.
    let g = build(
        &["a\tb\t0.20004", "c\td\t0.20006"],
        "column_3",
        Some("column_3 > 0.2"),
    );
    assert_eq!(g.edge_count(), 1);
}

#[test]
fn test_node_weight_sums() {
    let g = build(
        &["a\tb\t0.5", "b\tc\t0.25", "b\tc\t0.25"],
        "column_3",
        None,
    );
    let w = get_nodes_weight(&vec![0, 1, 2], &g);
    assert_eq!(w[0], (0, 5000));
    assert_eq!(w[1], (1, 10000));
    assert_eq!(w[2], (2, 5000));
}

#[test]
fn test_self_loop_counts_twice() {
    let g = build(&["a\ta\t0.5"], "column_3", None);
    let w = get_nodes_weight(&vec![0], &g);
    assert_eq!(w[0], (0, 10000));
}

#[test]
fn test_find_heaviest_by_sum() {
    let g = build(
        &["a\tb\t0.5", "b\tc\t0.75", "c\td\t0.25"],
        "column_3",
        None,
    );
    let (h, w) = find_heaviest_node(&g, None);
    assert_eq!(g.label_of(h), "b");
    assert_eq!(w, 12500);
}

#[test]
fn test_find_heaviest_tie_break() {
    // Equal summed weights resolve to the lexicographically smallest
    // label.
    let g = build(&["d\tc\t1.0", "b\ta\t1.0"], "column_3", None);
    let (h, w) = find_heaviest_node(&g, None);
    assert_eq!(g.label_of(h), "a");
    assert_eq!(w, 10000);
}

#[test]
fn test_find_heaviest_in_subset() {
    let g = build(
        &["a\tb\t0.5", "b\tc\t0.75", "c\td\t0.25"],
        "column_3",
        None,
    );
    let (h, _w) = find_heaviest_node(&g, Some(&vec![0, 3]));
    assert_eq!(g.label_of(h), "a");
}

#[test]
fn test_subset_restricts_nodes() {
    let mut g = build(
        &["a\tb\t0.5", "b\tc\t0.25", "c\td\t0.125"],
        "column_3",
        None,
    );
    let n = graph_subset(&mut g, &lines(&["a", "b"]));
    assert_eq!(n, 2);
    assert_eq!(g.node_count(), 2);
    assert_eq!(g.edge_count(), 1);
    assert_eq!(g.survivors(), vec!["a", "b"]);
}

#[test]
fn test_component_grouping() {
    let g = build(
        &["a\tb\t1.0", "b\tc\t1.0", "d\te\t1.0", "f\tf\t1.0"],
        "column_3",
        None,
    );
    let ccs = connected_components(&g);
    assert_eq!(ccs.len(), 3);
    assert_eq!(ccs[0], vec![0, 1, 2]);
    assert_eq!(ccs[1], vec![3, 4]);
    assert_eq!(ccs[2], vec![5]);
}

#[test]
fn test_weight_as_edge_count() {
    let rows = lines(&["a\tb\t0.5", "a\tc\t0.25"]);
    let (g, _idx) = graph_read(&rows, false, &"column_3".to_string(), &None, true, 4)
        .expect("graph should build");
    // Each edge weighs one (at scale), so the hub weighs two.
    let w = get_nodes_weight(&vec![0], &g);
    assert_eq!(w[0], (0, 20000));
}
