//! Tests of the query pipeline: viewport filter, overplotting reducer,
//! ancestor closure, and response assembly.

use treelod::closure::{add_parents, lookup_parent};
use treelod::node::{Node, NodeRecord, ResponseNode};
use treelod::query::{
    effective_span, filter_leaves, filter_nodes, get_nodes, reduce_overplotting, QueryBounds,
};
use treelod::store::NodeStore;

fn rec(node_id: i64, parent_id: i64, x: i64, y: i64, num_tips: i64) -> NodeRecord {
    NodeRecord {
        name: format!("n{}", node_id),
        x_micro: x,
        y_micro: y,
        mutations: Vec::new(),
        parent_id,
        node_id,
        num_tips,
        clades: Vec::new(),
        meta: Vec::new(),
    }
}

fn plain_node(node_id: i64, parent_id: i64, x: i64, y: i64, num_tips: i64) -> Node {
    Node {
        name: format!("n{}", node_id),
        x_micro: x,
        y_micro: y,
        mutations: Vec::new(),
        parent_id,
        node_id,
        num_tips,
        clades: Vec::new(),
        meta: Vec::new(),
    }
}

/// The 5-node tree: a root, an inner node with two leaf children close in
/// space, and a third leaf hanging off the root.
fn five_node_store() -> NodeStore {
    let records = vec![
        rec(0, 0, 0, 0, 3),
        rec(1, 0, 0, 1_000_000, 2),
        rec(2, 1, 1_000_000, 500_000, 1),
        rec(3, 1, 1_000_000, 1_500_000, 1),
        rec(4, 0, 2_000_000, 3_000_000, 1),
    ];
    NodeStore::build(records).unwrap()
}

fn bounds(min_y: i64, max_y: i64, min_x: i64, max_x: i64) -> QueryBounds {
    QueryBounds {
        min_y: Some(min_y),
        max_y: Some(max_y),
        min_x: Some(min_x),
        max_x: Some(max_x),
    }
}

fn response_ids(rns: &[ResponseNode]) -> Vec<i64> {
    rns.iter().map(|n| n.node_id).collect()
}

/// Every non-root returned node must have its parent id among the
/// returned ids, and the root must be present when anything is.
fn assert_lineages_unbroken(rns: &[ResponseNode], root_id: i64) {
    let ids = response_ids(rns);
    for n in rns {
        if n.parent_id != n.node_id {
            assert!(
                ids.contains(&n.parent_id),
                "node {} returned without its parent {}",
                n.node_id,
                n.parent_id
            );
        }
    }
    if !rns.is_empty() {
        assert!(ids.contains(&root_id));
    }
}

#[test]
fn five_node_tree_full_viewport() {
    let store = five_node_store();
    let q = bounds(0, 3_000_000, 0, 2_000_000);
    let rns = get_nodes(&store, &q);
    // At this precision all three leaves land in distinct cells, so the
    // closure brings the whole tree back, in storage order.
    assert_eq!(response_ids(&rns), vec![0, 1, 2, 3, 4]);
    assert_lineages_unbroken(&rns, 0);
}

#[test]
fn five_node_tree_coarse_cells_collapse_siblings() {
    let store = five_node_store();
    // A huge vertical span makes the grid coarse enough that leaves 2 and 3
    // share a cell: the first in storage order survives, and the closure
    // still restores its full ancestor chain.
    let q = bounds(0, 3_000_000_000_000, 0, 2_000_000);
    let rns = get_nodes(&store, &q);
    assert_eq!(response_ids(&rns), vec![0, 1, 2, 4]);
    assert_lineages_unbroken(&rns, 0);
}

#[test]
fn degenerate_vertical_viewport_does_not_crash() {
    let store = five_node_store();
    // min_y == max_y: the reducer must clamp the span, not divide by zero.
    let q = bounds(1_000_000, 1_000_000, 0, 2_000_000);
    let first = get_nodes(&store, &q);
    let second = get_nodes(&store, &q);
    // Only node 1 (not a leaf) sits at y = 1.0, so nothing is returned.
    assert_eq!(response_ids(&first), Vec::<i64>::new());
    assert_eq!(response_ids(&first), response_ids(&second));
}

#[test]
fn degenerate_horizontal_viewport_does_not_crash() {
    let store = five_node_store();
    // min_x == max_x: precision is clamped; every leaf gets its own cell.
    let q = bounds(0, 3_000_000, 1_000_000, 1_000_000);
    let rns = get_nodes(&store, &q);
    assert_eq!(response_ids(&rns), vec![0, 1, 2, 3, 4]);
    assert_lineages_unbroken(&rns, 0);
}

#[test]
fn omitted_bounds_default_to_dataset_extremes() {
    let store = five_node_store();
    let q = QueryBounds { min_y: None, max_y: None, min_x: None, max_x: None };
    let rns = get_nodes(&store, &q);
    assert_eq!(response_ids(&rns), vec![0, 1, 2, 3, 4]);
}

#[test]
fn dedup_rerun_is_identical() {
    let store = five_node_store();
    let q = bounds(0, 3_000_000_000_000, 0, 2_000_000);
    let first = get_nodes(&store, &q);
    let second = get_nodes(&store, &q);
    assert_eq!(response_ids(&first), response_ids(&second));
    assert_eq!(first.len(), second.len());
}

#[test]
fn viewport_filter_is_inclusive_on_both_ends() {
    let nodes = vec![
        plain_node(0, 0, 0, 0, 2),
        plain_node(1, 0, 0, 1_000_000, 1),
        plain_node(2, 0, 0, 2_000_000, 1),
        plain_node(3, 0, 0, 3_000_000, 1),
    ];
    let kept = filter_nodes(&nodes, 1_000_000, 2_000_000);
    assert_eq!(kept, vec![1, 2]);
}

#[test]
fn viewport_filter_ignores_horizontal_bounds_for_inclusion() {
    let store = five_node_store();
    // Node 4 sits at x = 2.0, far outside this narrow horizontal window,
    // but horizontal bounds only calibrate density: it is still returned.
    let q = bounds(0, 3_000_000, 0, 1);
    let rns = get_nodes(&store, &q);
    assert!(response_ids(&rns).contains(&4));
}

#[test]
fn reducer_keeps_one_node_per_cell() {
    // Three leaves at the identical position plus one far away.
    let nodes = vec![
        plain_node(0, 0, 500_000, 500_000, 1),
        plain_node(1, 0, 500_000, 500_000, 1),
        plain_node(2, 0, 500_000, 500_000, 1),
        plain_node(3, 0, 900_000, 900_000, 1),
    ];
    let span_x = effective_span(0, 1_000_000);
    let span_y = effective_span(0, 1_000_000);
    let kept = reduce_overplotting(&nodes, vec![0, 1, 2, 3], span_x, span_y);
    // First occurrence wins; the distinct position survives separately.
    assert_eq!(kept, vec![0, 3]);
}

#[test]
fn leaf_filter_keeps_only_tips() {
    let nodes = vec![
        plain_node(0, 0, 0, 0, 3),
        plain_node(1, 0, 0, 0, 1),
        plain_node(2, 0, 0, 0, 2),
        plain_node(3, 0, 0, 0, 1),
    ];
    let kept = filter_leaves(&nodes, vec![0, 1, 2, 3]);
    assert_eq!(kept, vec![1, 3]);
}

#[test]
fn parent_lookup_stops_at_root_and_untracked() {
    let store = five_node_store();
    assert_eq!(lookup_parent(&store.child_to_parent, 2), Some(1));
    assert_eq!(lookup_parent(&store.child_to_parent, 1), Some(0));
    // The root never appears as a key.
    assert_eq!(lookup_parent(&store.child_to_parent, 0), None);
    assert_eq!(lookup_parent(&store.child_to_parent, 99), None);
}

#[test]
fn closure_restores_full_chains() {
    let store = five_node_store();
    // Seed with leaf 3 only (storage index 3).
    let closed = add_parents(&store.nodes, &store.child_to_parent, vec![3]);
    assert_eq!(closed, vec![0, 1, 3]);
}

#[test]
fn response_meta_round_trips_to_input_values() {
    let mut r0 = rec(0, 0, 0, 0, 2);
    r0.meta = vec![("country".to_string(), "\"A\"".to_string())];
    let mut r1 = rec(1, 0, 1_000_000, 1_000_000, 1);
    r1.meta = vec![("country".to_string(), "\"B\"".to_string())];
    let store = NodeStore::build(vec![r0, r1]).unwrap();
    let q = QueryBounds { min_y: None, max_y: None, min_x: None, max_x: None };
    let rns = get_nodes(&store, &q);
    assert_eq!(response_ids(&rns), vec![0, 1]);
    assert_eq!(rns[0].meta, vec![("country".to_string(), "\"A\"".to_string())]);
    assert_eq!(rns[1].meta, vec![("country".to_string(), "\"B\"".to_string())]);
}

#[test]
fn response_copies_node_fields() {
    let mut r1 = rec(1, 0, 250_000, 750_000, 1);
    r1.mutations = vec![3, 5];
    r1.clades = vec![("scheme".to_string(), "C.1".to_string())];
    let store = NodeStore::build(vec![rec(0, 0, 0, 0, 2), r1]).unwrap();
    let q = QueryBounds { min_y: None, max_y: None, min_x: None, max_x: None };
    let rns = get_nodes(&store, &q);
    let n1 = rns.iter().find(|n| n.node_id == 1).unwrap();
    assert_eq!(n1.name, "n1");
    assert_eq!(n1.x_micro, 250_000);
    assert_eq!(n1.y_micro, 750_000);
    assert_eq!(n1.mutations, vec![3, 5]);
    assert_eq!(n1.parent_id, 0);
    assert_eq!(n1.num_tips, 1);
    assert_eq!(n1.clades, vec![("scheme".to_string(), "C.1".to_string())]);
}

#[test]
fn negative_coordinates_flow_through_the_pipeline() {
    let records = vec![
        rec(0, 0, -2_000_000, -3_000_000, 2),
        rec(1, 0, -1_000_000, -1_500_000, 1),
        rec(2, 0, 500_000, 1_500_000, 1),
    ];
    let store = NodeStore::build(records).unwrap();
    let q = bounds(-3_000_000, 2_000_000, -2_000_000, 1_000_000);
    let rns = get_nodes(&store, &q);
    assert_eq!(response_ids(&rns), vec![0, 1, 2]);
    assert_lineages_unbroken(&rns, 0);
}

#[test]
fn untracked_parent_stops_the_walk() {
    // Node 5's parent id 99 resolves to no stored node: the closure walk
    // stops there, and no phantom node is ever returned.
    let records = vec![rec(0, 0, 0, 0, 2), rec(5, 99, 1_000_000, 1_000_000, 1)];
    let store = NodeStore::build(records).unwrap();
    let q = QueryBounds { min_y: None, max_y: None, min_x: None, max_x: None };
    let rns = get_nodes(&store, &q);
    assert_eq!(response_ids(&rns), vec![5]);
}

#[test]
fn closure_walks_a_deep_chain_to_the_root() {
    let records = vec![
        rec(0, 0, 0, 0, 1),
        rec(1, 0, 1_000_000, 1_000_000, 1),
        rec(2, 1, 2_000_000, 2_000_000, 1),
        rec(3, 2, 3_000_000, 3_000_000, 1),
        rec(4, 3, 4_000_000, 4_000_000, 1),
    ];
    let store = NodeStore::build(records).unwrap();
    // Seed with the deepest leaf only: every ancestor must come back.
    let closed = add_parents(&store.nodes, &store.child_to_parent, vec![4]);
    assert_eq!(closed, vec![0, 1, 2, 3, 4]);
}
