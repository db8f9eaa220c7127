//! Tests of the load phase: store building, dictionary encoding, error
//! handling, coordinate rescaling, and the configuration summary.

use treelod::config::{calculate_extremes, update_config, TreeConfig};
use treelod::dict::Dictionary;
use treelod::node::NodeRecord;
use treelod::store::{scale_y_coordinates, LoadError, NodeStore};

fn rec(node_id: i64, parent_id: i64, x: i64, y: i64, num_tips: i64) -> NodeRecord {
    NodeRecord {
        name: format!("n{}", node_id),
        x_micro: x,
        y_micro: y,
        mutations: Vec::new(),
        parent_id,
        node_id,
        num_tips,
        clades: Vec::new(),
        meta: Vec::new(),
    }
}

fn pair(k: &str, v: &str) -> (String, String) {
    (k.to_string(), v.to_string())
}

#[test]
fn empty_input_is_fatal() {
    let r = NodeStore::build(Vec::new());
    assert!(matches!(r, Err(LoadError::EmptyInput)));
}

#[test]
fn duplicate_node_id_is_fatal() {
    let records = vec![rec(0, 0, 0, 0, 3), rec(1, 0, 0, 1_000_000, 1), rec(1, 0, 0, 2_000_000, 1)];
    let r = NodeStore::build(records);
    assert!(matches!(r, Err(LoadError::DuplicateNodeId)));
}

#[test]
fn missing_root_is_fatal() {
    let records = vec![rec(1, 0, 0, 0, 1), rec(2, 1, 0, 1_000_000, 1)];
    let r = NodeStore::build(records);
    assert!(matches!(r, Err(LoadError::NoRoot)));
}

#[test]
fn second_root_is_fatal() {
    let records = vec![rec(0, 0, 0, 0, 1), rec(1, 1, 0, 1_000_000, 1)];
    let r = NodeStore::build(records);
    assert!(matches!(r, Err(LoadError::MultipleRoots)));
}

#[test]
fn oversized_coordinate_is_fatal() {
    let records = vec![rec(0, 0, 0, 2_000_000_000_000_000, 1)];
    let r = NodeStore::build(records);
    assert!(matches!(r, Err(LoadError::CoordinateOutOfRange)));
}

#[test]
fn build_extracts_root_and_parents() {
    let mut root = rec(0, 0, 0, 0, 3);
    root.mutations = vec![7, 8];
    let records = vec![
        root,
        rec(1, 0, 0, 1_000_000, 2),
        rec(2, 1, 1_000_000, 500_000, 1),
        rec(3, 1, 1_000_000, 1_500_000, 1),
        rec(4, 0, 2_000_000, 3_000_000, 1),
    ];
    let store = NodeStore::build(records).unwrap();
    assert_eq!(store.nodes.len(), 5);
    assert_eq!(store.root_id, 0);
    // The root's own mutation list is captured separately and cleared.
    assert_eq!(store.root_mutations, vec![7, 8]);
    assert!(store.nodes[0].mutations.is_empty());
    // The root gets no child-to-parent entry; every other node does, in order.
    assert_eq!(store.child_to_parent, vec![(1, 0), (2, 1), (3, 1), (4, 0)]);
}

#[test]
fn first_record_fixes_the_column_slate() {
    let mut r0 = rec(0, 0, 0, 0, 2);
    r0.meta = vec![pair("country", "\"A\""), pair("lineage", "\"L1\"")];
    let mut r1 = rec(1, 0, 0, 1_000_000, 1);
    // "city" was not on the first record: it must be ignored entirely.
    r1.meta = vec![pair("lineage", "\"L2\""), pair("city", "\"X\"")];
    let store = NodeStore::build(vec![r0, r1]).unwrap();
    let keys: Vec<&str> = store.meta_keys.iter().map(|s| s.as_str()).collect();
    assert_eq!(keys, vec!["country", "lineage"]);
    // Node 0: both fields present, first codes of each column.
    assert_eq!(store.nodes[0].meta, vec![0, 0]);
    // Node 1: country absent -> -1; lineage is a novel value -> next code.
    assert_eq!(store.nodes[1].meta, vec![-1, 1]);
}

#[test]
fn repeated_values_reuse_their_code() {
    let mut r0 = rec(0, 0, 0, 0, 3);
    r0.meta = vec![pair("country", "\"A\"")];
    let mut r1 = rec(1, 0, 0, 1_000_000, 1);
    r1.meta = vec![pair("country", "\"B\"")];
    let mut r2 = rec(2, 0, 0, 2_000_000, 1);
    r2.meta = vec![pair("country", "\"A\"")];
    let store = NodeStore::build(vec![r0, r1, r2]).unwrap();
    assert_eq!(store.nodes[0].meta, vec![0]);
    assert_eq!(store.nodes[1].meta, vec![1]);
    assert_eq!(store.nodes[2].meta, vec![0]);
}

#[test]
fn dictionary_round_trip() {
    let mut d = Dictionary::new();
    let a = "\"alpha\"".to_string();
    let b = "\"beta\"".to_string();
    let c0 = d.encode(&a);
    let c1 = d.encode(&b);
    let c2 = d.encode(&a);
    assert_eq!((c0, c1, c2), (0, 1, 0));
    assert_eq!(d.len(), 2);
    assert_eq!(d.decode(c0), &a);
    assert_eq!(d.decode(c1), &b);
}

#[test]
fn small_store_y_rescale_is_exact() {
    // n = 5 <= 10000: scale = 2400 / (5 * 0.6666), y' rounded to 6 decimals.
    let records = vec![
        rec(0, 0, 0, 0, 2),
        rec(1, 0, 0, 1_000_000, 1),
        rec(2, 0, 0, -1_000_000, 1),
        rec(3, 0, 0, 2_000_000, 1),
        rec(4, 0, 0, 0, 1),
    ];
    let mut store = NodeStore::build(records).unwrap();
    scale_y_coordinates(&mut store.nodes);
    assert_eq!(store.nodes[1].y_micro, 720_072_007);
    assert_eq!(store.nodes[2].y_micro, -720_072_007);
    assert_eq!(store.nodes[3].y_micro, 1_440_144_014);
    assert_eq!(store.nodes[0].y_micro, 0);
}

#[test]
fn large_store_y_rescale_divides_by_count() {
    // n > 10000: scale = 2400 / n.
    let mut records = vec![rec(0, 0, 0, 1_000_000, 10001)];
    for i in 1..10001i64 {
        records.push(rec(i, 0, 0, 1_000_000, 1));
    }
    let mut store = NodeStore::build(records).unwrap();
    scale_y_coordinates(&mut store.nodes);
    // round(1_000_000 * 2400 / 10001) = round(239976.0024) = 239976
    assert_eq!(store.nodes[0].y_micro, 239_976);
}

#[test]
fn extremes_scan_finds_all_four() {
    let records = vec![
        rec(0, 0, 5, -7, 2),
        rec(1, 0, -3, 11, 1),
        rec(2, 0, 9, 2, 1),
    ];
    let store = NodeStore::build(records).unwrap();
    let e = calculate_extremes(&store.nodes);
    assert_eq!((e.min_x, e.max_x, e.min_y, e.max_y), (-3, 9, -7, 11));
}

#[test]
fn update_config_fills_load_derived_fields() {
    let records = vec![
        rec(0, 0, 0, 0, 2),
        rec(1, 0, 4_000_000, 2_000_000, 1),
        rec(2, 0, 2_000_000, 6_000_000, 1),
    ];
    let store = NodeStore::build(records).unwrap();
    let mut config = TreeConfig {
        num_tips: 2,
        initial_x_micro: None,
        initial_y_micro: None,
        initial_zoom_micro: None,
        keys_to_display: None,
        num_nodes: None,
        root_mutations: None,
        root_id: None,
    };
    update_config(&mut config, &store.nodes, &store.root_mutations, store.root_id);
    assert_eq!(config.initial_x_micro, Some(2_000_000));
    assert_eq!(config.initial_y_micro, Some(3_000_000));
    assert_eq!(config.initial_zoom_micro, Some(-2_000_000));
    assert_eq!(config.num_nodes, Some(3));
    assert_eq!(config.root_id, Some(0));
    assert_eq!(config.root_mutations, Some(Vec::new()));
    let keys = config.keys_to_display.unwrap();
    assert_eq!(keys, vec!["name".to_string(), "num_tips".to_string()]);
}

#[test]
fn update_config_keeps_an_existing_zoom() {
    let records = vec![rec(0, 0, 0, 0, 1)];
    let store = NodeStore::build(records).unwrap();
    let mut config = TreeConfig {
        num_tips: 1,
        initial_x_micro: None,
        initial_y_micro: None,
        initial_zoom_micro: Some(5_500_000),
        keys_to_display: None,
        num_nodes: None,
        root_mutations: None,
        root_id: None,
    };
    update_config(&mut config, &store.nodes, &store.root_mutations, store.root_id);
    assert_eq!(config.initial_zoom_micro, Some(5_500_000));
}
