use heapsnap::analysis::SnapshotAnalysis;
use heapsnap::decode::{decode, DecodeError};
use heapsnap::query::{FilterCondition, SameStringCondition};

fn push_u32(buf: &mut Vec<u8>, v: u32) {
    buf.extend_from_slice(&v.to_le_bytes());
}

fn push_table(buf: &mut Vec<u8>, items: &[&str]) {
    push_u32(buf, items.len() as u32);
    for it in items {
        push_u32(buf, it.len() as u32);
        buf.extend_from_slice(it.as_bytes());
    }
}

/// Build a snapshot buffer: three string tables, then node records
/// (id, type, name ref, self size, edge count), then edge records
/// (type, name-or-index ref, target node index).
fn build(
    node_types: &[&str],
    edge_types: &[&str],
    strings: &[&str],
    nodes: &[[u32; 5]],
    edges: &[[u32; 3]],
) -> Vec<u8> {
    let mut buf = Vec::new();
    push_table(&mut buf, node_types);
    push_table(&mut buf, edge_types);
    push_table(&mut buf, strings);
    push_u32(&mut buf, nodes.len() as u32);
    for n in nodes {
        for f in n {
            push_u32(&mut buf, *f);
        }
    }
    push_u32(&mut buf, edges.len() as u32);
    for e in edges {
        for f in e {
            push_u32(&mut buf, *f);
        }
    }
    buf
}

fn engine_from(buf: &[u8]) -> SnapshotAnalysis {
    let mut engine = SnapshotAnalysis::new(buf.len());
    for (i, b) in buf.iter().enumerate() {
        engine.set_buffer(i, *b);
    }
    engine.start_parse().expect("snapshot should decode");
    engine
}

/// A small graph: object A(id 1) -> B(id 2) -> C(id 3) -> A, plus an
/// isolated object D(id 4).
fn cyclic_graph() -> Vec<u8> {
    build(
        &["object", "string"],
        &["property", "element"],
        &["alpha", "beta", "gamma", "delta"],
        &[
            [1, 0, 0, 16, 1],
            [2, 0, 1, 24, 1],
            [3, 0, 2, 32, 1],
            [4, 0, 3, 8, 0],
        ],
        &[[0, 0, 1], [0, 1, 2], [0, 2, 0]],
    )
}

fn only_id(id: u32) -> FilterCondition {
    FilterCondition { node_id: Some(id), node_type_name: None, name_contains: None, min_self_size: None }
}

fn string_cond(
    min_len: usize,
    excludes: &[&str],
    includes: &[&str],
    more_than: usize,
) -> SameStringCondition {
    SameStringCondition {
        minimum_string_len: min_len,
        excludes: excludes.iter().map(|s| s.as_bytes().to_vec()).collect(),
        includes: includes.iter().map(|s| s.as_bytes().to_vec()).collect(),
        more_than_same_times: more_than,
    }
}

fn sorted(mut v: Vec<usize>) -> Vec<usize> {
    v.sort();
    v
}

#[test]
fn round_trip_counts() {
    let buf = cyclic_graph();
    let store = decode(&buf).expect("well-formed snapshot");
    assert_eq!(store.node_count(), 4);
    assert_eq!(store.edge_count(), 3);
    let sum: u32 = store.nodes.iter().map(|n| n.edge_count).sum();
    assert_eq!(sum as usize, store.edge_count());
}

#[test]
fn edge_targets_valid() {
    let buf = cyclic_graph();
    let store = decode(&buf).expect("well-formed snapshot");
    for e in &store.edges {
        assert!((e.to_node_index as usize) < store.node_count());
    }
}

#[test]
fn subgraph_cycle_terminates_exactly() {
    let engine = engine_from(&cyclic_graph());
    let g = engine.get_graph(&only_id(1));
    assert_eq!(sorted(g.node_indexes.clone()), vec![0, 1, 2]);
    assert_eq!(sorted(g.edge_indexes.clone()), vec![0, 1, 2]);
    let mut seen = g.node_indexes.clone();
    seen.sort();
    seen.dedup();
    assert_eq!(seen.len(), g.node_indexes.len(), "no duplicate nodes");
}

#[test]
fn subgraph_unreachable_root_alone() {
    let engine = engine_from(&cyclic_graph());
    let g = engine.get_graph(&only_id(4));
    assert_eq!(g.node_indexes, vec![3]);
    assert_eq!(g.edge_indexes, Vec::<usize>::new());
}

#[test]
fn subgraph_empty_filter_empty_result() {
    let engine = engine_from(&cyclic_graph());
    let g = engine.get_graph(&only_id(99));
    assert!(g.node_indexes.is_empty());
    assert!(g.edge_indexes.is_empty());
}

#[test]
fn requery_filter_identical() {
    let engine = engine_from(&cyclic_graph());
    let g1 = engine.get_graph(&only_id(1));
    let g2 = engine.get_graph(&only_id(1));
    assert_eq!(g1.node_indexes, g2.node_indexes);
    assert_eq!(g1.edge_indexes, g2.edge_indexes);
}

fn duplicate_strings_graph() -> Vec<u8> {
    // Four string nodes holding "foo","foo","foo","bar".
    build(
        &["object", "string"],
        &["property"],
        &["foo", "bar"],
        &[
            [1, 1, 0, 8, 0],
            [2, 1, 0, 8, 0],
            [3, 1, 0, 8, 0],
            [4, 1, 1, 8, 0],
        ],
        &[],
    )
}

#[test]
fn duplicate_threshold_kept() {
    let engine = engine_from(&duplicate_strings_graph());
    let g = engine.get_same_string_value_nodes(&string_cond(0, &[], &[], 2));
    // "foo" occurs 3 times, 3 > 2: its three nodes are the roots;
    // "bar" occurs once and is dropped.
    assert_eq!(sorted(g.node_indexes), vec![0, 1, 2]);
}

#[test]
fn duplicate_threshold_boundary_dropped() {
    let engine = engine_from(&duplicate_strings_graph());
    let g = engine.get_same_string_value_nodes(&string_cond(0, &[], &[], 3));
    // 3 is not > 3: "foo" is dropped as well.
    assert!(g.node_indexes.is_empty());
}

#[test]
fn requery_duplicates_identical() {
    let engine = engine_from(&duplicate_strings_graph());
    let g1 = engine.get_same_string_value_nodes(&string_cond(0, &[], &[], 2));
    let g2 = engine.get_same_string_value_nodes(&string_cond(0, &[], &[], 2));
    assert_eq!(g1.node_indexes, g2.node_indexes);
    assert_eq!(g1.edge_indexes, g2.edge_indexes);
}

fn include_exclude_graph() -> Vec<u8> {
    build(
        &["object", "string"],
        &["property"],
        &["error_code", "warning", "temp_buffer"],
        &[
            [1, 1, 0, 8, 0],
            [2, 1, 1, 8, 0],
            [3, 1, 2, 8, 0],
        ],
        &[],
    )
}

#[test]
fn includes_positive_substring_filter() {
    let engine = engine_from(&include_exclude_graph());
    let g = engine.get_same_string_value_nodes(&string_cond(0, &[], &["err"], 0));
    // "error_code" contains "err" and is kept; "warning" and
    // "temp_buffer" contain none of the includes and are dropped.
    assert_eq!(sorted(g.node_indexes), vec![0]);
}

#[test]
fn excludes_override_includes() {
    let engine = engine_from(&include_exclude_graph());
    let g = engine.get_same_string_value_nodes(&string_cond(0, &["temp"], &["temp"], 0));
    // "temp_buffer" matches the include but carries an excluded
    // substring, so it is dropped.
    assert!(g.node_indexes.is_empty());
}

#[test]
fn minimum_length_filter() {
    let engine = engine_from(&include_exclude_graph());
    let g = engine.get_same_string_value_nodes(&string_cond(8, &[], &[], 0));
    // "error_code" (10) and "temp_buffer" (11) pass, "warning" (7) not.
    assert_eq!(sorted(g.node_indexes), vec![0, 2]);
}

#[test]
fn truncated_node_section_is_malformed() {
    // Declares 100 nodes but holds data for 3.
    let mut buf = Vec::new();
    push_table(&mut buf, &["object"]);
    push_table(&mut buf, &["property"]);
    push_table(&mut buf, &["a", "b", "c"]);
    push_u32(&mut buf, 100);
    for n in &[[1u32, 0, 0, 8, 0], [2, 0, 1, 8, 0], [3, 0, 2, 8, 0]] {
        for f in n {
            push_u32(&mut buf, *f);
        }
    }
    assert_eq!(decode(&buf).err().unwrap(), DecodeError::Malformed);
}

#[test]
fn failed_decode_leaves_engine_not_decoded() {
    let mut engine = SnapshotAnalysis::new(4);
    for i in 0..4 {
        engine.set_buffer(i, 0xff);
    }
    assert_eq!(engine.start_parse().unwrap_err(), DecodeError::Malformed);
    // The engine still reflects the undecoded (empty) store.
    assert!(engine.get_node_detail(1).is_none());
    let g = engine.get_graph(&only_id(1));
    assert!(g.node_indexes.is_empty());
}

#[test]
fn empty_buffer_is_empty_error() {
    let mut engine = SnapshotAnalysis::new(0);
    assert_eq!(engine.start_parse().unwrap_err(), DecodeError::Empty);
    assert_eq!(decode(&Vec::new()).err().unwrap(), DecodeError::Empty);
}

#[test]
fn out_of_range_node_type_is_malformed() {
    let buf = build(&["object"], &["property"], &["a"], &[[1, 5, 0, 8, 0]], &[]);
    assert_eq!(decode(&buf).err().unwrap(), DecodeError::Malformed);
}

#[test]
fn out_of_range_name_ref_is_malformed() {
    let buf = build(&["object"], &["property"], &["a"], &[[1, 0, 9, 8, 0]], &[]);
    assert_eq!(decode(&buf).err().unwrap(), DecodeError::Malformed);
}

#[test]
fn out_of_range_edge_target_is_malformed() {
    let buf = build(
        &["object"],
        &["property"],
        &["a"],
        &[[1, 0, 0, 8, 1]],
        &[[0, 0, 7]],
    );
    assert_eq!(decode(&buf).err().unwrap(), DecodeError::Malformed);
}

#[test]
fn duplicate_node_ids_are_malformed() {
    let buf = build(
        &["object"],
        &["property"],
        &["a", "b"],
        &[[1, 0, 0, 8, 0], [1, 0, 1, 8, 0]],
        &[],
    );
    assert_eq!(decode(&buf).err().unwrap(), DecodeError::Malformed);
}

#[test]
fn edge_count_sum_mismatch_is_malformed() {
    // One node claiming two edges, but only one edge record.
    let buf = build(
        &["object"],
        &["property"],
        &["a"],
        &[[1, 0, 0, 8, 2]],
        &[[0, 0, 0]],
    );
    assert_eq!(decode(&buf).err().unwrap(), DecodeError::Malformed);
}

#[test]
fn trailing_bytes_are_malformed() {
    let mut buf = build(&["object"], &["property"], &["a"], &[[1, 0, 0, 8, 0]], &[]);
    buf.push(0);
    assert_eq!(decode(&buf).err().unwrap(), DecodeError::Malformed);
}

#[test]
fn node_detail_resolves_names() {
    let engine = engine_from(&cyclic_graph());
    let d = engine.get_node_detail(2).expect("id 2 exists");
    assert_eq!(d.id, 2);
    assert_eq!(d.name, b"beta".to_vec());
    assert_eq!(d.node_type_name, b"object".to_vec());
    assert_eq!(d.self_size, 24);
    assert_eq!(d.edge_count, 1);
}

#[test]
fn node_detail_not_found_is_none() {
    let engine = engine_from(&cyclic_graph());
    assert!(engine.get_node_detail(999).is_none());
}

#[test]
fn edge_detail_resolves_fields() {
    let engine = engine_from(&cyclic_graph());
    let d = engine.get_edge_detail(1).expect("edge 1 exists");
    assert_eq!(d.edge_index, 1);
    assert_eq!(d.edge_type_name, b"property".to_vec());
    assert_eq!(d.name_or_index, 1);
    assert_eq!(d.resolved_name, b"beta".to_vec());
    assert_eq!(d.to_node_index, 2);
}

#[test]
fn edge_detail_out_of_range_is_none() {
    let engine = engine_from(&cyclic_graph());
    assert!(engine.get_edge_detail(3).is_none());
}

#[test]
fn filter_by_type_name_and_size() {
    let engine = engine_from(&cyclic_graph());
    let cond = FilterCondition {
        node_id: None,
        node_type_name: Some(b"object".to_vec()),
        name_contains: None,
        min_self_size: Some(24),
    };
    // B (24) and C (32) match; the whole cycle is reachable from B.
    let g = engine.get_graph(&cond);
    assert_eq!(sorted(g.node_indexes), vec![0, 1, 2]);
}

#[test]
fn filter_by_name_substring() {
    let engine = engine_from(&cyclic_graph());
    let cond = FilterCondition {
        node_id: None,
        node_type_name: None,
        name_contains: Some(b"elt".to_vec()),
        min_self_size: None,
    };
    // Only "delta" contains "elt"; D has no outgoing edges.
    let g = engine.get_graph(&cond);
    assert_eq!(g.node_indexes, vec![3]);
    assert!(g.edge_indexes.is_empty());
}

#[test]
fn duplicates_feed_subgraph_expansion() {
    // Two string nodes with the same value each point at an object.
    let buf = build(
        &["object", "string"],
        &["property"],
        &["dup", "obj"],
        &[
            [1, 1, 0, 8, 1],
            [2, 1, 0, 8, 1],
            [3, 0, 1, 16, 0],
        ],
        &[[0, 1, 2], [0, 1, 2]],
    );
    let engine = engine_from(&buf);
    let g = engine.get_same_string_value_nodes(&string_cond(0, &[], &[], 1));
    assert_eq!(sorted(g.node_indexes), vec![0, 1, 2]);
    assert_eq!(sorted(g.edge_indexes), vec![0, 1]);
}

#[test]
fn staged_bytes_reach_decoder() {
    let buf = cyclic_graph();
    let mut engine = SnapshotAnalysis::new(buf.len());
    for (i, b) in buf.iter().enumerate() {
        engine.set_buffer(i, *b);
    }
    assert!(engine.start_parse().is_ok());
    assert!(engine.get_node_detail(1).is_some());
}

#[test]
fn edge_numeric_ref_degrades_to_empty_name() {
    // An indexed edge whose name-or-index field (100) is no string-table
    // index: detail resolution degrades to an empty name, never fails.
    let buf = build(
        &["object"],
        &["element"],
        &["a", "b"],
        &[[1, 0, 0, 8, 1], [2, 0, 1, 8, 0]],
        &[[0, 100, 1]],
    );
    let engine = engine_from(&buf);
    let d = engine.get_edge_detail(0).expect("edge 0 exists");
    assert_eq!(d.name_or_index, 100);
    assert_eq!(d.resolved_name, Vec::<u8>::new());
    assert_eq!(d.edge_type_name, b"element".to_vec());
}

#[test]
fn store_accessors_look_up_by_id_and_position() {
    let buf = cyclic_graph();
    let store = decode(&buf).expect("well-formed snapshot");
    let node = store.get_node(3).expect("id 3 exists");
    assert_eq!(node.self_size, 32);
    assert!(store.get_node(77).is_none());
    let edge = store.get_edge(2).expect("edge 2 exists");
    assert_eq!(edge.to_node_index, 0);
    assert!(store.get_edge(3).is_none());
    assert_eq!(store.resolve_string(1), b"beta".to_vec());
    assert_eq!(store.resolve_string(50), Vec::<u8>::new());
    assert_eq!(store.resolve_node_type(0), b"object".to_vec());
    assert_eq!(store.resolve_edge_type(1), b"element".to_vec());
}

#[test]
fn fresh_engine_serves_empty_results() {
    let engine = SnapshotAnalysis::new(16);
    assert!(engine.get_node_detail(1).is_none());
    assert!(engine.get_edge_detail(0).is_none());
    let g = engine.get_graph(&only_id(1));
    assert!(g.node_indexes.is_empty());
    assert!(g.edge_indexes.is_empty());
}

#[test]
fn truncated_string_table_is_malformed() {
    let mut buf = Vec::new();
    push_u32(&mut buf, 2);
    push_u32(&mut buf, 50);
    buf.extend_from_slice(b"short");
    assert_eq!(decode(&buf).err().unwrap(), DecodeError::Malformed);
}

#[test]
fn converging_paths_visit_once() {
    // A(id 1) -> B and A -> C, with B -> D and C -> D: D is reachable on
    // two paths but appears once, and all four traversed edges are kept.
    let buf = build(
        &["object"],
        &["property"],
        &["a", "b", "c", "d"],
        &[
            [1, 0, 0, 8, 2],
            [2, 0, 1, 8, 1],
            [3, 0, 2, 8, 1],
            [4, 0, 3, 8, 0],
        ],
        &[[0, 1, 1], [0, 2, 2], [0, 3, 3], [0, 3, 3]],
    );
    let engine = engine_from(&buf);
    let g = engine.get_graph(&only_id(1));
    assert_eq!(sorted(g.node_indexes), vec![0, 1, 2, 3]);
    assert_eq!(sorted(g.edge_indexes), vec![0, 1, 2, 3]);
}

#[test]
fn minimum_length_counts_characters_not_bytes() {
    // "ééé" is three characters in six UTF-8 bytes: a threshold of 5
    // keeps it only if bytes were counted, so it must be dropped; a
    // threshold of 3 keeps it (only fewer characters are discarded).
    let buf = build(
        &["object", "string"],
        &["property"],
        &["ééé"],
        &[[1, 1, 0, 8, 0], [2, 1, 0, 8, 0]],
        &[],
    );
    let engine = engine_from(&buf);
    let g = engine.get_same_string_value_nodes(&string_cond(5, &[], &[], 1));
    assert!(g.node_indexes.is_empty());
    let g = engine.get_same_string_value_nodes(&string_cond(3, &[], &[], 1));
    assert_eq!(sorted(g.node_indexes), vec![0, 1]);
}
