use bartend::logic::graph::GraphPatch;
use bartend::persistence::rows::{patch_edges, relations_from_rows, table_from_rows};
use std::collections::{HashMap, HashSet};

#[test]
fn ingredient_using_category_blocks_deletion() {}

#[test]
fn relation_rows_make_every_endpoint_a_vertex() {
    let rows = vec![(1, 2), (1, 3), (3, 4), (1, 2)];

    let graph = relations_from_rows(&rows);

    let mut expected = HashMap::new();
    expected.insert(1, HashSet::from([2, 3]));
    expected.insert(2, HashSet::new());
    expected.insert(3, HashSet::from([4]));
    expected.insert(4, HashSet::new());
    assert_eq!(graph, expected);
}

#[test]
fn no_relation_rows_make_no_vertices() {
    assert!(relations_from_rows(&vec![]).is_empty());
}

#[test]
fn later_rows_replace_earlier_ones() {
    let rows = vec![(1, 10), (2, 20), (1, 11)];

    let table = table_from_rows(rows);

    assert_eq!(table.len(), 2);
    assert_eq!(table[&1], 11);
    assert_eq!(table[&2], 20);
}

#[test]
fn removal_writes_every_parent_child_pair() {
    let patch = GraphPatch { to_remove: 5, parents: Some(vec![1, 2]), children: Some(vec![7, 8]) };

    assert_eq!(patch_edges(&patch), vec![(1, 7), (1, 8), (2, 7), (2, 8)]);
}

#[test]
fn removal_without_children_writes_nothing() {
    let patch = GraphPatch { to_remove: 5, parents: Some(vec![1, 2]), children: None };

    assert!(patch_edges(&patch).is_empty());
}
