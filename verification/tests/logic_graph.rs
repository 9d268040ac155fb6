use bartend::logic::graph::{DirectedAcyclicGraph, GraphError};
use std::collections::{HashMap, HashSet};

fn basic_graph() -> DirectedAcyclicGraph {
    let mut graph = DirectedAcyclicGraph::_new();
    graph.insert_vertex(1);
    graph.insert_vertex(2);
    graph.insert_vertex(3);
    graph.insert_edge(&1, &2).unwrap();
    graph.insert_edge(&2, &3).unwrap();

    graph
}

fn chain_graph() -> DirectedAcyclicGraph {
    let graph = (1..=5).fold(HashMap::new(), |mut acc, i| {
        let mut new_set = HashSet::new();
        if i > 1 {
            new_set.insert(i - 1);
        }
        acc.insert(i, new_set);
        acc
    });

    DirectedAcyclicGraph::load(graph)
}

fn non_cyclic_graph() -> DirectedAcyclicGraph {
    let mut graph = DirectedAcyclicGraph::_new();
    for i in 1..=5 {
        graph.insert_vertex(i);
    }
    graph.insert_edge(&1, &2).unwrap();
    graph.insert_edge(&2, &4).unwrap();
    graph.insert_edge(&4, &3).unwrap();
    graph
}

#[test]
fn graph_removing_results_in_lower_members_being_moved() {
    let mut graph = basic_graph();

    graph.remove(2);

    assert!(!graph.contains_vertex(&2));
    assert_eq!(graph.get_edges(&1).unwrap(), HashSet::from([3]));
}

#[test]
fn graph_cycles_not_allowed_at_insertion() {
    let mut graph = basic_graph();

    let insert_result = graph.insert_edge(&3, &1);

    assert!(insert_result.is_err())
}

#[test]
fn self_loops_not_allowed() {
    let mut graph = basic_graph();

    let insert_result = graph.insert_edge(&1, &1);

    assert!(insert_result.is_err())
}

#[test]
fn remove_edge_splits_tree() {
    let mut graph = basic_graph();

    graph.remove_edge(&2, &3);

    assert!(!graph.get_edges(&1).unwrap().contains(&3));
    assert!(!graph.get_edges(&2).unwrap().contains(&3));
}

#[test]
fn get_ancestors_returns_none_if_not_in_graph() {
    let graph = basic_graph();

    let result = graph.get_ancestors(&25);

    assert!(result.is_none())
}

#[test]
fn results_in_indirect_child_nodes_returned() {
    let graph = chain_graph();

    let implication = graph.get_all_children(&4);

    let expected_implication = Some(HashSet::from([1, 2, 3]));
    assert_eq!(implication, expected_implication);
}

#[test]
fn results_in_none_if_not_in_graph() {
    let graph = chain_graph();

    let implication = graph.get_all_children(&7);

    let expected_implication = None;
    assert_eq!(implication, expected_implication);
}

#[test]
fn returns_all_valid_connections() {
    let graph = non_cyclic_graph();
    let mut actual_results = Vec::new();
    for i in 1..=5 {
        actual_results.push(graph.get_non_cyclic_additions(&i).unwrap());
    }
    let expected_results = vec![
        HashSet::from([3, 4, 5]),
        HashSet::from([3, 5]),
        HashSet::from([5]),
        HashSet::from([5]),
        HashSet::from([1, 2, 3, 4]),
    ];
    assert_eq!(actual_results, expected_results);
}

#[test]
fn returns_none_if_not_in_graph() {
    let graph = non_cyclic_graph();

    let result = graph.get_non_cyclic_additions(&123);

    assert!(result.is_none())
}

#[test]
fn insert_edge_errors_name_the_reason() {
    let mut graph = basic_graph();

    assert_eq!(graph.insert_edge(&1, &9), Err(GraphError::EdgeEndpointNotInGraph));
    assert_eq!(graph.insert_edge(&3, &2), Err(GraphError::WouldIntroduceCycle));
    assert_eq!(graph.insert_edge(&1, &3), Ok(()));
}

#[test]
fn ancestors_are_every_vertex_above() {
    let graph = basic_graph();

    assert_eq!(graph.get_ancestors(&3), Some(HashSet::from([1, 2])));
    assert_eq!(graph.get_ancestors(&1), Some(HashSet::new()));
}

#[test]
fn is_parent_of_counts_the_vertex_itself() {
    let graph = basic_graph();

    assert!(graph.is_parent_of(&1, &3));
    assert!(graph.is_parent_of(&2, &2));
    assert!(!graph.is_parent_of(&3, &1));
}

#[test]
fn remove_reports_the_adopted_edges() {
    let mut graph = basic_graph();
    graph.insert_vertex(4);
    graph.insert_edge(&4, &2).unwrap();

    let mut edges = graph.remove(2).unwrap();
    edges.sort();

    assert_eq!(edges, vec![(1, 3), (4, 3)]);
    assert_eq!(graph.remove(2), None);
}

#[test]
fn removal_patch_lists_parents_and_children() {
    let graph = basic_graph();

    let patch = graph.get_removal_patch(&2);
    let missing = graph.get_removal_patch(&9);

    assert_eq!(patch.to_remove, 2);
    assert_eq!(patch.parents, Some(vec![1]));
    assert_eq!(patch.children, Some(vec![3]));
    assert_eq!(missing.parents, None);
    assert_eq!(missing.children, None);
}

#[test]
fn removal_keeps_reachability_between_other_vertices() {
    let mut graph = chain_graph();

    graph.remove(3);

    assert_eq!(graph.get_all_children(&5), Some(HashSet::from([1, 2, 4])));
    assert!(graph.is_parent_of(&4, &1));
}
