use bartend::common::category::graph::{DirectedAcyclicGraph, GraphError};
use bartend::common::category::{Category, CategoryID, CategoryManager};
use std::collections::HashSet;

#[test]
fn mod_removing_results_in_lower_members_being_moved() {
    let mut graph = DirectedAcyclicGraph::build_from(&[1, 2, 3], &[(1, 2), (2, 3)]).unwrap();

    graph.remove(2);

    assert!(!graph.contains_vertex(&2));
    assert_eq!(*graph.get_edges(&1), HashSet::from([3]));
}

#[test]
fn implication_results_in_indirect_child_nodes_returned() {
    let graph =
        DirectedAcyclicGraph::build_from(&[1, 2, 3, 4, 5], &[(1, 2), (2, 3), (3, 4), (4, 5)])
            .unwrap();

    let implication = graph.implies_set(&2);

    let expected_implication = HashSet::from([3, 4, 5]);
    assert_eq!(implication, expected_implication);
}

#[test]
fn mod_cycles_not_allowed_at_insertion() {
    let mut graph = DirectedAcyclicGraph::build_from(&[1, 2, 3], &[(1, 2), (2, 3)]).unwrap();

    let insert_result = graph.insert_edge(&(3, 1));

    assert!(insert_result.is_err())
}

#[test]
fn build_from_refuses_edge_to_missing_vertex() {
    let result = DirectedAcyclicGraph::build_from(&[1, 2], &[(1, 2), (2, 9)]);

    assert_eq!(result.unwrap_err(), GraphError::EdgeEndpointNotInGraph);
}

#[test]
fn build_from_reports_first_refusal() {
    let result = DirectedAcyclicGraph::build_from(&[1, 2, 3], &[(1, 2), (2, 1), (1, 7)]);

    assert_eq!(result.unwrap_err(), GraphError::WouldIntroduceCycle);
}

#[test]
fn build_from_without_edges_holds_vertices() {
    let graph = DirectedAcyclicGraph::build_from(&[4, 4, 5], &[]).unwrap();

    assert!(graph.contains_vertex(&4));
    assert!(graph.contains_vertex(&5));
    assert!(!graph.contains_vertex(&6));
    assert!(graph.get_edges(&4).is_empty());
}

#[test]
fn insert_edge_between_missing_vertices_is_refused_and_changes_nothing() {
    let mut graph = DirectedAcyclicGraph::new();
    graph.insert_vertex(1);

    let result = graph.insert_edge(&(1, 2));

    assert_eq!(result, Err(GraphError::EdgeEndpointNotInGraph));
    assert!(graph.get_edges(&1).is_empty());
}

#[test]
fn accepted_edges_never_let_a_vertex_imply_itself() {
    let graph =
        DirectedAcyclicGraph::build_from(&[1, 2, 3, 4], &[(1, 2), (1, 3), (2, 4), (3, 4)])
            .unwrap();

    for v in 1..=4 {
        assert!(!graph.implies(&v, &v));
        assert!(!graph.implies_set(&v).contains(&v));
    }
}

#[test]
fn a_self_loop_is_accepted() {
    let mut graph = DirectedAcyclicGraph::build_from(&[3], &[]).unwrap();

    let result = graph.insert_edge(&(3, 3));

    assert_eq!(result, Ok(()));
    assert!(graph.implies(&3, &3));
    assert_eq!(graph.implies_set(&3), HashSet::from([3]));
}

#[test]
fn implies_follows_edges_downward_only() {
    let graph = DirectedAcyclicGraph::build_from(&[1, 2, 3], &[(1, 2), (2, 3)]).unwrap();

    assert!(graph.implies(&1, &3));
    assert!(graph.implies(&2, &3));
    assert!(!graph.implies(&3, &1));
    assert!(!graph.implies(&9, &1));
}

#[test]
fn implies_set_of_missing_vertex_is_empty() {
    let graph = DirectedAcyclicGraph::build_from(&[1, 2], &[(1, 2)]).unwrap();

    assert!(graph.implies_set(&42).is_empty());
}

#[test]
fn removing_a_missing_vertex_changes_nothing() {
    let mut graph = DirectedAcyclicGraph::build_from(&[1, 2], &[(1, 2)]).unwrap();

    graph.remove(7);

    assert_eq!(*graph.get_edges(&1), HashSet::from([2]));
    assert!(graph.contains_vertex(&2));
}

#[test]
fn removing_keeps_what_was_implied() {
    let mut graph =
        DirectedAcyclicGraph::build_from(&[1, 2, 3, 4, 5], &[(1, 2), (5, 2), (2, 3), (2, 4)])
            .unwrap();

    graph.remove(2);

    assert_eq!(graph.implies_set(&1), HashSet::from([3, 4]));
    assert_eq!(graph.implies_set(&5), HashSet::from([3, 4]));
    assert!(graph.get_edges(&3).is_empty());
}

#[test]
fn graph_table_statement() {
    let statement = DirectedAcyclicGraph::create();

    assert!(statement.starts_with("CREATE TABLE IF NOT EXISTS graph("));
    assert!(statement.ends_with("UNIQUE (parent_id, child_id));"));
}

#[test]
fn manager_starts_empty() {
    let manager = CategoryManager::new();

    assert!(manager.get_categories().is_empty());
    assert!(manager.get_children(&CategoryID(1)).is_empty());
}

#[test]
fn manager_adds_lists_relates_and_removes_categories() {
    let mut manager = CategoryManager::new();
    manager.add_category(CategoryID(1), "spirits".to_string());
    manager.add_category(CategoryID(2), "whiskey".to_string());
    manager.add_category(CategoryID(3), "bourbon".to_string());

    assert_eq!(manager.add_relation(&CategoryID(1), &CategoryID(2)), Ok(()));
    assert_eq!(manager.add_relation(&CategoryID(2), &CategoryID(3)), Ok(()));
    assert_eq!(
        manager.add_relation(&CategoryID(3), &CategoryID(1)),
        Err(GraphError::WouldIntroduceCycle)
    );
    assert_eq!(
        manager.add_relation(&CategoryID(3), &CategoryID(8)),
        Err(GraphError::EdgeEndpointNotInGraph)
    );
    assert_eq!(manager.get_children(&CategoryID(1)), HashSet::from([2, 3]));

    let mut names: Vec<(i64, String)> = manager
        .get_categories()
        .iter()
        .map(|c| (c.id().0, c.name()))
        .collect();
    names.sort();
    assert_eq!(
        names,
        vec![
            (1, "spirits".to_string()),
            (2, "whiskey".to_string()),
            (3, "bourbon".to_string())
        ]
    );

    manager.remove_category(CategoryID(2));

    assert_eq!(manager.get_children(&CategoryID(1)), HashSet::from([3]));
    assert_eq!(manager.get_categories().len(), 2);
}

#[test]
fn test_category_is_number_one_named_test() {
    let category = Category::test_cat();

    assert_eq!(category.id(), CategoryID(1));
    assert_eq!(category.name(), "test");
    assert!(category == Category::test_cat());
}
