use graph_algorithm_tui::backtrack::path_to;
use graph_algorithm_tui::graph::{EdgeType, Graph};
use std::collections::HashMap;

#[test]
fn path_of_a_node_without_predecessor_is_the_node() {
    let parent: HashMap<i64, i64> = HashMap::new();
    assert_eq!(path_to(&parent, 5), Some(vec![5]));
}

#[test]
fn path_runs_from_the_source_to_the_node() {
    let mut parent: HashMap<i64, i64> = HashMap::new();
    parent.insert(4, 5);
    parent.insert(5, 3);
    parent.insert(3, 1);
    parent.insert(2, 1);
    assert_eq!(path_to(&parent, 4), Some(vec![1, 3, 5, 4]));
    assert_eq!(path_to(&parent, 2), Some(vec![1, 2]));
    assert_eq!(path_to(&parent, 1), Some(vec![1]));
}

#[test]
fn path_may_take_as_many_steps_as_there_are_predecessors() {
    let mut parent: HashMap<i64, i64> = HashMap::new();
    parent.insert(3, 2);
    parent.insert(2, 1);
    assert_eq!(path_to(&parent, 3), Some(vec![1, 2, 3]));
}

#[test]
fn walk_in_a_circle_has_no_path() {
    let mut parent: HashMap<i64, i64> = HashMap::new();
    parent.insert(1, 2);
    parent.insert(2, 3);
    parent.insert(3, 1);
    parent.insert(9, 3);
    assert_eq!(path_to(&parent, 9), None);
    assert_eq!(path_to(&parent, 1), None);
    parent.insert(7, 7);
    assert_eq!(path_to(&parent, 7), None);
}

#[test]
fn paths_of_a_search_have_the_weight_of_the_distance() {
    let mut g = Graph::new();
    g.add_edge(1, 2, 2, EdgeType::Both);
    g.add_edge(1, 3, 3, EdgeType::Both);
    g.add_edge(3, 4, 5, EdgeType::Both);
    g.add_edge(3, 5, 4, EdgeType::Both);
    g.add_edge(5, 4, 1, EdgeType::Both);
    g.add_edge(1, 6, 6, EdgeType::Both);
    let (_, _, dist, parent) = g.dijkstra(1);
    assert_eq!(dist[&4], 8);
    assert_eq!(dist[&5], 7);
    assert_eq!(path_to(&parent, 4), Some(vec![1, 3, 4]));
    assert_eq!(path_to(&parent, 5), Some(vec![1, 3, 5]));
    assert_eq!(path_to(&parent, 6), Some(vec![1, 6]));
    assert_eq!(path_to(&parent, 1), Some(vec![1]));
}
