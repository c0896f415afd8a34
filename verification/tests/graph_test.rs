use graph_algorithm_tui::graph::{EdgeType, Graph};
use std::collections::HashMap;

fn sample() -> Graph {
    let mut g = Graph::new();
    g.add_edge(1, 2, 10, EdgeType::Single);
    g.add_edge(2, 4, 10, EdgeType::Both);
    g.add_edge(3, 4, 10, EdgeType::Single);
    g.add_edge(4, 3, 10, EdgeType::Single);
    g
}

fn star() -> Graph {
    let mut g = Graph::new();
    g.add_edge(1, 2, 2, EdgeType::Both);
    g.add_edge(1, 3, 3, EdgeType::Both);
    g.add_edge(1, 6, 6, EdgeType::Both);
    g
}

fn kite() -> Graph {
    let mut g = Graph::new();
    g.add_edge(1, 2, 2, EdgeType::Both);
    g.add_edge(1, 3, 3, EdgeType::Both);
    g.add_edge(3, 4, 5, EdgeType::Both);
    g.add_edge(3, 5, 4, EdgeType::Both);
    g.add_edge(5, 4, 1, EdgeType::Both);
    g
}

fn sorted(mut v: Vec<i64>) -> Vec<i64> {
    v.sort();
    v
}

fn pairs(m: &HashMap<i64, i64>) -> Vec<(i64, i64)> {
    let mut v: Vec<(i64, i64)> = m.iter().map(|(k, x)| (*k, *x)).collect();
    v.sort();
    v
}

#[test]
fn runs_main_logic_without_panic() {
    let mut g = Graph::new();

    g.add_edge(1, 2, 10, EdgeType::Single);
    g.add_edge(2, 4, 10, EdgeType::Both);

    g.add_edge(3, 4, 10, EdgeType::Single);
    g.add_edge(4, 3, 10, EdgeType::Single);

    g.dfs(1);
    g.bfs(1);
    g.dijkstra(1);
    g.prim(1);
}

#[test]
fn dfs_visits_one_two_four_in_order() {
    let (nodes, edges) = sample().dfs(1);
    assert_eq!(nodes[..3], [1, 2, 4]);
    assert_eq!(edges[..2], [(1, 2), (2, 4)]);
    // The entry 4 -> 3 makes 3 the last node reached.
    assert_eq!(nodes, vec![1, 2, 4, 3]);
    assert_eq!(edges, vec![(1, 2), (2, 4), (4, 3)]);
}

#[test]
fn dfs_leaves_out_what_the_source_does_not_reach() {
    let mut g = Graph::new();
    g.add_edge(1, 2, 10, EdgeType::Single);
    g.add_edge(2, 4, 10, EdgeType::Both);
    g.add_edge(3, 4, 10, EdgeType::Single);
    let (nodes, edges) = g.dfs(1);
    assert_eq!(nodes, vec![1, 2, 4]);
    assert_eq!(edges, vec![(1, 2), (2, 4)]);
    assert!(!nodes.contains(&3));
}

#[test]
fn dfs_goes_deep_before_wide() {
    let mut g = Graph::new();
    g.add_edge(1, 2, 1, EdgeType::Single);
    g.add_edge(1, 3, 1, EdgeType::Single);
    g.add_edge(2, 4, 1, EdgeType::Single);
    g.add_edge(4, 3, 1, EdgeType::Single);
    let (nodes, edges) = g.dfs(1);
    assert_eq!(nodes, vec![1, 2, 4, 3]);
    assert_eq!(edges, vec![(1, 2), (2, 4), (4, 3)]);
}

#[test]
fn bfs_goes_wide_before_deep() {
    let mut g = Graph::new();
    g.add_edge(1, 2, 1, EdgeType::Single);
    g.add_edge(1, 3, 1, EdgeType::Single);
    g.add_edge(2, 4, 1, EdgeType::Single);
    g.add_edge(4, 3, 1, EdgeType::Single);
    let (nodes, edges) = g.bfs(1);
    assert_eq!(nodes, vec![1, 2, 3, 4]);
    assert_eq!(edges, vec![(1, 2), (1, 3), (2, 4)]);
}

#[test]
fn bfs_on_the_sample_graph() {
    let (nodes, edges) = sample().bfs(1);
    assert_eq!(nodes, vec![1, 2, 4, 3]);
    assert_eq!(edges, vec![(1, 2), (2, 4), (4, 3)]);
}

#[test]
fn traversals_tolerate_loops_and_parallel_edges() {
    let mut g = Graph::new();
    g.add_edge(1, 1, 5, EdgeType::Both);
    g.add_edge(1, 2, 5, EdgeType::Single);
    g.add_edge(1, 2, 3, EdgeType::Single);
    g.add_edge(2, 1, 1, EdgeType::Single);
    assert_eq!(g.dfs(1), (vec![1, 2], vec![(1, 2)]));
    assert_eq!(g.bfs(1), (vec![1, 2], vec![(1, 2)]));
    let (nodes, edges, total) = g.prim(1);
    assert_eq!(nodes, vec![1, 2]);
    assert_eq!(edges, vec![(1, 2)]);
    assert_eq!(total, 3);
    let (nodes, edges, dist, parent) = g.dijkstra(1);
    assert_eq!(nodes, vec![1, 2]);
    assert_eq!(edges, vec![(1, 2), (1, 2)]);
    assert_eq!(pairs(&dist), vec![(1, 0), (2, 3)]);
    assert_eq!(pairs(&parent), vec![(2, 1)]);
}

#[test]
fn dijkstra_on_a_star() {
    let (nodes, edges, dist, parent) = star().dijkstra(1);
    assert_eq!(dist[&2], 2);
    assert_eq!(dist[&3], 3);
    assert_eq!(dist[&6], 6);
    assert_eq!(parent[&2], 1);
    assert_eq!(parent[&3], 1);
    assert_eq!(parent[&6], 1);
    assert_eq!(pairs(&dist), vec![(1, 0), (2, 2), (3, 3), (6, 6)]);
    assert_eq!(pairs(&parent), vec![(2, 1), (3, 1), (6, 1)]);
    assert_eq!(nodes, vec![1, 2, 3, 6]);
    assert_eq!(edges, vec![(1, 2), (1, 3), (1, 6)]);
}

#[test]
fn dijkstra_emits_an_edge_each_time_it_improves() {
    let mut g = Graph::new();
    g.add_edge(1, 2, 10, EdgeType::Single);
    g.add_edge(1, 3, 1, EdgeType::Single);
    g.add_edge(3, 2, 1, EdgeType::Single);
    let (nodes, edges, dist, parent) = g.dijkstra(1);
    assert_eq!(nodes, vec![1, 3, 2]);
    assert_eq!(edges, vec![(1, 2), (1, 3), (3, 2)]);
    assert_eq!(pairs(&dist), vec![(1, 0), (2, 2), (3, 1)]);
    assert_eq!(pairs(&parent), vec![(2, 3), (3, 1)]);
}

#[test]
fn dijkstra_visits_the_lesser_node_first_at_equal_distance() {
    let mut g = Graph::new();
    g.add_edge(1, 5, 4, EdgeType::Single);
    g.add_edge(1, 3, 4, EdgeType::Single);
    g.add_edge(1, 4, 4, EdgeType::Single);
    let (nodes, edges, _, _) = g.dijkstra(1);
    assert_eq!(nodes, vec![1, 3, 4, 5]);
    assert_eq!(edges, vec![(1, 5), (1, 3), (1, 4)]);
}

#[test]
fn prim_takes_the_lesser_node_first_at_equal_weight() {
    let mut g = Graph::new();
    g.add_edge(1, 9, 4, EdgeType::Both);
    g.add_edge(1, 3, 4, EdgeType::Both);
    g.add_edge(9, 3, 4, EdgeType::Both);
    let (nodes, edges, total) = g.prim(1);
    assert_eq!(nodes, vec![1, 3, 9]);
    assert_eq!(edges, vec![(1, 3), (1, 9)]);
    assert_eq!(total, 8);
}

#[test]
fn dijkstra_skips_a_sum_that_does_not_fit() {
    let mut g = Graph::new();
    g.add_edge(1, 2, i64::MAX, EdgeType::Single);
    g.add_edge(2, 3, 1, EdgeType::Single);
    g.add_edge(1, 4, i64::MAX - 1, EdgeType::Single);
    let (nodes, edges, dist, parent) = g.dijkstra(1);
    assert_eq!(nodes, vec![1, 4]);
    assert_eq!(edges, vec![(1, 4)]);
    assert_eq!(pairs(&dist), vec![(1, 0), (4, i64::MAX - 1)]);
    assert_eq!(pairs(&parent), vec![(4, 1)]);
}

#[test]
fn prim_takes_the_lighter_way_round() {
    let (nodes, edges, total) = kite().prim(1);
    assert_eq!(total, 2 + 3 + 4 + 1);
    assert_eq!(total, 10);
    assert_eq!(edges, vec![(1, 2), (1, 3), (3, 5), (5, 4)]);
    assert_eq!(nodes, vec![1, 2, 3, 5, 4]);
}

#[test]
fn prim_builds_only_the_part_it_reaches() {
    let mut g = kite();
    g.add_edge(8, 9, 100, EdgeType::Both);
    let (nodes, _, total) = g.prim(1);
    assert_eq!(sorted(nodes), vec![1, 2, 3, 4, 5]);
    assert_eq!(total, 10);
    let (nodes, edges, total) = g.prim(9);
    assert_eq!(nodes, vec![9, 8]);
    assert_eq!(edges, vec![(9, 8)]);
    assert_eq!(total, 100);
}

#[test]
fn prim_total_may_exceed_an_i64() {
    let mut g = Graph::new();
    g.add_edge(1, 2, i64::MAX - 1, EdgeType::Both);
    g.add_edge(2, 3, i64::MAX - 2, EdgeType::Both);
    let (nodes, edges, total) = g.prim(1);
    assert_eq!(nodes, vec![1, 2, 3]);
    assert_eq!(edges, vec![(1, 2), (2, 3)]);
    assert_eq!(total, 2 * (i64::MAX as i128) - 3);
}

#[test]
fn isolated_source_gives_the_trivial_trace() {
    let g = Graph::new();
    assert_eq!(g.dfs(7), (vec![7], vec![]));
    assert_eq!(g.bfs(7), (vec![7], vec![]));
    let (nodes, edges, total) = g.prim(7);
    assert_eq!(nodes, vec![7]);
    assert!(edges.is_empty());
    assert_eq!(total, 0);
    let (nodes, edges, dist, parent) = g.dijkstra(7);
    assert_eq!(nodes, vec![7]);
    assert!(edges.is_empty());
    assert_eq!(pairs(&dist), vec![(7, 0)]);
    assert!(parent.is_empty());
}

#[test]
fn source_outside_the_graph_gives_the_trivial_trace() {
    let g = kite();
    assert_eq!(g.dfs(42), (vec![42], vec![]));
    assert_eq!(g.bfs(42), (vec![42], vec![]));
    assert_eq!(g.prim(42), (vec![42], vec![], 0));
    let (nodes, edges, dist, parent) = g.dijkstra(42);
    assert_eq!(nodes, vec![42]);
    assert!(edges.is_empty());
    assert_eq!(pairs(&dist), vec![(42, 0)]);
    assert!(parent.is_empty());
}

#[test]
fn repeated_runs_agree() {
    let g = kite();
    assert_eq!(g.dfs(1), g.dfs(1));
    assert_eq!(g.bfs(1), g.bfs(1));
    assert_eq!(g.prim(1), g.prim(1));
    let a = g.dijkstra(1);
    let b = g.dijkstra(1);
    assert_eq!(a.0, b.0);
    assert_eq!(a.1, b.1);
    assert_eq!(pairs(&a.2), pairs(&b.2));
    assert_eq!(pairs(&a.3), pairs(&b.3));
}

#[test]
fn nodes_lists_tails_and_heads_once() {
    assert_eq!(sorted(sample().nodes()), vec![1, 2, 3, 4]);
    let mut g = Graph::new();
    assert!(g.nodes().is_empty());
    g.add_edge(5, 9, 1, EdgeType::Single);
    g.add_edge(5, 9, 2, EdgeType::Single);
    g.add_edge(9, 9, 2, EdgeType::Single);
    assert_eq!(sorted(g.nodes()), vec![5, 9]);
}

#[test]
fn edges_keeps_one_entry_for_each_pair() {
    let mut found: Vec<(i64, i64, i64)> = kite()
        .edges()
        .into_iter()
        .map(|(u, v, w)| if u <= v { (u, v, w) } else { (v, u, w) })
        .collect();
    found.sort();
    assert_eq!(found, vec![(1, 2, 2), (1, 3, 3), (3, 4, 5), (3, 5, 4), (4, 5, 1)]);
    assert_eq!(sample().edges().len(), 3);
    assert!(Graph::new().edges().is_empty());
}

#[test]
fn edges_tells_extreme_pairs_apart() {
    let mut g = Graph::new();
    g.add_edge(i64::MIN, i64::MAX, 1, EdgeType::Both);
    g.add_edge(i64::MIN, i64::MIN, 2, EdgeType::Single);
    g.add_edge(i64::MAX, i64::MAX, 3, EdgeType::Single);
    g.add_edge(-1, 0, 4, EdgeType::Single);
    g.add_edge(0, -1, 5, EdgeType::Single);
    assert_eq!(g.edges().len(), 4);
}

#[test]
fn both_inserts_two_independent_entries() {
    let mut g = Graph::new();
    g.add_edge(1, 2, 7, EdgeType::Both);
    assert_eq!(g.bfs(2), (vec![2, 1], vec![(2, 1)]));
    let mut h = Graph::new();
    h.add_edge(1, 2, 7, EdgeType::Single);
    assert_eq!(h.bfs(2), (vec![2], vec![]));
}
