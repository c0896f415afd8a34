use graph_algorithm_tui::backtrack::path_to;
use graph_algorithm_tui::graph::{EdgeType, Graph};
use std::collections::{HashMap, HashSet};

struct Lcg(u64);

impl Lcg {
    fn next(&mut self, bound: u64) -> u64 {
        self.0 = self.0.wrapping_mul(6364136223846793005).wrapping_add(1442695040888963407);
        (self.0 >> 33) % bound
    }
}

/// A graph of up to `n` nodes with `m` edges, and the entries it holds.
fn random_graph(seed: u64, n: u64, m: u64, both: bool) -> (Graph, Vec<(i64, i64, i64)>) {
    let mut rng = Lcg(seed);
    let mut g = Graph::new();
    let mut entries = Vec::new();
    for _ in 0..m {
        let u = rng.next(n) as i64;
        let v = rng.next(n) as i64;
        let w = rng.next(20) as i64;
        if both {
            g.add_edge(u, v, w, EdgeType::Both);
            entries.push((u, v, w));
            entries.push((v, u, w));
        } else {
            g.add_edge(u, v, w, EdgeType::Single);
            entries.push((u, v, w));
        }
    }
    (g, entries)
}

fn reachable(entries: &[(i64, i64, i64)], s: i64) -> HashSet<i64> {
    let mut seen: HashSet<i64> = HashSet::new();
    seen.insert(s);
    loop {
        let before = seen.len();
        for &(u, v, _) in entries {
            if seen.contains(&u) {
                seen.insert(v);
            }
        }
        if seen.len() == before {
            return seen;
        }
    }
}

fn check_discovery_trace(
    entries: &[(i64, i64, i64)],
    s: i64,
    nodes: &[i64],
    edges: &[(i64, i64)],
) {
    assert_eq!(nodes[0], s);
    let distinct: HashSet<i64> = nodes.iter().copied().collect();
    assert_eq!(distinct.len(), nodes.len());
    assert_eq!(distinct, reachable(entries, s));
    assert_eq!(edges.len() + 1, nodes.len());
    for (k, &(u, v)) in edges.iter().enumerate() {
        assert_eq!(v, nodes[k + 1]);
        assert!(nodes[..=k].contains(&u));
        assert!(entries.iter().any(|&(a, b, _)| a == u && b == v));
    }
}

#[test]
fn traversals_visit_what_the_source_reaches() {
    for seed in 0..60u64 {
        let (g, entries) = random_graph(seed, 9, 4 + seed % 12, seed % 2 == 0);
        for s in 0..4i64 {
            let (nodes, edges) = g.dfs(s);
            check_discovery_trace(&entries, s, &nodes, &edges);
            let (nodes, edges) = g.bfs(s);
            check_discovery_trace(&entries, s, &nodes, &edges);
        }
    }
}

#[test]
fn bfs_visits_in_order_of_hops() {
    for seed in 0..40u64 {
        let (g, entries) = random_graph(seed, 8, 14, false);
        let (nodes, _) = g.bfs(0);
        let mut hops: HashMap<i64, u32> = HashMap::new();
        hops.insert(0, 0);
        for _ in 0..entries.len() + 1 {
            for &(u, v, _) in &entries {
                if let Some(&d) = hops.get(&u) {
                    let known = hops.get(&v).copied().unwrap_or(u32::MAX);
                    if d + 1 < known {
                        hops.insert(v, d + 1);
                    }
                }
            }
        }
        for pair in nodes.windows(2) {
            assert!(hops[&pair[0]] <= hops[&pair[1]]);
        }
    }
}

fn bellman_ford(entries: &[(i64, i64, i64)], s: i64) -> HashMap<i64, i64> {
    let mut dist: HashMap<i64, i64> = HashMap::new();
    dist.insert(s, 0);
    for _ in 0..entries.len() + 1 {
        for &(u, v, w) in entries {
            if let Some(&d) = dist.get(&u) {
                let known = dist.get(&v).copied().unwrap_or(i64::MAX);
                if d + w < known {
                    dist.insert(v, d + w);
                }
            }
        }
    }
    dist
}

#[test]
fn dijkstra_finds_the_least_path_weights() {
    for seed in 100..160u64 {
        let (g, entries) = random_graph(seed, 9, 5 + seed % 14, seed % 3 == 0);
        for s in 0..3i64 {
            let (nodes, edges, dist, parent) = g.dijkstra(s);
            assert_eq!(dist, bellman_ford(&entries, s));
            let visited: HashSet<i64> = nodes.iter().copied().collect();
            assert_eq!(visited.len(), nodes.len());
            assert_eq!(visited, dist.keys().copied().collect::<HashSet<i64>>());
            assert_eq!(nodes[0], s);
            assert!(!parent.contains_key(&s));
            for &(u, v) in &edges {
                assert!(entries.iter().any(|&(a, b, _)| a == u && b == v));
            }
            for (&v, &d) in &dist {
                let path = path_to(&parent, v).expect("the walk back ends");
                assert_eq!(path[0], s);
                assert_eq!(*path.last().unwrap(), v);
                let mut weight = 0;
                for hop in path.windows(2) {
                    let step = dist[&hop[1]] - dist[&hop[0]];
                    assert!(entries
                        .iter()
                        .any(|&(a, b, w)| a == hop[0] && b == hop[1] && w == step));
                    weight += step;
                }
                assert_eq!(weight, d);
                if v != s {
                    assert!(parent.contains_key(&v));
                }
            }
        }
    }
}

fn find(root: &mut HashMap<i64, i64>, x: i64) -> i64 {
    let mut at = x;
    while let Some(&up) = root.get(&at) {
        if up == at {
            break;
        }
        at = up;
    }
    root.insert(x, at);
    at
}

/// The weight of a minimum spanning tree of the part that holds `s`.
fn kruskal(entries: &[(i64, i64, i64)], s: i64) -> i128 {
    let part = reachable(entries, s);
    let mut sorted: Vec<(i64, i64, i64)> =
        entries.iter().copied().filter(|e| part.contains(&e.0)).collect();
    sorted.sort_by_key(|e| e.2);
    let mut root: HashMap<i64, i64> = part.iter().map(|&x| (x, x)).collect();
    let mut total: i128 = 0;
    for (u, v, w) in sorted {
        let a = find(&mut root, u);
        let b = find(&mut root, v);
        if a != b {
            root.insert(a, b);
            total += w as i128;
        }
    }
    total
}

#[test]
fn prim_builds_a_tree_of_least_weight() {
    for seed in 200..280u64 {
        let (g, entries) = random_graph(seed, 10, 6 + seed % 16, true);
        for s in 0..3i64 {
            let (nodes, edges, total) = g.prim(s);
            check_discovery_trace(&entries, s, &nodes, &edges);
            assert_eq!(total, kruskal(&entries, s));
        }
    }
}

#[test]
fn nodes_and_edges_cover_the_graph() {
    for seed in 300..340u64 {
        let (g, entries) = random_graph(seed, 12, 3 + seed % 15, seed % 2 == 1);
        let mut expected: HashSet<i64> = HashSet::new();
        let mut pairs: HashSet<(i64, i64)> = HashSet::new();
        for &(u, v, _) in &entries {
            expected.insert(u);
            expected.insert(v);
            pairs.insert((u.min(v), u.max(v)));
        }
        let nodes = g.nodes();
        assert_eq!(nodes.len(), expected.len());
        assert_eq!(nodes.into_iter().collect::<HashSet<i64>>(), expected);
        let edges = g.edges();
        assert_eq!(edges.len(), pairs.len());
        for &(u, v, w) in &edges {
            assert!(entries.contains(&(u, v, w)));
            assert!(pairs.contains(&(u.min(v), u.max(v))));
        }
        let found: HashSet<(i64, i64)> =
            edges.iter().map(|&(u, v, _)| (u.min(v), u.max(v))).collect();
        assert_eq!(found, pairs);
    }
}
