//! Walks through a graph, and what a traversal's trace has to look like.

use crate::graph::{has_edge, Adjacency};
use vstd::prelude::*;

verus! {

/// `p` lists the nodes of a walk: each is joined to the next by an entry.
pub open spec fn is_walk(g: Adjacency, p: Seq<i64>) -> bool {
    &&& p.len() >= 1
    &&& forall|i: int| 0 <= i < p.len() - 1 ==> has_edge(g, #[trigger] p[i], p[i + 1])
}

/// Some walk leads from `s` to `v`.
pub open spec fn reaches(g: Adjacency, s: i64, v: i64) -> bool {
    exists|p: Seq<i64>| is_walk(g, p) && p[0] == s && #[trigger] p.last() == v
}

/// The nodes that `s` reaches, itself among them.
pub open spec fn reachable(g: Adjacency, s: i64) -> Set<i64> {
    Set::new(|v: i64| reaches(g, s, v))
}

/// Every entry that leaves a node of `nodes` leads to a node of `nodes`.
pub open spec fn closed_under_edges(g: Adjacency, nodes: Set<i64>) -> bool {
    forall|x: i64, y: i64| nodes.contains(x) && has_edge(g, x, y) ==> nodes.contains(y)
}

/// A trace as the traversals emit it: no node is visited twice, and the
/// edge of position `k` leads to the node of position `k + 1`, is an entry
/// of the graph, and leaves a node visited at position `k` or earlier.
pub open spec fn is_discovery_trace(g: Adjacency, nodes: Seq<i64>, edges: Seq<(i64, i64)>)
    -> bool {
    &&& nodes.no_duplicates()
    &&& forall|k: int|
        0 <= k < edges.len() ==> {
            &&& has_edge(g, (#[trigger] edges[k]).0, edges[k].1)
            &&& k + 1 < nodes.len() ==> nodes[k + 1] == edges[k].1
            &&& exists|j: int| 0 <= j <= k && j < nodes.len() && nodes[j] == edges[k].0
        }
}

/// Every node reaches itself.
pub proof fn lemma_reaches_self(g: Adjacency, s: i64)
    ensures
        reaches(g, s, s),
{
    let p = seq![s];
    assert(is_walk(g, p));
    assert(p[0] == s && p.last() == s);
}

/// A walk goes on over one more entry.
pub proof fn lemma_reaches_step(g: Adjacency, s: i64, u: i64, v: i64)
    requires
        reaches(g, s, u),
        has_edge(g, u, v),
    ensures
        reaches(g, s, v),
{
    let p = choose|p: Seq<i64>| is_walk(g, p) && p[0] == s && #[trigger] p.last() == u;
    let q = p.push(v);
    assert forall|i: int| 0 <= i < q.len() - 1 implies has_edge(g, #[trigger] q[i], q[i + 1]) by {
        if i < p.len() - 1 {
            assert(q[i] == p[i] && q[i + 1] == p[i + 1]);
        }
    }
    assert(is_walk(g, q));
    assert(q[0] == s && q.last() == v);
}

/// A walk that begins behind an entry begins before it as well.
pub proof fn lemma_reaches_from_head(g: Adjacency, u: i64, v: i64, x: i64)
    requires
        has_edge(g, u, v),
        reaches(g, v, x),
    ensures
        reaches(g, u, x),
{
    let p = choose|p: Seq<i64>| is_walk(g, p) && p[0] == v && #[trigger] p.last() == x;
    let q = seq![u] + p;
    assert forall|i: int| 0 <= i < q.len() - 1 implies has_edge(g, #[trigger] q[i], q[i + 1]) by {
        if i > 0 {
            assert(q[i] == p[i - 1] && q[i + 1] == p[i]);
        } else {
            assert(q[0] == u && q[1] == p[0]);
        }
    }
    assert(is_walk(g, q));
    assert(q[0] == u && q.last() == x);
}

/// A set that holds `s` and is closed under the entries holds all that `s`
/// reaches.
pub proof fn lemma_closed_holds_reachable(g: Adjacency, nodes: Set<i64>, s: i64)
    requires
        nodes.contains(s),
        closed_under_edges(g, nodes),
    ensures
        reachable(g, s).subset_of(nodes),
{
    assert forall|v: i64| reachable(g, s).contains(v) implies nodes.contains(v) by {
        let p = choose|p: Seq<i64>| is_walk(g, p) && p[0] == s && #[trigger] p.last() == v;
        lemma_walk_stays(g, nodes, p, p.len() - 1);
    }
}

/// A walk that begins in a set closed under the entries stays in it.
proof fn lemma_walk_stays(g: Adjacency, nodes: Set<i64>, p: Seq<i64>, i: int)
    requires
        is_walk(g, p),
        nodes.contains(p[0]),
        closed_under_edges(g, nodes),
        0 <= i < p.len(),
    ensures
        nodes.contains(p[i]),
    decreases i,
{
    if i > 0 {
        lemma_walk_stays(g, nodes, p, i - 1);
        assert(has_edge(g, p[i - 1], p[i - 1 + 1]));
    }
}

} // verus!
