//! Why no spanning tree is lighter than a tree of lightest edges.

use crate::graph::{has_entry, row, Adjacency};
use crate::paths::is_discovery_trace;
use crate::spanning::{edge_weighed, is_greedy_tree, lightest_out, not_lighter, weight_sum};
use vstd::prelude::*;

verus! {

/// Every entry has its mirror: the graph is undirected.
pub open spec fn symmetric(g: Adjacency) -> bool {
    forall|u: i64, v: i64, w: i64| #[trigger] has_entry(g, u, v, w) ==> has_entry(g, v, u, w)
}

/// The edge `e`, given as `(end, end, weight)`, joins `a` and `b`.
pub open spec fn joins(e: (i64, i64, i64), a: i64, b: i64) -> bool {
    (e.0 == a && e.1 == b) || (e.0 == b && e.1 == a)
}

/// Some edge of `t` joins `a` and `b`.
pub open spec fn linked_by(t: Seq<(i64, i64, i64)>, a: i64, b: i64) -> bool {
    exists|j: int| 0 <= j < t.len() && joins(#[trigger] t[j], a, b)
}

/// Some edge of `t` joins the node of position `i` of `z` and the next.
pub open spec fn hop_linked(t: Seq<(i64, i64, i64)>, z: Seq<i64>, i: int) -> bool {
    linked_by(t, z[i], z[i + 1])
}

/// `z` lists the nodes of a walk over edges of `t`.
pub open spec fn is_chain(t: Seq<(i64, i64, i64)>, z: Seq<i64>) -> bool {
    &&& z.len() >= 1
    &&& forall|i: int| 0 <= i < z.len() - 1 ==> #[trigger] hop_linked(t, z, i)
}

/// Some walk over edges of `t` leads from `a` to `b`.
pub open spec fn connects(t: Seq<(i64, i64, i64)>, a: i64, b: i64) -> bool {
    exists|z: Seq<i64>| #[trigger] is_chain(t, z) && z[0] == a && z.last() == b
}

/// The weights of the edges of `t`, summed.
pub open spec fn tree_weight(t: Seq<(i64, i64, i64)>) -> int
    decreases t.len(),
{
    if t.len() == 0 {
        0
    } else {
        tree_weight(t.drop_last()) + t.last().2
    }
}

/// `t` spans `nodes`: it has one edge less than there are nodes, its edges
/// are entries of the graph, and it connects the first node to every node.
pub open spec fn is_spanning(g: Adjacency, nodes: Seq<i64>, t: Seq<(i64, i64, i64)>) -> bool {
    &&& t.len() + 1 == nodes.len()
    &&& forall|j: int| 0 <= j < t.len() ==> has_entry(g, (#[trigger] t[j]).0, t[j].1, t[j].2)
    &&& forall|i: int| 0 <= i < nodes.len() ==> connects(t, nodes[0], #[trigger] nodes[i])
}

/// The tree edges with their weights, as one sequence.
pub open spec fn weighted_edges(edges: Seq<(i64, i64)>, weights: Seq<i64>) -> Seq<(i64, i64, i64)> {
    Seq::new(edges.len(), |k: int| (edges[k].0, edges[k].1, weights[k]))
}

/// Every node is connected to itself.
pub proof fn lemma_connects_self(t: Seq<(i64, i64, i64)>, a: i64)
    ensures
        connects(t, a, a),
{
    let z = seq![a];
    assert(is_chain(t, z));
    assert(z[0] == a && z.last() == a);
}

/// A connection goes on over one more edge.
pub proof fn lemma_connects_step(t: Seq<(i64, i64, i64)>, a: i64, b: i64, c: i64)
    requires
        connects(t, a, b),
        linked_by(t, b, c),
    ensures
        connects(t, a, c),
{
    let z = choose|z: Seq<i64>| #[trigger] is_chain(t, z) && z[0] == a && z.last() == b;
    let y = z.push(c);
    assert forall|i: int| 0 <= i < y.len() - 1 implies #[trigger] hop_linked(t, y, i) by {
        if i < z.len() - 1 {
            assert(hop_linked(t, z, i));
            assert(y[i] == z[i] && y[i + 1] == z[i + 1]);
        } else {
            assert(y[i] == b && y[i + 1] == c);
        }
    }
    assert(is_chain(t, y));
    assert(y[0] == a && y.last() == c);
}

/// What is connected to the first node of a walk is connected to each of
/// its nodes.
proof fn lemma_connects_along(t: Seq<(i64, i64, i64)>, a: i64, z: Seq<i64>, m: int)
    requires
        connects(t, a, z[0]),
        is_chain(t, z),
        0 <= m < z.len(),
    ensures
        connects(t, a, z[m]),
    decreases m,
{
    if m > 0 {
        lemma_connects_along(t, a, z, m - 1);
        assert(hop_linked(t, z, m - 1));
        lemma_connects_step(t, a, z[m - 1], z[m]);
    }
}

/// Connections follow one another.
pub proof fn lemma_connects_trans(t: Seq<(i64, i64, i64)>, a: i64, b: i64, c: i64)
    requires
        connects(t, a, b),
        connects(t, b, c),
    ensures
        connects(t, a, c),
{
    let z = choose|z: Seq<i64>| #[trigger] is_chain(t, z) && z[0] == b && z.last() == c;
    lemma_connects_along(t, a, z, z.len() - 1);
}

/// Each node of a walk is connected to its first.
proof fn lemma_connects_back(t: Seq<(i64, i64, i64)>, z: Seq<i64>, m: int)
    requires
        is_chain(t, z),
        0 <= m < z.len(),
    ensures
        connects(t, z[m], z[0]),
    decreases m,
{
    if m == 0 {
        lemma_connects_self(t, z[0]);
    } else {
        lemma_connects_back(t, z, m - 1);
        assert(hop_linked(t, z, m - 1));
        let j = choose|j: int| 0 <= j < t.len() && joins(#[trigger] t[j], z[m - 1], z[m]);
        assert(joins(t[j], z[m], z[m - 1]));
        assert(linked_by(t, z[m], z[m - 1]));
        lemma_connects_self(t, z[m]);
        lemma_connects_step(t, z[m], z[m], z[m - 1]);
        lemma_connects_trans(t, z[m], z[m - 1], z[0]);
    }
}

/// A connection holds in both directions.
pub proof fn lemma_connects_sym(t: Seq<(i64, i64, i64)>, a: i64, b: i64)
    requires
        connects(t, a, b),
    ensures
        connects(t, b, a),
{
    let z = choose|z: Seq<i64>| #[trigger] is_chain(t, z) && z[0] == a && z.last() == b;
    lemma_connects_back(t, z, z.len() - 1);
}

/// The weight of a sequence of edges in which one edge was replaced.
proof fn lemma_weight_update(t: Seq<(i64, i64, i64)>, j: int, e: (i64, i64, i64))
    requires
        0 <= j < t.len(),
    ensures
        tree_weight(t.update(j, e)) == tree_weight(t) - t[j].2 + e.2,
    decreases t.len(),
{
    let u = t.update(j, e);
    if j == t.len() - 1 {
        assert(u.drop_last() == t.drop_last());
    } else {
        assert(u.drop_last() == t.drop_last().update(j, e));
        lemma_weight_update(t.drop_last(), j, e);
    }
}

/// The edge `e` is the tree edge `pe` of weight `w`, in either direction.
spec fn same_edge(e: (i64, i64, i64), pe: (i64, i64), w: i64) -> bool {
    e.2 == w && joins(e, pe.0, pe.1)
}

/// The first `k` edges of `t` are the first `k` tree edges.
spec fn agrees(t: Seq<(i64, i64, i64)>, edges: Seq<(i64, i64)>, weights: Seq<i64>, k: int) -> bool {
    forall|j: int| 0 <= j < k ==> #[trigger] same_edge(t[j], edges[j], weights[j])
}

/// Both ends of a tree edge are among the nodes up to the one it leads to.
proof fn lemma_edge_ends(g: Adjacency, nodes: Seq<i64>, edges: Seq<(i64, i64)>, j: int, k: int)
    requires
        is_discovery_trace(g, nodes, edges),
        nodes.len() == edges.len() + 1,
        0 <= j < k <= edges.len(),
    ensures
        nodes.take(k + 1).contains(edges[j].0),
        nodes.take(k + 1).contains(edges[j].1),
{
    let e = edges[j];
    let i = choose|i: int| 0 <= i <= j && i < nodes.len() && nodes[i] == edges[j].0;
    assert(nodes.take(k + 1)[i] == e.0);
    assert(nodes.take(k + 1)[j + 1] == e.1);
}

/// Edges that agree with the first `k` tree edges connect the first
/// `k + 1` nodes.
proof fn lemma_prefix_connected(
    g: Adjacency,
    nodes: Seq<i64>,
    edges: Seq<(i64, i64)>,
    weights: Seq<i64>,
    t: Seq<(i64, i64, i64)>,
    k: int,
    m: int,
)
    requires
        is_discovery_trace(g, nodes, edges),
        nodes.len() == edges.len() + 1,
        t.len() == edges.len(),
        agrees(t, edges, weights, k),
        0 <= m <= k <= edges.len(),
    ensures
        connects(t, nodes[0], nodes[m]),
    decreases m,
{
    if m == 0 {
        lemma_connects_self(t, nodes[0]);
    } else {
        let e = edges[m - 1];
        let i = choose|i: int| 0 <= i <= m - 1 && i < nodes.len() && nodes[i] == edges[m - 1].0;
        lemma_prefix_connected(g, nodes, edges, weights, t, k, i);
        assert(same_edge(t[m - 1], edges[m - 1], weights[m - 1]));
        assert(joins(t[m - 1], nodes[i], nodes[m]));
        assert(linked_by(t, nodes[i], nodes[m]));
        lemma_connects_step(t, nodes[0], nodes[i], nodes[m]);
    }
}

/// The last position of a walk that begins inside and ends outside at
/// which it is inside.
proof fn lemma_last_inside(inside: Seq<i64>, z: Seq<i64>, n: int) -> (i: int)
    requires
        z.len() >= 1,
        inside.contains(z[0]),
        0 <= n < z.len(),
        forall|m: int| n < m < z.len() ==> !inside.contains(#[trigger] z[m]),
    ensures
        0 <= i <= n,
        inside.contains(z[i]),
        forall|m: int| i < m < z.len() ==> !inside.contains(#[trigger] z[m]),
    decreases n,
{
    if inside.contains(z[n]) {
        n
    } else {
        lemma_last_inside(inside, z, n - 1)
    }
}

/// An edge that leads out of `inside` weighs no less than the lightest
/// way out.
proof fn lemma_crossing_weight(
    g: Adjacency,
    inside: Seq<i64>,
    c: i64,
    f: (i64, i64, i64),
    a: i64,
    b: i64,
)
    requires
        symmetric(g),
        lightest_out(g, inside, c),
        has_entry(g, f.0, f.1, f.2),
        joins(f, a, b),
        inside.contains(a),
        !inside.contains(b),
    ensures
        c <= f.2,
{
    assert(has_entry(g, a, b, f.2)) by {
        if f.0 != a {
            assert(has_entry(g, f.1, f.0, f.2));
        }
    }
    let i = choose|i: int| 0 <= i < row(g, a).len() && #[trigger] row(g, a)[i] == (b, f.2);
    assert(not_lighter(inside, c, row(g, a)[i]));
}

/// `t` with the edge of position `j` taken out, the edge of position `k`
/// moved to that position, and `e` put at position `k`.
spec fn swapped(t: Seq<(i64, i64, i64)>, j: int, k: int, e: (i64, i64, i64)) -> Seq<
    (i64, i64, i64),
> {
    t.update(j, t[k]).update(k, e)
}

/// The weight of the swapped sequence.
proof fn lemma_swapped_weight(t: Seq<(i64, i64, i64)>, j: int, k: int, e: (i64, i64, i64))
    requires
        0 <= j < t.len(),
        0 <= k < t.len(),
    ensures
        tree_weight(swapped(t, j, k, e)) == tree_weight(t) - t[j].2 + e.2,
{
    lemma_weight_update(t, j, t[k]);
    lemma_weight_update(t.update(j, t[k]), k, e);
}

/// What an edge of `t` other than that of position `j` joins, an edge of
/// the swapped sequence joins as well.
proof fn lemma_swapped_keeps(
    t: Seq<(i64, i64, i64)>,
    j: int,
    k: int,
    e: (i64, i64, i64),
    i: int,
    p: i64,
    q: i64,
)
    requires
        0 <= j < t.len(),
        0 <= k < t.len(),
        0 <= i < t.len(),
        i != j,
        joins(t[i], p, q),
    ensures
        linked_by(swapped(t, j, k, e), p, q),
{
    let t2 = swapped(t, j, k, e);
    if i == k {
        assert(t2[j] == t[k]);
        assert(joins(t2[j], p, q));
    } else {
        assert(t2[i] == t[i]);
        assert(joins(t2[i], p, q));
    }
}

/// A walk over `t` can be made over the swapped sequence, given that the
/// ends of the edge taken out are still connected.
proof fn lemma_rewalk(
    t: Seq<(i64, i64, i64)>,
    j: int,
    k: int,
    e: (i64, i64, i64),
    a: i64,
    b: i64,
    z: Seq<i64>,
    m: int,
)
    requires
        0 <= j < t.len(),
        0 <= k < t.len(),
        joins(t[j], a, b),
        connects(swapped(t, j, k, e), a, b),
        is_chain(t, z),
        0 <= m < z.len(),
    ensures
        connects(swapped(t, j, k, e), z[0], z[m]),
    decreases m,
{
    let t2 = swapped(t, j, k, e);
    if m == 0 {
        lemma_connects_self(t2, z[0]);
    } else {
        lemma_rewalk(t, j, k, e, a, b, z, m - 1);
        assert(hop_linked(t, z, m - 1));
        let i = choose|i: int| 0 <= i < t.len() && joins(#[trigger] t[i], z[m - 1], z[m]);
        if i == j {
            if z[m - 1] == a {
                lemma_connects_trans(t2, z[0], a, b);
            } else {
                lemma_connects_sym(t2, a, b);
                lemma_connects_trans(t2, z[0], b, a);
            }
        } else {
            lemma_swapped_keeps(t, j, k, e, i, z[m - 1], z[m]);
            lemma_connects_step(t2, z[0], z[m - 1], z[m]);
        }
    }
}

/// The part of a walk over `t` that runs outside `inside` is a walk over
/// the swapped sequence, the edge taken out having an end inside.
proof fn lemma_outside_walk(
    t: Seq<(i64, i64, i64)>,
    j: int,
    k: int,
    e: (i64, i64, i64),
    inside: Seq<i64>,
    a: i64,
    b: i64,
    z: Seq<i64>,
    i: int,
)
    requires
        0 <= j < t.len(),
        0 <= k < t.len(),
        joins(t[j], a, b),
        inside.contains(a),
        is_chain(t, z),
        0 <= i < z.len() - 1,
        forall|m: int| i < m < z.len() ==> !inside.contains(#[trigger] z[m]),
    ensures
        connects(swapped(t, j, k, e), z[i + 1], z.last()),
{
    let t2 = swapped(t, j, k, e);
    let tail = z.subrange(i + 1, z.len() as int);
    assert forall|m: int| 0 <= m < tail.len() - 1 implies #[trigger] hop_linked(t2, tail, m) by {
        assert(hop_linked(t, z, i + 1 + m));
        let i2 = choose|i2: int|
            0 <= i2 < t.len() && joins(#[trigger] t[i2], z[i + 1 + m], z[i + 1 + m + 1]);
        assert(!inside.contains(z[i + 1 + m]));
        assert(!inside.contains(z[i + 1 + m + 1]));
        lemma_swapped_keeps(t, j, k, e, i2, z[i + 1 + m], z[i + 1 + m + 1]);
        assert(tail[m] == z[i + 1 + m] && tail[m + 1] == z[i + 1 + m + 1]);
    }
    assert(is_chain(t2, tail));
    assert(tail[0] == z[i + 1] && tail.last() == z.last());
}

/// A spanning edge sequence that agrees with the first `k` tree edges is
/// made to agree with one more, at no more weight: the tree edge of
/// position `k` takes the place of an edge that leads out of the first
/// `k + 1` nodes.
proof fn lemma_exchange(
    g: Adjacency,
    nodes: Seq<i64>,
    edges: Seq<(i64, i64)>,
    weights: Seq<i64>,
    t: Seq<(i64, i64, i64)>,
    k: int,
) -> (t2: Seq<(i64, i64, i64)>)
    requires
        symmetric(g),
        is_discovery_trace(g, nodes, edges),
        nodes.len() == edges.len() + 1,
        weights.len() == edges.len(),
        forall|i: int| 0 <= i < edges.len() ==> #[trigger] edge_weighed(g, nodes, edges, weights, i),
        is_spanning(g, nodes, t),
        agrees(t, edges, weights, k),
        0 <= k < edges.len(),
    ensures
        is_spanning(g, nodes, t2),
        agrees(t2, edges, weights, k + 1),
        tree_weight(t2) <= tree_weight(t),
{
    let inside = nodes.take(k + 1);
    let y = nodes[k + 1];
    let x = edges[k].0;
    let c = weights[k];
    let e = (x, y, c);
    assert(edge_weighed(g, nodes, edges, weights, k));
    assert(edges[k].1 == y);
    assert(!inside.contains(y)) by {
        if inside.contains(y) {
            let i = choose|i: int| 0 <= i < inside.len() && inside[i] == y;
            assert(nodes[i] == nodes[k + 1]);
        }
    }
    assert(inside[0] == nodes[0]);
    assert(connects(t, nodes[0], nodes[k + 1]));
    let z = choose|z: Seq<i64>| #[trigger] is_chain(t, z) && z[0] == nodes[0] && z.last() == y;
    let i = lemma_last_inside(inside, z, z.len() - 1);
    let a = z[i];
    let b = z[i + 1];
    assert(hop_linked(t, z, i));
    let j = choose|j: int| 0 <= j < t.len() && joins(#[trigger] t[j], a, b);
    assert(j >= k) by {
        if j < k {
            assert(same_edge(t[j], edges[j], weights[j]));
            lemma_edge_ends(g, nodes, edges, j, k);
        }
    }
    lemma_crossing_weight(g, inside, c, t[j], a, b);
    let t2 = swapped(t, j, k, e);
    lemma_swapped_weight(t, j, k, e);
    assert forall|i2: int| 0 <= i2 < k + 1 implies #[trigger] same_edge(
        t2[i2],
        edges[i2],
        weights[i2],
    ) by {
        if i2 < k {
            assert(same_edge(t[i2], edges[i2], weights[i2]));
            assert(t2[i2] == t[i2]);
        }
    }
    assert forall|i2: int| 0 <= i2 < t2.len() implies has_entry(
        g,
        (#[trigger] t2[i2]).0,
        t2[i2].1,
        t2[i2].2,
    ) by {
        if i2 == k {
        } else if i2 == j {
            assert(t2[i2] == t[k]);
        } else {
            assert(t2[i2] == t[i2]);
        }
    }
    let ia = choose|ia: int| 0 <= ia < inside.len() && inside[ia] == a;
    assert(nodes[ia] == a);
    lemma_prefix_connected(g, nodes, edges, weights, t2, k + 1, ia);
    lemma_prefix_connected(g, nodes, edges, weights, t2, k + 1, k + 1);
    lemma_connects_sym(t2, nodes[0], a);
    lemma_connects_trans(t2, a, nodes[0], y);
    lemma_outside_walk(t, j, k, e, inside, a, b, z, i);
    lemma_connects_sym(t2, b, y);
    lemma_connects_trans(t2, a, y, b);
    assert forall|i2: int| 0 <= i2 < nodes.len() implies connects(
        t2,
        nodes[0],
        #[trigger] nodes[i2],
    ) by {
        assert(connects(t, nodes[0], nodes[i2]));
        let w = choose|w: Seq<i64>|
            #[trigger] is_chain(t, w) && w[0] == nodes[0] && w.last() == nodes[i2];
        lemma_rewalk(t, j, k, e, a, b, w, w.len() - 1);
    }
    t2
}

/// A spanning edge sequence is made to agree with all tree edges, at no
/// more weight.
proof fn lemma_exchange_all(
    g: Adjacency,
    nodes: Seq<i64>,
    edges: Seq<(i64, i64)>,
    weights: Seq<i64>,
    t: Seq<(i64, i64, i64)>,
    k: int,
) -> (t2: Seq<(i64, i64, i64)>)
    requires
        symmetric(g),
        is_discovery_trace(g, nodes, edges),
        nodes.len() == edges.len() + 1,
        weights.len() == edges.len(),
        forall|i: int| 0 <= i < edges.len() ==> #[trigger] edge_weighed(g, nodes, edges, weights, i),
        is_spanning(g, nodes, t),
        agrees(t, edges, weights, k),
        0 <= k <= edges.len(),
    ensures
        is_spanning(g, nodes, t2),
        agrees(t2, edges, weights, edges.len() as int),
        tree_weight(t2) <= tree_weight(t),
    decreases edges.len() - k,
{
    if k == edges.len() {
        t
    } else {
        let next = lemma_exchange(g, nodes, edges, weights, t, k);
        lemma_exchange_all(g, nodes, edges, weights, next, k + 1)
    }
}

/// Edges that agree with the tree edges weigh what the tree edges weigh.
proof fn lemma_agreed_weight(
    t: Seq<(i64, i64, i64)>,
    edges: Seq<(i64, i64)>,
    weights: Seq<i64>,
    n: int,
)
    requires
        agrees(t, edges, weights, n),
        0 <= n <= t.len(),
        n <= weights.len(),
    ensures
        tree_weight(t.take(n)) == weight_sum(weights.take(n)),
    decreases n,
{
    if n > 0 {
        lemma_agreed_weight(t, edges, weights, n - 1);
        assert(t.take(n).drop_last() == t.take(n - 1));
        assert(weights.take(n).drop_last() == weights.take(n - 1));
        assert(same_edge(t[n - 1], edges[n - 1], weights[n - 1]));
    }
}

/// `t` spans `nodes`, and no edge sequence that does weighs less.
pub open spec fn is_minimum_spanning_tree(
    g: Adjacency,
    nodes: Seq<i64>,
    t: Seq<(i64, i64, i64)>,
) -> bool {
    &&& is_spanning(g, nodes, t)
    &&& forall|other: Seq<(i64, i64, i64)>| #[trigger]
        is_spanning(g, nodes, other) ==> tree_weight(t) <= tree_weight(other)
}

/// A tree of lightest edges spans its nodes, and its weight is the sum
/// of the weights of its edges.
pub proof fn lemma_greedy_tree_spans(
    g: Adjacency,
    s: i64,
    nodes: Seq<i64>,
    edges: Seq<(i64, i64)>,
    weights: Seq<i64>,
    total: int,
)
    requires
        is_greedy_tree(g, s, nodes, edges, weights, total),
    ensures
        is_spanning(g, nodes, weighted_edges(edges, weights)),
        tree_weight(weighted_edges(edges, weights)) == total,
{
    let t = weighted_edges(edges, weights);
    assert forall|j: int| 0 <= j < edges.len() implies #[trigger] same_edge(
        t[j],
        edges[j],
        weights[j],
    ) by {}
    assert forall|j: int| 0 <= j < t.len() implies has_entry(g, (#[trigger] t[j]).0, t[j].1, t[j].2) by {
        assert(edge_weighed(g, nodes, edges, weights, j));
    }
    assert forall|i: int| 0 <= i < nodes.len() implies connects(t, nodes[0], #[trigger] nodes[i]) by {
        lemma_prefix_connected(g, nodes, edges, weights, t, edges.len() as int, i);
    }
    lemma_agreed_weight(t, edges, weights, edges.len() as int);
    assert(t.take(edges.len() as int) == t);
    assert(weights.take(edges.len() as int) == weights);
}

/// In an undirected graph no edge sequence that spans the nodes of a tree
/// of lightest edges weighs less than that tree.
pub proof fn lemma_no_lighter_tree(
    g: Adjacency,
    s: i64,
    nodes: Seq<i64>,
    edges: Seq<(i64, i64)>,
    weights: Seq<i64>,
    total: int,
    t: Seq<(i64, i64, i64)>,
)
    requires
        symmetric(g),
        is_greedy_tree(g, s, nodes, edges, weights, total),
        is_spanning(g, nodes, t),
    ensures
        total <= tree_weight(t),
{
    assert(agrees(t, edges, weights, 0));
    let full = lemma_exchange_all(g, nodes, edges, weights, t, 0);
    lemma_agreed_weight(full, edges, weights, edges.len() as int);
    assert(full.take(edges.len() as int) == full);
    assert(weights.take(edges.len() as int) == weights);
}

/// In an undirected graph a tree of lightest edges is a minimum spanning
/// tree of its nodes.
pub proof fn lemma_greedy_tree_is_minimum(
    g: Adjacency,
    s: i64,
    nodes: Seq<i64>,
    edges: Seq<(i64, i64)>,
    weights: Seq<i64>,
    total: int,
)
    requires
        symmetric(g),
        is_greedy_tree(g, s, nodes, edges, weights, total),
    ensures
        is_minimum_spanning_tree(g, nodes, weighted_edges(edges, weights)),
        tree_weight(weighted_edges(edges, weights)) == total,
{
    lemma_greedy_tree_spans(g, s, nodes, edges, weights, total);
    assert forall|other: Seq<(i64, i64, i64)>| #[trigger]
        is_spanning(g, nodes, other) implies tree_weight(weighted_edges(edges, weights))
        <= tree_weight(other) by {
        lemma_no_lighter_tree(g, s, nodes, edges, weights, total, other);
    }
}

} // verus!
