//! Why the tree construction builds a spanning tree of lightest edges.

use crate::dijkstra::best;
use crate::graph::{has_edge, has_entry, row, Adjacency};
use crate::paths::{
    closed_under_edges, is_discovery_trace, lemma_closed_holds_reachable, lemma_reaches_self,
    lemma_reaches_step, reachable, reaches,
};
use crate::prim::{
    halts_at, lemma_prim_halts, offer, offer_row, outcome, run, settle, start, step, PrimState,
};
use crate::queue::{first_min, is_first_min, lemma_first_min_exists};
use vstd::prelude::*;

verus! {

/// The weights summed.
pub open spec fn weight_sum(weights: Seq<i64>) -> int
    decreases weights.len(),
{
    if weights.len() == 0 {
        0
    } else {
        weight_sum(weights.drop_last()) + weights.last()
    }
}

/// The entry `e` does not lead out of `inside` at less than `w`.
pub open spec fn not_lighter(inside: Seq<i64>, w: i64, e: (i64, i64)) -> bool {
    inside.contains(e.0) || w <= e.1
}

/// No entry that leads from a node of `inside` to a node outside weighs
/// less than `w`.
pub open spec fn lightest_out(g: Adjacency, inside: Seq<i64>, w: i64) -> bool {
    forall|x: i64, i: int|
        inside.contains(x) && 0 <= i < row(g, x).len() ==> not_lighter(
            inside,
            w,
            #[trigger] row(g, x)[i],
        )
}

/// The tree edge of position `k` is an entry of weight `weights[k]`, and
/// no entry leads out of the nodes that were in the tree before it at less.
pub open spec fn edge_weighed(
    g: Adjacency,
    nodes: Seq<i64>,
    edges: Seq<(i64, i64)>,
    weights: Seq<i64>,
    k: int,
) -> bool {
    &&& has_entry(g, edges[k].0, edges[k].1, weights[k])
    &&& lightest_out(g, nodes.take(k + 1), weights[k])
}

/// No entry of the graph has the weight `i64::MAX`, which stands for "no
/// entry known" and is therefore never taken.
pub open spec fn no_max_weight(g: Adjacency) -> bool {
    forall|u: i64, i: int| 0 <= i < row(g, u).len() ==> (#[trigger] row(g, u)[i]).1 < i64::MAX
}

/// The tree that the construction from `s` leaves: a discovery trace from
/// `s`, each of its edges the lightest way out of the tree at its time,
/// with the weights of the edges summed up in `total`.
pub open spec fn is_greedy_tree(
    g: Adjacency,
    s: i64,
    nodes: Seq<i64>,
    edges: Seq<(i64, i64)>,
    weights: Seq<i64>,
    total: int,
) -> bool {
    &&& is_discovery_trace(g, nodes, edges)
    &&& nodes.len() == edges.len() + 1
    &&& nodes[0] == s
    &&& weights.len() == edges.len()
    &&& total == weight_sum(weights)
    &&& forall|k: int| 0 <= k < edges.len() ==> #[trigger] edge_weighed(g, nodes, edges, weights, k)
}

/// The node `v` waits in the queue at the weight known for it.
spec fn waits(st: PrimState, v: i64) -> bool {
    st.queue.contains((st.dist[v], v))
}

/// The weight known for `v` is that of an entry from its parent, which is
/// in the tree.
spec fn linked(g: Adjacency, st: PrimState, v: i64) -> bool {
    &&& st.parent.contains_key(v)
    &&& st.nodes.contains(st.parent[v])
    &&& has_entry(g, st.parent[v], v, st.dist[v])
}

/// The entry `e` leads into the tree or is no lighter than what is known
/// for its head.
spec fn offered(st: PrimState, e: (i64, i64)) -> bool {
    st.nodes.contains(e.0) || e.1 >= best(st.dist, e.0)
}

/// The tree begins with the source, has one node more than edges and no
/// node twice, and every node of it has a weight known.
spec fn anchored(s: i64, st: PrimState) -> bool {
    &&& st.dist.contains_key(s)
    &&& st.nodes.no_duplicates()
    &&& st.nodes.len() == 0 ==> st == start(s)
    &&& st.nodes.len() > 0 ==> st.nodes[0] == s && st.nodes.len() == st.edges.len() + 1
    &&& st.weights.len() == st.edges.len()
    &&& st.total == weight_sum(st.weights)
    &&& forall|j: int| 0 <= j < st.nodes.len() ==> st.dist.contains_key(#[trigger] st.nodes[j])
}

/// Every node with a weight known, but the source, is linked.
spec fn linked_all(g: Adjacency, s: i64, st: PrimState) -> bool {
    forall|v: i64| #[trigger] st.dist.contains_key(v) && v != s ==> linked(g, st, v)
}

/// Every tree edge is weighed.
spec fn weighed(g: Adjacency, st: PrimState) -> bool {
    forall|k: int|
        0 <= k < st.edges.len() ==> #[trigger] edge_weighed(g, st.nodes, st.edges, st.weights, k)
}

/// Every node with a weight known that is outside the tree waits at that
/// weight.
spec fn waiting(st: PrimState) -> bool {
    forall|v: i64| st.dist.contains_key(v) && !st.nodes.contains(v) ==> #[trigger] waits(st, v)
}

/// No entry waits at less than the weight known for its node.
spec fn queue_sound(st: PrimState) -> bool {
    forall|i: int|
        0 <= i < st.queue.len() ==> st.dist.contains_key((#[trigger] st.queue[i]).1)
            && st.queue[i].0 >= st.dist[st.queue[i].1]
}

/// The source reaches every node of the tree.
spec fn reached(g: Adjacency, s: i64, st: PrimState) -> bool {
    forall|j: int| 0 <= j < st.nodes.len() ==> reaches(g, s, #[trigger] st.nodes[j])
}

/// What holds of the state throughout.
spec fn grounded(g: Adjacency, s: i64, st: PrimState) -> bool {
    &&& anchored(s, st)
    &&& is_discovery_trace(g, st.nodes, st.edges)
    &&& linked_all(g, s, st)
    &&& weighed(g, st)
    &&& waiting(st)
    &&& queue_sound(st)
    &&& reached(g, s, st)
}

/// Every entry that leaves a tree node has been offered, but for the
/// entries of `u` from position `n` on.
spec fn offered_but(g: Adjacency, st: PrimState, u: i64, n: int) -> bool {
    forall|x: i64, i: int|
        st.nodes.contains(x) && 0 <= i < row(g, x).len() && (x != u || i < n) ==> offered(
            st,
            #[trigger] row(g, x)[i],
        )
}

/// Every entry that leaves a tree node has been offered.
spec fn offered_all(g: Adjacency, st: PrimState) -> bool {
    forall|x: i64, i: int|
        st.nodes.contains(x) && 0 <= i < row(g, x).len() ==> offered(st, #[trigger] row(g, x)[i])
}

/// The state while the row of the tree node `u` is read, its first `n`
/// entries being done.
spec fn reading(g: Adjacency, s: i64, st: PrimState, u: i64, n: int) -> bool {
    &&& grounded(g, s, st)
    &&& offered_but(g, st, u, n)
    &&& st.nodes.contains(u)
}

/// The state in which `y` waits anew at the weight `w` of an entry of `u`.
spec fn renewed(st: PrimState, u: i64, y: i64, w: i64) -> PrimState {
    PrimState {
        dist: st.dist.insert(y, w),
        parent: st.parent.insert(y, u),
        queue: st.queue.push((w, y)),
        ..st
    }
}

/// After a renewal every node still waits that has to.
proof fn lemma_renewed_waiting(st: PrimState, u: i64, y: i64, w: i64)
    requires
        waiting(st),
    ensures
        waiting(renewed(st, u, y, w)),
{
    let r = renewed(st, u, y, w);
    assert forall|v: i64| r.dist.contains_key(v) && !r.nodes.contains(v) implies #[trigger] waits(
        r,
        v,
    ) by {
        if v == y {
            assert(r.queue[st.queue.len() as int] == (w, y));
        } else {
            assert(waits(st, v));
            let i = choose|i: int| 0 <= i < st.queue.len() && st.queue[i] == (st.dist[v], v);
            assert(r.queue[i] == (r.dist[v], v));
        }
    }
}

/// After a renewal no entry waits at less than the weight known for its
/// node.
proof fn lemma_renewed_queue(st: PrimState, u: i64, y: i64, w: i64)
    requires
        queue_sound(st),
        w < best(st.dist, y),
    ensures
        queue_sound(renewed(st, u, y, w)),
{
    let r = renewed(st, u, y, w);
    assert forall|i: int| 0 <= i < r.queue.len() implies r.dist.contains_key(
        (#[trigger] r.queue[i]).1,
    ) && r.queue[i].0 >= r.dist[r.queue[i].1] by {
        if i < st.queue.len() {
            assert(r.queue[i] == st.queue[i]);
        }
    }
}

/// After a renewal every node is still linked.
proof fn lemma_renewed_linked(g: Adjacency, s: i64, st: PrimState, u: i64, y: i64, w: i64)
    requires
        linked_all(g, s, st),
        st.nodes.contains(u),
        has_entry(g, u, y, w),
    ensures
        linked_all(g, s, renewed(st, u, y, w)),
{
    let r = renewed(st, u, y, w);
    assert forall|v: i64| #[trigger] r.dist.contains_key(v) && v != s implies linked(g, r, v) by {
        if v != y {
            assert(st.dist.contains_key(v));
            assert(linked(g, st, v));
        }
    }
}

/// One entry of the row of `u` is offered.
proof fn lemma_offer(g: Adjacency, s: i64, st: PrimState, u: i64, n: int)
    requires
        reading(g, s, st, u, n),
        0 <= n < row(g, u).len(),
    ensures
        reading(g, s, offer(st, u, row(g, u)[n]), u, n + 1),
{
    let e = row(g, u)[n];
    let y = e.0;
    let r = offer(st, u, e);
    assert(has_entry(g, u, y, e.1));
    if !st.nodes.contains(y) && e.1 < best(st.dist, y) {
        assert(r == renewed(st, u, y, e.1));
        lemma_renewed_waiting(st, u, y, e.1);
        lemma_renewed_queue(st, u, y, e.1);
        lemma_renewed_linked(g, s, st, u, y, e.1);
        assert(anchored(s, r)) by {
            assert forall|j: int| 0 <= j < r.nodes.len() implies r.dist.contains_key(
                #[trigger] r.nodes[j],
            ) by {
                assert(st.dist.contains_key(st.nodes[j]));
            }
        }
        assert(weighed(g, r)) by {
            assert forall|k: int| 0 <= k < r.edges.len() implies #[trigger] edge_weighed(
                g,
                r.nodes,
                r.edges,
                r.weights,
                k,
            ) by {
                assert(edge_weighed(g, st.nodes, st.edges, st.weights, k));
            }
        }
        assert(reached(g, s, r)) by {
            assert forall|j: int| 0 <= j < r.nodes.len() implies reaches(
                g,
                s,
                #[trigger] r.nodes[j],
            ) by {
                assert(reaches(g, s, st.nodes[j]));
            }
        }
    }
    assert(offered_but(g, r, u, n + 1)) by {
        assert forall|x: i64, i: int|
            r.nodes.contains(x) && 0 <= i < row(g, x).len() && (x != u || i < n + 1)
            implies offered(r, #[trigger] row(g, x)[i]) by {
            if x != u || i < n {
                assert(offered(st, row(g, x)[i]));
            }
        }
    }
}

/// A front part of the row of `u` is offered.
proof fn lemma_offer_row(g: Adjacency, s: i64, st: PrimState, u: i64, list: Seq<(i64, i64)>)
    requires
        reading(g, s, st, u, 0),
        list.len() <= row(g, u).len(),
        list == row(g, u).take(list.len() as int),
    ensures
        reading(g, s, offer_row(st, u, list), u, list.len() as int),
    decreases list.len(),
{
    if list.len() > 0 {
        let front = list.drop_last();
        assert(front == row(g, u).take(front.len() as int));
        lemma_offer_row(g, s, st, u, front);
        assert(list.last() == row(g, u)[list.len() - 1]);
        lemma_offer(g, s, offer_row(st, u, front), u, list.len() - 1);
    }
}

/// An entry other than the one removed is still in the queue.
proof fn lemma_remove_keeps(q: Seq<(i64, i64)>, m: int, x: (i64, i64))
    requires
        0 <= m < q.len(),
        q.contains(x),
        q[m] != x,
    ensures
        q.remove(m).contains(x),
{
    let i = choose|i: int| 0 <= i < q.len() && q[i] == x;
    if i < m {
        assert(q.remove(m)[i] == x);
    } else {
        assert(q.remove(m)[i - 1] == x);
    }
}

/// The state with the entry of position `m` out of the queue.
spec fn popped(st: PrimState, m: int) -> PrimState {
    PrimState { queue: st.queue.remove(m), ..st }
}

/// With an entry out of the queue no entry waits at less than the weight
/// known for its node.
proof fn lemma_popped_queue(st: PrimState, m: int)
    requires
        queue_sound(st),
        0 <= m < st.queue.len(),
    ensures
        queue_sound(popped(st, m)),
{
    let r = popped(st, m);
    assert forall|i: int| 0 <= i < r.queue.len() implies r.dist.contains_key(
        (#[trigger] r.queue[i]).1,
    ) && r.queue[i].0 >= r.dist[r.queue[i].1] by {
        if i < m {
            assert(r.queue[i] == st.queue[i]);
        } else {
            assert(r.queue[i] == st.queue[i + 1]);
        }
    }
}

/// An entry is discarded: its node is in the tree, or it is stale.
proof fn lemma_discard(g: Adjacency, s: i64, st: PrimState, m: int)
    requires
        grounded(g, s, st),
        offered_all(g, st),
        0 <= m < st.queue.len(),
        st.nodes.contains(st.queue[m].1) || st.queue[m].0 > best(st.dist, st.queue[m].1),
    ensures
        grounded(g, s, popped(st, m)),
        offered_all(g, popped(st, m)),
{
    let r = popped(st, m);
    lemma_popped_queue(st, m);
    assert(waiting(r)) by {
        assert forall|v: i64| r.dist.contains_key(v) && !r.nodes.contains(v) implies #[trigger] waits(
            r,
            v,
        ) by {
            assert(waits(st, v));
            lemma_remove_keeps(st.queue, m, (st.dist[v], v));
        }
    }
    assert(st.nodes.len() > 0) by {
        if st.nodes.len() == 0 {
            assert(st.queue[0] == (0i64, s));
        }
    }
    assert(linked_all(g, s, r)) by {
        assert forall|v: i64| #[trigger] r.dist.contains_key(v) && v != s implies linked(g, r, v) by {
            assert(linked(g, st, v));
        }
    }
    assert(weighed(g, r)) by {
        assert forall|k: int| 0 <= k < r.edges.len() implies #[trigger] edge_weighed(
            g,
            r.nodes,
            r.edges,
            r.weights,
            k,
        ) by {
            assert(edge_weighed(g, st.nodes, st.edges, st.weights, k));
        }
    }
    assert(offered_all(g, r)) by {
        assert forall|x: i64, i: int| r.nodes.contains(x) && 0 <= i < row(g, x).len() implies offered(
            r,
            #[trigger] row(g, x)[i],
        ) by {
            assert(offered(st, row(g, x)[i]));
        }
    }
}

/// No entry leads out of the tree at less than the least weight that
/// waits.
proof fn lemma_lightest(g: Adjacency, st: PrimState, c: i64)
    requires
        offered_all(g, st),
        waiting(st),
        forall|i: int| 0 <= i < st.queue.len() ==> c <= (#[trigger] st.queue[i]).0,
    ensures
        lightest_out(g, st.nodes, c),
{
    assert forall|x: i64, i: int| st.nodes.contains(x) && 0 <= i < row(g, x).len() implies not_lighter(
        st.nodes,
        c,
        #[trigger] row(g, x)[i],
    ) by {
        let e = row(g, x)[i];
        assert(offered(st, e));
        if !st.nodes.contains(e.0) && st.dist.contains_key(e.0) {
            assert(waits(st, e.0));
            let k = choose|k: int| 0 <= k < st.queue.len() && st.queue[k] == (st.dist[e.0], e.0);
            assert(c <= st.queue[k].0);
        }
    }
}

/// The source is taken as the first node of the tree.
proof fn lemma_settle_source(g: Adjacency, s: i64)
    ensures
        reading(g, s, settle(popped(start(s), 0), s, 0), s, 0),
{
    let st = start(s);
    let r = settle(popped(st, 0), s, 0);
    assert(r.nodes == seq![s]);
    assert(r.nodes[0] == s);
    assert(r.queue.len() == 0);
    lemma_reaches_self(g, s);
    assert(waiting(r)) by {
        assert forall|v: i64| r.dist.contains_key(v) && !r.nodes.contains(v) implies #[trigger] waits(
            r,
            v,
        ) by {
            assert(v == s);
        }
    }
    assert(offered_but(g, r, s, 0)) by {
        assert forall|x: i64, i: int|
            r.nodes.contains(x) && 0 <= i < row(g, x).len() && (x != s || i < 0) implies offered(
            r,
            #[trigger] row(g, x)[i],
        ) by {
            let j = choose|j: int| 0 <= j < r.nodes.len() && r.nodes[j] == x;
        }
    }
    assert(weight_sum(r.weights) == 0);
    assert(grounded(g, s, r));
}

/// The tree `st` has grown by the node `u`, over the edge from `p` of
/// weight `c`.
spec fn grown(st: PrimState, p: i64, u: i64, c: i64) -> PrimState {
    PrimState {
        nodes: st.nodes.push(u),
        edges: st.edges.push((p, u)),
        weights: st.weights.push(c),
        total: st.total + c,
        ..st
    }
}

/// The grown tree is a discovery trace.
proof fn lemma_grown_trace(g: Adjacency, st: PrimState, p: i64, u: i64, c: i64)
    requires
        is_discovery_trace(g, st.nodes, st.edges),
        st.nodes.len() == st.edges.len() + 1,
        st.nodes.contains(p),
        !st.nodes.contains(u),
        has_edge(g, p, u),
    ensures
        is_discovery_trace(g, grown(st, p, u, c).nodes, grown(st, p, u, c).edges),
{
    let r = grown(st, p, u, c);
    let jp = choose|j: int| 0 <= j < st.nodes.len() && st.nodes[j] == p;
    assert forall|k: int| 0 <= k < r.edges.len() implies {
        &&& has_edge(g, (#[trigger] r.edges[k]).0, r.edges[k].1)
        &&& k + 1 < r.nodes.len() ==> r.nodes[k + 1] == r.edges[k].1
        &&& exists|j: int| 0 <= j <= k && j < r.nodes.len() && r.nodes[j] == r.edges[k].0
    } by {
        if k < st.edges.len() {
            assert(r.edges[k] == st.edges[k]);
            let j = choose|j: int|
                0 <= j <= k && j < st.nodes.len() && st.nodes[j] == st.edges[k].0;
            assert(r.nodes[j] == r.edges[k].0);
            assert(r.nodes[k + 1] == st.nodes[k + 1]);
        } else {
            assert(r.edges[k] == (p, u));
            assert(r.nodes[jp] == p);
        }
    }
}

/// The edges of the grown tree are weighed.
proof fn lemma_grown_weighed(g: Adjacency, st: PrimState, p: i64, u: i64, c: i64)
    requires
        weighed(g, st),
        st.nodes.len() == st.edges.len() + 1,
        st.weights.len() == st.edges.len(),
        has_entry(g, p, u, c),
        lightest_out(g, st.nodes, c),
    ensures
        weighed(g, grown(st, p, u, c)),
{
    let r = grown(st, p, u, c);
    assert forall|k: int| 0 <= k < r.edges.len() implies #[trigger] edge_weighed(
        g,
        r.nodes,
        r.edges,
        r.weights,
        k,
    ) by {
        if k < st.edges.len() {
            assert(edge_weighed(g, st.nodes, st.edges, st.weights, k));
            assert(r.nodes.take(k + 1) == st.nodes.take(k + 1));
            assert(r.edges[k] == st.edges[k]);
            assert(r.weights[k] == st.weights[k]);
        } else {
            assert(r.nodes.take(k + 1) == st.nodes);
        }
    }
}

/// A node outside the tree whose entry is fresh is taken into the tree.
proof fn lemma_settle(g: Adjacency, s: i64, st: PrimState, m: int)
    requires
        grounded(g, s, st),
        offered_all(g, st),
        st.nodes.len() > 0,
        is_first_min(st.queue, m),
        !st.nodes.contains(st.queue[m].1),
        st.queue[m].0 <= best(st.dist, st.queue[m].1),
    ensures
        reading(g, s, settle(popped(st, m), st.queue[m].1, st.queue[m].0), st.queue[m].1, 0),
{
    let c = st.queue[m].0;
    let u = st.queue[m].1;
    assert(st.dist.contains_key(u) && c == st.dist[u]);
    assert(u != s);
    assert(linked(g, st, u));
    let p = st.parent[u];
    let mid = popped(st, m);
    let r = settle(mid, u, c);
    assert(r == grown(mid, p, u, c));
    assert(has_edge(g, p, u)) by {
        let i = choose|i: int| 0 <= i < row(g, p).len() && #[trigger] row(g, p)[i] == (u, c);
        assert(row(g, p)[i].0 == u);
    }
    lemma_lightest(g, st, c);
    lemma_grown_trace(g, mid, p, u, c);
    assert(weighed(g, mid)) by {
        assert forall|k: int| 0 <= k < mid.edges.len() implies #[trigger] edge_weighed(
            g,
            mid.nodes,
            mid.edges,
            mid.weights,
            k,
        ) by {
            assert(edge_weighed(g, st.nodes, st.edges, st.weights, k));
        }
    }
    lemma_grown_weighed(g, mid, p, u, c);
    assert forall|x: i64| st.nodes.contains(x) implies r.nodes.contains(x) by {
        let j = choose|j: int| 0 <= j < st.nodes.len() && st.nodes[j] == x;
        assert(r.nodes[j] == x);
    }
    assert(r.nodes[st.nodes.len() as int] == u);
    assert forall|x: i64| r.nodes.contains(x) implies st.nodes.contains(x) || x == u by {
        let j = choose|j: int| 0 <= j < r.nodes.len() && r.nodes[j] == x;
        if j < st.nodes.len() {
            assert(st.nodes[j] == x);
        }
    }
    assert(queue_sound(r)) by {
        lemma_popped_queue(st, m);
        assert(r.queue == mid.queue);
    }
    assert(waiting(r)) by {
        assert forall|v: i64| r.dist.contains_key(v) && !r.nodes.contains(v) implies #[trigger] waits(
            r,
            v,
        ) by {
            assert(waits(st, v));
            lemma_remove_keeps(st.queue, m, (st.dist[v], v));
        }
    }
    assert(linked_all(g, s, r)) by {
        assert forall|v: i64| #[trigger] r.dist.contains_key(v) && v != s implies linked(g, r, v) by {
            assert(linked(g, st, v));
        }
    }
    assert(reached(g, s, r)) by {
        let jp = choose|j: int| 0 <= j < st.nodes.len() && st.nodes[j] == p;
        assert(reaches(g, s, st.nodes[jp]));
        lemma_reaches_step(g, s, p, u);
        assert forall|j: int| 0 <= j < r.nodes.len() implies reaches(g, s, #[trigger] r.nodes[j]) by {
            if j < st.nodes.len() {
                assert(r.nodes[j] == st.nodes[j]);
            }
        }
    }
    assert(anchored(s, r)) by {
        assert(r.nodes[0] == st.nodes[0]);
        assert(r.weights.drop_last() == st.weights);
        assert forall|j: int| 0 <= j < r.nodes.len() implies r.dist.contains_key(
            #[trigger] r.nodes[j],
        ) by {
            if j < st.nodes.len() {
                assert(r.nodes[j] == st.nodes[j]);
            }
        }
    }
    assert(offered_but(g, r, u, 0)) by {
        assert forall|x: i64, i: int|
            r.nodes.contains(x) && 0 <= i < row(g, x).len() && (x != u || i < 0) implies offered(
            r,
            #[trigger] row(g, x)[i],
        ) by {
            assert(offered(st, row(g, x)[i]));
        }
    }
}

/// One pop of the queue with all that follows from it.
proof fn lemma_step(g: Adjacency, s: i64, st: PrimState)
    requires
        grounded(g, s, st),
        offered_all(g, st),
    ensures
        grounded(g, s, step(g, st)),
        offered_all(g, step(g, st)),
{
    if st.queue.len() > 0 {
        lemma_first_min_exists(st.queue);
        let m = first_min(st.queue);
        let c = st.queue[m].0;
        let u = st.queue[m].1;
        if st.nodes.contains(u) || c > best(st.dist, u) {
            lemma_discard(g, s, st, m);
            assert(step(g, st) == popped(st, m));
        } else {
            if st.nodes.len() == 0 {
                assert(st.queue[0] == (0i64, s));
                assert(m == 0);
                lemma_settle_source(g, s);
            } else {
                lemma_settle(g, s, st, m);
            }
            let ready = settle(popped(st, m), u, c);
            assert(row(g, u).take(row(g, u).len() as int) == row(g, u));
            lemma_offer_row(g, s, ready, u, row(g, u));
            assert(step(g, st) == offer_row(ready, u, row(g, u)));
        }
    }
}

/// The state after any number of pops.
proof fn lemma_run(g: Adjacency, s: i64, n: nat)
    ensures
        grounded(g, s, run(g, s, n)),
        offered_all(g, run(g, s, n)),
    decreases n,
{
    if n == 0 {
        let st = start(s);
        assert(waiting(st)) by {
            assert(st.queue[0] == (0i64, s));
            assert forall|v: i64| st.dist.contains_key(v) && !st.nodes.contains(
                v,
            ) implies #[trigger] waits(st, v) by {
                assert(v == s);
            }
        }
        assert(grounded(g, s, st));
    } else {
        lemma_run(g, s, (n - 1) as nat);
        lemma_step(g, s, run(g, s, (n - 1) as nat));
    }
}

/// The construction from `s` leaves a tree of lightest edges. Where no
/// entry has the weight `i64::MAX`, its nodes are those that `s` reaches.
pub proof fn lemma_greedy_tree(g: Adjacency, s: i64)
    requires
        g.dom().finite(),
    ensures
        is_greedy_tree(
            g,
            s,
            outcome(g, s).nodes,
            outcome(g, s).edges,
            outcome(g, s).weights,
            outcome(g, s).total,
        ),
        outcome(g, s).nodes.to_set().subset_of(reachable(g, s)),
        no_max_weight(g) ==> outcome(g, s).nodes.to_set() == reachable(g, s),
{
    lemma_prim_halts(g, s);
    let n = choose|n: nat| halts_at(g, s, n);
    lemma_run(g, s, n);
    let st = outcome(g, s);
    assert(st.nodes.len() > 0) by {
        if st.nodes.len() == 0 {
            assert(st.queue[0] == (0i64, s));
        }
    }
    assert forall|v: i64| st.nodes.to_set().contains(v) implies reachable(g, s).contains(v) by {
        let j = choose|j: int| 0 <= j < st.nodes.len() && st.nodes[j] == v;
        assert(reaches(g, s, st.nodes[j]));
    }
    if no_max_weight(g) {
        assert(closed_under_edges(g, st.nodes.to_set())) by {
            assert forall|x: i64, y: i64|
                st.nodes.to_set().contains(x) && has_edge(g, x, y) implies st.nodes.to_set().contains(
                y,
            ) by {
                let i = choose|i: int| 0 <= i < row(g, x).len() && (#[trigger] row(g, x)[i]).0 == y;
                assert(offered(st, row(g, x)[i]));
                if !st.nodes.contains(y) {
                    if st.dist.contains_key(y) {
                        assert(waits(st, y));
                    }
                    assert(row(g, x)[i].1 < i64::MAX);
                }
            }
        }
        assert(st.nodes.to_set().contains(s)) by {
            assert(st.nodes[0] == s);
        }
        lemma_closed_holds_reachable(g, st.nodes.to_set(), s);
        assert(st.nodes.to_set() =~= reachable(g, s));
    }
}

} // verus!
