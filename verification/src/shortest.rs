//! Why the search for shortest paths finds them.

use crate::backtrack::{
    ancestor, ends_after, lemma_retraced_ancestor, lemma_retraced_is_short,
};
use crate::dijkstra::{
    accept, best, halts_at, lemma_dijkstra_halts, outcome, relax, relax_row, run, start, step,
    DijkstraState,
};
use crate::graph::{has_entry, row, Adjacency};
use crate::queue::{first_min, is_first_min, lemma_first_min_exists};
use crate::routes::{
    hop_retraced, hop_tail, is_route, lemma_entry_non_negative, lemma_route_push,
    lemma_route_weight_non_negative, non_negative, retraces, route_end, route_weight,
};
use vstd::prelude::*;

verus! {

/// Every hop of `p` leaves a node of `done`.
spec fn leaves_from(done: Seq<i64>, s: i64, p: Seq<(i64, i64)>) -> bool {
    forall|k: int| 0 <= k < p.len() ==> done.contains(#[trigger] hop_tail(s, p, k))
}

/// `p` is a route from `s` to `v` of the weight recorded for `v`, which the
/// predecessors retrace and which runs through accepted nodes.
spec fn records(g: Adjacency, s: i64, st: DijkstraState, v: i64, p: Seq<(i64, i64)>) -> bool {
    &&& is_route(g, s, p)
    &&& route_end(s, p) == v
    &&& route_weight(p) == st.dist[v]
    &&& retraces(st.parent, s, p)
    &&& leaves_from(st.nodes, s, p)
}

/// Some route records the distance of `v`.
spec fn recorded(g: Adjacency, s: i64, st: DijkstraState, v: i64) -> bool {
    exists|p: Seq<(i64, i64)>| records(g, s, st, v, p)
}

/// The entry `e` of the row of `u` cannot improve the distance of its head.
spec fn relaxed(dist: Map<i64, i64>, u: i64, e: (i64, i64)) -> bool {
    dist[u] + e.1 >= best(dist, e.0)
}

/// The node `v` waits in the queue at the distance recorded for it.
spec fn waits(st: DijkstraState, v: i64) -> bool {
    st.queue.contains((st.dist[v], v))
}

/// The source stands at distance 0 without a predecessor; the accepted
/// nodes are distinct, begin with the source and have a distance; and so
/// has every node with a predecessor.
spec fn anchored(s: i64, st: DijkstraState) -> bool {
    &&& st.dist.contains_key(s)
    &&& st.dist[s] == 0
    &&& !st.parent.contains_key(s)
    &&& st.nodes.no_duplicates()
    &&& st.nodes.len() == 0 ==> st == start(s)
    &&& st.nodes.len() > 0 ==> st.nodes[0] == s
    &&& forall|j: int| 0 <= j < st.nodes.len() ==> st.dist.contains_key(#[trigger] st.nodes[j])
    &&& forall|v: i64| #[trigger] st.parent.contains_key(v) ==> st.dist.contains_key(v)
}

/// Every distance is the weight of a route that the predecessors retrace.
spec fn recorded_all(g: Adjacency, s: i64, st: DijkstraState) -> bool {
    forall|v: i64| #[trigger] st.dist.contains_key(v) ==> recorded(g, s, st, v)
}

/// No route to an accepted node weighs less than its distance.
spec fn optimal(g: Adjacency, s: i64, st: DijkstraState) -> bool {
    forall|p: Seq<(i64, i64)>|
        #[trigger] is_route(g, s, p) && st.nodes.contains(route_end(s, p)) ==> route_weight(p)
            >= st.dist[route_end(s, p)]
}

/// Every node with a distance that is not accepted waits at that distance.
spec fn waiting(st: DijkstraState) -> bool {
    forall|v: i64| st.dist.contains_key(v) && !st.nodes.contains(v) ==> #[trigger] waits(st, v)
}

/// No entry waits at less than the distance of its node.
spec fn queue_sound(st: DijkstraState) -> bool {
    forall|i: int|
        0 <= i < st.queue.len() ==> st.dist.contains_key((#[trigger] st.queue[i]).1)
            && st.queue[i].0 >= st.dist[st.queue[i].1]
}

/// What holds of the state throughout, given that no weight is negative.
spec fn grounded(g: Adjacency, s: i64, st: DijkstraState) -> bool {
    &&& anchored(s, st)
    &&& recorded_all(g, s, st)
    &&& optimal(g, s, st)
    &&& waiting(st)
    &&& queue_sound(st)
}

/// Every entry that leaves an accepted node is relaxed, but for the
/// entries of `u` from position `n` on.
spec fn relaxed_but(g: Adjacency, st: DijkstraState, u: i64, n: int) -> bool {
    forall|x: i64, i: int|
        st.nodes.contains(x) && 0 <= i < row(g, x).len() && (x != u || i < n) ==> relaxed(
            st.dist,
            x,
            #[trigger] row(g, x)[i],
        )
}

/// Every entry that leaves an accepted node is relaxed.
spec fn relaxed_all(g: Adjacency, st: DijkstraState) -> bool {
    forall|x: i64, i: int|
        st.nodes.contains(x) && 0 <= i < row(g, x).len() ==> relaxed(
            st.dist,
            x,
            #[trigger] row(g, x)[i],
        )
}

/// The state while the row of `u`, accepted at cost `c`, is read, its
/// first `n` entries being done.
spec fn reading(g: Adjacency, s: i64, st: DijkstraState, u: i64, c: i64, n: int) -> bool {
    &&& grounded(g, s, st)
    &&& relaxed_but(g, st, u, n)
    &&& st.nodes.contains(u)
    &&& st.dist.contains_key(u)
    &&& st.dist[u] == c
}

/// No route to a node not yet accepted weighs less than the least cost
/// that waits.
proof fn lemma_frontier(g: Adjacency, s: i64, st: DijkstraState, c: i64, p: Seq<(i64, i64)>)
    requires
        non_negative(g),
        st.dist.contains_key(s),
        st.dist[s] == 0,
        optimal(g, s, st),
        waiting(st),
        relaxed_all(g, st),
        forall|i: int| 0 <= i < st.queue.len() ==> c <= (#[trigger] st.queue[i]).0,
        is_route(g, s, p),
        !st.nodes.contains(route_end(s, p)),
    ensures
        route_weight(p) >= c,
    decreases p.len(),
{
    if p.len() == 0 {
        assert(waits(st, s));
        let i = choose|i: int| 0 <= i < st.queue.len() && st.queue[i] == (st.dist[s], s);
        assert(c <= st.queue[i].0);
    } else {
        let q = p.drop_last();
        let x = route_end(s, q);
        let e = p.last();
        lemma_entry_non_negative(g, x, e.0, e.1);
        if st.nodes.contains(x) {
            assert(is_route(g, s, q));
            assert(route_weight(q) >= st.dist[x]);
            let i = choose|i: int| 0 <= i < row(g, x).len() && #[trigger] row(g, x)[i] == (e.0, e.1);
            assert(relaxed(st.dist, x, row(g, x)[i]));
            if st.dist.contains_key(e.0) {
                assert(waits(st, e.0));
                let k = choose|k: int|
                    0 <= k < st.queue.len() && st.queue[k] == (st.dist[e.0], e.0);
                assert(c <= st.queue[k].0);
            }
        } else {
            lemma_frontier(g, s, st, c, q);
        }
    }
}

/// A route that leaves accepted nodes only passes accepted nodes only.
proof fn lemma_heads_accepted(done: Seq<i64>, s: i64, p: Seq<(i64, i64)>, k: int)
    requires
        leaves_from(done, s, p),
        0 <= k < p.len() - 1,
    ensures
        done.contains(p[k].0),
{
    assert(hop_tail(s, p, k + 1) == p[k].0);
}

/// The state in which `y` has got the distance `cand` from `u`.
spec fn improved(st: DijkstraState, u: i64, y: i64, cand: i64) -> DijkstraState {
    DijkstraState {
        dist: st.dist.insert(y, cand),
        parent: st.parent.insert(y, u),
        nodes: st.nodes,
        edges: st.edges.push((u, y)),
        queue: st.queue.push((cand, y)),
    }
}

/// An entry that improves the distance of its head leads out of the
/// accepted nodes, and not to the source.
proof fn lemma_improving_entry(g: Adjacency, s: i64, st: DijkstraState, u: i64, y: i64, w: i64)
    requires
        non_negative(g),
        anchored(s, st),
        optimal(g, s, st),
        st.dist.contains_key(u),
        recorded(g, s, st, u),
        has_entry(g, u, y, w),
        st.dist[u] + w < best(st.dist, y),
    ensures
        0 <= st.dist[u] + w,
        !st.nodes.contains(y),
        y != s,
{
    let pu = choose|p: Seq<(i64, i64)>| records(g, s, st, u, p);
    let q = pu.push((y, w));
    lemma_route_push(g, s, pu, (y, w));
    lemma_route_weight_non_negative(g, s, q);
    assert(is_route(g, s, q));
    if st.nodes.contains(y) {
        assert(route_weight(q) >= st.dist[route_end(s, q)]);
        let j = choose|j: int| 0 <= j < st.nodes.len() && st.nodes[j] == y;
        assert(st.dist.contains_key(st.nodes[j]));
    }
}

/// The improved distance of `y` is recorded by the route to `u` and the
/// entry from `u`.
proof fn lemma_improved_records_head(
    g: Adjacency,
    s: i64,
    st: DijkstraState,
    u: i64,
    y: i64,
    w: i64,
)
    requires
        st.nodes.contains(u),
        !st.nodes.contains(y),
        st.dist.contains_key(u),
        recorded(g, s, st, u),
        has_entry(g, u, y, w),
        i64::MIN <= st.dist[u] + w <= i64::MAX,
    ensures
        recorded(g, s, improved(st, u, y, (st.dist[u] + w) as i64), y),
{
    let r = improved(st, u, y, (st.dist[u] + w) as i64);
    let pu = choose|p: Seq<(i64, i64)>| records(g, s, st, u, p);
    let q = pu.push((y, w));
    lemma_route_push(g, s, pu, (y, w));
    assert forall|k: int| 0 <= k < q.len() implies #[trigger] hop_retraced(r.parent, s, q, k) by {
        if k < pu.len() {
            assert(hop_retraced(st.parent, s, pu, k));
            assert(q[k] == pu[k]);
            if k < pu.len() - 1 {
                lemma_heads_accepted(st.nodes, s, pu, k);
            }
            assert(hop_tail(s, q, k) == hop_tail(s, pu, k));
            assert(pu[k].0 != y);
        }
    }
    assert forall|k: int| 0 <= k < q.len() implies r.nodes.contains(
        #[trigger] hop_tail(s, q, k),
    ) by {
        if k < pu.len() {
            assert(hop_tail(s, q, k) == hop_tail(s, pu, k));
        }
    }
    assert(records(g, s, r, y, q));
}

/// What was recorded of another node than `y` stays recorded.
proof fn lemma_improved_records_others(
    g: Adjacency,
    s: i64,
    st: DijkstraState,
    u: i64,
    y: i64,
    cand: i64,
    v: i64,
)
    requires
        !st.nodes.contains(y),
        recorded(g, s, st, v),
        v != y,
    ensures
        recorded(g, s, improved(st, u, y, cand), v),
{
    let r = improved(st, u, y, cand);
    let pv = choose|p: Seq<(i64, i64)>| records(g, s, st, v, p);
    assert forall|k: int| 0 <= k < pv.len() implies #[trigger] hop_retraced(r.parent, s, pv, k) by {
        assert(hop_retraced(st.parent, s, pv, k));
        if k < pv.len() - 1 {
            lemma_heads_accepted(st.nodes, s, pv, k);
        } else {
            assert(pv[k] == pv.last());
        }
        assert(pv[k].0 != y);
    }
    assert(records(g, s, r, v, pv));
}

/// After an improvement every node still waits that has to.
proof fn lemma_improved_waiting(st: DijkstraState, u: i64, y: i64, cand: i64)
    requires
        waiting(st),
    ensures
        waiting(improved(st, u, y, cand)),
{
    let r = improved(st, u, y, cand);
    assert forall|v: i64| r.dist.contains_key(v) && !r.nodes.contains(v) implies #[trigger] waits(
        r,
        v,
    ) by {
        if v == y {
            assert(r.queue[st.queue.len() as int] == (cand, y));
        } else {
            assert(waits(st, v));
            let i = choose|i: int| 0 <= i < st.queue.len() && st.queue[i] == (st.dist[v], v);
            assert(r.queue[i] == (r.dist[v], v));
        }
    }
}

/// After an improvement no entry waits at less than its node's distance.
proof fn lemma_improved_queue(st: DijkstraState, u: i64, y: i64, cand: i64)
    requires
        queue_sound(st),
        cand < best(st.dist, y),
    ensures
        queue_sound(improved(st, u, y, cand)),
{
    let r = improved(st, u, y, cand);
    assert forall|i: int| 0 <= i < r.queue.len() implies r.dist.contains_key(
        (#[trigger] r.queue[i]).1,
    ) && r.queue[i].0 >= r.dist[r.queue[i].1] by {
        if i < st.queue.len() {
            assert(r.queue[i] == st.queue[i]);
        }
    }
}

/// One entry of the row of `u` is tried.
proof fn lemma_relax(g: Adjacency, s: i64, st: DijkstraState, u: i64, c: i64, n: int)
    requires
        non_negative(g),
        reading(g, s, st, u, c, n),
        0 <= n < row(g, u).len(),
    ensures
        reading(g, s, relax(st, u, c, row(g, u)[n]), u, c, n + 1),
{
    let e = row(g, u)[n];
    let y = e.0;
    let r = relax(st, u, c, e);
    assert(has_entry(g, u, y, e.1));
    if c + e.1 < best(st.dist, y) {
        lemma_improving_entry(g, s, st, u, y, e.1);
        assert(r == improved(st, u, y, (c + e.1) as i64));
        assert(recorded_all(g, s, r)) by {
            assert forall|v: i64| #[trigger] r.dist.contains_key(v) implies recorded(
                g,
                s,
                r,
                v,
            ) by {
                if v == y {
                    lemma_improved_records_head(g, s, st, u, y, e.1);
                } else {
                    assert(st.dist.contains_key(v));
                    lemma_improved_records_others(g, s, st, u, y, (c + e.1) as i64, v);
                }
            }
        }
        assert(optimal(g, s, r)) by {
            assert forall|p: Seq<(i64, i64)>|
                #[trigger] is_route(g, s, p) && r.nodes.contains(
                    route_end(s, p),
                ) implies route_weight(p) >= r.dist[route_end(s, p)] by {
                assert(route_end(s, p) != y);
            }
        }
        lemma_improved_waiting(st, u, y, (c + e.1) as i64);
        lemma_improved_queue(st, u, y, (c + e.1) as i64);
        assert(anchored(s, r)) by {
            assert forall|j: int| 0 <= j < r.nodes.len() implies r.dist.contains_key(
                #[trigger] r.nodes[j],
            ) by {
                assert(st.dist.contains_key(st.nodes[j]));
            }
        }
    } else {
        lemma_entry_non_negative(g, u, y, e.1);
        assert(recorded(g, s, st, u));
        let pu = choose|p: Seq<(i64, i64)>| records(g, s, st, u, p);
        lemma_route_weight_non_negative(g, s, pu);
    }
    assert(relaxed_but(g, r, u, n + 1)) by {
        assert forall|x: i64, i: int|
            r.nodes.contains(x) && 0 <= i < row(g, x).len() && (x != u || i < n + 1)
            implies relaxed(r.dist, x, #[trigger] row(g, x)[i]) by {
            if x != u || i < n {
                assert(relaxed(st.dist, x, row(g, x)[i]));
            }
        }
    }
}

/// A front part of the row of `u` is tried.
proof fn lemma_relax_row(
    g: Adjacency,
    s: i64,
    st: DijkstraState,
    u: i64,
    c: i64,
    list: Seq<(i64, i64)>,
)
    requires
        non_negative(g),
        reading(g, s, st, u, c, 0),
        list.len() <= row(g, u).len(),
        list == row(g, u).take(list.len() as int),
    ensures
        reading(g, s, relax_row(st, u, c, list), u, c, list.len() as int),
    decreases list.len(),
{
    if list.len() > 0 {
        let front = list.drop_last();
        assert(front == row(g, u).take(front.len() as int));
        lemma_relax_row(g, s, st, u, c, front);
        assert(list.last() == row(g, u)[list.len() - 1]);
        lemma_relax(g, s, relax_row(st, u, c, front), u, c, list.len() - 1);
    }
}

/// An entry other than the one removed is still in the queue.
proof fn lemma_remove_keeps(q: Seq<(i64, i64)>, m: int, x: (i64, i64))
    requires
        0 <= m < q.len(),
        q.contains(x),
        q[m] != x,
    ensures
        q.remove(m).contains(x),
{
    let i = choose|i: int| 0 <= i < q.len() && q[i] == x;
    if i < m {
        assert(q.remove(m)[i] == x);
    } else {
        assert(q.remove(m)[i - 1] == x);
    }
}

/// The state with the entry of position `m` out of the queue.
spec fn popped(st: DijkstraState, m: int) -> DijkstraState {
    DijkstraState { queue: st.queue.remove(m), ..st }
}

/// With an entry out of the queue no entry waits at less than its node's
/// distance.
proof fn lemma_popped_queue(st: DijkstraState, m: int)
    requires
        queue_sound(st),
        0 <= m < st.queue.len(),
    ensures
        queue_sound(popped(st, m)),
{
    let r = popped(st, m);
    assert forall|i: int| 0 <= i < r.queue.len() implies r.dist.contains_key(
        (#[trigger] r.queue[i]).1,
    ) && r.queue[i].0 >= r.dist[r.queue[i].1] by {
        if i < m {
            assert(r.queue[i] == st.queue[i]);
        } else {
            assert(r.queue[i] == st.queue[i + 1]);
        }
    }
}

/// What is recorded stays so when only the queue changes and nodes are
/// accepted.
proof fn lemma_records_kept(g: Adjacency, s: i64, st: DijkstraState, r: DijkstraState)
    requires
        recorded_all(g, s, st),
        r.dist == st.dist,
        r.parent == st.parent,
        forall|x: i64| st.nodes.contains(x) ==> r.nodes.contains(x),
    ensures
        recorded_all(g, s, r),
{
    assert forall|v: i64| #[trigger] r.dist.contains_key(v) implies recorded(g, s, r, v) by {
        assert(recorded(g, s, st, v));
        let p = choose|p: Seq<(i64, i64)>| records(g, s, st, v, p);
        assert forall|k: int| 0 <= k < p.len() implies r.nodes.contains(
            #[trigger] hop_tail(s, p, k),
        ) by {
            assert(st.nodes.contains(hop_tail(s, p, k)));
        }
        assert(records(g, s, r, v, p));
    }
}

/// A stale entry is discarded.
proof fn lemma_discard(g: Adjacency, s: i64, st: DijkstraState, m: int)
    requires
        grounded(g, s, st),
        relaxed_all(g, st),
        0 <= m < st.queue.len(),
        st.queue[m].0 > best(st.dist, st.queue[m].1),
    ensures
        grounded(g, s, popped(st, m)),
        relaxed_all(g, popped(st, m)),
{
    let r = popped(st, m);
    lemma_popped_queue(st, m);
    lemma_records_kept(g, s, st, r);
    assert(waiting(r)) by {
        assert forall|v: i64| r.dist.contains_key(v) && !r.nodes.contains(v) implies #[trigger] waits(
            r,
            v,
        ) by {
            assert(waits(st, v));
            lemma_remove_keeps(st.queue, m, (st.dist[v], v));
        }
    }
    assert(st.nodes.len() > 0) by {
        if st.nodes.len() == 0 {
            assert(st.queue[0] == (0i64, s));
        }
    }
    assert(optimal(g, s, r));
    assert(anchored(s, r));
}

/// The node of a fresh entry is accepted: the state is ready for the
/// reading of its row.
proof fn lemma_accept(g: Adjacency, s: i64, st: DijkstraState, m: int)
    requires
        non_negative(g),
        grounded(g, s, st),
        relaxed_all(g, st),
        is_first_min(st.queue, m),
        st.queue[m].0 <= best(st.dist, st.queue[m].1),
    ensures
        reading(g, s, accept(popped(st, m), st.queue[m].1), st.queue[m].1, st.queue[m].0, 0),
{
    let c = st.queue[m].0;
    let u = st.queue[m].1;
    let r = accept(popped(st, m), u);
    assert(st.dist.contains_key(u) && c == st.dist[u]);
    assert forall|x: i64| st.nodes.contains(x) implies r.nodes.contains(x) by {
        if !st.nodes.contains(u) {
            let j = choose|j: int| 0 <= j < st.nodes.len() && st.nodes[j] == x;
            assert(r.nodes[j] == x);
        }
    }
    assert(r.nodes.contains(u)) by {
        if !st.nodes.contains(u) {
            assert(r.nodes[st.nodes.len() as int] == u);
        }
    }
    assert forall|x: i64| r.nodes.contains(x) implies st.nodes.contains(x) || x == u by {
        if !st.nodes.contains(u) {
            let j = choose|j: int| 0 <= j < r.nodes.len() && r.nodes[j] == x;
            if j < st.nodes.len() {
                assert(st.nodes[j] == x);
            }
        }
    }
    lemma_records_kept(g, s, st, r);
    assert(queue_sound(r)) by {
        lemma_popped_queue(st, m);
        assert(r.queue == popped(st, m).queue);
    }
    assert(waiting(r)) by {
        assert forall|v: i64| r.dist.contains_key(v) && !r.nodes.contains(v) implies #[trigger] waits(
            r,
            v,
        ) by {
            assert(waits(st, v));
            lemma_remove_keeps(st.queue, m, (st.dist[v], v));
        }
    }
    assert(optimal(g, s, r)) by {
        assert forall|p: Seq<(i64, i64)>|
            #[trigger] is_route(g, s, p) && r.nodes.contains(route_end(s, p)) implies route_weight(
            p,
        ) >= r.dist[route_end(s, p)] by {
            if !st.nodes.contains(route_end(s, p)) {
                lemma_frontier(g, s, st, c, p);
            }
        }
    }
    assert(anchored(s, r)) by {
        if st.nodes.len() == 0 {
            assert(st.queue[0] == (0i64, s));
            assert(m == 0);
        } else {
            assert(r.nodes[0] == st.nodes[0]);
        }
        assert forall|j: int| 0 <= j < r.nodes.len() implies r.dist.contains_key(
            #[trigger] r.nodes[j],
        ) by {
            if j < st.nodes.len() {
                assert(r.nodes[j] == st.nodes[j]);
            }
        }
    }
    assert(relaxed_but(g, r, u, 0)) by {
        assert forall|x: i64, i: int|
            r.nodes.contains(x) && 0 <= i < row(g, x).len() && (x != u || i < 0) implies relaxed(
            r.dist,
            x,
            #[trigger] row(g, x)[i],
        ) by {
            assert(st.nodes.contains(x));
        }
    }
}

/// One pop of the queue with all that follows from it.
proof fn lemma_step(g: Adjacency, s: i64, st: DijkstraState)
    requires
        non_negative(g),
        grounded(g, s, st),
        relaxed_all(g, st),
    ensures
        grounded(g, s, step(g, st)),
        relaxed_all(g, step(g, st)),
{
    if st.queue.len() > 0 {
        lemma_first_min_exists(st.queue);
        let m = first_min(st.queue);
        let c = st.queue[m].0;
        let u = st.queue[m].1;
        if c > best(st.dist, u) {
            lemma_discard(g, s, st, m);
            assert(step(g, st) == popped(st, m));
        } else {
            lemma_accept(g, s, st, m);
            let ready = accept(popped(st, m), u);
            assert(row(g, u).take(row(g, u).len() as int) == row(g, u));
            lemma_relax_row(g, s, ready, u, c, row(g, u));
            assert(step(g, st) == relax_row(ready, u, c, row(g, u)));
        }
    }
}

/// The state after any number of pops.
proof fn lemma_run(g: Adjacency, s: i64, n: nat)
    requires
        non_negative(g),
    ensures
        grounded(g, s, run(g, s, n)),
        relaxed_all(g, run(g, s, n)),
    decreases n,
{
    if n == 0 {
        let st = start(s);
        let none = Seq::<(i64, i64)>::empty();
        assert(records(g, s, st, s, none));
        assert forall|v: i64| #[trigger] st.dist.contains_key(v) implies recorded(g, s, st, v) by {
            assert(v == s);
        }
        assert(waiting(st)) by {
            assert(st.queue[0] == (0i64, s));
            assert forall|v: i64| st.dist.contains_key(v) && !st.nodes.contains(
                v,
            ) implies #[trigger] waits(st, v) by {
                assert(v == s);
            }
        }
    } else {
        lemma_run(g, s, (n - 1) as nat);
        lemma_step(g, s, run(g, s, (n - 1) as nat));
    }
}

/// `dist` and `parent` hold the shortest paths from `s`: the source stands
/// at distance 0; no route weighs less than the distance of its end, nor
/// less than `i64::MAX` where its end has none; every distance is the
/// weight of a route that walking back along `parent` retraces; and the
/// nodes with a predecessor are those with a distance, but for the source.
pub open spec fn is_shortest_paths(
    g: Adjacency,
    s: i64,
    dist: Map<i64, i64>,
    parent: Map<i64, i64>,
) -> bool {
    &&& dist.contains_key(s)
    &&& dist[s] == 0
    &&& forall|v: i64| #[trigger] parent.contains_key(v) <==> dist.contains_key(v) && v != s
    &&& forall|p: Seq<(i64, i64)>|
        #[trigger] is_route(g, s, p) ==> route_weight(p) >= best(dist, route_end(s, p))
    &&& forall|v: i64| #[trigger]
        dist.contains_key(v) ==> exists|p: Seq<(i64, i64)>|
            is_route(g, s, p) && route_end(s, p) == v && route_weight(p) == dist[v] && retraces(
                parent,
                s,
                p,
            )
}

/// Where no weight is negative, the search from `s` finds the shortest
/// paths, and its node-visit events are the nodes with a distance, each
/// once and the source first.
pub proof fn lemma_shortest_paths(g: Adjacency, s: i64)
    requires
        g.dom().finite(),
        non_negative(g),
    ensures
        is_shortest_paths(g, s, outcome(g, s).dist, outcome(g, s).parent),
        outcome(g, s).nodes.no_duplicates(),
        outcome(g, s).nodes.to_set() == outcome(g, s).dist.dom(),
        outcome(g, s).nodes[0] == s,
{
    lemma_dijkstra_halts(g, s);
    let n = choose|n: nat| halts_at(g, s, n);
    lemma_run(g, s, n);
    let st = outcome(g, s);
    assert forall|v: i64| st.dist.contains_key(v) implies st.nodes.contains(v) by {
        if !st.nodes.contains(v) {
            assert(waits(st, v));
        }
    }
    assert(st.nodes.to_set() =~= st.dist.dom()) by {
        assert forall|v: i64| st.nodes.to_set().contains(v) implies st.dist.dom().contains(v) by {
            let j = choose|j: int| 0 <= j < st.nodes.len() && st.nodes[j] == v;
            assert(st.dist.contains_key(st.nodes[j]));
        }
    }
    assert forall|p: Seq<(i64, i64)>| #[trigger] is_route(g, s, p) implies route_weight(p) >= best(
        st.dist,
        route_end(s, p),
    ) by {
        if !st.dist.contains_key(route_end(s, p)) {
            if st.nodes.contains(route_end(s, p)) {
                let j = choose|j: int| 0 <= j < st.nodes.len() && st.nodes[j] == route_end(s, p);
                assert(st.dist.contains_key(st.nodes[j]));
            }
            lemma_frontier(g, s, st, i64::MAX, p);
        }
    }
    assert forall|v: i64| #[trigger] st.dist.contains_key(v) implies exists|p: Seq<(i64, i64)>|
        is_route(g, s, p) && route_end(s, p) == v && route_weight(p) == st.dist[v] && retraces(
            st.parent,
            s,
            p,
        ) by {
        assert(recorded(g, s, st, v));
        let p = choose|p: Seq<(i64, i64)>| records(g, s, st, v, p);
        assert(is_route(g, s, p) && route_end(s, p) == v && route_weight(p) == st.dist[v]
            && retraces(st.parent, s, p));
    }
    assert forall|v: i64| st.dist.contains_key(v) && v != s implies #[trigger]
        st.parent.contains_key(v) by {
        assert(recorded(g, s, st, v));
        let p = choose|p: Seq<(i64, i64)>| records(g, s, st, v, p);
        assert(hop_retraced(st.parent, s, p, p.len() - 1));
    }
}

/// With the shortest paths from `s` at hand, the walk back from a node
/// with a distance ends at `s`, after as many steps as some shortest route
/// to that node has hops, and before there are more steps than
/// predecessors.
pub proof fn lemma_walk_back_ends(
    g: Adjacency,
    s: i64,
    dist: Map<i64, i64>,
    parent: Map<i64, i64>,
    v: i64,
)
    requires
        is_shortest_paths(g, s, dist, parent),
        parent.dom().finite(),
        dist.contains_key(v),
    ensures
        exists|p: Seq<(i64, i64)>|
            is_route(g, s, p) && route_end(s, p) == v && route_weight(p) == dist[v]
                && #[trigger] p.len() <= parent.len() && ancestor(parent, v, p.len()) == Some(s)
                && ends_after(parent, v, p.len()),
{
    let p = choose|p: Seq<(i64, i64)>|
        is_route(g, s, p) && route_end(s, p) == v && route_weight(p) == dist[v] && retraces(
            parent,
            s,
            p,
        );
    assert(!parent.contains_key(s));
    lemma_retraced_is_short(parent, s, p);
    lemma_retraced_ancestor(parent, s, p, p.len());
}

} // verus!
