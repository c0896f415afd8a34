//! Weighted routes through a graph.

use crate::graph::{has_entry, row, Adjacency};
use vstd::prelude::*;

verus! {

/// Where the route `p` from `s` ends. A route lists the entries it takes,
/// each as `(head, weight)`.
pub open spec fn route_end(s: i64, p: Seq<(i64, i64)>) -> i64 {
    if p.len() == 0 {
        s
    } else {
        p.last().0
    }
}

/// The node that the hop of position `k` leaves.
pub open spec fn hop_tail(s: i64, p: Seq<(i64, i64)>, k: int) -> i64 {
    if k == 0 {
        s
    } else {
        p[k - 1].0
    }
}

/// `p` is a route from `s`: every hop is an entry of the row of the node
/// at which the hops before it end.
pub open spec fn is_route(g: Adjacency, s: i64, p: Seq<(i64, i64)>) -> bool
    decreases p.len(),
{
    p.len() == 0 || (is_route(g, s, p.drop_last()) && has_entry(
        g,
        route_end(s, p.drop_last()),
        p.last().0,
        p.last().1,
    ))
}

/// The weights of the hops, summed.
pub open spec fn route_weight(p: Seq<(i64, i64)>) -> int
    decreases p.len(),
{
    if p.len() == 0 {
        0
    } else {
        route_weight(p.drop_last()) + p.last().1
    }
}

/// No entry of the graph has a weight below 0.
pub open spec fn non_negative(g: Adjacency) -> bool {
    forall|u: i64, i: int| 0 <= i < row(g, u).len() ==> (#[trigger] row(g, u)[i]).1 >= 0
}

/// The hop of position `k` leads to a node whose predecessor is the node
/// that it leaves.
pub open spec fn hop_retraced(parent: Map<i64, i64>, s: i64, p: Seq<(i64, i64)>, k: int) -> bool {
    parent.contains_key(p[k].0) && parent[p[k].0] == hop_tail(s, p, k)
}

/// Walking back along `parent` from the end of `p` retraces every hop of
/// `p`.
pub open spec fn retraces(parent: Map<i64, i64>, s: i64, p: Seq<(i64, i64)>) -> bool {
    forall|k: int| 0 <= k < p.len() ==> #[trigger] hop_retraced(parent, s, p, k)
}

/// A route goes on over one more entry.
pub proof fn lemma_route_push(g: Adjacency, s: i64, p: Seq<(i64, i64)>, e: (i64, i64))
    requires
        is_route(g, s, p),
        has_entry(g, route_end(s, p), e.0, e.1),
    ensures
        is_route(g, s, p.push(e)),
        route_weight(p.push(e)) == route_weight(p) + e.1,
        route_end(s, p.push(e)) == e.0,
{
    assert(p.push(e).drop_last() == p);
}

/// With no negative weights no route weighs less than 0.
pub proof fn lemma_route_weight_non_negative(g: Adjacency, s: i64, p: Seq<(i64, i64)>)
    requires
        non_negative(g),
        is_route(g, s, p),
    ensures
        route_weight(p) >= 0,
    decreases p.len(),
{
    if p.len() > 0 {
        lemma_route_weight_non_negative(g, s, p.drop_last());
        lemma_entry_non_negative(g, route_end(s, p.drop_last()), p.last().0, p.last().1);
    }
}

/// With no negative weights the weight of an entry is at least 0.
pub proof fn lemma_entry_non_negative(g: Adjacency, u: i64, v: i64, w: i64)
    requires
        non_negative(g),
        has_entry(g, u, v, w),
    ensures
        w >= 0,
{
    let i = choose|i: int| 0 <= i < row(g, u).len() && #[trigger] row(g, u)[i] == (v, w);
    assert(row(g, u)[i].1 >= 0);
}

} // verus!
