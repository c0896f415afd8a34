//! Depth-first traversal in preorder.

use crate::graph::{has_edge, heads, lemma_node_set_finite, node_set, row, Adjacency, Graph};
use crate::paths::{
    closed_under_edges, is_discovery_trace, lemma_closed_holds_reachable, lemma_reaches_from_head,
    lemma_reaches_self, reachable, reaches,
};
use std::collections::HashSet;
use vstd::prelude::*;

verus! {

broadcast use vstd::std_specs::hash::group_hash_axioms;

/// The events of a depth-first traversal emitted so far.
pub struct DfsState {
    /// The node-visit events, in order.
    pub nodes: Seq<i64>,
    /// The discovery edges, in order.
    pub edges: Seq<(i64, i64)>,
}

/// The traversal below the unvisited node `curr`: it is visited, then its
/// row is read. `fuel` bounds the depth; with none left nothing happens.
pub open spec fn visit(g: Adjacency, curr: i64, st: DfsState, fuel: nat) -> DfsState
    decreases fuel, 0nat,
{
    if fuel == 0 {
        st
    } else {
        scan(
            g,
            curr,
            row(g, curr),
            DfsState { nodes: st.nodes.push(curr), ..st },
            (fuel - 1) as nat,
        )
    }
}

/// The entries of `list`, a front part of the row of `curr`, read in order:
/// a head not visited yet is discovered over the edge from `curr` and
/// traversed to its end before the next entry is read.
pub open spec fn scan(g: Adjacency, curr: i64, list: Seq<(i64, i64)>, st: DfsState, fuel: nat)
    -> DfsState
    decreases fuel, 1 + list.len(),
{
    if list.len() == 0 {
        st
    } else {
        let before = scan(g, curr, list.drop_last(), st, fuel);
        let v = list.last().0;
        if before.nodes.contains(v) {
            before
        } else {
            visit(g, v, DfsState { edges: before.edges.push((curr, v)), ..before }, fuel)
        }
    }
}

/// The depth-first traversal from `s`. No path without a repeated node is
/// longer than the number of nodes, which therefore is fuel enough.
pub open spec fn outcome(g: Adjacency, s: i64) -> DfsState {
    visit(g, s, DfsState { nodes: Seq::empty(), edges: Seq::empty() }, node_set(g).len() + 1)
}

/// `a` is the beginning of `b`.
pub open spec fn begins<T>(a: Seq<T>, b: Seq<T>) -> bool {
    &&& a.len() <= b.len()
    &&& forall|i: int| 0 <= i < a.len() ==> a[i] == b[i]
}

/// What is in the beginning of a sequence is in the sequence.
proof fn lemma_begins_contains<T>(a: Seq<T>, b: Seq<T>, x: T)
    requires
        begins(a, b),
        a.contains(x),
    ensures
        b.contains(x),
{
    let i = choose|i: int| 0 <= i < a.len() && a[i] == x;
    assert(b[i] == x);
}

/// The nodes of the beginning of a sequence are nodes of the sequence.
proof fn lemma_begins_subset(a: Seq<i64>, b: Seq<i64>)
    requires
        begins(a, b),
    ensures
        a.to_set().subset_of(b.to_set()),
{
    assert forall|x: i64| a.to_set().contains(x) implies b.to_set().contains(x) by {
        lemma_begins_contains(a, b, x);
    }
}

/// What the reading of `list`, a front part of the row of `curr`, has made
/// of the trace `st`: the trace `r` goes on from `st`, is a discovery trace
/// with one node more than edges, holds the heads of `list`, and what it
/// adds is reached from `curr` and has all its neighbours in `r`.
spec fn scanned(g: Adjacency, curr: i64, list: Seq<(i64, i64)>, st: DfsState, r: DfsState)
    -> bool {
    &&& begins(st.nodes, r.nodes)
    &&& begins(st.edges, r.edges)
    &&& is_discovery_trace(g, r.nodes, r.edges)
    &&& r.nodes.len() == r.edges.len() + 1
    &&& forall|i: int| 0 <= i < list.len() ==> r.nodes.contains((#[trigger] list[i]).0)
    &&& forall|j: int| st.nodes.len() <= j < r.nodes.len() ==> reaches(g, curr, #[trigger] r.nodes[j])
    &&& forall|j: int, y: i64|
        st.nodes.len() <= j < r.nodes.len() && has_edge(g, #[trigger] r.nodes[j], y)
            ==> #[trigger] r.nodes.contains(y)
}

/// What the visit of `curr` has made of the trace `st`: as `scanned`, with
/// `curr` the first node added and all its neighbours in `r`.
spec fn visited(g: Adjacency, curr: i64, st: DfsState, r: DfsState) -> bool {
    &&& begins(st.nodes, r.nodes)
    &&& begins(st.edges, r.edges)
    &&& is_discovery_trace(g, r.nodes, r.edges)
    &&& r.nodes.len() == r.edges.len() + 1
    &&& st.nodes.len() < r.nodes.len()
    &&& r.nodes[st.nodes.len() as int] == curr
    &&& forall|j: int| st.nodes.len() <= j < r.nodes.len() ==> reaches(g, curr, #[trigger] r.nodes[j])
    &&& forall|j: int, y: i64|
        st.nodes.len() <= j < r.nodes.len() && has_edge(g, #[trigger] r.nodes[j], y)
            ==> #[trigger] r.nodes.contains(y)
}

/// A visit with fuel for every unvisited node does what `visited` says.
proof fn lemma_visit(g: Adjacency, curr: i64, st: DfsState, fuel: nat, universe: Set<i64>)
    requires
        universe.finite(),
        node_set(g).subset_of(universe),
        universe.contains(curr),
        fuel >= universe.difference(st.nodes.to_set()).len(),
        is_discovery_trace(g, st.nodes, st.edges),
        st.nodes.len() == st.edges.len(),
        st.edges.len() > 0 ==> st.edges.last().1 == curr,
        !st.nodes.contains(curr),
    ensures
        visited(g, curr, st, visit(g, curr, st, fuel)),
    decreases fuel, 0nat,
{
    let first = DfsState { nodes: st.nodes.push(curr), ..st };
    universe.lemma_set_insert_diff_decreases(st.nodes.to_set(), curr);
    st.nodes.lemma_push_to_set_commute(curr);
    assert(first.nodes.no_duplicates());
    assert forall|k: int| 0 <= k < first.edges.len() implies {
        &&& has_edge(g, (#[trigger] first.edges[k]).0, first.edges[k].1)
        &&& k + 1 < first.nodes.len() ==> first.nodes[k + 1] == first.edges[k].1
        &&& exists|j: int| 0 <= j <= k && j < first.nodes.len() && first.nodes[j] == first.edges[k].0
    } by {
        let j = choose|j: int| 0 <= j <= k && j < st.nodes.len() && st.nodes[j] == st.edges[k].0;
        assert(first.nodes[j] == first.edges[k].0);
    }
    assert(row(g, curr).take(row(g, curr).len() as int) == row(g, curr));
    assert(first.nodes[st.nodes.len() as int] == curr);
    lemma_scan(g, curr, row(g, curr), first, (fuel - 1) as nat, universe);
    let r = visit(g, curr, st, fuel);
    assert(r == scan(g, curr, row(g, curr), first, (fuel - 1) as nat));
    assert(r.nodes[st.nodes.len() as int] == first.nodes[st.nodes.len() as int]);
    lemma_reaches_self(g, curr);
    assert forall|j: int, y: i64|
        st.nodes.len() <= j < r.nodes.len() && has_edge(g, #[trigger] r.nodes[j], y)
        implies #[trigger] r.nodes.contains(y) by {
        if j == st.nodes.len() {
            let i = choose|i: int| 0 <= i < row(g, curr).len() && (#[trigger] row(g, curr)[i]).0 == y;
            assert(r.nodes.contains(row(g, curr)[i].0));
        }
    }
}

/// The trace `before`, grown from `st` while the row of `curr` was read,
/// with the edge to the unvisited neighbour `v` added, is ready for the
/// visit of `v`.
proof fn lemma_ready(
    g: Adjacency,
    curr: i64,
    v: i64,
    st: DfsState,
    before: DfsState,
    fuel: nat,
    universe: Set<i64>,
)
    requires
        universe.finite(),
        node_set(g).subset_of(universe),
        fuel >= universe.difference(st.nodes.to_set()).len(),
        st.nodes.contains(curr),
        begins(st.nodes, before.nodes),
        is_discovery_trace(g, before.nodes, before.edges),
        before.nodes.len() == before.edges.len() + 1,
        has_edge(g, curr, v),
    ensures
        universe.contains(v),
        fuel >= universe.difference(before.nodes.to_set()).len(),
        is_discovery_trace(g, before.nodes, before.edges.push((curr, v))),
{
    let mid = DfsState { edges: before.edges.push((curr, v)), ..before };
    lemma_begins_contains(st.nodes, before.nodes, curr);
    assert forall|k: int| 0 <= k < mid.edges.len() implies {
        &&& has_edge(g, (#[trigger] mid.edges[k]).0, mid.edges[k].1)
        &&& k + 1 < mid.nodes.len() ==> mid.nodes[k + 1] == mid.edges[k].1
        &&& exists|j: int| 0 <= j <= k && j < mid.nodes.len() && mid.nodes[j] == mid.edges[k].0
    } by {
        if k < before.edges.len() {
            assert(mid.edges[k] == before.edges[k]);
            let j = choose|j: int|
                0 <= j <= k && j < before.nodes.len() && before.nodes[j] == before.edges[k].0;
            assert(mid.nodes[j] == mid.edges[k].0);
        } else {
            assert(mid.edges[k] == (curr, v));
            let j = choose|j: int| 0 <= j < before.nodes.len() && before.nodes[j] == curr;
            assert(mid.nodes[j] == mid.edges[k].0);
        }
    }
    assert(heads(g).contains(v));
    lemma_begins_subset(st.nodes, before.nodes);
    vstd::set_lib::lemma_len_subset(
        universe.difference(before.nodes.to_set()),
        universe.difference(st.nodes.to_set()),
    );
}

/// The reading of a row with fuel for every unvisited node does what
/// `scanned` says.
proof fn lemma_scan(
    g: Adjacency,
    curr: i64,
    list: Seq<(i64, i64)>,
    st: DfsState,
    fuel: nat,
    universe: Set<i64>,
)
    requires
        universe.finite(),
        node_set(g).subset_of(universe),
        fuel >= universe.difference(st.nodes.to_set()).len(),
        is_discovery_trace(g, st.nodes, st.edges),
        st.nodes.len() == st.edges.len() + 1,
        st.nodes.contains(curr),
        list.len() <= row(g, curr).len(),
        list == row(g, curr).take(list.len() as int),
    ensures
        scanned(g, curr, list, st, scan(g, curr, list, st, fuel)),
    decreases fuel, 1 + list.len(),
{
    if list.len() > 0 {
        let front = list.drop_last();
        assert(front == row(g, curr).take(front.len() as int));
        lemma_scan(g, curr, front, st, fuel, universe);
        let before = scan(g, curr, front, st, fuel);
        let v = list.last().0;
        assert(row(g, curr)[list.len() - 1] == list.last());
        assert(has_edge(g, curr, v));
        assert forall|i: int| 0 <= i < list.len() - 1 implies before.nodes.contains(
            (#[trigger] list[i]).0,
        ) by {
            assert(front[i] == list[i]);
        }
        if !before.nodes.contains(v) {
            let mid = DfsState { edges: before.edges.push((curr, v)), ..before };
            lemma_ready(g, curr, v, st, before, fuel, universe);
            lemma_visit(g, v, mid, fuel, universe);
            let r = visit(g, v, mid, fuel);
            assert(r == scan(g, curr, list, st, fuel));
            assert(begins(st.edges, r.edges)) by {
                assert forall|i: int| 0 <= i < st.edges.len() implies st.edges[i] == r.edges[i] by {
                    assert(mid.edges[i] == before.edges[i]);
                }
            }
            assert forall|i: int| 0 <= i < list.len() implies r.nodes.contains(
                (#[trigger] list[i]).0,
            ) by {
                if i < list.len() - 1 {
                    lemma_begins_contains(before.nodes, r.nodes, list[i].0);
                } else {
                    assert(r.nodes[before.nodes.len() as int] == v);
                }
            }
            assert forall|j: int| st.nodes.len() <= j < r.nodes.len() implies reaches(
                g,
                curr,
                #[trigger] r.nodes[j],
            ) by {
                if j < before.nodes.len() {
                    assert(r.nodes[j] == before.nodes[j]);
                } else {
                    lemma_reaches_from_head(g, curr, v, r.nodes[j]);
                }
            }
            assert forall|j: int, y: i64|
                st.nodes.len() <= j < r.nodes.len() && has_edge(g, #[trigger] r.nodes[j], y)
                implies #[trigger] r.nodes.contains(y) by {
                if j < before.nodes.len() {
                    assert(r.nodes[j] == before.nodes[j]);
                    assert(before.nodes.contains(y));
                    lemma_begins_contains(before.nodes, r.nodes, y);
                }
            }
        }
    }
}

/// Fuel beyond the number of unvisited nodes changes nothing in a visit.
proof fn lemma_visit_fuel(
    g: Adjacency,
    curr: i64,
    st: DfsState,
    fuel: nat,
    more: nat,
    universe: Set<i64>,
)
    requires
        universe.finite(),
        node_set(g).subset_of(universe),
        universe.contains(curr),
        fuel >= universe.difference(st.nodes.to_set()).len(),
        more >= universe.difference(st.nodes.to_set()).len(),
        is_discovery_trace(g, st.nodes, st.edges),
        st.nodes.len() == st.edges.len(),
        st.edges.len() > 0 ==> st.edges.last().1 == curr,
        !st.nodes.contains(curr),
    ensures
        visit(g, curr, st, fuel) == visit(g, curr, st, more),
    decreases fuel, 0nat,
{
    let first = DfsState { nodes: st.nodes.push(curr), ..st };
    universe.lemma_set_insert_diff_decreases(st.nodes.to_set(), curr);
    st.nodes.lemma_push_to_set_commute(curr);
    assert forall|k: int| 0 <= k < first.edges.len() implies {
        &&& has_edge(g, (#[trigger] first.edges[k]).0, first.edges[k].1)
        &&& k + 1 < first.nodes.len() ==> first.nodes[k + 1] == first.edges[k].1
        &&& exists|j: int| 0 <= j <= k && j < first.nodes.len() && first.nodes[j] == first.edges[k].0
    } by {
        let j = choose|j: int| 0 <= j <= k && j < st.nodes.len() && st.nodes[j] == st.edges[k].0;
        assert(first.nodes[j] == first.edges[k].0);
    }
    assert(row(g, curr).take(row(g, curr).len() as int) == row(g, curr));
    assert(first.nodes[st.nodes.len() as int] == curr);
    lemma_scan_fuel(
        g,
        curr,
        row(g, curr),
        first,
        (fuel - 1) as nat,
        (more - 1) as nat,
        universe,
    );
}

/// Fuel beyond the number of unvisited nodes changes nothing in the
/// reading of a row.
proof fn lemma_scan_fuel(
    g: Adjacency,
    curr: i64,
    list: Seq<(i64, i64)>,
    st: DfsState,
    fuel: nat,
    more: nat,
    universe: Set<i64>,
)
    requires
        universe.finite(),
        node_set(g).subset_of(universe),
        fuel >= universe.difference(st.nodes.to_set()).len(),
        more >= universe.difference(st.nodes.to_set()).len(),
        is_discovery_trace(g, st.nodes, st.edges),
        st.nodes.len() == st.edges.len() + 1,
        st.nodes.contains(curr),
        list.len() <= row(g, curr).len(),
        list == row(g, curr).take(list.len() as int),
    ensures
        scan(g, curr, list, st, fuel) == scan(g, curr, list, st, more),
    decreases fuel, 1 + list.len(),
{
    if list.len() > 0 {
        let front = list.drop_last();
        assert(front == row(g, curr).take(front.len() as int));
        lemma_scan_fuel(g, curr, front, st, fuel, more, universe);
        lemma_scan(g, curr, front, st, fuel, universe);
        let before = scan(g, curr, front, st, fuel);
        let v = list.last().0;
        assert(row(g, curr)[list.len() - 1] == list.last());
        assert(has_edge(g, curr, v));
        if !before.nodes.contains(v) {
            let mid = DfsState { edges: before.edges.push((curr, v)), ..before };
            lemma_ready(g, curr, v, st, before, fuel, universe);
            lemma_ready(g, curr, v, st, before, more, universe);
            lemma_visit_fuel(g, v, mid, fuel, more, universe);
        }
    }
}

/// The trace does not depend on the fuel: any amount above the number of
/// nodes gives the outcome.
pub proof fn lemma_fuel_is_enough(g: Adjacency, s: i64, fuel: nat)
    requires
        g.dom().finite(),
        fuel > node_set(g).len(),
    ensures
        visit(g, s, DfsState { nodes: Seq::empty(), edges: Seq::empty() }, fuel) == outcome(g, s),
{
    let universe = node_set(g).insert(s);
    let empty = DfsState { nodes: Seq::empty(), edges: Seq::empty() };
    lemma_node_set_finite(g);
    assert(universe.difference(empty.nodes.to_set()) =~= universe);
    lemma_visit_fuel(g, s, empty, fuel, node_set(g).len() + 1, universe);
}

/// The depth-first trace from `s` visits exactly the nodes that `s`
/// reaches, each once and `s` first, and each of its edges leads from a
/// node visited earlier to the node visited next.
pub proof fn lemma_dfs_trace(g: Adjacency, s: i64)
    requires
        g.dom().finite(),
    ensures
        is_discovery_trace(g, outcome(g, s).nodes, outcome(g, s).edges),
        outcome(g, s).nodes.len() == outcome(g, s).edges.len() + 1,
        outcome(g, s).nodes[0] == s,
        outcome(g, s).nodes.to_set() == reachable(g, s),
{
    let universe = node_set(g).insert(s);
    let empty = DfsState { nodes: Seq::empty(), edges: Seq::empty() };
    lemma_node_set_finite(g);
    assert(universe.difference(empty.nodes.to_set()) =~= universe);
    lemma_visit(g, s, empty, node_set(g).len() + 1, universe);
    let r = outcome(g, s);
    assert forall|v: i64| r.nodes.to_set().contains(v) implies reachable(g, s).contains(v) by {
        let j = choose|j: int| 0 <= j < r.nodes.len() && r.nodes[j] == v;
        assert(reaches(g, s, r.nodes[j]));
    }
    assert(closed_under_edges(g, r.nodes.to_set())) by {
        assert forall|x: i64, y: i64| r.nodes.to_set().contains(x) && has_edge(g, x, y) implies r
            .nodes.to_set().contains(y) by {
            let j = choose|j: int| 0 <= j < r.nodes.len() && r.nodes[j] == x;
            assert(has_edge(g, r.nodes[j], y));
            assert(r.nodes.contains(y));
        }
    }
    assert(r.nodes.to_set().contains(s)) by {
        assert(r.nodes[0] == s);
    }
    lemma_closed_holds_reachable(g, r.nodes.to_set(), s);
    assert(r.nodes.to_set() =~= reachable(g, s));
}

/// From a source without entries the trace is the source alone.
pub proof fn lemma_dfs_of_lone_source(g: Adjacency, s: i64)
    requires
        row(g, s).len() == 0,
    ensures
        outcome(g, s).nodes == seq![s],
        outcome(g, s).edges == Seq::<(i64, i64)>::empty(),
{
    assert(Seq::<i64>::empty().push(s) == seq![s]);
}

impl Graph {
    /// Depth-first traversal from `s`: the nodes in preorder and the edges
    /// over which they were discovered. Exactly the nodes that `s` reaches
    /// are visited, each once and `s` first.
    pub fn dfs(&self, s: i64) -> (r: (Vec<i64>, Vec<(i64, i64)>))
        ensures
            outcome(self@, s).nodes == r.0@,
            outcome(self@, s).edges == r.1@,
            is_discovery_trace(self@, r.0@, r.1@),
            r.0@.len() == r.1@.len() + 1,
            r.0@[0] == s,
            r.0@.to_set() == reachable(self@, s),
    {
        let mut visited: HashSet<i64> = HashSet::new();
        let mut visited_nodes: Vec<i64> = Vec::new();
        let mut visited_edges: Vec<(i64, i64)> = Vec::new();
        let ghost universe = node_set(self@).insert(s);
        proof {
            self.lemma_finite();
            lemma_dfs_trace(self@, s);
            assert(visited@ =~= visited_nodes@.to_set());
            assert(universe.difference(visited@) =~= universe);
        }
        self.dfs_helper(
            s,
            &mut visited,
            &mut visited_nodes,
            &mut visited_edges,
            Ghost(node_set(self@).len() + 1),
            Ghost(universe),
        );
        (visited_nodes, visited_edges)
    }

    /// Visits `curr` and all that is reached from it through nodes not
    /// visited before. `universe` holds every node that can come up and
    /// `fuel` is at least the number of those still unvisited.
    fn dfs_helper(
        &self,
        curr: i64,
        visited: &mut HashSet<i64>,
        visited_nodes: &mut Vec<i64>,
        visited_edges: &mut Vec<(i64, i64)>,
        Ghost(fuel): Ghost<nat>,
        Ghost(universe): Ghost<Set<i64>>,
    )
        requires
            universe.finite(),
            node_set(self@).subset_of(universe),
            universe.contains(curr),
            !old(visited)@.contains(curr),
            old(visited)@ == old(visited_nodes)@.to_set(),
            fuel >= universe.difference(old(visited)@).len(),
        ensures
            (DfsState { nodes: final(visited_nodes)@, edges: final(visited_edges)@ }) == visit(
                self@,
                curr,
                DfsState { nodes: old(visited_nodes)@, edges: old(visited_edges)@ },
                fuel,
            ),
            final(visited)@ == final(visited_nodes)@.to_set(),
            old(visited)@.subset_of(final(visited)@),
        decreases fuel,
    {
        let ghost g = self@;
        let ghost entry = DfsState { nodes: visited_nodes@, edges: visited_edges@ };
        proof {
            universe.lemma_set_insert_diff_decreases(visited@, curr);
            visited_nodes@.lemma_push_to_set_commute(curr);
        }
        visited.insert(curr);
        visited_nodes.push(curr);
        let ghost first = DfsState { nodes: visited_nodes@, edges: visited_edges@ };
        let ghost seen = visited@;

        match self.neighbors(curr) {
            Some(list) => {
                let mut i: usize = 0;
                while i < list.len()
                    invariant
                        0 <= i <= list.len(),
                        g == self@,
                        list@ == row(g, curr),
                        fuel >= 1,
                        universe.finite(),
                        node_set(g).subset_of(universe),
                        visited@ == visited_nodes@.to_set(),
                        seen.subset_of(visited@),
                        fuel - 1 >= universe.difference(seen).len(),
                        (DfsState { nodes: visited_nodes@, edges: visited_edges@ }) == scan(
                            g,
                            curr,
                            list@.take(i as int),
                            first,
                            (fuel - 1) as nat,
                        ),
                    decreases list.len() - i,
                {
                    let v: i64 = list[i].0;
                    proof {
                        assert(list@.take(i as int + 1).drop_last() == list@.take(i as int));
                        assert(list@.take(i as int + 1).last() == list@[i as int]);
                    }
                    if !visited.contains(&v) {
                        proof {
                            assert(row(g, curr)[i as int].0 == v);
                            assert(has_edge(g, curr, v));
                            assert(node_set(g).contains(v));
                            vstd::set_lib::lemma_len_subset(
                                universe.difference(visited@),
                                universe.difference(seen),
                            );
                        }
                        visited_edges.push((curr, v));
                        self.dfs_helper(
                            v,
                            visited,
                            visited_nodes,
                            visited_edges,
                            Ghost((fuel - 1) as nat),
                            Ghost(universe),
                        );
                    }
                    i = i + 1;
                }
                assert(list@.take(list@.len() as int) == list@);
            },
            None => {},
        }
    }
}

} // verus!
