//! Minimum spanning tree of the part of the graph that the source reaches.

use crate::dijkstra::best;
use crate::graph::{has_edge, heads, lemma_node_set_finite, node_set, row, Adjacency, Graph};
use crate::minimum::{
    is_minimum_spanning_tree, lemma_greedy_tree_is_minimum, lemma_greedy_tree_spans, symmetric,
    tree_weight, weighted_edges,
};
use crate::paths::reachable;
use crate::spanning::{is_greedy_tree, lemma_greedy_tree, no_max_weight};
use crate::queue::{first_min, is_first_min, lemma_first_min_exists, lemma_first_min_is, MinQueue};
use std::collections::{HashMap, HashSet};
use vstd::prelude::*;

verus! {

broadcast use vstd::std_specs::hash::group_hash_axioms;

/// What a run of the tree construction holds between two pops of the queue.
pub struct PrimState {
    /// The least weight known so far of an entry from the tree to each node.
    pub dist: Map<i64, i64>,
    /// The tail of that entry.
    pub parent: Map<i64, i64>,
    /// The nodes taken into the tree, in order.
    pub nodes: Seq<i64>,
    /// The tree edges, in order of construction.
    pub edges: Seq<(i64, i64)>,
    /// The weight of each tree edge.
    pub weights: Seq<i64>,
    /// The weights of the tree edges, summed.
    pub total: int,
    /// The `(weight, node)` entries still waiting, in push order.
    pub queue: Seq<(i64, i64)>,
}

/// The state at the start: the source waits with weight 0.
pub open spec fn start(s: i64) -> PrimState {
    PrimState {
        dist: Map::empty().insert(s, 0i64),
        parent: Map::empty(),
        nodes: Seq::empty(),
        edges: Seq::empty(),
        weights: Seq::empty(),
        total: 0,
        queue: seq![(0i64, s)],
    }
}

/// The node `u` joins the tree at weight `c`, over the entry from its
/// recorded parent where it has one.
pub open spec fn settle(st: PrimState, u: i64, c: i64) -> PrimState {
    if st.parent.contains_key(u) {
        PrimState {
            nodes: st.nodes.push(u),
            edges: st.edges.push((st.parent[u], u)),
            weights: st.weights.push(c),
            total: st.total + c,
            ..st
        }
    } else {
        PrimState { nodes: st.nodes.push(u), ..st }
    }
}

/// One entry `e` of the row of the tree node `u` is offered: where its head
/// is outside the tree and its weight is below the one known of that head,
/// the head waits anew with `u` as parent.
pub open spec fn offer(st: PrimState, u: i64, e: (i64, i64)) -> PrimState {
    if !st.nodes.contains(e.0) && e.1 < best(st.dist, e.0) {
        PrimState {
            dist: st.dist.insert(e.0, e.1),
            parent: st.parent.insert(e.0, u),
            queue: st.queue.push((e.1, e.0)),
            ..st
        }
    } else {
        st
    }
}

/// All entries of `list` offered in order.
pub open spec fn offer_row(st: PrimState, u: i64, list: Seq<(i64, i64)>) -> PrimState
    decreases list.len(),
{
    if list.len() == 0 {
        st
    } else {
        offer(offer_row(st, u, list.drop_last()), u, list.last())
    }
}

/// One pop of the queue with all that follows from it. An entry is only
/// discarded where its node is in the tree already or its weight exceeds
/// the one known of that node.
pub open spec fn step(g: Adjacency, st: PrimState) -> PrimState {
    if st.queue.len() == 0 {
        st
    } else {
        let m = first_min(st.queue);
        let c = st.queue[m].0;
        let u = st.queue[m].1;
        let popped = PrimState { queue: st.queue.remove(m), ..st };
        if st.nodes.contains(u) || c > best(st.dist, u) {
            popped
        } else {
            offer_row(settle(popped, u, c), u, row(g, u))
        }
    }
}

/// The state after `n` pops.
pub open spec fn run(g: Adjacency, s: i64, n: nat) -> PrimState
    decreases n,
{
    if n == 0 {
        start(s)
    } else {
        step(g, run(g, s, (n - 1) as nat))
    }
}

/// Whether the queue is empty after `n` pops.
pub open spec fn halts_at(g: Adjacency, s: i64, n: nat) -> bool {
    run(g, s, n).queue.len() == 0
}

/// The state in which the construction from `s` ends.
pub open spec fn outcome(g: Adjacency, s: i64) -> PrimState {
    run(g, s, choose|n: nat| halts_at(g, s, n))
}

/// Once the queue is empty nothing changes any more.
pub proof fn lemma_run_stable(g: Adjacency, s: i64, a: nat, b: nat)
    requires
        halts_at(g, s, a),
        a <= b,
    ensures
        run(g, s, b) == run(g, s, a),
    decreases b,
{
    if a < b {
        lemma_run_stable(g, s, a, (b - 1) as nat);
    }
}

/// The construction is repeatable: two runs that both end have ended in the
/// same state, however many further steps either was given.
pub proof fn lemma_runs_agree(g: Adjacency, s: i64, a: nat, b: nat)
    requires
        halts_at(g, s, a),
        halts_at(g, s, b),
    ensures
        run(g, s, a) == run(g, s, b),
{
    if a <= b {
        lemma_run_stable(g, s, a, b);
    } else {
        lemma_run_stable(g, s, b, a);
    }
}

/// Whatever number of pops empties the queue, the state reached is the
/// outcome.
pub proof fn lemma_outcome(g: Adjacency, s: i64, n: nat)
    requires
        halts_at(g, s, n),
    ensures
        outcome(g, s) == run(g, s, n),
{
    let m = choose|m: nat| halts_at(g, s, m);
    if m <= n {
        lemma_run_stable(g, s, m, n);
    } else {
        lemma_run_stable(g, s, n, m);
    }
}

/// The state made of the values that the construction holds.
pub open spec fn state_of(
    dist: Map<i64, i64>,
    parent: Map<i64, i64>,
    nodes: Seq<i64>,
    edges: Seq<(i64, i64)>,
    weights: Seq<i64>,
    total: int,
    queue: Seq<(i64, i64)>,
) -> PrimState {
    PrimState { dist, parent, nodes, edges, weights, total, queue }
}

/// Every node that waits in `queue` belongs to `universe`.
pub open spec fn waits_within(queue: Seq<(i64, i64)>, universe: Set<i64>) -> bool {
    forall|k: int| 0 <= k < queue.len() ==> universe.contains((#[trigger] queue[k]).1)
}

/// The offering of a row leaves the tree as it is and lets only nodes of
/// `universe` wait.
proof fn lemma_offer_row_waits(
    g: Adjacency,
    u: i64,
    list: Seq<(i64, i64)>,
    st: PrimState,
    universe: Set<i64>,
)
    requires
        node_set(g).subset_of(universe),
        waits_within(st.queue, universe),
        list.len() <= row(g, u).len(),
        list == row(g, u).take(list.len() as int),
    ensures
        offer_row(st, u, list).nodes == st.nodes,
        waits_within(offer_row(st, u, list).queue, universe),
    decreases list.len(),
{
    if list.len() > 0 {
        let front = list.drop_last();
        assert(front == row(g, u).take(front.len() as int));
        lemma_offer_row_waits(g, u, front, st, universe);
        let before = offer_row(st, u, front);
        let r = offer(before, u, list.last());
        let v = list.last().0;
        assert(row(g, u)[list.len() - 1] == list.last());
        assert(has_edge(g, u, v));
        assert(heads(g).contains(v));
        assert forall|k: int| 0 <= k < r.queue.len() implies universe.contains(
            (#[trigger] r.queue[k]).1,
        ) by {
            if k < before.queue.len() {
                assert(r.queue[k] == before.queue[k]);
            }
        }
    }
}

/// From the state after `n` pops the construction on a finite graph comes
/// to an end: a pop that takes no node into the tree shortens the queue.
proof fn lemma_halts_from(g: Adjacency, s: i64, n: nat)
    requires
        g.dom().finite(),
        waits_within(run(g, s, n).queue, node_set(g).insert(s)),
    ensures
        exists|m: nat| halts_at(g, s, m),
    decreases
        node_set(g).insert(s).difference(run(g, s, n).nodes.to_set()).len(),
        run(g, s, n).queue.len(),
{
    let st = run(g, s, n);
    if st.queue.len() == 0 {
        assert(halts_at(g, s, n));
    } else {
        let universe = node_set(g).insert(s);
        lemma_node_set_finite(g);
        lemma_first_min_exists(st.queue);
        let m = first_min(st.queue);
        let c = st.queue[m].0;
        let u = st.queue[m].1;
        let popped = PrimState { queue: st.queue.remove(m), ..st };
        assert forall|k: int| 0 <= k < popped.queue.len() implies universe.contains(
            (#[trigger] popped.queue[k]).1,
        ) by {
            if k < m {
                assert(popped.queue[k] == st.queue[k]);
            } else {
                assert(popped.queue[k] == st.queue[k + 1]);
            }
        }
        assert(run(g, s, n + 1) == step(g, st));
        if !(st.nodes.contains(u) || c > best(st.dist, u)) {
            let settled = settle(popped, u, c);
            assert(settled.nodes == st.nodes.push(u));
            assert(settled.queue == popped.queue);
            st.nodes.lemma_push_to_set_commute(u);
            universe.lemma_set_insert_diff_decreases(st.nodes.to_set(), u);
            assert(row(g, u).take(row(g, u).len() as int) == row(g, u));
            lemma_offer_row_waits(g, u, row(g, u), settled, universe);
        }
        lemma_halts_from(g, s, n + 1);
    }
}

/// The construction on a finite graph comes to an end.
pub proof fn lemma_prim_halts(g: Adjacency, s: i64)
    requires
        g.dom().finite(),
    ensures
        outcome(g, s).queue.len() == 0,
{
    assert(start(s).queue[0] == (0i64, s));
    lemma_halts_from(g, s, 0);
}

/// From a source without entries the tree is the source alone, of
/// weight 0.
pub proof fn lemma_prim_of_lone_source(g: Adjacency, s: i64)
    requires
        row(g, s).len() == 0,
    ensures
        outcome(g, s).nodes == seq![s],
        outcome(g, s).edges == Seq::<(i64, i64)>::empty(),
        outcome(g, s).total == 0,
        outcome(g, s).queue.len() == 0,
{
    let st = start(s);
    assert(is_first_min(st.queue, 0));
    lemma_first_min_is(st.queue, 0);
    assert(Seq::<i64>::empty().push(s) == seq![s]);
    assert(run(g, s, 1) == step(g, run(g, s, 0)));
    assert(halts_at(g, s, 1));
    lemma_outcome(g, s, 1);
}

impl Graph {
    /// The minimum spanning tree grown from `s`: the nodes in the order in
    /// which they join the tree, the tree edges in the order of their
    /// construction, and the sum of their weights. Each tree edge is the
    /// lightest entry that leads out of the tree at its time. An entry of
    /// weight `i64::MAX` is never taken; without such entries the tree
    /// spans all that `s` reaches. In an undirected graph it is a minimum
    /// spanning tree of its nodes.
    pub fn prim(&self, s: i64) -> (r: (Vec<i64>, Vec<(i64, i64)>, i128))
        ensures
            outcome(self@, s).nodes == r.0@,
            outcome(self@, s).edges == r.1@,
            outcome(self@, s).total == r.2,
            outcome(self@, s).queue.len() == 0,
            is_greedy_tree(self@, s, r.0@, r.1@, outcome(self@, s).weights, r.2 as int),
            r.0@.to_set().subset_of(reachable(self@, s)),
            no_max_weight(self@) ==> r.0@.to_set() == reachable(self@, s),
            tree_weight(weighted_edges(r.1@, outcome(self@, s).weights)) == r.2,
            symmetric(self@) ==> is_minimum_spanning_tree(
                self@,
                r.0@,
                weighted_edges(r.1@, outcome(self@, s).weights),
            ),
    {
        let mut dist: HashMap<i64, i64> = HashMap::new();
        let mut booked: HashSet<i64> = HashSet::new();
        let mut visited_nodes: Vec<i64> = Vec::new();
        let mut visited_edges: Vec<(i64, i64)> = Vec::new();
        let mut parent: HashMap<i64, i64> = HashMap::new();
        let mut pq = MinQueue::new();
        let mut total_cost: i128 = 0;

        dist.insert(s, 0);
        pq.push(0, s);

        let ghost g = self@;
        let ghost universe = node_set(g).insert(s);
        let ghost mut n: nat = 0;
        let ghost mut weights: Seq<i64> = Seq::empty();
        proof {
            self.lemma_finite();
            assert(pq@ =~= seq![(0i64, s)]);
            assert(booked@ =~= visited_nodes@.to_set());
        }
        while !pq.is_empty()
            invariant
                g == self@,
                universe == node_set(g).insert(s),
                universe.finite(),
                booked@ == visited_nodes@.to_set(),
                waits_within(pq@, universe),
                -0x8000_0000_0000_0000 * visited_edges@.len() <= total_cost
                    <= 0x8000_0000_0000_0000 * visited_edges@.len(),
                state_of(
                    dist@,
                    parent@,
                    visited_nodes@,
                    visited_edges@,
                    weights,
                    total_cost as int,
                    pq@,
                ) == run(g, s, n),
            decreases universe.difference(booked@).len(), pq@.len(),
        {
            let ghost before = state_of(
                dist@,
                parent@,
                visited_nodes@,
                visited_edges@,
                weights,
                total_cost as int,
                pq@,
            );
            let ghost m = first_min(before.queue);
            match pq.pop_min() {
                Some(top) => {
                    let cost: i64 = top.0;
                    let u: i64 = top.1;
                    proof {
                        assert(universe.contains(before.queue[m].1));
                        assert forall|k: int| 0 <= k < pq@.len() implies universe.contains(
                            (#[trigger] pq@[k]).1,
                        ) by {
                            if k < m {
                                assert(pq@[k] == before.queue[k]);
                            } else {
                                assert(pq@[k] == before.queue[k + 1]);
                            }
                        }
                    }
                    let known: i64 = match dist.get(&u) {
                        Some(d) => *d,
                        None => i64::MAX,
                    };
                    if !booked.contains(&u) && cost <= known {
                        proof {
                            universe.lemma_set_insert_diff_decreases(booked@, u);
                            visited_nodes@.lemma_push_to_set_commute(u);
                        }
                        booked.insert(u);
                        visited_nodes.push(u);
                        match parent.get(&u) {
                            Some(p) => {
                                visited_edges.push((*p, u));
                                assert(visited_edges.len() <= usize::MAX <= 0xffff_ffff_ffff_ffff);
                                total_cost = total_cost + cost as i128;
                                proof {
                                    weights = weights.push(cost);
                                }
                            },
                            None => {},
                        }
                        let ghost settled = state_of(
                            dist@,
                            parent@,
                            visited_nodes@,
                            visited_edges@,
                            weights,
                            total_cost as int,
                            pq@,
                        );
                        assert(settled == settle(
                            PrimState { queue: before.queue.remove(m), ..before },
                            u,
                            cost,
                        ));
                        match self.neighbors(u) {
                            Some(list) => {
                                let mut i: usize = 0;
                                while i < list.len()
                                    invariant
                                        0 <= i <= list.len(),
                                        list@ == row(g, u),
                                                                universe == node_set(g).insert(s),
                                        booked@ == visited_nodes@.to_set(),
                                        waits_within(pq@, universe),
                                        state_of(
                                            dist@,
                                            parent@,
                                            visited_nodes@,
                                            visited_edges@,
                                            weights,
                                            total_cost as int,
                                            pq@,
                                        ) == offer_row(settled, u, list@.take(i as int)),
                                    decreases list.len() - i,
                                {
                                    let v: i64 = list[i].0;
                                    let w: i64 = list[i].1;
                                    proof {
                                        assert(list@.take(i as int + 1).drop_last() == list@.take(
                                            i as int,
                                        ));
                                        assert(list@.take(i as int + 1).last() == list@[i as int]);
                                    }
                                    let known_v: i64 = match dist.get(&v) {
                                        Some(d) => *d,
                                        None => i64::MAX,
                                    };
                                    if !booked.contains(&v) && w < known_v {
                                        proof {
                                            assert(row(g, u)[i as int].0 == v);
                                            assert(has_edge(g, u, v));
                                            assert(node_set(g).contains(v));
                                        }
                                        dist.insert(v, w);
                                        parent.insert(v, u);
                                        pq.push(w, v);
                                    }
                                    i = i + 1;
                                }
                                assert(list@.take(list@.len() as int) == list@);
                            },
                            None => {},
                        }
                    }
                },
                None => {},
            }
            proof {
                n = n + 1;
            }
        }
        proof {
            lemma_outcome(g, s, n);
            lemma_greedy_tree(g, s);
            lemma_greedy_tree_spans(g, s, visited_nodes@, visited_edges@, weights, total_cost as int);
            if symmetric(g) {
                lemma_greedy_tree_is_minimum(
                    g,
                    s,
                    visited_nodes@,
                    visited_edges@,
                    weights,
                    total_cost as int,
                );
            }
        }
        (visited_nodes, visited_edges, total_cost)
    }
}

} // verus!
