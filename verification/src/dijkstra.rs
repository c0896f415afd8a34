//! Single-source shortest paths with a lazily cleaned priority queue.

use crate::graph::{has_edge, heads, lemma_node_set_finite, node_set, row, Adjacency, Graph};
use crate::queue::{first_min, is_first_min, lemma_first_min_exists, lemma_first_min_is, MinQueue};
use crate::routes::non_negative;
use crate::shortest::{is_shortest_paths, lemma_shortest_paths};
use std::collections::{HashMap, HashSet};
use vstd::prelude::*;

verus! {

broadcast use vstd::std_specs::hash::group_hash_axioms;

/// What a run of the search holds between two pops of the queue.
pub struct DijkstraState {
    /// The least distance known so far of each node reached.
    pub dist: Map<i64, i64>,
    /// The node from which that distance was last improved.
    pub parent: Map<i64, i64>,
    /// The node-visit events, in order.
    pub nodes: Seq<i64>,
    /// The edge-relaxation events, in order.
    pub edges: Seq<(i64, i64)>,
    /// The `(cost, node)` entries still waiting, in push order.
    pub queue: Seq<(i64, i64)>,
}

/// The least distance known of `v`; `i64::MAX` while none is known.
pub open spec fn best(dist: Map<i64, i64>, v: i64) -> i64 {
    if dist.contains_key(v) {
        dist[v]
    } else {
        i64::MAX
    }
}

/// The state at the start: only the source is known, at distance 0.
pub open spec fn start(s: i64) -> DijkstraState {
    DijkstraState {
        dist: Map::empty().insert(s, 0i64),
        parent: Map::empty(),
        nodes: Seq::empty(),
        edges: Seq::empty(),
        queue: seq![(0i64, s)],
    }
}

/// One entry `e` of the row of `u` is tried with `u` accepted at cost `c`:
/// where `c` plus its weight is an `i64` below the distance known of its
/// head, that distance, the predecessor, the queue and the edge events are
/// brought up to date.
pub open spec fn relax(st: DijkstraState, u: i64, c: i64, e: (i64, i64)) -> DijkstraState {
    let cand = c + e.1;
    if i64::MIN <= cand && cand < best(st.dist, e.0) {
        DijkstraState {
            dist: st.dist.insert(e.0, cand as i64),
            parent: st.parent.insert(e.0, u),
            nodes: st.nodes,
            edges: st.edges.push((u, e.0)),
            queue: st.queue.push((cand as i64, e.0)),
        }
    } else {
        st
    }
}

/// All entries of `list` tried in order.
pub open spec fn relax_row(st: DijkstraState, u: i64, c: i64, list: Seq<(i64, i64)>)
    -> DijkstraState
    decreases list.len(),
{
    if list.len() == 0 {
        st
    } else {
        relax(relax_row(st, u, c, list.drop_last()), u, c, list.last())
    }
}

/// The node-visit event of `u`, emitted the first time `u` is accepted.
pub open spec fn accept(st: DijkstraState, u: i64) -> DijkstraState {
    if st.nodes.contains(u) {
        st
    } else {
        DijkstraState { nodes: st.nodes.push(u), ..st }
    }
}

/// One pop of the queue with all that follows from it. An entry whose cost
/// exceeds the distance known of its node is stale and only discarded.
pub open spec fn step(g: Adjacency, st: DijkstraState) -> DijkstraState {
    if st.queue.len() == 0 {
        st
    } else {
        let m = first_min(st.queue);
        let c = st.queue[m].0;
        let u = st.queue[m].1;
        let popped = DijkstraState { queue: st.queue.remove(m), ..st };
        if c > best(st.dist, u) {
            popped
        } else {
            relax_row(accept(popped, u), u, c, row(g, u))
        }
    }
}

/// The state after `n` pops.
pub open spec fn run(g: Adjacency, s: i64, n: nat) -> DijkstraState
    decreases n,
{
    if n == 0 {
        start(s)
    } else {
        step(g, run(g, s, (n - 1) as nat))
    }
}

/// Whether the queue is empty after `n` pops.
pub open spec fn halts_at(g: Adjacency, s: i64, n: nat) -> bool {
    run(g, s, n).queue.len() == 0
}

/// The state in which the search from `s` ends.
pub open spec fn outcome(g: Adjacency, s: i64) -> DijkstraState {
    run(g, s, choose|n: nat| halts_at(g, s, n))
}

/// Once the queue is empty nothing changes any more.
pub proof fn lemma_run_stable(g: Adjacency, s: i64, a: nat, b: nat)
    requires
        halts_at(g, s, a),
        a <= b,
    ensures
        run(g, s, b) == run(g, s, a),
    decreases b,
{
    if a < b {
        lemma_run_stable(g, s, a, (b - 1) as nat);
    }
}

/// The search is repeatable: two runs that both end have ended in the
/// same state, however many further steps either was given.
pub proof fn lemma_runs_agree(g: Adjacency, s: i64, a: nat, b: nat)
    requires
        halts_at(g, s, a),
        halts_at(g, s, b),
    ensures
        run(g, s, a) == run(g, s, b),
{
    if a <= b {
        lemma_run_stable(g, s, a, b);
    } else {
        lemma_run_stable(g, s, b, a);
    }
}

/// Whatever number of pops empties the queue, the state reached is the
/// outcome.
pub proof fn lemma_outcome(g: Adjacency, s: i64, n: nat)
    requires
        halts_at(g, s, n),
    ensures
        outcome(g, s) == run(g, s, n),
{
    let m = choose|m: nat| halts_at(g, s, m);
    if m <= n {
        lemma_run_stable(g, s, m, n);
    } else {
        lemma_run_stable(g, s, n, m);
    }
}

/// How far the distance known of `v` stands above the least `i64`.
pub open spec fn slack(dist: Map<i64, i64>, v: i64) -> nat {
    (best(dist, v) - i64::MIN) as nat
}

/// The slack summed over `nodes`: it falls with every improvement.
pub open spec fn potential(nodes: Seq<i64>, dist: Map<i64, i64>) -> nat
    decreases nodes.len(),
{
    if nodes.len() == 0 {
        0
    } else {
        potential(nodes.drop_last(), dist) + slack(dist, nodes.last())
    }
}

/// An improved distance lowers the potential over any nodes that hold the
/// improved node, and raises it over none.
proof fn lemma_potential_falls(nodes: Seq<i64>, dist: Map<i64, i64>, v: i64, c: i64)
    requires
        c < best(dist, v),
    ensures
        potential(nodes, dist.insert(v, c)) <= potential(nodes, dist),
        nodes.contains(v) ==> potential(nodes, dist.insert(v, c)) < potential(nodes, dist),
    decreases nodes.len(),
{
    if nodes.len() > 0 {
        let front = nodes.drop_last();
        lemma_potential_falls(front, dist, v, c);
        if nodes.contains(v) && nodes.last() != v {
            let i = choose|i: int| 0 <= i < nodes.len() && nodes[i] == v;
            assert(front[i] == v);
        }
    }
}

/// The trying of a row raises no distance, and where it adds to the queue
/// it lowers the potential.
proof fn lemma_relax_row_falls(
    g: Adjacency,
    u: i64,
    c: i64,
    list: Seq<(i64, i64)>,
    st: DijkstraState,
    universe: Seq<i64>,
)
    requires
        node_set(g).subset_of(universe.to_set()),
        list.len() <= row(g, u).len(),
        list == row(g, u).take(list.len() as int),
    ensures
        potential(universe, relax_row(st, u, c, list).dist) <= potential(universe, st.dist),
        relax_row(st, u, c, list).queue.len() == st.queue.len() || potential(
            universe,
            relax_row(st, u, c, list).dist,
        ) < potential(universe, st.dist),
    decreases list.len(),
{
    if list.len() > 0 {
        let front = list.drop_last();
        assert(front == row(g, u).take(front.len() as int));
        lemma_relax_row_falls(g, u, c, front, st, universe);
        let before = relax_row(st, u, c, front);
        let e = list.last();
        let cand = c + e.1;
        if i64::MIN <= cand && cand < best(before.dist, e.0) {
            assert(row(g, u)[list.len() - 1] == list.last());
            assert(has_edge(g, u, e.0));
            assert(heads(g).contains(e.0));
            assert(universe.to_set().contains(e.0));
            lemma_potential_falls(universe, before.dist, e.0, cand as i64);
        }
    }
}

/// From the state after `n` pops the search on a finite graph comes to an
/// end: a pop that improves no distance shortens the queue.
proof fn lemma_halts_from(g: Adjacency, s: i64, n: nat)
    requires
        g.dom().finite(),
    ensures
        exists|m: nat| halts_at(g, s, m),
    decreases potential(node_set(g).to_seq(), run(g, s, n).dist), run(g, s, n).queue.len(),
{
    let st = run(g, s, n);
    if st.queue.len() == 0 {
        assert(halts_at(g, s, n));
    } else {
        lemma_node_set_finite(g);
        let universe = node_set(g).to_seq();
        node_set(g).lemma_to_seq_to_set_id();
        lemma_first_min_exists(st.queue);
        let m = first_min(st.queue);
        let c = st.queue[m].0;
        let u = st.queue[m].1;
        let popped = DijkstraState { queue: st.queue.remove(m), ..st };
        assert(run(g, s, n + 1) == step(g, st));
        if c <= best(st.dist, u) {
            assert(row(g, u).take(row(g, u).len() as int) == row(g, u));
            lemma_relax_row_falls(g, u, c, row(g, u), accept(popped, u), universe);
        }
        lemma_halts_from(g, s, n + 1);
    }
}

/// The search on a finite graph comes to an end, whatever the weights.
pub proof fn lemma_dijkstra_halts(g: Adjacency, s: i64)
    requires
        g.dom().finite(),
    ensures
        outcome(g, s).queue.len() == 0,
{
    lemma_halts_from(g, s, 0);
}

/// From a source without entries the search visits the source alone and
/// knows its distance alone.
pub proof fn lemma_dijkstra_of_lone_source(g: Adjacency, s: i64)
    requires
        row(g, s).len() == 0,
    ensures
        outcome(g, s).nodes == seq![s],
        outcome(g, s).edges == Seq::<(i64, i64)>::empty(),
        outcome(g, s).dist == Map::<i64, i64>::empty().insert(s, 0i64),
        outcome(g, s).parent == Map::<i64, i64>::empty(),
        outcome(g, s).queue.len() == 0,
{
    let st = start(s);
    assert(is_first_min(st.queue, 0));
    lemma_first_min_is(st.queue, 0);
    assert(Seq::<i64>::empty().push(s) == seq![s]);
    assert(run(g, s, 1) == step(g, run(g, s, 0)));
    assert(halts_at(g, s, 1));
    lemma_outcome(g, s, 1);
}

/// The state made of the values that the search holds.
pub open spec fn state_of(
    dist: Map<i64, i64>,
    parent: Map<i64, i64>,
    nodes: Seq<i64>,
    edges: Seq<(i64, i64)>,
    queue: Seq<(i64, i64)>,
) -> DijkstraState {
    DijkstraState { dist, parent, nodes, edges, queue }
}

impl Graph {
    /// Shortest paths from `s`: the node-visit events, the edge-relaxation
    /// events, the distance of each node reached and its predecessor. A sum
    /// that is no `i64` improves nothing, so a node whose distance would be
    /// `i64::MAX` or more counts as not reached. Where no weight is
    /// negative, the distances are the least weights of routes from `s`.
    pub fn dijkstra(&self, s: i64) -> (r: (
        Vec<i64>,
        Vec<(i64, i64)>,
        HashMap<i64, i64>,
        HashMap<i64, i64>,
    ))
        ensures
            state_of(r.2@, r.3@, r.0@, r.1@, Seq::empty()) == outcome(self@, s),
            non_negative(self@) ==> is_shortest_paths(self@, s, r.2@, r.3@),
            non_negative(self@) ==> r.0@.no_duplicates() && r.0@.to_set() == r.2@.dom() && r.0@[0]
                == s,
    {
        let mut dist: HashMap<i64, i64> = HashMap::new();
        let mut parent: HashMap<i64, i64> = HashMap::new();
        let mut visited_nodes: Vec<i64> = Vec::new();
        let mut visited_edges: Vec<(i64, i64)> = Vec::new();
        let mut processed: HashSet<i64> = HashSet::new();
        let mut pq = MinQueue::new();

        dist.insert(s, 0);
        pq.push(0, s);

        let ghost g = self@;
        let ghost mut n: nat = 0;
        proof {
            self.lemma_finite();
        }
        let ghost universe = node_set(g).to_seq();
        proof {
            node_set(g).lemma_to_seq_to_set_id();
            assert(pq@ =~= seq![(0i64, s)]);
            assert(processed@ =~= visited_nodes@.to_set());
        }
        while !pq.is_empty()
            invariant
                g == self@,
                universe.to_set() == node_set(g),
                processed@ == visited_nodes@.to_set(),
                state_of(dist@, parent@, visited_nodes@, visited_edges@, pq@) == run(g, s, n),
            decreases potential(universe, dist@), pq@.len(),
        {
            let ghost before = state_of(dist@, parent@, visited_nodes@, visited_edges@, pq@);
            let ghost phi = potential(universe, dist@);
            match pq.pop_min() {
                Some(top) => {
                    let c: i64 = top.0;
                    let u: i64 = top.1;
                    let known: i64 = match dist.get(&u) {
                        Some(d) => *d,
                        None => i64::MAX,
                    };
                    if c <= known {
                        if !processed.contains(&u) {
                            visited_nodes.push(u);
                            processed.insert(u);
                            proof {
                                before.nodes.lemma_push_to_set_commute(u);
                            }
                        }
                        let ghost accepted = state_of(
                            dist@,
                            parent@,
                            visited_nodes@,
                            visited_edges@,
                            pq@,
                        );
                        assert(accepted == accept(
                            DijkstraState { queue: before.queue.remove(first_min(before.queue)), ..before },
                            u,
                        ));
                        match self.neighbors(u) {
                            Some(list) => {
                                let mut i: usize = 0;
                                while i < list.len()
                                    invariant
                                        0 <= i <= list.len(),
                                        list@ == row(g, u),
                                                                universe.to_set() == node_set(g),
                                        processed@ == visited_nodes@.to_set(),
                                        state_of(
                                            dist@,
                                            parent@,
                                            visited_nodes@,
                                            visited_edges@,
                                            pq@,
                                        ) == relax_row(accepted, u, c, list@.take(i as int)),
                                        potential(universe, dist@) <= phi,
                                        pq@.len() >= accepted.queue.len(),
                                        pq@.len() == accepted.queue.len() || potential(
                                            universe,
                                            dist@,
                                        ) < phi,
                                    decreases list.len() - i,
                                {
                                    let v: i64 = list[i].0;
                                    let w: i64 = list[i].1;
                                    proof {
                                        assert(list@.take(i as int + 1).drop_last() == list@.take(
                                            i as int,
                                        ));
                                        assert(list@.take(i as int + 1).last() == list@[i as int]);
                                    }
                                    match c.checked_add(w) {
                                        Some(cost) => {
                                            let known_v: i64 = match dist.get(&v) {
                                                Some(d) => *d,
                                                None => i64::MAX,
                                            };
                                            if cost < known_v {
                                                proof {
                                                    assert(row(g, u)[i as int].0 == v);
                                                    assert(has_edge(g, u, v));
                                                    assert(node_set(g).contains(v));
                                                    assert(universe.contains(v));
                                                    lemma_potential_falls(universe, dist@, v, cost);
                                                }
                                                dist.insert(v, cost);
                                                parent.insert(v, u);
                                                pq.push(cost, v);
                                                visited_edges.push((u, v));
                                            }
                                        },
                                        None => {},
                                    }
                                    i = i + 1;
                                }
                                assert(list@.take(list@.len() as int) == list@);
                            },
                            None => {},
                        }
                    }
                },
                None => {},
            }
            proof {
                n = n + 1;
            }
        }
        proof {
            assert(pq@ =~= Seq::empty());
            lemma_outcome(g, s, n);
            if non_negative(g) {
                lemma_shortest_paths(g, s);
            }
        }
        (visited_nodes, visited_edges, dist, parent)
    }
}

} // verus!
