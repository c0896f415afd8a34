//! Breadth-first traversal.

use crate::graph::{has_edge, heads, lemma_node_set_finite, node_set, row, Adjacency, Graph};
use crate::paths::{
    closed_under_edges, is_discovery_trace, lemma_closed_holds_reachable, lemma_reaches_self,
    lemma_reaches_step, reachable, reaches,
};
use std::collections::{HashSet, VecDeque};
use vstd::prelude::*;

verus! {

broadcast use vstd::std_specs::hash::group_hash_axioms;

/// What a breadth-first traversal holds between two steps.
pub struct BfsState {
    /// The node-visit events, in order.
    pub nodes: Seq<i64>,
    /// The discovery edges, in order.
    pub edges: Seq<(i64, i64)>,
    /// The nodes visited whose rows are still to be read, oldest first.
    pub queue: Seq<i64>,
}

/// The state at the start: the source is visited and waits.
pub open spec fn start(s: i64) -> BfsState {
    BfsState { nodes: seq![s], edges: Seq::empty(), queue: seq![s] }
}

/// The head `v` of an entry of `u` is looked at: where it is not visited
/// yet, it is visited now, over the edge from `u`, and waits.
pub open spec fn discover(st: BfsState, u: i64, v: i64) -> BfsState {
    if st.nodes.contains(v) {
        st
    } else {
        BfsState {
            nodes: st.nodes.push(v),
            edges: st.edges.push((u, v)),
            queue: st.queue.push(v),
        }
    }
}

/// All entries of `list` looked at in order.
pub open spec fn discover_row(st: BfsState, u: i64, list: Seq<(i64, i64)>) -> BfsState
    decreases list.len(),
{
    if list.len() == 0 {
        st
    } else {
        discover(discover_row(st, u, list.drop_last()), u, list.last().0)
    }
}

/// The oldest waiting node leaves the queue and its row is read.
pub open spec fn step(g: Adjacency, st: BfsState) -> BfsState {
    if st.queue.len() == 0 {
        st
    } else {
        let u = st.queue[0];
        let popped = BfsState { queue: st.queue.subrange(1, st.queue.len() as int), ..st };
        discover_row(popped, u, row(g, u))
    }
}

/// The state after `n` steps.
pub open spec fn run(g: Adjacency, s: i64, n: nat) -> BfsState
    decreases n,
{
    if n == 0 {
        start(s)
    } else {
        step(g, run(g, s, (n - 1) as nat))
    }
}

/// Whether the queue is empty after `n` steps.
pub open spec fn halts_at(g: Adjacency, s: i64, n: nat) -> bool {
    run(g, s, n).queue.len() == 0
}

/// The state in which the traversal from `s` ends.
pub open spec fn outcome(g: Adjacency, s: i64) -> BfsState {
    run(g, s, choose|n: nat| halts_at(g, s, n))
}

/// Once the queue is empty nothing changes any more.
pub proof fn lemma_run_stable(g: Adjacency, s: i64, a: nat, b: nat)
    requires
        halts_at(g, s, a),
        a <= b,
    ensures
        run(g, s, b) == run(g, s, a),
    decreases b,
{
    if a < b {
        lemma_run_stable(g, s, a, (b - 1) as nat);
    }
}

/// The traversal is repeatable: two runs that both end have ended in the
/// same state, however many further steps either was given.
pub proof fn lemma_runs_agree(g: Adjacency, s: i64, a: nat, b: nat)
    requires
        halts_at(g, s, a),
        halts_at(g, s, b),
    ensures
        run(g, s, a) == run(g, s, b),
{
    if a <= b {
        lemma_run_stable(g, s, a, b);
    } else {
        lemma_run_stable(g, s, b, a);
    }
}

/// Whatever number of steps empties the queue, the state reached is the
/// outcome.
pub proof fn lemma_outcome(g: Adjacency, s: i64, n: nat)
    requires
        halts_at(g, s, n),
    ensures
        outcome(g, s) == run(g, s, n),
{
    let m = choose|m: nat| halts_at(g, s, m);
    if m <= n {
        lemma_run_stable(g, s, m, n);
    } else {
        lemma_run_stable(g, s, n, m);
    }
}

/// The reading of a row forgets no node, and where it adds to the queue it
/// visits a node of `universe` that was not visited.
proof fn lemma_discover_row_shrinks(
    g: Adjacency,
    u: i64,
    list: Seq<(i64, i64)>,
    st: BfsState,
    universe: Set<i64>,
)
    requires
        universe.finite(),
        node_set(g).subset_of(universe),
        list.len() <= row(g, u).len(),
        list == row(g, u).take(list.len() as int),
    ensures
        universe.difference(discover_row(st, u, list).nodes.to_set()).len() <= universe.difference(
            st.nodes.to_set(),
        ).len(),
        discover_row(st, u, list).queue.len() == st.queue.len() || universe.difference(
            discover_row(st, u, list).nodes.to_set(),
        ).len() < universe.difference(st.nodes.to_set()).len(),
    decreases list.len(),
{
    if list.len() > 0 {
        let front = list.drop_last();
        assert(front == row(g, u).take(front.len() as int));
        lemma_discover_row_shrinks(g, u, front, st, universe);
        let before = discover_row(st, u, front);
        let v = list.last().0;
        if !before.nodes.contains(v) {
            assert(row(g, u)[list.len() - 1] == list.last());
            assert(has_edge(g, u, v));
            assert(heads(g).contains(v));
            before.nodes.lemma_push_to_set_commute(v);
            universe.lemma_set_insert_diff_decreases(before.nodes.to_set(), v);
        }
    }
}

/// From the state after `n` steps the traversal of a finite graph comes to
/// an end: a step that visits no node shortens the queue.
proof fn lemma_halts_from(g: Adjacency, s: i64, n: nat)
    requires
        g.dom().finite(),
    ensures
        exists|m: nat| halts_at(g, s, m),
    decreases
        node_set(g).insert(s).difference(run(g, s, n).nodes.to_set()).len(),
        run(g, s, n).queue.len(),
{
    let st = run(g, s, n);
    if st.queue.len() == 0 {
        assert(halts_at(g, s, n));
    } else {
        let universe = node_set(g).insert(s);
        lemma_node_set_finite(g);
        let u = st.queue[0];
        let popped = BfsState { queue: st.queue.subrange(1, st.queue.len() as int), ..st };
        assert(row(g, u).take(row(g, u).len() as int) == row(g, u));
        lemma_discover_row_shrinks(g, u, row(g, u), popped, universe);
        assert(run(g, s, n + 1) == step(g, st));
        lemma_halts_from(g, s, n + 1);
    }
}

/// The traversal of a finite graph comes to an end.
pub proof fn lemma_bfs_halts(g: Adjacency, s: i64)
    requires
        g.dom().finite(),
    ensures
        outcome(g, s).queue.len() == 0,
{
    lemma_halts_from(g, s, 0);
}

/// What holds of the state while the row of `u` is read: the trace is a
/// discovery trace from `s` with one node more than edges, every visited
/// node is reached from `s`, every waiting node is visited, and a visited
/// node other than `u` that does not wait has all its neighbours visited.
spec fn reading(g: Adjacency, s: i64, u: i64, st: BfsState) -> bool {
    &&& is_discovery_trace(g, st.nodes, st.edges)
    &&& st.nodes.len() == st.edges.len() + 1
    &&& st.nodes[0] == s
    &&& st.nodes.contains(u)
    &&& forall|j: int| 0 <= j < st.nodes.len() ==> reaches(g, s, #[trigger] st.nodes[j])
    &&& forall|i: int| 0 <= i < st.queue.len() ==> st.nodes.contains(#[trigger] st.queue[i])
    &&& forall|x: i64, y: i64|
        st.nodes.contains(x) && #[trigger] has_edge(g, x, y) ==> x == u || st.queue.contains(x)
            || st.nodes.contains(y)
}

/// What holds of the state between two steps: as `reading`, with no row
/// half read.
spec fn between(g: Adjacency, s: i64, st: BfsState) -> bool {
    &&& is_discovery_trace(g, st.nodes, st.edges)
    &&& st.nodes.len() == st.edges.len() + 1
    &&& st.nodes[0] == s
    &&& forall|j: int| 0 <= j < st.nodes.len() ==> reaches(g, s, #[trigger] st.nodes[j])
    &&& forall|i: int| 0 <= i < st.queue.len() ==> st.nodes.contains(#[trigger] st.queue[i])
    &&& forall|x: i64, y: i64|
        st.nodes.contains(x) && #[trigger] has_edge(g, x, y) ==> st.queue.contains(x)
            || st.nodes.contains(y)
}

/// One head of the row of `u` is looked at.
proof fn lemma_discover(g: Adjacency, s: i64, u: i64, v: i64, st: BfsState)
    requires
        reading(g, s, u, st),
        has_edge(g, u, v),
    ensures
        reading(g, s, u, discover(st, u, v)),
        discover(st, u, v).nodes.contains(v),
        forall|x: i64| st.nodes.contains(x) ==> discover(st, u, v).nodes.contains(x),
{
    let r = discover(st, u, v);
    if !st.nodes.contains(v) {
        let ju = choose|j: int| 0 <= j < st.nodes.len() && st.nodes[j] == u;
        assert(reaches(g, s, st.nodes[ju]));
        lemma_reaches_step(g, s, u, v);
        assert(r.nodes[st.nodes.len() as int] == v);
        assert forall|x: i64| st.nodes.contains(x) implies r.nodes.contains(x) by {
            let j = choose|j: int| 0 <= j < st.nodes.len() && st.nodes[j] == x;
            assert(r.nodes[j] == x);
        }
        assert forall|x: i64| st.queue.contains(x) implies r.queue.contains(x) by {
            let j = choose|j: int| 0 <= j < st.queue.len() && st.queue[j] == x;
            assert(r.queue[j] == x);
        }
        assert(r.queue[st.queue.len() as int] == v);
        assert forall|k: int| 0 <= k < r.edges.len() implies {
            &&& has_edge(g, (#[trigger] r.edges[k]).0, r.edges[k].1)
            &&& k + 1 < r.nodes.len() ==> r.nodes[k + 1] == r.edges[k].1
            &&& exists|j: int| 0 <= j <= k && j < r.nodes.len() && r.nodes[j] == r.edges[k].0
        } by {
            if k < st.edges.len() {
                assert(r.edges[k] == st.edges[k]);
                let j = choose|j: int|
                    0 <= j <= k && j < st.nodes.len() && st.nodes[j] == st.edges[k].0;
                assert(r.nodes[j] == r.edges[k].0);
                assert(r.nodes[k + 1] == st.nodes[k + 1]);
            } else {
                assert(r.edges[k] == (u, v));
                assert(r.nodes[ju] == u);
            }
        }
        assert forall|j: int| 0 <= j < r.nodes.len() implies reaches(g, s, #[trigger] r.nodes[j]) by {
            if j < st.nodes.len() {
                assert(r.nodes[j] == st.nodes[j]);
            }
        }
        assert forall|i: int| 0 <= i < r.queue.len() implies r.nodes.contains(
            #[trigger] r.queue[i],
        ) by {
            if i < st.queue.len() {
                assert(r.queue[i] == st.queue[i]);
                assert(st.nodes.contains(st.queue[i]));
            }
        }
        assert forall|x: i64, y: i64| r.nodes.contains(x) && #[trigger] has_edge(g, x, y) implies x == u
            || r.queue.contains(x) || r.nodes.contains(y) by {
            if st.nodes.contains(x) {
                if x != u && !st.queue.contains(x) {
                    assert(st.nodes.contains(y));
                }
            } else {
                let j = choose|j: int| 0 <= j < r.nodes.len() && r.nodes[j] == x;
                assert(x == v);
            }
        }
    }
}

/// A front part of the row of `u` is looked at: its heads are visited.
proof fn lemma_discover_row(g: Adjacency, s: i64, u: i64, list: Seq<(i64, i64)>, st: BfsState)
    requires
        reading(g, s, u, st),
        list.len() <= row(g, u).len(),
        list == row(g, u).take(list.len() as int),
    ensures
        reading(g, s, u, discover_row(st, u, list)),
        forall|i: int|
            0 <= i < list.len() ==> discover_row(st, u, list).nodes.contains((#[trigger] list[i]).0),
    decreases list.len(),
{
    if list.len() > 0 {
        let front = list.drop_last();
        assert(front == row(g, u).take(front.len() as int));
        lemma_discover_row(g, s, u, front, st);
        let before = discover_row(st, u, front);
        let v = list.last().0;
        assert(row(g, u)[list.len() - 1] == list.last());
        assert(has_edge(g, u, v));
        lemma_discover(g, s, u, v, before);
        assert forall|i: int| 0 <= i < list.len() implies discover_row(st, u, list).nodes.contains(
            (#[trigger] list[i]).0,
        ) by {
            if i < list.len() - 1 {
                assert(front[i] == list[i]);
            }
        }
    }
}

/// One step of the traversal.
proof fn lemma_step(g: Adjacency, s: i64, st: BfsState)
    requires
        between(g, s, st),
    ensures
        between(g, s, step(g, st)),
{
    if st.queue.len() > 0 {
        let u = st.queue[0];
        let popped = BfsState { queue: st.queue.subrange(1, st.queue.len() as int), ..st };
        assert forall|x: i64, y: i64| popped.nodes.contains(x) && #[trigger] has_edge(g, x, y) implies x == u
            || popped.queue.contains(x) || popped.nodes.contains(y) by {
            if st.queue.contains(x) && x != u {
                let i = choose|i: int| 0 <= i < st.queue.len() && st.queue[i] == x;
                assert(popped.queue[i - 1] == x);
            }
        }
        assert forall|i: int| 0 <= i < popped.queue.len() implies popped.nodes.contains(
            #[trigger] popped.queue[i],
        ) by {
            assert(popped.queue[i] == st.queue[i + 1]);
        }
        assert(reading(g, s, u, popped));
        assert(row(g, u).take(row(g, u).len() as int) == row(g, u));
        lemma_discover_row(g, s, u, row(g, u), popped);
        let r = step(g, st);
        assert forall|x: i64, y: i64| r.nodes.contains(x) && #[trigger] has_edge(g, x, y) implies r
            .queue.contains(x) || r.nodes.contains(y) by {
            if x == u {
                let i = choose|i: int| 0 <= i < row(g, u).len() && (#[trigger] row(g, u)[i]).0 == y;
                assert(r.nodes.contains(row(g, u)[i].0));
            }
        }
    }
}

/// The state after any number of steps.
proof fn lemma_run(g: Adjacency, s: i64, n: nat)
    ensures
        between(g, s, run(g, s, n)),
    decreases n,
{
    if n == 0 {
        let st = start(s);
        lemma_reaches_self(g, s);
        assert(st.nodes[0] == s);
        assert(st.queue[0] == s);
        assert forall|x: i64, y: i64| st.nodes.contains(x) && #[trigger] has_edge(g, x, y) implies st
            .queue.contains(x) || st.nodes.contains(y) by {
            let j = choose|j: int| 0 <= j < st.nodes.len() && st.nodes[j] == x;
        }
    } else {
        lemma_run(g, s, (n - 1) as nat);
        lemma_step(g, s, run(g, s, (n - 1) as nat));
    }
}

/// The breadth-first trace from `s` visits exactly the nodes that `s`
/// reaches, each once and `s` first, and each of its edges leads from a
/// node visited earlier to the node visited next.
pub proof fn lemma_bfs_trace(g: Adjacency, s: i64)
    requires
        g.dom().finite(),
    ensures
        is_discovery_trace(g, outcome(g, s).nodes, outcome(g, s).edges),
        outcome(g, s).nodes.len() == outcome(g, s).edges.len() + 1,
        outcome(g, s).nodes[0] == s,
        outcome(g, s).nodes.to_set() == reachable(g, s),
{
    lemma_bfs_halts(g, s);
    let n = choose|n: nat| halts_at(g, s, n);
    lemma_run(g, s, n);
    let r = outcome(g, s);
    assert forall|v: i64| r.nodes.to_set().contains(v) implies reachable(g, s).contains(v) by {
        let j = choose|j: int| 0 <= j < r.nodes.len() && r.nodes[j] == v;
        assert(reaches(g, s, r.nodes[j]));
    }
    assert(closed_under_edges(g, r.nodes.to_set())) by {
        assert forall|x: i64, y: i64| r.nodes.to_set().contains(x) && #[trigger] has_edge(g, x, y) implies r
            .nodes.to_set().contains(y) by {
            assert(r.nodes.contains(x));
            assert(!r.queue.contains(x));
            assert(r.nodes.contains(y));
        }
    }
    assert(r.nodes.to_set().contains(s)) by {
        assert(r.nodes[0] == s);
    }
    lemma_closed_holds_reachable(g, r.nodes.to_set(), s);
    assert(r.nodes.to_set() =~= reachable(g, s));
}

/// From a source without entries the trace is the source alone.
pub proof fn lemma_bfs_of_lone_source(g: Adjacency, s: i64)
    requires
        row(g, s).len() == 0,
    ensures
        outcome(g, s).nodes == seq![s],
        outcome(g, s).edges == Seq::<(i64, i64)>::empty(),
        outcome(g, s).queue.len() == 0,
{
    assert(run(g, s, 1) == step(g, run(g, s, 0)));
    assert(halts_at(g, s, 1));
    lemma_outcome(g, s, 1);
}

impl Graph {
    /// Breadth-first traversal from `s`: the nodes in the order of their
    /// visit and the edges over which they were discovered. Exactly the
    /// nodes that `s` reaches are visited, each once and `s` first.
    pub fn bfs(&self, s: i64) -> (r: (Vec<i64>, Vec<(i64, i64)>))
        ensures
            outcome(self@, s).nodes == r.0@,
            outcome(self@, s).edges == r.1@,
            outcome(self@, s).queue.len() == 0,
            is_discovery_trace(self@, r.0@, r.1@),
            r.0@.len() == r.1@.len() + 1,
            r.0@[0] == s,
            r.0@.to_set() == reachable(self@, s),
    {
        let mut visited: HashSet<i64> = HashSet::new();
        let mut visited_nodes: Vec<i64> = Vec::new();
        let mut visited_edges: Vec<(i64, i64)> = Vec::new();
        let mut q: VecDeque<i64> = VecDeque::new();

        q.push_back(s);
        visited.insert(s);
        visited_nodes.push(s);

        let ghost g = self@;
        let ghost universe = node_set(g).insert(s);
        let ghost mut n: nat = 0;
        proof {
            self.lemma_finite();
            assert(q@ =~= seq![s]);
            assert(visited_nodes@ =~= seq![s]);
            Seq::<i64>::empty().lemma_push_to_set_commute(s);
            assert(Seq::<i64>::empty().push(s) =~= seq![s]);
            assert(Seq::<i64>::empty().to_set() =~= Set::<i64>::empty());
        }
        while q.len() > 0
            invariant
                g == self@,
                universe == node_set(g).insert(s),
                universe.finite(),
                visited@ == visited_nodes@.to_set(),
                (BfsState { nodes: visited_nodes@, edges: visited_edges@, queue: q@ }) == run(
                    g,
                    s,
                    n,
                ),
            decreases universe.difference(visited@).len(), q@.len(),
        {
            let ghost unseen = universe.difference(visited@).len();
            let ghost waiting = q@.len();
            match q.pop_front() {
                Some(u) => {
                    let ghost popped = BfsState {
                        nodes: visited_nodes@,
                        edges: visited_edges@,
                        queue: q@,
                    };
                    match self.neighbors(u) {
                        Some(list) => {
                            let mut i: usize = 0;
                            while i < list.len()
                                invariant
                                    0 <= i <= list.len(),
                                    list@ == row(g, u),
                                    universe == node_set(g).insert(s),
                                    universe.finite(),
                                    visited@ == visited_nodes@.to_set(),
                                    (BfsState {
                                        nodes: visited_nodes@,
                                        edges: visited_edges@,
                                        queue: q@,
                                    }) == discover_row(popped, u, list@.take(i as int)),
                                    universe.difference(visited@).len() <= unseen,
                                    q@.len() == waiting - 1 || universe.difference(visited@).len()
                                        < unseen,
                                decreases list.len() - i,
                            {
                                let v: i64 = list[i].0;
                                proof {
                                    assert(list@.take(i as int + 1).drop_last() == list@.take(
                                        i as int,
                                    ));
                                    assert(list@.take(i as int + 1).last() == list@[i as int]);
                                }
                                if !visited.contains(&v) {
                                    proof {
                                        assert(row(g, u)[i as int].0 == v);
                                        assert(has_edge(g, u, v));
                                        assert(node_set(g).contains(v));
                                        universe.lemma_set_insert_diff_decreases(visited@, v);
                                        visited_nodes@.lemma_push_to_set_commute(v);
                                    }
                                    q.push_back(v);
                                    visited.insert(v);
                                    visited_nodes.push(v);
                                    visited_edges.push((u, v));
                                }
                                i = i + 1;
                            }
                            assert(list@.take(list@.len() as int) == list@);
                        },
                        None => {},
                    }
                },
                None => {},
            }
            proof {
                n = n + 1;
            }
        }
        proof {
            lemma_outcome(g, s, n);
            lemma_bfs_trace(g, s);
        }
        (visited_nodes, visited_edges)
    }
}

} // verus!
