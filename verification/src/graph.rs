//! The weighted adjacency-list graph.

use std::collections::{HashMap, HashSet};
use vstd::prelude::*;
use vstd::std_specs::iter::IteratorSpec;

verus! {

broadcast use vstd::std_specs::hash::group_hash_axioms;

/// How an edge is entered into the graph.
pub enum EdgeType {
    /// One adjacency entry, from tail to head.
    Single,
    /// Two mirrored adjacency entries, one in each direction.
    Both,
}

/// The mathematical model of a graph: each tail node is mapped to its
/// outgoing `(head, weight)` entries in insertion order.
pub type Adjacency = Map<i64, Seq<(i64, i64)>>;

/// The outgoing entries of `u`; empty where `u` is the tail of no edge.
pub open spec fn row(g: Adjacency, u: i64) -> Seq<(i64, i64)> {
    if g.contains_key(u) {
        g[u]
    } else {
        Seq::empty()
    }
}

/// The model after one more entry `u -> (v, w)` has been appended.
pub open spec fn with_entry(g: Adjacency, u: i64, v: i64, w: i64) -> Adjacency {
    g.insert(u, row(g, u).push((v, w)))
}

/// The model after an edge has been inserted with the given direction tag.
pub open spec fn with_edge(g: Adjacency, u: i64, v: i64, w: i64, both: bool) -> Adjacency {
    if both {
        with_entry(with_entry(g, u, v, w), v, u, w)
    } else {
        with_entry(g, u, v, w)
    }
}

/// Whether `u -> v` with weight `w` is an entry of the graph.
pub open spec fn has_entry(g: Adjacency, u: i64, v: i64, w: i64) -> bool {
    exists|i: int| 0 <= i < row(g, u).len() && #[trigger] row(g, u)[i] == (v, w)
}

/// Whether some entry leads from `u` to `v`.
pub open spec fn has_edge(g: Adjacency, u: i64, v: i64) -> bool {
    exists|i: int| 0 <= i < row(g, u).len() && (#[trigger] row(g, u)[i]).0 == v
}

/// The nodes that are the head of some entry.
pub open spec fn heads(g: Adjacency) -> Set<i64> {
    Set::new(|v: i64| exists|u: i64| has_edge(g, u, v))
}

/// Every node of the graph: the tails and the heads of its entries.
pub open spec fn node_set(g: Adjacency) -> Set<i64> {
    g.dom().union(heads(g))
}

/// The heads found in the row of `u`.
pub open spec fn row_heads(g: Adjacency, u: i64) -> Set<i64> {
    row(g, u).map_values(|e: (i64, i64)| e.0).to_set()
}

/// A graph with finitely many tails has finitely many nodes.
pub proof fn lemma_node_set_finite(g: Adjacency)
    requires
        g.dom().finite(),
    ensures
        node_set(g).finite(),
{
    let f = |u: i64| row_heads(g, u);
    let rows = g.dom().map(f);
    g.dom().lemma_map_finite(f);
    assert forall|s: Set<i64>| rows.contains(s) implies #[trigger] s.finite() by {
        let u = choose|u: i64| g.dom().contains(u) && f(u) == s;
        vstd::seq_lib::seq_to_set_is_finite(row(g, u).map_values(|e: (i64, i64)| e.0));
    }
    rows.lemma_flatten_finite();
    assert forall|v: i64| heads(g).contains(v) implies rows.flatten().contains(v) by {
        let u = choose|u: i64| has_edge(g, u, v);
        let i = choose|i: int| 0 <= i < row(g, u).len() && (#[trigger] row(g, u)[i]).0 == v;
        let hs = row(g, u).map_values(|e: (i64, i64)| e.0);
        assert(hs[i] == v);
        assert(hs.to_set().contains(v));
        assert(g.dom().contains(u));
        assert(rows.contains(f(u)));
    }
    assert forall|v: i64| rows.flatten().contains(v) implies heads(g).contains(v) by {
        let s = choose|s: Set<i64>| #[trigger] rows.contains(s) && s.contains(v);
        let u = choose|u: i64| g.dom().contains(u) && f(u) == s;
        let hs = row(g, u).map_values(|e: (i64, i64)| e.0);
        assert(hs.to_set().contains(v));
        let i = choose|i: int| 0 <= i < hs.len() && hs[i] == v;
        assert(row(g, u)[i].0 == v);
        assert(has_edge(g, u, v));
    }
    assert(heads(g) =~= rows.flatten());
}

/// The two ends of an edge with the lower one first: entries between the
/// same two nodes, in either direction, share it.
pub open spec fn pair_key(u: i64, v: i64) -> (i64, i64) {
    if u <= v {
        (u, v)
    } else {
        (v, u)
    }
}

/// A pair of nodes as one number, no two pairs as the same.
spec fn pair_code(p: (i64, i64)) -> int {
    p.0 * 0x1_0000_0000_0000_0000 + (p.1 + 0x8000_0000_0000_0000)
}

/// A weighted graph kept as adjacency lists. Entries are only ever appended.
pub struct Graph {
    adj: HashMap<i64, Vec<(i64, i64)>>,
}

impl View for Graph {
    type V = Adjacency;

    closed spec fn view(&self) -> Adjacency {
        Map::new(|u: i64| self.adj@.contains_key(u), |u: i64| self.adj@[u]@)
    }
}

impl Graph {
    /// The graph without any edge.
    pub fn new() -> (g: Graph)
        ensures
            g@ == Map::<i64, Seq<(i64, i64)>>::empty(),
    {
        let g = Graph { adj: HashMap::new() };
        assert(g@ =~= Map::<i64, Seq<(i64, i64)>>::empty());
        g
    }

    /// The model of a stored graph has finitely many nodes.
    pub proof fn lemma_finite(&self)
        ensures
            self@.dom().finite(),
            node_set(self@).finite(),
    {
        vstd::std_specs::hash::axiom_hashmap_view_finite_dom(self.adj);
        assert(self@.dom() =~= self.adj@.dom());
        lemma_node_set_finite(self@);
    }

    /// The stored row of `u`, where it has one.
    pub(crate) fn neighbors(&self, u: i64) -> (r: Option<&Vec<(i64, i64)>>)
        ensures
            match r {
                Some(list) => self@.contains_key(u) && list@ == self@[u],
                None => !self@.contains_key(u),
            },
            r is Some ==> r.unwrap()@ == row(self@, u),
            r is None ==> row(self@, u).len() == 0,
    {
        self.adj.get(&u)
    }

    /// Every node that is the tail or the head of an entry, each once. The
    /// order is that in which the stored rows happen to be walked.
    pub fn nodes(&self) -> (r: Vec<i64>)
        ensures
            r@.no_duplicates(),
            r@.to_set() == node_set(self@),
    {
        let mut seen: HashSet<i64> = HashSet::new();
        let mut result: Vec<i64> = Vec::new();
        let ghost g = self@;
        assert(seen@ =~= result@.to_set());
        for pair in it: self.adj.iter()
            invariant
                g == self@,
                it.seq() == self.adj.iter().remaining(),
                seen@ == result@.to_set(),
                result@.no_duplicates(),
                forall|x: i64| seen@.contains(x) ==> node_set(g).contains(x),
                forall|k: int|
                    0 <= k < it.index() ==> seen@.contains(*(#[trigger] it.seq()[k]).0),
                forall|k: int, j: int|
                    0 <= k < it.index() && 0 <= j < row(g, *it.seq()[k].0).len() ==> seen@.contains(
                        (#[trigger] row(g, *it.seq()[k].0)[j]).0,
                    ),
        {
            let u: i64 = *pair.0;
            let list = pair.1;
            assert(self.adj@.contains_key(u) && self.adj@[u] == *list);
            assert(list@ == row(g, u));
            if seen.insert(u) {
                proof {
                    result@.lemma_push_to_set_commute(u);
                }
                result.push(u);
            }
            let mut j: usize = 0;
            while j < list.len()
                invariant
                    0 <= j <= list.len(),
                    list@ == row(g, u),
                    g.contains_key(u),
                    seen@ == result@.to_set(),
                    result@.no_duplicates(),
                    seen@.contains(u),
                    forall|x: i64| seen@.contains(x) ==> node_set(g).contains(x),
                    forall|k: int|
                        0 <= k < it.index() ==> seen@.contains(*(#[trigger] it.seq()[k]).0),
                    forall|k: int, j: int|
                        0 <= k < it.index() && 0 <= j < row(g, *it.seq()[k].0).len()
                            ==> seen@.contains((#[trigger] row(g, *it.seq()[k].0)[j]).0),
                    forall|i: int| 0 <= i < j ==> seen@.contains((#[trigger] list@[i]).0),
                decreases list.len() - j,
            {
                let v: i64 = list[j].0;
                proof {
                    assert(row(g, u)[j as int].0 == v);
                    assert(has_edge(g, u, v));
                    assert(heads(g).contains(v));
                }
                if seen.insert(v) {
                    proof {
                        result@.lemma_push_to_set_commute(v);
                    }
                    result.push(v);
                }
                j = j + 1;
            }
        }
        proof {
            assert forall|x: i64| node_set(g).contains(x) implies seen@.contains(x) by {
                let all = self.adj.iter().remaining();
                if g.contains_key(x) {
                    assert(self.adj@.contains_key(x));
                    assert(all.contains((&x, &self.adj@[x])));
                    let k = choose|k: int| 0 <= k < all.len() && all[k] == (&x, &self.adj@[x]);
                    assert(*all[k].0 == x);
                } else {
                    let u = choose|u: i64| has_edge(g, u, x);
                    let j = choose|j: int|
                        0 <= j < row(g, u).len() && (#[trigger] row(g, u)[j]).0 == x;
                    assert(self.adj@.contains_key(u));
                    assert(all.contains((&u, &self.adj@[u])));
                    let k = choose|k: int| 0 <= k < all.len() && all[k] == (&u, &self.adj@[u]);
                    assert(*all[k].0 == u);
                    assert(seen@.contains(row(g, *all[k].0)[j].0));
                }
            }
            assert(seen@ =~= node_set(g));
        }
        result
    }

    /// One entry for each pair of nodes that some entry joins, whatever its
    /// direction, as `(tail, head, weight)`. Where several entries join the
    /// same pair, the one that is met first when the stored rows are walked
    /// stands for them.
    pub fn edges(&self) -> (r: Vec<(i64, i64, i64)>)
        ensures
            forall|k: int| 0 <= k < r@.len() ==> has_entry(self@, r@[k].0, r@[k].1, r@[k].2),
            forall|a: int, b: int|
                0 <= a < b < r@.len() ==> pair_key(r@[a].0, r@[a].1) != pair_key(r@[b].0, r@[b].1),
            forall|u: i64, v: i64|
                has_edge(self@, u, v) ==> exists|k: int|
                    0 <= k < r@.len() && pair_key(r@[k].0, r@[k].1) == pair_key(u, v),
    {
        let mut result: Vec<(i64, i64, i64)> = Vec::new();
        let mut seen: HashSet<i128> = HashSet::new();
        let ghost g = self@;
        for pair in it: self.adj.iter()
            invariant
                g == self@,
                it.seq() == self.adj.iter().remaining(),
                forall|k: int|
                    0 <= k < result@.len() ==> has_entry(
                        g,
                        result@[k].0,
                        result@[k].1,
                        result@[k].2,
                    ),
                forall|k: int|
                    0 <= k < result@.len() ==> seen@.contains(
                        pair_code(pair_key(result@[k].0, result@[k].1)) as i128,
                    ),
                forall|c: i128|
                    seen@.contains(c) ==> exists|k: int|
                        0 <= k < result@.len() && pair_code(pair_key(result@[k].0, result@[k].1))
                            == c,
                forall|a: int, b: int|
                    0 <= a < b < result@.len() ==> pair_key(result@[a].0, result@[a].1) != pair_key(
                        result@[b].0,
                        result@[b].1,
                    ),
                forall|k: int, j: int|
                    0 <= k < it.index() && 0 <= j < row(g, *it.seq()[k].0).len() ==> seen@.contains(
                        pair_code(pair_key(*it.seq()[k].0, (#[trigger] row(g, *it.seq()[k].0)[j]).0))
                            as i128,
                    ),
        {
            let u: i64 = *pair.0;
            let list = pair.1;
            assert(self.adj@.contains_key(u) && self.adj@[u] == *list);
            assert(list@ == row(g, u));
            let mut j: usize = 0;
            while j < list.len()
                invariant
                    0 <= j <= list.len(),
                    list@ == row(g, u),
                    forall|k: int|
                        0 <= k < result@.len() ==> has_entry(
                            g,
                            result@[k].0,
                            result@[k].1,
                            result@[k].2,
                        ),
                    forall|k: int|
                        0 <= k < result@.len() ==> seen@.contains(
                            pair_code(pair_key(result@[k].0, result@[k].1)) as i128,
                        ),
                    forall|c: i128|
                        seen@.contains(c) ==> exists|k: int|
                            0 <= k < result@.len() && pair_code(
                                pair_key(result@[k].0, result@[k].1),
                            ) == c,
                    forall|a: int, b: int|
                        0 <= a < b < result@.len() ==> pair_key(result@[a].0, result@[a].1)
                            != pair_key(result@[b].0, result@[b].1),
                    forall|k: int, j: int|
                        0 <= k < it.index() && 0 <= j < row(g, *it.seq()[k].0).len()
                            ==> seen@.contains(
                            pair_code(
                                pair_key(*it.seq()[k].0, (#[trigger] row(g, *it.seq()[k].0)[j]).0),
                            ) as i128,
                        ),
                    forall|i: int|
                        0 <= i < j ==> seen@.contains(
                            pair_code(pair_key(u, (#[trigger] list@[i]).0)) as i128,
                        ),
                decreases list.len() - j,
            {
                let v: i64 = list[j].0;
                let w: i64 = list[j].1;
                let lo: i64 = if u <= v { u } else { v };
                let hi: i64 = if u <= v { v } else { u };
                let code: i128 = (lo as i128) * 0x1_0000_0000_0000_0000 + ((hi as i128)
                    + 0x8000_0000_0000_0000);
                assert(code == pair_code(pair_key(u, v)));
                let ghost prev = result@;
                if seen.insert(code) {
                    result.push((u, v, w));
                    proof {
                        assert(row(g, u)[j as int] == (v, w));
                        assert(has_entry(g, u, v, w));
                        assert forall|a: int, b: int| 0 <= a < b < result@.len() implies pair_key(
                            result@[a].0,
                            result@[a].1,
                        ) != pair_key(result@[b].0, result@[b].1) by {
                            if b == prev.len() {
                                assert(result@[a] == prev[a]);
                                assert(seen@.remove(code).contains(
                                    pair_code(pair_key(prev[a].0, prev[a].1)) as i128,
                                ));
                            } else {
                                assert(result@[a] == prev[a] && result@[b] == prev[b]);
                            }
                        }
                        assert forall|c: i128| seen@.contains(c) implies exists|k: int|
                            0 <= k < result@.len() && pair_code(
                                pair_key(result@[k].0, result@[k].1),
                            ) == c by {
                            if c == code {
                                assert(result@[prev.len() as int] == (u, v, w));
                            } else {
                                let k = choose|k: int|
                                    0 <= k < prev.len() && pair_code(
                                        pair_key(prev[k].0, prev[k].1),
                                    ) == c;
                                assert(result@[k] == prev[k]);
                            }
                        }
                    }
                }
                j = j + 1;
            }
        }
        proof {
            let all = self.adj.iter().remaining();
            assert forall|u: i64, v: i64| has_edge(g, u, v) implies exists|k: int|
                0 <= k < result@.len() && pair_key(result@[k].0, result@[k].1) == pair_key(
                    u,
                    v,
                ) by {
                let j = choose|j: int| 0 <= j < row(g, u).len() && (#[trigger] row(g, u)[j]).0 == v;
                assert(self.adj@.contains_key(u));
                assert(all.contains((&u, &self.adj@[u])));
                let i = choose|i: int| 0 <= i < all.len() && all[i] == (&u, &self.adj@[u]);
                assert(*all[i].0 == u);
                let c = pair_code(pair_key(u, row(g, *all[i].0)[j].0)) as i128;
                assert(seen@.contains(c));
                let k = choose|k: int|
                    0 <= k < result@.len() && pair_code(pair_key(result@[k].0, result@[k].1)) == c;
                assert(pair_key(result@[k].0, result@[k].1) == pair_key(u, v));
            }
        }
        result
    }

    /// Appends the entry `u -> (v, w)` to the row of `u`.
    fn add_entry(&mut self, u: i64, v: i64, w: i64)
        ensures
            final(self)@ == with_entry(old(self)@, u, v, w),
    {
        self.adj.entry(u).or_insert(Vec::new()).push((v, w));
        assert(final(self)@ =~= with_entry(old(self)@, u, v, w));
    }

    /// Appends the edge `u -> v` of weight `w`, and for `Both` also its
    /// mirror `v -> u`. Self-loops and parallel edges are kept as they come.
    pub fn add_edge(&mut self, u: i64, v: i64, w: i64, edge_type: EdgeType)
        ensures
            final(self)@ == with_edge(old(self)@, u, v, w, edge_type is Both),
    {
        match edge_type {
            EdgeType::Single => {
                self.add_entry(u, v, w);
            },
            EdgeType::Both => {
                self.add_entry(u, v, w);
                self.add_entry(v, u, w);
            },
        }
    }
}

} // verus!
