//! Walking back along a predecessor map.

use crate::routes::{hop_retraced, hop_tail, retraces, route_end};
use std::collections::HashMap;
use vstd::prelude::*;

verus! {

broadcast use vstd::std_specs::hash::group_hash_axioms;

/// The node `k` steps back from `v` along `parent`, where the walk gets
/// that far.
pub open spec fn ancestor(parent: Map<i64, i64>, v: i64, k: nat) -> Option<i64>
    decreases k,
{
    if k == 0 {
        Some(v)
    } else {
        match ancestor(parent, v, (k - 1) as nat) {
            Some(x) => if parent.contains_key(x) {
                Some(parent[x])
            } else {
                None
            },
            None => None,
        }
    }
}

/// The walk back from `v` ends after exactly `k` steps, at a node without
/// a predecessor.
pub open spec fn ends_after(parent: Map<i64, i64>, v: i64, k: nat) -> bool {
    match ancestor(parent, v, k) {
        Some(x) => !parent.contains_key(x),
        None => false,
    }
}

/// `path` is the walk back from `v`, turned round: it ends with `v`, each
/// node is the predecessor of the next, and the first has none.
pub open spec fn is_path_to(parent: Map<i64, i64>, v: i64, path: Seq<i64>) -> bool {
    &&& path.len() >= 1
    &&& ends_after(parent, v, (path.len() - 1) as nat)
    &&& forall|i: int|
        0 <= i < path.len() ==> ancestor(parent, v, (path.len() - 1 - i) as nat) == Some(
            #[trigger] path[i],
        )
}

/// Steps back add up.
pub proof fn lemma_ancestor_add(parent: Map<i64, i64>, v: i64, a: nat, b: nat)
    ensures
        ancestor(parent, v, a + b) == match ancestor(parent, v, a) {
            Some(x) => ancestor(parent, x, b),
            None => None,
        },
    decreases b,
{
    if b > 0 {
        lemma_ancestor_add(parent, v, a, (b - 1) as nat);
    }
}

/// Once the walk has ended it goes no further.
pub proof fn lemma_ancestor_none(parent: Map<i64, i64>, v: i64, a: nat, b: nat)
    requires
        ancestor(parent, v, a) is None,
        a <= b,
    ensures
        ancestor(parent, v, b) is None,
    decreases b,
{
    if a < b {
        lemma_ancestor_none(parent, v, a, (b - 1) as nat);
    }
}

/// Along a route that the predecessors retrace, `k` steps back from its
/// end stands the node that its hop of position `len - k` leaves.
pub proof fn lemma_retraced_ancestor(parent: Map<i64, i64>, s: i64, p: Seq<(i64, i64)>, k: nat)
    requires
        retraces(parent, s, p),
        k <= p.len(),
    ensures
        ancestor(parent, route_end(s, p), k) == Some(
            if k == 0 {
                route_end(s, p)
            } else {
                hop_tail(s, p, p.len() - k)
            },
        ),
    decreases k,
{
    if k > 0 {
        lemma_retraced_ancestor(parent, s, p, (k - 1) as nat);
        assert(hop_retraced(parent, s, p, p.len() - k));
    }
}

/// A route that the predecessors retrace from a source without one comes
/// to no node twice.
pub proof fn lemma_retraced_heads_differ(
    parent: Map<i64, i64>,
    s: i64,
    p: Seq<(i64, i64)>,
    i: int,
    j: int,
)
    requires
        retraces(parent, s, p),
        !parent.contains_key(s),
        0 <= i < j < p.len(),
    ensures
        p[i].0 != p[j].0,
{
    let q = p.take(j + 1);
    let x = p[j].0;
    assert forall|k: int| 0 <= k < q.len() implies #[trigger] hop_retraced(parent, s, q, k) by {
        assert(hop_retraced(parent, s, p, k));
    }
    let d = (j - i) as nat;
    lemma_retraced_ancestor(parent, s, q, d);
    lemma_retraced_ancestor(parent, s, q, (j + 1) as nat);
    assert(ancestor(parent, x, d) == Some(p[i].0));
    assert(ancestor(parent, x, (j + 1) as nat) == Some(s));
    if p[i].0 == x {
        lemma_ancestor_add(parent, x, d, (j + 1) as nat);
        lemma_ancestor_add(parent, x, (j + 1) as nat, d);
        assert(ancestor(parent, s, 1) is None) by {
            assert(ancestor(parent, s, 0) == Some(s));
        }
        lemma_ancestor_none(parent, s, 1, d);
    }
}

/// A route that the predecessors retrace from a source without one has
/// no more hops than there are predecessors.
pub proof fn lemma_retraced_is_short(parent: Map<i64, i64>, s: i64, p: Seq<(i64, i64)>)
    requires
        retraces(parent, s, p),
        !parent.contains_key(s),
        parent.dom().finite(),
    ensures
        p.len() <= parent.len(),
{
    let heads = p.map_values(|e: (i64, i64)| e.0);
    assert forall|i: int, j: int| 0 <= i < heads.len() && 0 <= j < heads.len() && i != j implies heads[i]
        != heads[j] by {
        if i < j {
            lemma_retraced_heads_differ(parent, s, p, i, j);
        } else {
            lemma_retraced_heads_differ(parent, s, p, j, i);
        }
    }
    heads.unique_seq_to_set();
    assert forall|x: i64| heads.to_set().contains(x) implies parent.dom().contains(x) by {
        let k = choose|k: int| 0 <= k < heads.len() && heads[k] == x;
        assert(hop_retraced(parent, s, p, k));
    }
    vstd::set_lib::lemma_len_subset(heads.to_set(), parent.dom());
}

/// The path from the node where the walk back from `node` ends to `node`:
/// `node` alone where it has no predecessor. `None` where the walk has not
/// ended after as many steps as there are predecessors, which only a walk
/// in a circle does.
pub fn path_to(parent: &HashMap<i64, i64>, node: i64) -> (r: Option<Vec<i64>>)
    ensures
        match r {
            Some(path) => is_path_to(parent@, node, path@) && path@.len() <= parent@.len() + 1,
            None => forall|k: nat| k <= parent@.len() ==> !ends_after(parent@, node, k),
        },
{
    let limit: usize = parent.len();
    let mut back: Vec<i64> = Vec::new();
    back.push(node);
    let mut current: i64 = node;
    let mut steps: usize = 0;
    let mut walking: bool = true;
    while walking
        invariant
            limit == parent@.len(),
            steps <= limit,
            back@.len() == steps + 1,
            current == back@[steps as int],
            forall|j: int| 0 <= j <= steps ==> ancestor(parent@, node, j as nat) == Some(
                #[trigger] back@[j],
            ),
            forall|j: int| 0 <= j < steps ==> parent@.contains_key(#[trigger] back@[j]),
            !walking ==> !parent@.contains_key(current),
        decreases limit - steps, if walking { 1int } else { 0int },
    {
        match parent.get(&current) {
            None => {
                walking = false;
            },
            Some(prev) => {
                if steps == limit {
                    proof {
                        assert forall|k: nat| k <= parent@.len() implies !ends_after(
                            parent@,
                            node,
                            k,
                        ) by {
                            assert(ancestor(parent@, node, k) == Some(back@[k as int]));
                        }
                    }
                    return None;
                }
                back.push(*prev);
                current = *prev;
                steps = steps + 1;
            },
        }
    }
    let mut path: Vec<i64> = Vec::new();
    let mut i: usize = back.len();
    while i > 0
        invariant
            0 <= i <= back@.len(),
            path@.len() == back@.len() - i,
            forall|j: int| 0 <= j < path@.len() ==> #[trigger] path@[j] == back@[back@.len() - 1 - j],
        decreases i,
    {
        i = i - 1;
        path.push(back[i]);
    }
    proof {
        assert forall|j: int| 0 <= j < path@.len() implies ancestor(
            parent@,
            node,
            (path@.len() - 1 - j) as nat,
        ) == Some(#[trigger] path@[j]) by {
            assert(ancestor(parent@, node, (path@.len() - 1 - j) as nat) == Some(
                back@[path@.len() - 1 - j],
            ));
        }
        assert(ancestor(parent@, node, steps as nat) == Some(back@[steps as int]));
    }
    Some(path)
}

} // verus!
