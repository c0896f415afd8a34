//! A minimum-priority queue of `(cost, node)` entries.
//!
//! The entry of least cost leaves first, and among entries of equal cost the
//! one of the least node. What a pop returns is therefore a function of the
//! entries that wait.

use vstd::prelude::*;

verus! {

/// `a` leaves the queue no later than `b`: it costs less, or the same with
/// a node that is not greater.
pub open spec fn before(a: (i64, i64), b: (i64, i64)) -> bool {
    a.0 < b.0 || (a.0 == b.0 && a.1 <= b.1)
}

/// `m` is the position of the entry that leaves `q` next: the first of
/// the entries before which no other leaves.
pub open spec fn is_first_min(q: Seq<(i64, i64)>, m: int) -> bool {
    &&& 0 <= m < q.len()
    &&& forall|k: int| 0 <= k < q.len() ==> before(q[m], #[trigger] q[k])
    &&& forall|k: int| 0 <= k < m ==> #[trigger] q[k] != q[m]
}

/// The position of the entry that leaves `q` next (0 for the empty queue).
pub open spec fn first_min(q: Seq<(i64, i64)>) -> int {
    if exists|m: int| is_first_min(q, m) {
        choose|m: int| is_first_min(q, m)
    } else {
        0
    }
}

/// At most one position is the first minimum.
pub proof fn lemma_first_min_unique(q: Seq<(i64, i64)>, a: int, b: int)
    requires
        is_first_min(q, a),
        is_first_min(q, b),
    ensures
        a == b,
{
    assert(before(q[a], q[b]) && before(q[b], q[a]));
}

/// A position known to be the first minimum is the one `first_min` names.
pub proof fn lemma_first_min_is(q: Seq<(i64, i64)>, m: int)
    requires
        is_first_min(q, m),
    ensures
        first_min(q) == m,
{
    lemma_first_min_unique(q, first_min(q), m);
}

/// A queue that is not empty has a first minimum.
pub proof fn lemma_first_min_exists(q: Seq<(i64, i64)>)
    requires
        q.len() > 0,
    ensures
        is_first_min(q, first_min(q)),
    decreases q.len(),
{
    if q.len() == 1 {
        assert(is_first_min(q, 0));
    } else {
        let front = q.drop_last();
        lemma_first_min_exists(front);
        let j = first_min(front);
        assert(front[j] == q[j]);
        if before(front[j], q.last()) {
            assert forall|k: int| 0 <= k < q.len() implies before(q[j], #[trigger] q[k]) by {
                if k < front.len() {
                    assert(front[k] == q[k]);
                }
            }
            assert forall|k: int| 0 <= k < j implies #[trigger] q[k] != q[j] by {
                assert(front[k] == q[k]);
            }
            assert(is_first_min(q, j));
        } else {
            let n = q.len() - 1;
            assert forall|k: int| 0 <= k < q.len() implies before(q[n], #[trigger] q[k]) by {
                if k < front.len() {
                    assert(front[k] == q[k]);
                    assert(before(front[j], front[k]));
                }
            }
            assert forall|k: int| 0 <= k < n implies #[trigger] q[k] != q[n] by {
                assert(front[k] == q[k]);
                assert(before(front[j], front[k]));
            }
            assert(is_first_min(q, n));
        }
    }
}

/// Every entry stands no earlier in the heap than the one above it leaves.
spec fn is_heap(h: Seq<(i64, i64)>) -> bool {
    forall|i: int| 0 < i < h.len() ==> before(h[(i - 1) / 2], #[trigger] h[i])
}

/// A heap but for the entry of position `i`, which may have to move up or
/// down: every other entry is in order with the one above it, and the
/// entries below `i` with the one above `i`.
spec fn is_heap_but(h: Seq<(i64, i64)>, i: int) -> bool {
    &&& forall|j: int|
        0 < j < h.len() && j != i && (j - 1) / 2 != i ==> before(h[(j - 1) / 2], #[trigger] h[j])
    &&& forall|j: int|
        0 < j < h.len() && (j - 1) / 2 == i && i > 0 ==> before(h[(i - 1) / 2], #[trigger] h[j])
}

/// The top of a heap leaves before every entry of it.
proof fn lemma_top_is_least(h: Seq<(i64, i64)>, k: int)
    requires
        is_heap(h),
        0 <= k < h.len(),
    ensures
        before(h[0], h[k]),
    decreases k,
{
    if k > 0 {
        lemma_top_is_least(h, (k - 1) / 2);
        assert(before(h[(k - 1) / 2], h[k]));
    }
}

/// Whether `a` leaves strictly before `b`.
fn leaves_first(a: (i64, i64), b: (i64, i64)) -> (r: bool)
    ensures
        r == (before(a, b) && a != b),
{
    a.0 < b.0 || (a.0 == b.0 && a.1 < b.1)
}

/// Exchanges the entries of positions `i` and `j`.
fn exchange(h: &mut Vec<(i64, i64)>, i: usize, j: usize)
    requires
        i < old(h)@.len(),
        j < old(h)@.len(),
    ensures
        final(h)@ == old(h)@.update(i as int, old(h)@[j as int]).update(j as int, old(h)@[i as int]),
        final(h)@.to_multiset() == old(h)@.to_multiset(),
{
    let a = h[i];
    let b = h[j];
    h.set(i, b);
    h.set(j, a);
    proof {
        let s0 = old(h)@;
        let s1 = s0.update(i as int, b);
        vstd::seq_lib::to_multiset_update(s0, i as int, b);
        vstd::seq_lib::to_multiset_update(s1, j as int, a);
        vstd::seq_lib::to_multiset_contains(s0, a);
        vstd::seq_lib::to_multiset_contains(s0, b);
        assert(s0.contains(a)) by {
            assert(s0[i as int] == a);
        }
        assert(s0.contains(b)) by {
            assert(s0[j as int] == b);
        }
        assert(s1.update(j as int, a).to_multiset() =~= s0.to_multiset());
    }
}

/// Moves the entry of position `start` up to its place.
fn sift_up(h: &mut Vec<(i64, i64)>, start: usize)
    requires
        start < old(h)@.len(),
        is_heap_but(old(h)@, start as int),
        forall|j: int|
            0 < j < old(h)@.len() && (j - 1) / 2 == start ==> before(
                old(h)@[start as int],
                #[trigger] old(h)@[j],
            ),
    ensures
        is_heap(final(h)@),
        final(h)@.to_multiset() == old(h)@.to_multiset(),
{
    let mut i: usize = start;
    let mut moving: bool = true;
    while moving && i > 0
        invariant
            i < h@.len(),
            h@.len() == old(h)@.len(),
            h@.to_multiset() == old(h)@.to_multiset(),
            is_heap_but(h@, i as int),
            forall|j: int|
                0 < j < h@.len() && (j - 1) / 2 == i ==> before(h@[i as int], #[trigger] h@[j]),
            !moving ==> i > 0 && before(h@[(i - 1) / 2], h@[i as int]),
        decreases i, if moving { 1int } else { 0int },
    {
        let p: usize = (i - 1) / 2;
        if leaves_first(h[i], h[p]) {
            let ghost prev = h@;
            exchange(h, i, p);
            proof {
                assert forall|j: int|
                    0 < j < h@.len() && j != p && (j - 1) / 2 != p implies before(
                    h@[(j - 1) / 2],
                    #[trigger] h@[j],
                ) by {
                    if (j - 1) / 2 == i {
                        assert(before(prev[(i - 1) / 2], prev[j]));
                    } else {
                        assert(before(prev[(j - 1) / 2], prev[j]));
                    }
                }
                assert forall|j: int|
                    0 < j < h@.len() && (j - 1) / 2 == p && p > 0 implies before(
                    h@[(p - 1) / 2],
                    #[trigger] h@[j],
                ) by {
                    assert(before(prev[(p - 1) / 2], prev[p as int]));
                    if j != i {
                        assert(before(prev[(j - 1) / 2], prev[j]));
                    }
                }
                assert forall|j: int| 0 < j < h@.len() && (j - 1) / 2 == p implies before(
                    h@[p as int],
                    #[trigger] h@[j],
                ) by {
                    if j != i {
                        assert(before(prev[(j - 1) / 2], prev[j]));
                    }
                }
            }
            i = p;
        } else {
            moving = false;
        }
    }
}

/// Moves the entry of position `start` down to its place.
fn sift_down(h: &mut Vec<(i64, i64)>, start: usize)
    requires
        start < old(h)@.len(),
        is_heap_but(old(h)@, start as int),
        start > 0 ==> before(old(h)@[(start - 1) / 2], old(h)@[start as int]),
    ensures
        is_heap(final(h)@),
        final(h)@.to_multiset() == old(h)@.to_multiset(),
{
    let n: usize = h.len();
    let mut i: usize = start;
    let mut moving: bool = true;
    while moving && i < n / 2
        invariant
            i < n,
            n == h@.len(),
            h@.to_multiset() == old(h)@.to_multiset(),
            is_heap_but(h@, i as int),
            i > 0 ==> before(h@[(i - 1) / 2], h@[i as int]),
            !moving ==> forall|j: int|
                0 < j < n && (j - 1) / 2 == i ==> before(h@[i as int], #[trigger] h@[j]),
        decreases n - i, if moving { 1int } else { 0int },
    {
        let left: usize = 2 * i + 1;
        let right: usize = left + 1;
        let child: usize = if right < n && leaves_first(h[right], h[left]) {
            right
        } else {
            left
        };
        if leaves_first(h[child], h[i]) {
            let ghost prev = h@;
            exchange(h, i, child);
            proof {
                assert forall|j: int|
                    0 < j < n && j != child && (j - 1) / 2 != child implies before(
                    h@[(j - 1) / 2],
                    #[trigger] h@[j],
                ) by {
                    if j == i {
                        assert(before(prev[(i - 1) / 2], prev[child as int]));
                    } else if (j - 1) / 2 == i {
                        assert(j == left || j == right);
                    } else {
                        assert(before(prev[(j - 1) / 2], prev[j]));
                    }
                }
                assert forall|j: int|
                    0 < j < n && (j - 1) / 2 == child && child > 0 implies before(
                    h@[(child - 1) / 2],
                    #[trigger] h@[j],
                ) by {
                    assert(before(prev[(j - 1) / 2], prev[j]));
                }
            }
            i = child;
        } else {
            moving = false;
            proof {
                assert forall|j: int| 0 < j < n && (j - 1) / 2 == i implies before(
                    h@[i as int],
                    #[trigger] h@[j],
                ) by {
                    assert(j == left || j == right);
                }
            }
        }
    }
}

/// A minimum-priority queue, kept as a binary heap. Its view lists the
/// entries that wait in the order in which they were pushed.
pub struct MinQueue {
    heap: Vec<(i64, i64)>,
    order: Ghost<Seq<(i64, i64)>>,
}

impl View for MinQueue {
    type V = Seq<(i64, i64)>;

    closed spec fn view(&self) -> Seq<(i64, i64)> {
        self.order@
    }
}

impl MinQueue {
    /// The heap holds the entries that wait, each above those that leave
    /// after it.
    #[verifier::type_invariant]
    spec fn wf(&self) -> bool {
        &&& is_heap(self.heap@)
        &&& self.heap@.to_multiset() == self.order@.to_multiset()
    }

    /// The empty queue.
    pub fn new() -> (q: MinQueue)
        ensures
            q@ == Seq::<(i64, i64)>::empty(),
    {
        MinQueue { heap: Vec::new(), order: Ghost(Seq::empty()) }
    }

    /// Whether no entry is waiting.
    pub fn is_empty(&self) -> (b: bool)
        ensures
            b == (self@.len() == 0),
    {
        proof {
            use_type_invariant(self);
            vstd::seq_lib::to_multiset_len(self.heap@);
            vstd::seq_lib::to_multiset_len(self.order@);
        }
        self.heap.len() == 0
    }

    /// Lets the entry `(cost, node)` wait.
    pub fn push(&mut self, cost: i64, node: i64)
        ensures
            final(self)@ == old(self)@.push((cost, node)),
    {
        proof {
            use_type_invariant(&*self);
        }
        // The entries leave the queue for as long as the heap is out of order.
        let mut taken = MinQueue::new();
        core::mem::swap(self, &mut taken);
        let MinQueue { mut heap, order } = taken;
        proof {
            vstd::seq_lib::to_multiset_build(heap@, (cost, node));
            vstd::seq_lib::to_multiset_build(order@, (cost, node));
        }
        heap.push((cost, node));
        let last: usize = heap.len() - 1;
        sift_up(&mut heap, last);
        *self = MinQueue { heap, order: Ghost(order@.push((cost, node))) };
    }

    /// Removes and returns the entry that leaves first, or `None` when the
    /// queue is empty. The other entries keep their order.
    pub fn pop_min(&mut self) -> (r: Option<(i64, i64)>)
        ensures
            old(self)@.len() == 0 ==> r is None && final(self)@ == old(self)@,
            old(self)@.len() > 0 ==> is_first_min(old(self)@, first_min(old(self)@))
                && r == Some(old(self)@[first_min(old(self)@)])
                && final(self)@ == old(self)@.remove(first_min(old(self)@)),
    {
        proof {
            use_type_invariant(&*self);
            vstd::seq_lib::to_multiset_len(self.heap@);
            vstd::seq_lib::to_multiset_len(self.order@);
        }
        if self.heap.len() == 0 {
            return None;
        }
        // The entries leave the queue for as long as the heap is out of order.
        let mut taken = MinQueue::new();
        core::mem::swap(self, &mut taken);
        let MinQueue { mut heap, order } = taken;
        let ghost waiting = order@;
        let ghost full = heap@;
        let ghost m = first_min(waiting);
        proof {
            lemma_first_min_exists(waiting);
            vstd::seq_lib::to_multiset_contains(waiting, full[0]);
            vstd::seq_lib::to_multiset_contains(full, full[0]);
            vstd::seq_lib::to_multiset_contains(waiting, waiting[m]);
            vstd::seq_lib::to_multiset_contains(full, waiting[m]);
            assert(full.contains(full[0]));
            assert(waiting.contains(waiting[m]));
            let i = choose|i: int| 0 <= i < waiting.len() && waiting[i] == full[0];
            assert(before(waiting[m], waiting[i]));
            let k = choose|k: int| 0 <= k < full.len() && full[k] == waiting[m];
            lemma_top_is_least(full, k);
            assert(full[0] == waiting[m]);
            vstd::seq_lib::to_multiset_update(full, 0, full.last());
            vstd::seq_lib::to_multiset_remove(full.update(0, full.last()), full.len() - 1);
            vstd::seq_lib::to_multiset_remove(waiting, m);
            assert(full.update(0, full.last()).drop_last() == full.update(0, full.last()).remove(
                full.len() - 1,
            ));
            assert(full.update(0, full.last()).drop_last().to_multiset() =~= waiting.remove(
                m,
            ).to_multiset());
        }
        let least = heap.swap_remove(0);
        if heap.len() > 0 {
            proof {
                let h = heap@;
                assert forall|j: int|
                    0 < j < h.len() && j != 0 && (j - 1) / 2 != 0 implies before(
                    h[(j - 1) / 2],
                    #[trigger] h[j],
                ) by {
                    assert(before(full[(j - 1) / 2], full[j]));
                }
            }
            sift_down(&mut heap, 0);
        }
        *self = MinQueue { heap, order: Ghost(waiting.remove(m)) };
        Some(least)
    }
}

} // verus!
