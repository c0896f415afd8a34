//! The replay of a trace, one event at a time.
//!
//! The node of a position is shown before the edge of that position. The
//! first node counts as shown from the start, so the replay begins with the
//! first edge.

use vstd::prelude::*;

verus! {

/// What one step of the replay shows.
#[derive(Clone, Copy, Debug, PartialEq, Eq, Structural)]
pub enum Shown {
    /// Nothing: the replay is over, or the position has no event left.
    Nothing,
    /// The visit of a node.
    Node(i64),
    /// An edge, as `(tail, head)`.
    Edge(i64, i64),
}

/// How far the replay of a trace has come.
pub struct Playback {
    /// The node-visit events of the trace.
    pub nodes: Vec<i64>,
    /// The edge events of the trace.
    pub edges: Vec<(i64, i64)>,
    /// The position in both sequences.
    pub index: usize,
    /// Whether the edge of the position comes next, not its node.
    pub step_is_edge: bool,
}

/// Whether a replay at `index` has nothing left to show.
pub open spec fn finished(nodes: int, edges: int, index: int, step_is_edge: bool) -> bool {
    nodes == 0 || (index >= nodes && (index >= edges || !step_is_edge))
}

impl Playback {
    /// The replay of the given trace, at its start.
    pub fn start(nodes: Vec<i64>, edges: Vec<(i64, i64)>) -> (p: Playback)
        ensures
            p.nodes == nodes,
            p.edges == edges,
            p.index == 0,
            p.step_is_edge,
    {
        Playback { nodes, edges, index: 0, step_is_edge: true }
    }

    /// Whether the replay has nothing left to show.
    pub open spec fn is_finished(&self) -> bool {
        finished(self.nodes@.len() as int, self.edges@.len() as int, self.index as int, self.step_is_edge)
    }

    /// What the next step shows.
    pub open spec fn next_shown(&self) -> Shown {
        if self.is_finished() {
            Shown::Nothing
        } else if self.step_is_edge {
            if self.index < self.edges@.len() {
                Shown::Edge(self.edges@[self.index as int].0, self.edges@[self.index as int].1)
            } else {
                Shown::Nothing
            }
        } else {
            if self.index < self.nodes@.len() {
                Shown::Node(self.nodes@[self.index as int])
            } else {
                Shown::Nothing
            }
        }
    }

    /// The position after the next step.
    pub open spec fn next_index(&self) -> int {
        if self.is_finished() {
            self.index as int
        } else if self.step_is_edge || self.index >= self.edges@.len() {
            self.index + 1
        } else {
            self.index as int
        }
    }

    /// Whether an edge comes after the next step.
    pub open spec fn next_is_edge(&self) -> bool {
        if self.is_finished() {
            self.step_is_edge
        } else {
            !self.step_is_edge && self.index < self.edges@.len()
        }
    }

    /// Whether the replay has nothing left to show.
    pub fn done(&self) -> (b: bool)
        ensures
            b == self.is_finished(),
    {
        if self.nodes.len() == 0 {
            return true;
        }
        let nodes_done: bool = self.index >= self.nodes.len();
        let edges_done: bool = self.index >= self.edges.len();
        nodes_done && (edges_done || !self.step_is_edge)
    }

    /// Makes one step and returns what it shows. After an edge the node
    /// of the next position follows; after a node the edge of the same
    /// position, where there is one, and else the next node.
    pub fn advance(&mut self) -> (shown: Shown)
        ensures
            shown == old(self).next_shown(),
            final(self).index == old(self).next_index(),
            final(self).step_is_edge == old(self).next_is_edge(),
            final(self).nodes == old(self).nodes,
            final(self).edges == old(self).edges,
    {
        if self.done() {
            return Shown::Nothing;
        }
        assert(self.index < self.nodes.len() || self.index < self.edges.len());
        if self.step_is_edge {
            let shown = if self.index < self.edges.len() {
                Shown::Edge(self.edges[self.index].0, self.edges[self.index].1)
            } else {
                Shown::Nothing
            };
            self.index = self.index + 1;
            self.step_is_edge = false;
            shown
        } else {
            let shown = if self.index < self.nodes.len() {
                Shown::Node(self.nodes[self.index])
            } else {
                Shown::Nothing
            };
            if self.index < self.edges.len() {
                self.step_is_edge = true;
            } else {
                self.index = self.index + 1;
            }
            shown
        }
    }
}

} // verus!
