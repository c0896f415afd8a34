//! Weighted graphs and traced graph algorithms.
//!
//! A [`graph::Graph`] is built edge by edge and then searched from a source
//! node by depth-first or breadth-first traversal, for shortest paths, or
//! for a minimum spanning tree. Every search returns its trace: the nodes in
//! the order of their visit and the edges in the order in which they were
//! used. Each trace is stated as the outcome of a mathematical model of the
//! search, and what makes it right is proved of that model: see [`paths`],
//! [`shortest`], [`spanning`] and [`minimum`].
//!
//! [`menu`], [`playback`] and [`backtrack`] hold what a front end needs to
//! offer the searches and to show their results.

use vstd::prelude::*;

pub mod backtrack;
pub mod bfs;
pub mod dfs;
pub mod dijkstra;
pub mod graph;
pub mod menu;
pub mod minimum;
pub mod paths;
pub mod playback;
pub mod prim;
pub mod queue;
pub mod routes;
pub mod shortest;
pub mod spanning;
