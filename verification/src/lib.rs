//! Dependency-graph analysis for "beads": work items connected by
//! blocking relations.
//!
//! The library builds a canonical directed graph from a flat list of
//! beads, sorts it topologically with cycle detection, locates the
//! nodes stuck behind a cycle, computes the critical path with
//! per-node slack, and reports readiness and parallel execution
//! levels.  Every algorithm is a pure function of its input.

use vstd::prelude::*;

pub mod critical;
pub mod graph;
pub mod levels;
pub mod ready;
pub mod topo;

pub use critical::CriticalPathResult;
pub use critical::critical_path;
pub use critical::durations_fit;
pub use graph::BeadGraph;
pub use graph::DepGraph;
pub use graph::GraphEdge;
pub use graph::GraphError;
pub use graph::build_adjacency;
pub use graph::build_graph;
pub use levels::compute_levels;
pub use ready::get_ready_beads;
pub use topo::TopoSortResult;
pub use topo::find_cycle_nodes;
pub use topo::has_cycle;
pub use topo::kahn;
pub use topo::topo_sort;

verus! {

/// A work item in the dependency graph.
pub struct BeadNode {
    pub id: String,
    pub title: String,
    pub status: String,
    pub priority: u32,
    pub blocked_by: Vec<String>,
    pub blocks: Vec<String>,
    pub duration: Option<u32>,
}

} // verus!
