//! A minimal directed-graph library: vertex and edge insertion on an
//! adjacency-list store, and a depth-first topological-sort query with
//! cycle detection.

pub mod graph;
pub mod topo;
