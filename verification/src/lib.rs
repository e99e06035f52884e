//! A directed-graph library for dependency analysis: a growable graph store
//! with stable integer indices and dual adjacency lists, plus a
//! topological-ordering engine (Kahn's algorithm) with cycle detection.

pub mod graph;
pub mod laws;
pub mod model;
pub mod snapshot;
pub mod topo;

pub use graph::DiGraph;
pub use graph::GraphSnapshot;
