//! Reverse-mode automatic differentiation over a graph of scalar operations:
//! the graph itself, the topological order of what a node depends on, and the
//! schedule of gradient updates that a backward pass applies.
pub mod graph;
pub mod topo;
pub mod backward;
pub mod laws;
pub mod demo;
