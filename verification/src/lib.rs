//! Shortest paths over a directed, weighted graph.
//!
//! The graph is an adjacency table of integer-weighted directed edges,
//! indexed by dense `u32` node ids. Two label-setting solvers answer
//! single-pair queries: uniform-cost search (`dijkstra`) and a
//! heuristic-guided variant (`a_star`) whose heuristic is currently the
//! constant zero. Batched queries run in parallel and come back in input
//! order. A reported distance is always exactly the weight of the
//! reported route; "unreachable" is a sentinel, not an error.

pub mod algorithms;
pub mod graph;
