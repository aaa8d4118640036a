//! Resource-constrained shortest paths: an exact branch-and-bound solver and
//! iterated-search heuristics over directed graphs whose arcs carry a cost
//! and a resource consumption.

pub mod bounds;
mod coin;
pub mod disjoint_path_approach;
pub mod edge_blocking_algo;
pub mod edge_penalization;
pub mod forest;
pub mod graph;
pub mod incumbent;
pub mod input;
pub mod marks;
pub mod mult_obj_approach;
pub mod objective;
pub mod pulse_algorithm;
pub mod queue;
pub mod search;
