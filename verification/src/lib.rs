//! Exact Travelling Salesman Problem solver for small complete directed
//! weighted graphs, based on the Held-Karp dynamic program over subsets.

use vstd::prelude::*;

pub mod bitmask;
pub mod clock;
pub mod config;
pub mod graph;
pub mod laws;
pub mod recurrence;
pub mod text;
pub mod tsp_solver;

pub use config::ConfigReader;
pub use graph::Graph;
pub use tsp_solver::TSPSolver;

verus! {

/// Failure values of the library: every fallible operation reports one of
/// these to its caller, carrying a human-readable message.
#[derive(Debug)]
pub enum TSPError {
    /// Malformed matrix shape, non-zero diagonal, or a missing directed edge.
    InvalidGraph(String),
    /// A path value violates length, index-range, or connectivity requirements.
    InvalidPath(String),
    /// Malformed textual configuration.
    ConfigError(String),
    /// Graph size outside the supported bound, or an internal failure.
    SolverError(String),
}

} // verus!
