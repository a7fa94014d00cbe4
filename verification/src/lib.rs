//! Minimum-cost assignment of rows to columns over integer costs.
//!
//! A rectangular cost matrix is padded with zeros to a square one, the square
//! problem is solved by successive shortest augmenting paths with dual
//! potentials, and the solution is projected back onto the given rows.

pub mod assignment;
pub mod laws;
pub mod matrix;
pub mod model;
pub mod projector;
pub mod solver;
pub mod sums;
pub mod workers;

pub use assignment::{hungarian_algorithm, hungarian_core, SolveError};
pub use workers::{get_thread_count, threads_available};
