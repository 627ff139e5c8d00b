//! Solving a circuit: exact search with propagation, and the scoring of an
//! assignment by the number of gates that it violates.

pub mod backtracking;
pub mod base_finder;
pub mod evo_search;
pub mod gate_backtrack;
pub mod queue;
pub mod search;
pub mod solver_trait;
