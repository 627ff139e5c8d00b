//! Pure circuits: graphs that alternate value nodes, each holding a Kleene
//! value, and gate nodes, each constraining the values wired to it.
//!
//! [`gates`] holds the three-valued logic and the relations of the gates, [`graph`]
//! the circuit itself with the status of every gate kept up to date, and
//! [`solution_finders`] the exact and the scoring side of solving a circuit.

pub mod cycle;
pub mod gates;
pub mod graph;
pub mod solution_finders;

pub use cycle::EnumCycle;
