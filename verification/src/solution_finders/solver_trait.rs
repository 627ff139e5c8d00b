//! What every solver offers.

use crate::solution_finders::evo_search::SolverError;
use vstd::prelude::*;

verus! {

/// A solver: given its parameters it looks for a solution.
pub trait SolverTrait {
    /// What the solver needs to know.
    type ParamSet;

    /// What the solver finds.
    type Solution;

    /// Looks for a solution. An error tells that the solver could offer no
    /// candidate at all, not that the candidate falls short.
    fn find_solution(&self, param_set: Self::ParamSet) -> Result<Self::Solution, SolverError>;
}

} // verus!
