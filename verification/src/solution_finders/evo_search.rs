//! What a search for an assignment with few violated gates hands back.

use crate::gates::Value;
use vstd::prelude::*;

verus! {

/// Why a solver has no solution to offer.
#[derive(Debug, Clone, PartialEq, Eq)]
pub enum SolverError {
    /// The search could not be set up or run; the text says why.
    Strategy(String),
    /// The search ended without a best candidate.
    NoCandidate,
    /// The best candidate came with a score below zero, which counts no
    /// violated gates.
    NegativeScore,
}

/// An assignment to the value nodes of a circuit, by increasing index of
/// the nodes, with the number of gates that it violates.
#[derive(Debug)]
pub struct SolutionReturn {
    pub chromosone: Vec<Value>,
    pub errors: usize,
}

impl SolutionReturn {
    /// What a finished search amounts to, given its best candidate with the
    /// candidate's score: the candidate with its score as the number of
    /// violated gates. `NoCandidate` where the search has none,
    /// `NegativeScore` where the score is below zero.
    pub fn from_best(best: Option<(Vec<Value>, isize)>) -> (r: Result<SolutionReturn, SolverError>)
        ensures
            match best {
                None => r matches Err(SolverError::NoCandidate),
                Some((genes, score)) => if score < 0 {
                    r matches Err(SolverError::NegativeScore)
                } else {
                    r matches Ok(found) && found.chromosone@ == genes@ && found.errors == score
                },
            },
    {
        match best {
            None => Err(SolverError::NoCandidate),
            Some((genes, score)) => {
                if score < 0 {
                    Err(SolverError::NegativeScore)
                } else {
                    Ok(SolutionReturn { chromosone: genes, errors: score as usize })
                }
            },
        }
    }

    /// Whether the assignment violates no gate.
    pub fn is_exact(&self) -> (r: bool)
        ensures
            r == (self.errors == 0),
    {
        self.errors == 0
    }
}

} // verus!
