use pure_circuit_lib::gates::Value;
use pure_circuit_lib::solution_finders::evo_search::{SolutionReturn, SolverError};
use pure_circuit_lib::solution_finders::solver_trait::SolverTrait;

#[test]
fn best_candidate_becomes_the_solution() {
    let found = SolutionReturn::from_best(Some((vec![Value::One, Value::Bot], 3))).unwrap();
    assert_eq!(found.chromosone, vec![Value::One, Value::Bot]);
    assert_eq!(found.errors, 3);
    assert!(!found.is_exact());
    let exact = SolutionReturn::from_best(Some((vec![], 0))).unwrap();
    assert_eq!(exact.errors, 0);
    assert!(exact.is_exact());
}

#[test]
fn no_candidate_is_an_error() {
    assert_eq!(SolutionReturn::from_best(None).unwrap_err(), SolverError::NoCandidate);
    assert_eq!(
        SolutionReturn::from_best(Some((vec![Value::Zero], -1))).unwrap_err(),
        SolverError::NegativeScore
    );
}

struct Fixed;

impl SolverTrait for Fixed {
    type ParamSet = isize;
    type Solution = SolutionReturn;

    fn find_solution(&self, param_set: isize) -> Result<SolutionReturn, SolverError> {
        if param_set == 7 {
            return Err(SolverError::Strategy("seven".to_string()));
        }
        SolutionReturn::from_best(Some((vec![Value::One], param_set)))
    }
}

#[test]
fn a_solver_hands_back_what_it_found() {
    assert_eq!(Fixed.find_solution(2).unwrap().errors, 2);
    assert_eq!(Fixed.find_solution(7).unwrap_err(), SolverError::Strategy("seven".to_string()));
    assert_eq!(Fixed.find_solution(-2).unwrap_err(), SolverError::NegativeScore);
}
