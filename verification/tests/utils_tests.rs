use sat_solver::types::{Clause, Formula, Solution, Variable};
use sat_solver::utils::{eval_variable, get_variables, satisfy_clause, satisfy_formula};

#[test]
fn test_eval_variable() {
    let solution = Solution::from(&[(1u32, true), (2u32, false)][..]);
    assert!(eval_variable(&Variable::Positive(1), &solution));
    assert!(!eval_variable(&Variable::Negative(1), &solution));
    assert!(!eval_variable(&Variable::Positive(2), &solution));
    assert!(eval_variable(&Variable::Negative(2), &solution));
}

#[test]
fn test_eval_variable_unbound_defaults_to_false() {
    let solution = Solution::new();
    assert!(!eval_variable(&Variable::Positive(1), &solution));
    assert!(eval_variable(&Variable::Negative(1), &solution));
}

#[test]
fn test_satisfy_clause() {
    let solution = Solution::from(&[(1u32, true), (2u32, false)][..]);
    assert!(satisfy_clause(&Clause(vec![Variable::Positive(1)]), &solution));
    assert!(!satisfy_clause(&Clause(vec![Variable::Positive(2)]), &solution));
    assert!(satisfy_clause(&Clause(vec![Variable::Negative(2)]), &solution));
    assert!(!satisfy_clause(&Clause(vec![Variable::Negative(1)]), &solution));
    assert!(satisfy_clause(
        &Clause(vec![Variable::Positive(1), Variable::Negative(2)]),
        &solution
    ));
    assert!(!satisfy_clause(
        &Clause(vec![Variable::Positive(2), Variable::Negative(1)]),
        &solution
    ));
}

#[test]
fn test_satisfy_formula() {
    let solution = Solution::from(&[(1u32, true), (2u32, false)][..]);
    assert!(satisfy_formula(
        &Formula(vec![
            Clause(vec![Variable::Positive(1)]),
            Clause(vec![Variable::Negative(2)]),
        ]),
        &solution
    ));
    assert!(!satisfy_formula(
        &Formula(vec![
            Clause(vec![Variable::Positive(1)]),
            Clause(vec![Variable::Positive(2)]),
        ]),
        &solution
    ));
    assert!(satisfy_formula(
        &Formula(vec![
            Clause(vec![Variable::Positive(1)]),
            Clause(vec![Variable::Negative(2)]),
        ]),
        &solution
    ));
    assert!(!satisfy_formula(
        &Formula(vec![
            Clause(vec![Variable::Positive(2)]),
            Clause(vec![Variable::Positive(1)]),
        ]),
        &solution
    ));
}

#[test]
fn test_get_variables() {
    let formula = Formula(vec![
        Clause(vec![Variable::Positive(1), Variable::Negative(2)]),
        Clause(vec![Variable::Positive(3)]),
    ]);
    let variables = get_variables(&formula);
    assert_eq!(variables, vec![1, 2, 3]);
}
