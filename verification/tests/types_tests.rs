use sat_solver::types::{Clause, Formula, Solution, Variable};

#[test]
fn test_formula_get_literals() {
    let formula = Formula(vec![
        Clause(vec![Variable::Positive(1), Variable::Negative(2)]),
        Clause(vec![Variable::Positive(2), Variable::Negative(3)]),
    ]);
    assert_eq!(formula.literals(), vec![1, 2, 3]);
}

#[test]
fn test_solution_satisfy() {
    let formula = Formula(vec![
        Clause(vec![Variable::Positive(1), Variable::Negative(2)]),
        Clause(vec![Variable::Positive(2), Variable::Negative(3)]),
    ]);
    let solution = Solution::from(&[(1u32, true), (2u32, false), (3u32, true)][..]);
    // The second clause is x2 or -x3; with x2 = false and x3 = true both
    // variables are false, so this assignment does not satisfy the
    // formula.
    assert!(!solution.satisfy(&formula));
    // Flipping x3 satisfies both clauses.
    let satisfying = Solution::from(&[(1u32, true), (2u32, false), (3u32, false)][..]);
    assert!(satisfying.satisfy(&formula));
}

#[test]
fn test_clause_literals_sorted_unique() {
    let clause = Clause(vec![
        Variable::Positive(3),
        Variable::Negative(1),
        Variable::Positive(3),
        Variable::Negative(3),
    ]);
    assert_eq!(clause.literals(), vec![1, 3]);
    assert_eq!(clause.len(), 4);
}

#[test]
fn test_solution_set_get_literals() {
    let mut solution = Solution::new();
    solution.set(5, true);
    solution.set(2, false);
    solution.set(9, true);
    solution.set(5, false);
    assert_eq!(solution.literals(), vec![2, 5, 9]);
    assert!(!solution.get(5));
    assert!(!solution.get(2));
    assert!(solution.get(9));
}

#[test]
fn test_solution_reset() {
    let mut solution = Solution::from(&[(1u32, true), (4u32, true)][..]);
    solution.reset();
    assert_eq!(solution.literals(), vec![1, 4]);
    assert!(!solution.get(1));
    assert!(!solution.get(4));
}

#[test]
fn test_solution_negative_clause() {
    let solution = Solution::from(&[(1u32, true), (2u32, false), (3u32, true)][..]);
    let clause = solution.negative_clause();
    assert_eq!(
        clause.iter().as_slice(),
        &[
            Variable::Negative(1),
            Variable::Positive(2),
            Variable::Negative(3)
        ][..]
    );
}

#[test]
fn test_formula_add_len() {
    let mut formula = Formula::new();
    assert_eq!(formula.len(), 0);
    formula.add(Clause(vec![Variable::Positive(7)]));
    assert_eq!(formula.len(), 1);
    assert_eq!(formula.literals(), vec![7]);
}
