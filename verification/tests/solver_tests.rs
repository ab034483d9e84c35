use sat_solver::solver::{remove_solution, solve_all};
use sat_solver::solvers::{brute_force, Solver, DFS};
use sat_solver::types::{Formula, Solution, Variable};

fn solvers() -> Vec<impl Solver> {
    vec![DFS]
}

#[test]
fn test_solve_sat_1() {
    // (x1 OR -x2) AND x3
    let formula = Formula::from(vec![
        vec![Variable::Positive(1), Variable::Negative(2)],
        vec![Variable::Positive(3)],
    ]);
    println!("Formula: (x1 or -x2) and (x3)");
    // There are multiple possible solutions:
    // - x1 = true, x2 = false, x3 = true
    // - x1 = true, x2 = true, x3 = true
    // - x1 = false, x2 = false, x3 = true
    // - x1 = true, x2 = false, x3 = true
    let possible_solutions = [
        Solution::from(&[(1u32, false), (2u32, false), (3u32, true)][..]),
        Solution::from(&[(1u32, true), (2u32, false), (3u32, true)][..]),
        Solution::from(&[(1u32, true), (2u32, true), (3u32, true)][..]),
    ];
    // Assert that each possible solution satisfies the formula
    for possible_solution in &possible_solutions {
        assert!(possible_solution.satisfy(&formula));
    }

    for solver in solvers() {
        // Find a solution using the solver
        let solutions = solve_all(&formula, &solver);
        // Assert that the solutions are the same as the possible solutions
        assert_eq!(solutions.len(), possible_solutions.len());
        println!("Solutions:");
        for solution in &solutions {
            assert!(possible_solutions.contains(solution));
        }
    }
}

#[test]
fn test_solve_unsat_1() {
    // (x1 OR x2) AND (-x1 OR -x2)
    let formula = Formula::from(vec![
        vec![Variable::Positive(1)],
        vec![Variable::Negative(1)],
    ]);
    println!("Formula: (x1) and (-x1)");
    for solver in solvers() {
        // There is no solution that satisfies the formula
        let solutions = solve_all(&formula, &solver);
        assert!(solutions.is_empty());
        println!("Solution: Unsatisfiable");
    }
}

#[test]
fn test_solve_sat_2() {
    // (x1 OR x2) AND (x1 OR -x2) AND (-x1 OR x2)
    let formula = Formula::from(vec![
        vec![Variable::Positive(1), Variable::Positive(2)],
        vec![Variable::Positive(1), Variable::Negative(2)],
        vec![Variable::Negative(1), Variable::Positive(2)],
    ]);
    println!("Formula: (x1 or x2) and (x1 or -x2) and (-x1 or x2)");
    // There is only one possible solution:
    // - x1 = true, x2 = true
    let possible_solutions = [Solution::from(&[(1u32, true), (2u32, true)][..])];
    // Assert that each possible solution satisfies the formula
    for possible_solution in &possible_solutions {
        assert!(possible_solution.satisfy(&formula));
    }
    for solver in solvers() {
        // Find a solution using the solver
        let solutions = solve_all(&formula, &solver);
        // Assert that the solutions are the same as the possible solutions
        assert_eq!(solutions.len(), possible_solutions.len());
        println!("Solutions:");
        for solution in &solutions {
            assert!(possible_solutions.contains(solution));
        }
    }
}

#[test]
fn test_solve_all_sat_1() {
    // (x1 OR -x2) AND x3
    let formula = Formula::from(vec![
        vec![Variable::Positive(1), Variable::Negative(2)],
        vec![Variable::Positive(3)],
    ]);
    println!("Formula: (x1 or -x2) and (x3)");
    // There are multiple possible solutions:
    // - x1 = true, x2 = false, x3 = true
    // - x1 = true, x2 = true, x3 = true
    // - x1 = false, x2 = false, x3 = true
    // - x1 = true, x2 = false, x3 = true
    let possible_solutions = [
        Solution::from(&[(1u32, false), (2u32, false), (3u32, true)][..]),
        Solution::from(&[(1u32, true), (2u32, false), (3u32, true)][..]),
        Solution::from(&[(1u32, true), (2u32, true), (3u32, true)][..]),
    ];
    for solver in solvers() {
        // Find all solutions using the solver
        let solutions = solve_all(&formula, &solver);
        // Assert that the solutions are the same as the possible solutions
        assert_eq!(solutions.len(), possible_solutions.len());
        println!("Solutions:");
        for solution in &solutions {
            assert!(possible_solutions.contains(solution));
        }
    }
}

#[test]
fn test_solve_empty_formula() {
    // A formula with no clauses has exactly one solution: the empty
    // assignment.
    let formula = Formula::new();
    let solutions = solve_all(&formula, &DFS);
    assert_eq!(solutions.len(), 1);
    assert_eq!(solutions[0].literals(), Vec::<u32>::new());
}

#[test]
fn test_solve_all_no_duplicates() {
    // x1 OR x2 OR x3: seven satisfying assignments, all distinct.
    let formula = Formula::from(vec![vec![
        Variable::Positive(1),
        Variable::Positive(2),
        Variable::Positive(3),
    ]]);
    let solutions = solve_all(&formula, &DFS);
    assert_eq!(solutions.len(), 7);
    for i in 0..solutions.len() {
        assert!(solutions[i].satisfy(&formula));
        for j in 0..i {
            assert_ne!(solutions[i], solutions[j]);
        }
    }
}

#[test]
fn test_blocking_clause_excludes_found_solution() {
    // After a solution is found and removed from the formula, solving
    // again never returns that solution.
    let formula = Formula::from(vec![vec![Variable::Positive(1), Variable::Positive(2)]]);
    let mut working = formula.clone();
    let variables = working.literals();
    let mut buffer = Solution::new();
    for variable in &variables {
        buffer.set(*variable, false);
    }
    let first = DFS
        .solve(&mut working, &variables, &mut buffer)
        .expect("the formula is satisfiable");
    remove_solution(&mut working, &first);
    let mut found: Vec<Solution> = Vec::new();
    loop {
        let mut buffer = Solution::new();
        for variable in &variables {
            buffer.set(*variable, false);
        }
        match DFS.solve(&mut working, &variables, &mut buffer) {
            Some(solution) => {
                assert_ne!(solution, first);
                remove_solution(&mut working, &solution);
                found.push(solution);
            }
            None => break,
        }
    }
    assert_eq!(found.len(), 2);
}

#[test]
fn test_brute_force_finds_first_assignment() {
    // False is tried before true at every level, so the first found
    // assignment is the least one in that order.
    let formula = Formula::from(vec![vec![Variable::Positive(1), Variable::Positive(2)]]);
    let variables = formula.literals();
    let mut buffer = Solution::new();
    assert!(brute_force(&formula, &variables, &mut buffer));
    assert!(!buffer.get(1));
    assert!(buffer.get(2));
}

#[test]
fn test_brute_force_unsat_clears_bindings() {
    let formula = Formula::from(vec![
        vec![Variable::Positive(1)],
        vec![Variable::Negative(1)],
    ]);
    let variables = formula.literals();
    let mut buffer = Solution::new();
    assert!(!brute_force(&formula, &variables, &mut buffer));
    assert_eq!(buffer.literals(), Vec::<u32>::new());
}
