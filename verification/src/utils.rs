//! Free-standing evaluation helpers over the CNF data model.
use vstd::prelude::*;

use crate::types::{
    spec_eval_variable, spec_formula_literals, spec_satisfy_clause, spec_satisfy_formula,
    sorted_strict, Clause, Formula, Solution, Variable, Variables,
};

verus! {

/// The truth value of a variable under a solution. An unbound literal
/// counts as `false`, so a positive occurrence of it evaluates to
/// `false` and a negative occurrence to `true`.
pub fn eval_variable(variable: &Variable, solution: &Solution) -> (r: bool)
    requires
        solution.wf(),
    ensures
        r == spec_eval_variable(*variable, solution@),
{
    match variable {
        Variable::Positive(id) => solution.contains(*id) && solution.get(*id),
        Variable::Negative(id) => !(solution.contains(*id) && solution.get(*id)),
    }
}

/// A clause is satisfied if at least one of its variables is true.
pub fn satisfy_clause(clause: &Clause, solution: &Solution) -> (r: bool)
    requires
        solution.wf(),
    ensures
        r == spec_satisfy_clause(clause@, solution@),
{
    let mut i: usize = 0;
    while i < clause.0.len()
        invariant
            solution.wf(),
            i <= clause.0.len(),
            forall|k: int| 0 <= k < i ==> !spec_eval_variable(#[trigger] clause@[k], solution@),
        decreases clause.0.len() - i,
    {
        if eval_variable(&clause.0[i], solution) {
            proof {
                assert(spec_eval_variable(clause@[i as int], solution@));
            }
            return true;
        }
        i = i + 1;
    }
    false
}

/// A formula is satisfied if all of its clauses are satisfied.
pub fn satisfy_formula(formula: &Formula, solution: &Solution) -> (r: bool)
    requires
        solution.wf(),
    ensures
        r == spec_satisfy_formula(formula@, solution@),
{
    let mut i: usize = 0;
    while i < formula.0.len()
        invariant
            solution.wf(),
            i <= formula.0.len(),
            forall|k: int| 0 <= k < i ==> spec_satisfy_clause(#[trigger] formula@[k], solution@),
        decreases formula.0.len() - i,
    {
        if !satisfy_clause(&formula.0[i], solution) {
            proof {
                assert(!spec_satisfy_clause(formula@[i as int], solution@));
            }
            return false;
        }
        i = i + 1;
    }
    true
}

/// Get all literal identifiers referenced by the formula, sorted
/// ascending, without duplicates. This fixed order makes the search
/// deterministic.
pub fn get_variables(formula: &Formula) -> (r: Variables)
    ensures
        sorted_strict(r@),
        forall|id: u32| r@.contains(id) <==> spec_formula_literals(formula@).contains(id),
{
    formula.literals()
}

} // verus!
