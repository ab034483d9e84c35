//! The all-solutions driver: repeatedly run a solving strategy on a
//! working copy of the formula, and after each found solution append a
//! blocking clause that forbids exactly that solution, until the
//! strategy reports failure.
use vstd::prelude::*;
use vstd::set_lib::{lemma_int_range, set_int_range};

use crate::solvers::{
    assign_map, has_satisfying_extension, lemma_assign_map_dom, lemma_assign_map_reaches, Solver,
};
use crate::types::{
    lemma_blocking_clause, spec_formula_literals, spec_negative_clause, spec_satisfy_clause,
    spec_satisfy_formula, Formula, Literal, Solution,
};

verus! {

/// Two to the power `n`.
pub open spec fn two_to(n: nat) -> nat
    decreases n,
{
    if n == 0 {
        1
    } else {
        2 * two_to((n - 1) as nat)
    }
}

/// The number a value list denotes in binary, first value least
/// significant.
spec fn bits_to_nat(vals: Seq<bool>) -> nat
    decreases vals.len(),
{
    if vals.len() == 0 {
        0
    } else {
        (if vals[0] {
            1nat
        } else {
            0nat
        }) + 2 * bits_to_nat(vals.drop_first())
    }
}

proof fn lemma_bits_to_nat_bound(vals: Seq<bool>)
    ensures
        bits_to_nat(vals) < two_to(vals.len()),
    decreases vals.len(),
{
    if vals.len() > 0 {
        lemma_bits_to_nat_bound(vals.drop_first());
    }
}

proof fn lemma_bits_to_nat_injective(v1: Seq<bool>, v2: Seq<bool>)
    requires
        v1.len() == v2.len(),
        bits_to_nat(v1) == bits_to_nat(v2),
    ensures
        v1 == v2,
    decreases v1.len(),
{
    if v1.len() > 0 {
        assert(v1[0] == v2[0]);
        lemma_bits_to_nat_injective(v1.drop_first(), v2.drop_first());
        assert forall|i: int| 0 <= i < v1.len() implies v1[i] == v2[i] by {
            if i > 0 {
                assert(v1.drop_first()[i - 1] == v2.drop_first()[i - 1]);
            }
        }
        assert(v1 =~= v2);
    } else {
        assert(v1 =~= v2);
    }
}

/// The values a total assignment over `lits` gives, in the order of
/// `lits`.
spec fn vals_of(m: Map<Literal, bool>, lits: Seq<Literal>) -> Seq<bool> {
    Seq::new(lits.len(), |i: int| m[lits[i]])
}

/// There are at most `2^n` pairwise distinct assignments that all bind
/// exactly the literals of an `n`-element list.
proof fn lemma_distinct_assignments_bound(ms: Seq<Map<Literal, bool>>, lits: Seq<Literal>)
    requires
        forall|i: int| 0 <= i < ms.len() ==> (#[trigger] ms[i]).dom() == lits.to_set(),
        forall|i: int, j: int| 0 <= i < j < ms.len() ==> ms[i] != ms[j],
    ensures
        ms.len() <= two_to(lits.len()),
{
    let bound = two_to(lits.len()) as int;
    let codes = Seq::new(ms.len(), |i: int| bits_to_nat(vals_of(ms[i], lits)) as int);
    assert forall|i: int, j: int| 0 <= i < ms.len() && 0 <= j < ms.len() && i != j implies codes[i]
        != codes[j] by {
        if codes[i] == codes[j] {
            lemma_bits_to_nat_injective(vals_of(ms[i], lits), vals_of(ms[j], lits));
            assert forall|k: Literal| ms[i].contains_key(k) implies ms[i][k] == ms[j][k] by {
                assert(lits.to_set().contains(k));
                let p = choose|p: int| 0 <= p < lits.len() && lits[p] == k;
                assert(vals_of(ms[i], lits)[p] == vals_of(ms[j], lits)[p]);
            }
            assert(ms[i] =~= ms[j]);
        }
    }
    assert(codes.no_duplicates());
    codes.unique_seq_to_set();
    assert forall|x: int| codes.to_set().contains(x) implies set_int_range(0, bound).contains(
        x,
    ) by {
        let i = choose|i: int| 0 <= i < codes.len() && codes[i] == x;
        lemma_bits_to_nat_bound(vals_of(ms[i], lits));
    }
    lemma_int_range(0, bound);
    vstd::set_lib::lemma_len_subset(codes.to_set(), set_int_range(0, bound));
}

/// Find all solutions to a SAT problem using a given solver: find one
/// solution, append the clause that forbids it to a working copy of the
/// formula, and repeat until the solver fails.
///
/// The result is exactly the set of assignments that bind every literal
/// referenced by the formula and satisfy it: every returned solution
/// satisfies the formula, every such satisfying assignment is returned,
/// and no assignment is returned twice. A formula with no clauses yields
/// exactly one solution, the empty assignment.
pub fn solve_all<S: Solver>(formula: &Formula, solver: &S) -> (solutions: Vec<Solution>)
    ensures
        forall|i: int|
            0 <= i < solutions@.len() ==> (#[trigger] solutions@[i]).wf() && solutions@[i]@.dom()
                == spec_formula_literals(formula@),
        forall|i: int|
            0 <= i < solutions@.len() ==> spec_satisfy_formula(
                formula@,
                (#[trigger] solutions@[i])@,
            ),
        forall|i: int, j: int|
            0 <= i < j < solutions@.len() ==> (#[trigger] solutions@[i])@ != (
            #[trigger] solutions@[j])@,
        forall|m: Map<Literal, bool>|
            m.dom() == spec_formula_literals(formula@) && #[trigger] spec_satisfy_formula(
                formula@,
                m,
            ) ==> exists|i: int| 0 <= i < solutions@.len() && (#[trigger] solutions@[i])@ == m,
        formula@.len() == 0 ==> solutions@.len() == 1 && solutions@[0]@ == Map::<
            Literal,
            bool,
        >::empty(),
{
    let mut working = formula.clone();
    let mut solutions: Vec<Solution> = Vec::new();
    let variables = working.literals();
    let mut solution = Solution::new();
    let ghost lits = variables@;
    let ghost lset = spec_formula_literals(formula@);
    let ghost flen = formula@.len() as int;
    proof {
        assert(lits.to_set() =~= lset);
    }
    loop
        invariant
            solution.wf(),
            solution@.dom().subset_of(lset),
            variables@ == lits,
            lits.to_set() == lset,
            working@.len() == flen + solutions@.len(),
            flen == formula@.len(),
            forall|k: int| 0 <= k < flen ==> working@[k] == formula@[k],
            forall|k: int|
                0 <= k < solutions@.len() ==> working@[flen + k] == spec_negative_clause(
                    (#[trigger] solutions@[k]).entries(),
                ),
            forall|i: int|
                0 <= i < solutions@.len() ==> (#[trigger] solutions@[i]).wf() && solutions@[i]@.dom()
                    == lset,
            forall|i: int|
                0 <= i < solutions@.len() ==> spec_satisfy_formula(
                    formula@,
                    (#[trigger] solutions@[i])@,
                ),
            forall|i: int, j: int|
                0 <= i < j < solutions@.len() ==> (#[trigger] solutions@[i])@ != (
                #[trigger] solutions@[j])@,
            forall|m: Map<Literal, bool>|
                m.dom() == lset && #[trigger] spec_satisfy_formula(formula@, m) && (forall|i: int|
                    0 <= i < solutions@.len() ==> (#[trigger] solutions@[i])@ != m)
                    ==> spec_satisfy_formula(working@, m),
            solutions@.len() <= two_to(lits.len()),
        ensures
            forall|i: int|
                0 <= i < solutions@.len() ==> (#[trigger] solutions@[i]).wf() && solutions@[i]@.dom()
                    == lset,
            forall|i: int|
                0 <= i < solutions@.len() ==> spec_satisfy_formula(
                    formula@,
                    (#[trigger] solutions@[i])@,
                ),
            forall|i: int, j: int|
                0 <= i < j < solutions@.len() ==> (#[trigger] solutions@[i])@ != (
                #[trigger] solutions@[j])@,
            forall|m: Map<Literal, bool>|
                m.dom() == lset && #[trigger] spec_satisfy_formula(formula@, m) ==> exists|i: int|
                    0 <= i < solutions@.len() && (#[trigger] solutions@[i])@ == m,
        decreases two_to(lits.len()) - solutions@.len(),
    {
        solution.reset();
        let ghost m0 = solution@;
        let res = solver.solve(&mut working, variables.as_slice(), &mut solution);
        match res {
            Some(s) => {
                proof {
                    let vals = choose|vals: Seq<bool>|
                        vals.len() == lits.len() && s@ == assign_map(m0, lits, vals);
                    lemma_assign_map_dom(m0, lits, vals);
                    assert(s@.dom() =~= lset);
                    assert(spec_satisfy_formula(formula@, s@)) by {
                        assert forall|k: int| 0 <= k < flen implies spec_satisfy_clause(
                            #[trigger] formula@[k],
                            s@,
                        ) by {
                            assert(spec_satisfy_clause(working@[k], s@));
                        }
                    }
                    assert forall|k: int| 0 <= k < solutions@.len() implies (
                    #[trigger] solutions@[k])@ != s@ by {
                        assert(spec_satisfy_clause(working@[flen + k], s@));
                        lemma_blocking_clause(solutions@[k], s@);
                    }
                }
                let ghost sols_old = solutions@;
                let ghost w_old = working@;
                solutions.push(s.clone());
                remove_solution(&mut working, &s);
                proof {
                    let n = solutions@.len() as int;
                    assert(solutions@[n - 1]@ == s@);
                    assert(solutions@[n - 1].entries() == s.entries());
                    assert(solutions@[n - 1].wf());
                    assert(working@ == w_old.push(spec_negative_clause(s.entries())));
                    // The blocking clause of each found solution stands in the
                    // working formula right after the clauses of the input formula.
                    assert forall|k: int| 0 <= k < n implies working@[flen + k]
                        == spec_negative_clause((#[trigger] solutions@[k]).entries()) by {
                        if k < n - 1 {
                            assert(solutions@[k] == sols_old[k]);
                            assert(working@[flen + k] == w_old[flen + k]);
                        }
                    }
                    // Any satisfying assignment that differs from every found
                    // solution still satisfies the extended working formula.
                    assert forall|m: Map<Literal, bool>|
                        m.dom() == lset && #[trigger] spec_satisfy_formula(formula@, m) && (forall|
                            i: int,
                        |
                            0 <= i < solutions@.len() ==> (#[trigger] solutions@[i])@ != m) implies
                        spec_satisfy_formula(working@, m) by {
                        assert(forall|i: int|
                            0 <= i < sols_old.len() ==> (#[trigger] sols_old[i])@ != m) by {
                            assert(forall|i: int|
                                0 <= i < sols_old.len() ==> sols_old[i] == solutions@[i]);
                        }
                        assert(spec_satisfy_formula(w_old, m));
                        assert(solutions@[n - 1]@ != m);
                        lemma_blocking_clause(solutions@[n - 1], m);
                        assert forall|k: int| 0 <= k < working@.len() implies spec_satisfy_clause(
                            #[trigger] working@[k],
                            m,
                        ) by {
                            if k < working@.len() - 1 {
                                assert(working@[k] == w_old[k]);
                                assert(spec_satisfy_clause(w_old[k], m));
                            } else {
                                assert(working@[k] == spec_negative_clause(
                                    solutions@[n - 1].entries(),
                                ));
                            }
                        }
                    }
                    // The found solutions are pairwise distinct assignments
                    // over the referenced literals, so there are at most
                    // two_to(n) of them.
                    let ms = Seq::new(solutions@.len(), |i: int| solutions@[i]@);
                    assert forall|i: int, j: int| 0 <= i < j < ms.len() implies ms[i] != ms[j] by {
                        assert(solutions@[i]@ != solutions@[j]@);
                    }
                    assert(forall|i: int|
                        0 <= i < ms.len() ==> (#[trigger] ms[i]).dom() == lits.to_set());
                    lemma_distinct_assignments_bound(ms, lits);
                }
            },
            None => {
                proof {
                    assert forall|m: Map<Literal, bool>|
                        m.dom() == lset && #[trigger] spec_satisfy_formula(formula@, m) implies
                        exists|i: int|
                            0 <= i < solutions@.len() && (#[trigger] solutions@[i])@ == m by {
                        if !(exists|i: int|
                            0 <= i < solutions@.len() && (#[trigger] solutions@[i])@ == m) {
                            assert(forall|i: int|
                                0 <= i < solutions@.len() ==> (#[trigger] solutions@[i])@ != m);
                            assert(spec_satisfy_formula(working@, m));
                            assert(m.dom() =~= m0.dom().union(lits.to_set()));
                            lemma_assign_map_reaches(m0, lits, m);
                            assert(has_satisfying_extension(working@, m0, lits));
                            assert(false);
                        }
                    }
                }
                break ;
            },
        }
    }
    proof {
        if formula@.len() == 0 {
            let empty = Map::<Literal, bool>::empty();
            assert(lset =~= Set::<Literal>::empty());
            assert(empty.dom() == lset && spec_satisfy_formula(formula@, empty));
            let i0 = choose|i: int|
                0 <= i < solutions@.len() && (#[trigger] solutions@[i])@ == empty;
            assert forall|i: int| 0 <= i < solutions@.len() implies (#[trigger] solutions@[i])@
                == empty by {
                assert(solutions@[i]@.dom() == lset);
                assert(solutions@[i]@ =~= empty);
            }
            if solutions@.len() > 1 {
                assert(solutions@[0]@ != solutions@[1]@);
                assert(false);
            }
            assert(solutions@.len() == 1);
        }
    }
    solutions
}

/// When a solution is found, remove it from the formula by adding a new
/// clause that forbids that exact solution, by De Morgan's law.
pub fn remove_solution(formula: &mut Formula, solution: &Solution)
    requires
        solution.wf(),
    ensures
        final(formula)@ == old(formula)@.push(spec_negative_clause(solution.entries())),
{
    let clause = solution.negative_clause();
    formula.add(clause);
}

} // verus!
