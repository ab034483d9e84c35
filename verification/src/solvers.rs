//! The solving-strategy abstraction and its one concrete strategy: a
//! depth-first brute-force search.
use vstd::prelude::*;

use crate::types::{spec_satisfy_formula, Formula, Literal, Solution, Variable};
use crate::utils::satisfy_formula;

verus! {

/// The assignment obtained from `m` by binding, in order, each literal
/// of `vars` to the value of `vals` at the same position. A literal that
/// occurs more than once keeps the value of its last occurrence.
pub open spec fn assign_map(m: Map<Literal, bool>, vars: Seq<Literal>, vals: Seq<bool>) -> Map<
    Literal,
    bool,
>
    decreases vars.len(),
{
    if vars.len() == 0 {
        m
    } else {
        assign_map(m.insert(vars[0], vals[0]), vars.drop_first(), vals.drop_first())
    }
}

/// Whether some way of binding the literals of `vars` on top of `m`
/// yields an assignment that satisfies the formula.
pub open spec fn has_satisfying_extension(
    f: Seq<Seq<Variable>>,
    m: Map<Literal, bool>,
    vars: Seq<Literal>,
) -> bool {
    exists|vals: Seq<bool>|
        vals.len() == vars.len() && spec_satisfy_formula(f, assign_map(m, vars, vals))
}

/// The set of literals of a non-empty list is its first literal plus the
/// set of the rest.
proof fn lemma_to_set_step(vars: Seq<Literal>)
    requires
        vars.len() > 0,
    ensures
        vars.to_set() == vars.drop_first().to_set().insert(vars[0]),
{
    let rest = vars.drop_first();
    assert forall|x: Literal| vars.to_set().contains(x) implies rest.to_set().insert(vars[0]).contains(
        x,
    ) by {
        let i = choose|i: int| 0 <= i < vars.len() && vars[i] == x;
        if i > 0 {
            assert(rest[i - 1] == x);
        }
    }
    assert forall|x: Literal| rest.to_set().insert(vars[0]).contains(x) implies vars.to_set().contains(
        x,
    ) by {
        if x == vars[0] {
            assert(vars[0] == x);
        } else {
            let i = choose|i: int| 0 <= i < rest.len() && rest[i] == x;
            assert(vars[i + 1] == x);
        }
    }
    assert(vars.to_set() =~= rest.to_set().insert(vars[0]));
}

/// Binding the literals of `vars` covers their set and touches nothing
/// else.
pub proof fn lemma_assign_map_dom(m: Map<Literal, bool>, vars: Seq<Literal>, vals: Seq<bool>)
    requires
        vals.len() == vars.len(),
    ensures
        assign_map(m, vars, vals).dom() == m.dom().union(vars.to_set()),
        forall|k: Literal|
            !vars.to_set().contains(k) && m.contains_key(k) ==> assign_map(m, vars, vals)[k] == m[k],
    decreases vars.len(),
{
    if vars.len() == 0 {
        assert(vars.to_set() =~= Set::<Literal>::empty());
        assert(assign_map(m, vars, vals).dom() =~= m.dom().union(vars.to_set()));
    } else {
        let m1 = m.insert(vars[0], vals[0]);
        lemma_to_set_step(vars);
        lemma_assign_map_dom(m1, vars.drop_first(), vals.drop_first());
        assert(assign_map(m, vars, vals).dom() =~= m.dom().union(vars.to_set()));
        assert forall|k: Literal|
            !vars.to_set().contains(k) && m.contains_key(k) implies assign_map(m, vars, vals)[k]
            == m[k] by {
            assert(!vars.drop_first().to_set().contains(k));
            assert(m1.contains_key(k) && m1[k] == m[k]);
        }
    }
}

/// Two starting assignments that agree outside the literals to be bound
/// end in the same assignment after binding them.
pub proof fn lemma_assign_map_congruence(
    m1: Map<Literal, bool>,
    m2: Map<Literal, bool>,
    vars: Seq<Literal>,
    vals: Seq<bool>,
)
    requires
        vals.len() == vars.len(),
        m1.remove_keys(vars.to_set()) == m2.remove_keys(vars.to_set()),
    ensures
        assign_map(m1, vars, vals) == assign_map(m2, vars, vals),
    decreases vars.len(),
{
    if vars.len() == 0 {
        assert(m1.remove_keys(vars.to_set()) =~= m1);
        assert(m2.remove_keys(vars.to_set()) =~= m2);
    } else {
        let rest = vars.drop_first();
        let m1n = m1.insert(vars[0], vals[0]);
        let m2n = m2.insert(vars[0], vals[0]);
        lemma_to_set_step(vars);
        assert(m1n.remove_keys(rest.to_set()) =~= m2n.remove_keys(rest.to_set())) by {
            assert forall|k: Literal|
                m1n.remove_keys(rest.to_set()).contains_key(k) <==> m2n.remove_keys(
                    rest.to_set(),
                ).contains_key(k) by {
                if k != vars[0] && !rest.to_set().contains(k) {
                    assert(!vars.to_set().contains(k));
                    assert(m1.remove_keys(vars.to_set()).contains_key(k) <==> m1.contains_key(k));
                    assert(m2.remove_keys(vars.to_set()).contains_key(k) <==> m2.contains_key(k));
                }
            }
            assert forall|k: Literal|
                m1n.remove_keys(rest.to_set()).contains_key(k) implies m1n.remove_keys(
                rest.to_set(),
            )[k] == m2n.remove_keys(rest.to_set())[k] by {
                if k != vars[0] {
                    assert(!vars.to_set().contains(k));
                    assert(m1.remove_keys(vars.to_set())[k] == m1[k]);
                    assert(m2.remove_keys(vars.to_set())[k] == m2[k]);
                }
            }
        }
        lemma_assign_map_congruence(m1n, m2n, rest, vals.drop_first());
    }
}

/// Every assignment of the literals of `vars` is reachable: a target
/// assignment that binds exactly those literals (plus whatever `m`
/// already binds outside them, unchanged) is `assign_map` of some value
/// list.
pub proof fn lemma_assign_map_reaches(
    m: Map<Literal, bool>,
    vars: Seq<Literal>,
    t: Map<Literal, bool>,
)
    requires
        t.dom() == m.dom().union(vars.to_set()),
        forall|k: Literal| m.contains_key(k) && !vars.to_set().contains(k) ==> m[k] == t[k],
    ensures
        exists|vals: Seq<bool>| vals.len() == vars.len() && assign_map(m, vars, vals) == t,
    decreases vars.len(),
{
    if vars.len() == 0 {
        assert(vars.to_set() =~= Set::<Literal>::empty());
        assert(m =~= t);
        let vals = Seq::<bool>::empty();
        assert(vals.len() == vars.len() && assign_map(m, vars, vals) == t);
    } else {
        let rest = vars.drop_first();
        lemma_to_set_step(vars);
        assert(vars.to_set().contains(vars[0]));
        assert(t.dom().contains(vars[0]));
        let b = t[vars[0]];
        let m1 = m.insert(vars[0], b);
        assert(t.dom() =~= m1.dom().union(rest.to_set()));
        assert forall|k: Literal|
            m1.contains_key(k) && !rest.to_set().contains(k) implies m1[k] == t[k] by {
            if k != vars[0] {
                assert(!vars.to_set().contains(k));
            }
        }
        lemma_assign_map_reaches(m1, rest, t);
        let vals1 = choose|vals1: Seq<bool>|
            vals1.len() == rest.len() && assign_map(m1, rest, vals1) == t;
        let vals = seq![b] + vals1;
        assert(vals.drop_first() =~= vals1);
        assert(assign_map(m, vars, vals) == assign_map(m1, rest, vals1));
        assert(vals.len() == vars.len() && assign_map(m, vars, vals) == t);
    }
}

/// Binding a non-empty literal list can satisfy the formula exactly when
/// binding its first literal to false or to true and then the rest can.
pub proof fn lemma_extension_step(
    f: Seq<Seq<Variable>>,
    m: Map<Literal, bool>,
    vars: Seq<Literal>,
)
    requires
        vars.len() > 0,
    ensures
        has_satisfying_extension(f, m, vars) <==> (has_satisfying_extension(
            f,
            m.insert(vars[0], false),
            vars.drop_first(),
        ) || has_satisfying_extension(f, m.insert(vars[0], true), vars.drop_first())),
{
    let rest = vars.drop_first();
    if has_satisfying_extension(f, m, vars) {
        let vals = choose|vals: Seq<bool>|
            vals.len() == vars.len() && spec_satisfy_formula(f, assign_map(m, vars, vals));
        let b = vals[0];
        assert(assign_map(m, vars, vals) == assign_map(m.insert(vars[0], b), rest, vals.drop_first()));
        assert(vals.drop_first().len() == rest.len());
        if b {
            assert(has_satisfying_extension(f, m.insert(vars[0], true), rest));
        } else {
            assert(has_satisfying_extension(f, m.insert(vars[0], false), rest));
        }
    }
    if has_satisfying_extension(f, m.insert(vars[0], false), rest) {
        lemma_extension_branch(f, m, vars, false);
    }
    if has_satisfying_extension(f, m.insert(vars[0], true), rest) {
        lemma_extension_branch(f, m, vars, true);
    }
}

/// One direction of `lemma_extension_step`: a satisfying way of binding
/// the rest after binding the first literal to `b` gives a satisfying
/// way of binding the whole list.
proof fn lemma_extension_branch(
    f: Seq<Seq<Variable>>,
    m: Map<Literal, bool>,
    vars: Seq<Literal>,
    b: bool,
)
    requires
        vars.len() > 0,
        has_satisfying_extension(f, m.insert(vars[0], b), vars.drop_first()),
    ensures
        has_satisfying_extension(f, m, vars),
{
    let rest = vars.drop_first();
    let vals0 = choose|vals0: Seq<bool>|
        vals0.len() == rest.len() && spec_satisfy_formula(
            f,
            assign_map(m.insert(vars[0], b), rest, vals0),
        );
    let vals = seq![b] + vals0;
    assert(vals.len() == vars.len());
    assert(vals[0] == b);
    assert(vals.drop_first() =~= vals0);
    assert(assign_map(m, vars, vals) == assign_map(m.insert(vars[0], b), rest, vals0));
    assert(has_satisfying_extension(f, m, vars));
}

/// Whether value list `a` comes before value list `b` in the order the
/// search tries assignments: position by position, false before true.
pub open spec fn lex_lt(a: Seq<bool>, b: Seq<bool>) -> bool {
    exists|k: int|
        0 <= k < a.len() && k < b.len() && !a[k] && b[k] && (forall|j: int| 0 <= j < k ==> a[j] == b[j])
}

/// A SAT solving strategy: given a formula, the ordered list of literals
/// to decide, and a reusable assignment buffer, try to complete the
/// buffer into a satisfying assignment.
/// - On success, the returned solution satisfies the formula and binds
///   exactly the given literals on top of the buffer's prior bindings;
///   the buffer is left holding it.
/// - On failure (`None`), no way of binding the given literals on top of
///   the buffer's prior bindings satisfies the formula.
/// A strategy leaves the formula unchanged and binds no literal outside
/// the given list.
pub trait Solver {
    fn solve(
        &self,
        formula: &mut Formula,
        variables: &[Literal],
        solution: &mut Solution,
    ) -> (result: Option<Solution>)
        requires
            old(solution).wf(),
        ensures
            final(formula)@ == old(formula)@,
            final(solution).wf(),
            final(solution)@.dom().subset_of(old(solution)@.dom().union(variables@.to_set())),
            match result {
                Some(s) => s.wf() && s@ == final(solution)@ && spec_satisfy_formula(
                    old(formula)@,
                    s@,
                ) && (exists|vals: Seq<bool>|
                    vals.len() == variables@.len() && s@ == assign_map(
                        old(solution)@,
                        variables@,
                        vals,
                    )),
                None => !has_satisfying_extension(old(formula)@, old(solution)@, variables@),
            },
    ;
}

/// Recursive binary backtracking over the literal list: try the first
/// literal false then true, recurse on the rest, and only test the
/// formula once every literal is bound. Returns whether a satisfying
/// assignment was found; on success the buffer holds the first
/// satisfying assignment in that trial order (no earlier value list
/// satisfies the formula), on failure the bindings of the given
/// literals are cleared.
pub fn brute_force(formula: &Formula, variables: &[Literal], solution: &mut Solution) -> (found:
    bool)
    requires
        old(solution).wf(),
    ensures
        final(solution).wf(),
        found == has_satisfying_extension(formula@, old(solution)@, variables@),
        found ==> spec_satisfy_formula(formula@, final(solution)@) && (exists|vals: Seq<bool>|
            vals.len() == variables@.len() && final(solution)@ == assign_map(
                old(solution)@,
                variables@,
                vals,
            ) && spec_satisfy_formula(formula@, assign_map(old(solution)@, variables@, vals)) && (
            forall|w: Seq<bool>|
                w.len() == variables@.len() && lex_lt(w, vals) ==> !spec_satisfy_formula(
                    formula@,
                    assign_map(old(solution)@, variables@, w),
                ))),
        !found ==> final(solution)@ == old(solution)@.remove_keys(variables@.to_set()),
    decreases variables@.len(),
{
    let ghost m0 = old(solution)@;
    if variables.len() == 0 {
        let r = satisfy_formula(formula, solution);
        proof {
            assert(variables@.to_set() =~= Set::<Literal>::empty());
            assert(m0.remove_keys(variables@.to_set()) =~= m0);
            let vals = Seq::<bool>::empty();
            assert(assign_map(m0, variables@, vals) == m0);
            if r {
                assert(has_satisfying_extension(formula@, m0, variables@));
            } else if has_satisfying_extension(formula@, m0, variables@) {
                let vals2 = choose|vals2: Seq<bool>|
                    vals2.len() == variables@.len() && spec_satisfy_formula(
                        formula@,
                        assign_map(m0, variables@, vals2),
                    );
                assert(assign_map(m0, variables@, vals2) == m0);
            }
        }
        return r;
    }
    let variable = *vstd::slice::slice_index_get(variables, 0);
    let rest = vstd::slice::slice_subrange(variables, 1, variables.len());
    proof {
        assert(rest@ =~= variables@.drop_first());
        assert(variables@[0] == variable);
        lemma_to_set_step(variables@);
    }
    let ghost rest_set = rest@.to_set();
    solution.set(variable, false);
    if brute_force(formula, rest, solution) {
        proof {
            lemma_extension_branch(formula@, m0, variables@, false);
            let m0f = m0.insert(variable, false);
            let vals1 = choose|vals1: Seq<bool>|
                vals1.len() == rest@.len() && final(solution)@ == assign_map(m0f, rest@, vals1)
                    && spec_satisfy_formula(formula@, assign_map(m0f, rest@, vals1)) && (forall|
                    w: Seq<bool>,
                |
                    w.len() == rest@.len() && lex_lt(w, vals1) ==> !spec_satisfy_formula(
                        formula@,
                        assign_map(m0f, rest@, w),
                    ));
            let vals = seq![false] + vals1;
            assert(vals.drop_first() =~= vals1);
            assert(final(solution)@ == assign_map(m0, variables@, vals));
            assert(vals.len() == variables@.len());
            assert forall|w: Seq<bool>|
                w.len() == variables@.len() && lex_lt(w, vals) implies !spec_satisfy_formula(
                formula@,
                assign_map(m0, variables@, w),
            ) by {
                let k = choose|k: int|
                    0 <= k < w.len() && k < vals.len() && !w[k] && vals[k] && (forall|j: int|
                        0 <= j < k ==> w[j] == vals[j]);
                assert(vals[0] == false);
                assert(k >= 1);
                assert(w[0] == vals[0]);
                let w1 = w.drop_first();
                assert(lex_lt(w1, vals1)) by {
                    assert(!w1[k - 1] && vals1[k - 1]);
                    assert forall|j: int| 0 <= j < k - 1 implies w1[j] == vals1[j] by {
                        assert(w1[j] == w[j + 1]);
                        assert(vals1[j] == vals[j + 1]);
                    }
                }
                assert(assign_map(m0, variables@, w) == assign_map(m0f, rest@, w1));
                assert(!spec_satisfy_formula(formula@, assign_map(m0f, rest@, w1)));
            }
        }
        return true;
    }
    let ghost m_mid = solution@;
    proof {
        assert(m_mid == m0.insert(variable, false).remove_keys(rest_set));
    }
    solution.set(variable, true);
    let ghost m1 = solution@;
    proof {
        assert(m1 == m_mid.insert(variable, true));
        assert(m1.remove_keys(rest_set) =~= m0.insert(variable, true).remove_keys(rest_set));
    }
    if brute_force(formula, rest, solution) {
        proof {
            let m0t = m0.insert(variable, true);
            let vals2 = choose|vals2: Seq<bool>|
                vals2.len() == rest@.len() && final(solution)@ == assign_map(m1, rest@, vals2)
                    && spec_satisfy_formula(formula@, assign_map(m1, rest@, vals2)) && (forall|
                    w: Seq<bool>,
                |
                    w.len() == rest@.len() && lex_lt(w, vals2) ==> !spec_satisfy_formula(
                        formula@,
                        assign_map(m1, rest@, w),
                    ));
            lemma_assign_map_congruence(m1, m0t, rest@, vals2);
            assert(final(solution)@ == assign_map(m0t, rest@, vals2));
            assert(spec_satisfy_formula(formula@, assign_map(m0t, rest@, vals2)));
            assert(has_satisfying_extension(formula@, m0t, rest@));
            lemma_extension_branch(formula@, m0, variables@, true);
            let vals = seq![true] + vals2;
            assert(vals.drop_first() =~= vals2);
            assert(final(solution)@ == assign_map(m0, variables@, vals));
            assert(vals.len() == variables@.len());
            assert forall|w: Seq<bool>|
                w.len() == variables@.len() && lex_lt(w, vals) implies !spec_satisfy_formula(
                formula@,
                assign_map(m0, variables@, w),
            ) by {
                let w1 = w.drop_first();
                if w[0] {
                    let k = choose|k: int|
                        0 <= k < w.len() && k < vals.len() && !w[k] && vals[k] && (forall|j: int|
                            0 <= j < k ==> w[j] == vals[j]);
                    assert(k >= 1);
                    assert(lex_lt(w1, vals2)) by {
                        assert(!w1[k - 1] && vals2[k - 1]);
                        assert forall|j: int| 0 <= j < k - 1 implies w1[j] == vals2[j] by {
                            assert(w1[j] == w[j + 1]);
                            assert(vals2[j] == vals[j + 1]);
                        }
                    }
                    assert(!spec_satisfy_formula(formula@, assign_map(m1, rest@, w1)));
                    lemma_assign_map_congruence(m1, m0t, rest@, w1);
                    assert(assign_map(m0, variables@, w) == assign_map(m0t, rest@, w1));
                } else {
                    assert(assign_map(m0, variables@, w) == assign_map(
                        m0.insert(variable, false),
                        rest@,
                        w1,
                    ));
                    if spec_satisfy_formula(formula@, assign_map(m0.insert(variable, false), rest@, w1)) {
                        assert(has_satisfying_extension(
                            formula@,
                            m0.insert(variable, false),
                            rest@,
                        ));
                        assert(false);
                    }
                }
            }
        }
        return true;
    }
    let ghost m2 = solution@;
    solution.remove(variable);
    proof {
        assert(m2 == m1.remove_keys(rest_set));
        assert(final(solution)@ == m2.remove(variable));
        assert(final(solution)@ =~= m0.remove_keys(variables@.to_set()));
        assert(!has_satisfying_extension(formula@, m1, rest@)) by {
            if has_satisfying_extension(formula@, m1, rest@) {
                let vals3 = choose|vals3: Seq<bool>|
                    vals3.len() == rest@.len() && spec_satisfy_formula(
                        formula@,
                        assign_map(m1, rest@, vals3),
                    );
                lemma_assign_map_congruence(m1, m0.insert(variable, true), rest@, vals3);
                assert(has_satisfying_extension(formula@, m0.insert(variable, true), rest@));
                lemma_extension_branch(formula@, m0, variables@, true);
            }
        }
        assert(!has_satisfying_extension(formula@, m0, variables@)) by {
            lemma_extension_step(formula@, m0, variables@);
            if has_satisfying_extension(formula@, m0.insert(variable, true), rest@) {
                let vals4 = choose|vals4: Seq<bool>|
                    vals4.len() == rest@.len() && spec_satisfy_formula(
                        formula@,
                        assign_map(m0.insert(variable, true), rest@, vals4),
                    );
                lemma_assign_map_congruence(m0.insert(variable, true), m1, rest@, vals4);
                assert(has_satisfying_extension(formula@, m1, rest@));
            }
        }
    }
    false
}

/// A depth-first search (DFS) solver for the SAT problem. The solver
/// uses brute force to find a solution.
pub struct DFS;

impl Solver for DFS {
    fn solve(
        &self,
        formula: &mut Formula,
        variables: &[Literal],
        solution: &mut Solution,
    ) -> (result: Option<Solution>) {
        let found = brute_force(formula, variables, solution);
        proof {
            if found {
                let vals = choose|vals: Seq<bool>|
                    vals.len() == variables@.len() && solution@ == assign_map(
                        old(solution)@,
                        variables@,
                        vals,
                    ) && spec_satisfy_formula(
                        formula@,
                        assign_map(old(solution)@, variables@, vals),
                    ) && (forall|w: Seq<bool>|
                        w.len() == variables@.len() && lex_lt(w, vals) ==> !spec_satisfy_formula(
                            formula@,
                            assign_map(old(solution)@, variables@, w),
                        ));
                lemma_assign_map_dom(old(solution)@, variables@, vals);
                assert(vals.len() == variables@.len() && solution@ == assign_map(
                    old(solution)@,
                    variables@,
                    vals,
                ));
            }
        }
        if found {
            Some(solution.clone())
        } else {
            None
        }
    }
}

} // verus!
