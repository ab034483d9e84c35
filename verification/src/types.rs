//! The CNF data model: literals, signed variables, clauses, formulas, and
//! solutions (assignments of truth values to literals).
//!
//! Evaluation follows a default-false policy throughout: looking up a literal
//! that has no binding in a solution counts as `false`. The policy is applied
//! uniformly, both to partial assignments during search and to the final
//! satisfaction checks.
use vstd::prelude::*;

verus! {

/// A literal is an identifier of a variable.
pub type Literal = u32;

/// An ordered list of literal identifiers.
pub type Variables = Vec<Literal>;

/// A variable is a symbol that can be assigned a truth value.
/// It is either a positive or a negative occurrence of a literal.
#[derive(Clone, Copy, Debug, Eq, Hash, PartialEq)]
pub enum Variable {
    Positive(Literal),
    Negative(Literal),
}

/// The literal identifier of a variable, ignoring its polarity.
pub open spec fn spec_lit(v: Variable) -> Literal {
    match v {
        Variable::Positive(id) => id,
        Variable::Negative(id) => id,
    }
}

/// The truth value of a variable under an assignment, with the
/// default-false policy: an unbound literal counts as `false`.
pub open spec fn spec_eval_variable(v: Variable, m: Map<Literal, bool>) -> bool {
    match v {
        Variable::Positive(id) => m.contains_key(id) && m[id],
        Variable::Negative(id) => !(m.contains_key(id) && m[id]),
    }
}

/// A clause (a disjunction) is satisfied when at least one of its
/// variables evaluates to true.
pub open spec fn spec_satisfy_clause(c: Seq<Variable>, m: Map<Literal, bool>) -> bool {
    exists|i: int| 0 <= i < c.len() && spec_eval_variable(c[i], m)
}

/// A formula (a conjunction) is satisfied when every clause is satisfied.
pub open spec fn spec_satisfy_formula(f: Seq<Seq<Variable>>, m: Map<Literal, bool>) -> bool {
    forall|i: int| 0 <= i < f.len() ==> spec_satisfy_clause(#[trigger] f[i], m)
}

/// The set of literal identifiers that occur anywhere in a formula.
pub open spec fn spec_formula_literals(f: Seq<Seq<Variable>>) -> Set<Literal> {
    Set::new(
        |id: Literal|
            exists|i: int, j: int|
                0 <= i < f.len() && 0 <= j < f[i].len() && spec_lit(#[trigger] f[i][j]) == id,
    )
}

/// A clause is a disjunction of variables.
#[derive(Debug, Eq, PartialEq)]
pub struct Clause(pub Vec<Variable>);

impl View for Clause {
    type V = Seq<Variable>;

    open spec fn view(&self) -> Seq<Variable> {
        self.0@
    }
}

impl Clone for Clause {
    fn clone(&self) -> (r: Self)
        ensures
            r@ == self@,
    {
        let mut vars: Vec<Variable> = Vec::new();
        let mut i: usize = 0;
        while i < self.0.len()
            invariant
                i <= self.0.len(),
                vars@ == self.0@.subrange(0, i as int),
            decreases self.0.len() - i,
        {
            vars.push(self.0[i]);
            i = i + 1;
        }
        proof {
            assert(vars@ =~= self.0@);
        }
        Clause(vars)
    }
}

impl Clause {
    /// Get all literal identifiers in the clause, sorted ascending,
    /// without duplicates.
    pub fn literals(&self) -> (r: Vec<Literal>)
        ensures
            sorted_strict(r@),
            forall|id: Literal|
                r@.contains(id) <==> exists|i: int| 0 <= i < self@.len() && spec_lit(#[trigger] self@[i]) == id,
    {
        let mut vars: Vec<Literal> = Vec::new();
        let mut i: usize = 0;
        while i < self.0.len()
            invariant
                i <= self.0.len(),
                sorted_strict(vars@),
                forall|id: Literal|
                    vars@.contains(id) <==> exists|k: int| 0 <= k < i && spec_lit(#[trigger] self@[k]) == id,
            decreases self.0.len() - i,
        {
            let id = match self.0[i] {
                Variable::Positive(id) => id,
                Variable::Negative(id) => id,
            };
            proof {
                assert(spec_lit(self@[i as int]) == id);
            }
            insert_sorted_unique(&mut vars, id);
            i = i + 1;
        }
        vars
    }

    pub fn len(&self) -> (n: usize)
        ensures
            n == self@.len(),
    {
        self.0.len()
    }

    /// The variables of the clause, in order.
    pub fn iter(&self) -> (r: &Vec<Variable>)
        ensures
            r@ == self@,
    {
        &self.0
    }
}

/// Whether a sequence of literal identifiers is sorted in strictly
/// ascending order (so it also has no duplicates).
pub open spec fn sorted_strict(s: Seq<Literal>) -> bool {
    forall|i: int, j: int| 0 <= i < j < s.len() ==> s[i] < s[j]
}

/// Insert an identifier into a strictly sorted vector, keeping it
/// strictly sorted; an identifier that is already present is not added
/// again.
pub fn insert_sorted_unique(v: &mut Vec<Literal>, id: Literal)
    requires
        sorted_strict(old(v)@),
    ensures
        sorted_strict(final(v)@),
        forall|x: Literal| final(v)@.contains(x) <==> (old(v)@.contains(x) || x == id),
{
    let mut i: usize = 0;
    while i < v.len() && v[i] < id
        invariant
            i <= v.len(),
            sorted_strict(v@),
            v@ == old(v)@,
            forall|k: int| 0 <= k < i ==> v@[k] < id,
        decreases v.len() - i,
    {
        i = i + 1;
    }
    if i < v.len() && v[i] == id {
        proof {
            assert(v@.contains(id));
        }
        return ;
    }
    proof {
        assert(forall|k: int| i <= k < v@.len() ==> v@[k] > id);
    }
    v.insert(i, id);
    proof {
        let oldv = old(v)@;
        let newv = v@;
        assert forall|x: Literal| newv.contains(x) implies (oldv.contains(x) || x == id) by {
            let k = choose|k: int| 0 <= k < newv.len() && newv[k] == x;
            if k < i {
                assert(oldv[k] == x);
            } else if k > i {
                assert(oldv[k - 1] == x);
            }
        }
        assert forall|x: Literal| (oldv.contains(x) || x == id) implies newv.contains(x) by {
            if x == id {
                assert(newv[i as int] == id);
            } else {
                let k = choose|k: int| 0 <= k < oldv.len() && oldv[k] == x;
                if k < i {
                    assert(newv[k] == x);
                } else {
                    assert(newv[k + 1] == x);
                }
            }
        }
        assert forall|p: int, q: int| 0 <= p < q < newv.len() implies newv[p] < newv[q] by {
            let ii = i as int;
            if p < ii && q == ii {
            } else if p == ii && q > ii {
                assert(newv[q] == oldv[q - 1]);
            } else if p < ii && q > ii {
                assert(newv[q] == oldv[q - 1]);
            } else if p > ii && q > ii {
                assert(newv[p] == oldv[p - 1]);
                assert(newv[q] == oldv[q - 1]);
            }
        }
    }
}

/// A boolean propositional formula in conjunctive normal form (CNF):
/// a conjunction of clauses.
#[derive(Debug, Eq, PartialEq)]
pub struct Formula(pub Vec<Clause>);

impl View for Formula {
    type V = Seq<Seq<Variable>>;

    open spec fn view(&self) -> Seq<Seq<Variable>> {
        Seq::new(self.0@.len(), |i: int| self.0@[i]@)
    }
}

impl Clone for Formula {
    fn clone(&self) -> (r: Self)
        ensures
            r@ == self@,
    {
        let mut clauses: Vec<Clause> = Vec::new();
        let mut i: usize = 0;
        while i < self.0.len()
            invariant
                i <= self.0.len(),
                clauses@.len() == i,
                forall|k: int| 0 <= k < i ==> (#[trigger] clauses@[k])@ == self@[k],
            decreases self.0.len() - i,
        {
            clauses.push(self.0[i].clone());
            i = i + 1;
        }
        let r = Formula(clauses);
        proof {
            assert(r@ =~= self@);
        }
        r
    }
}

impl Formula {
    /// Create a new empty formula.
    pub fn new() -> (r: Self)
        ensures
            r@ == Seq::<Seq<Variable>>::empty(),
    {
        let r = Formula(Vec::new());
        proof {
            assert(r@ =~= Seq::<Seq<Variable>>::empty());
        }
        r
    }

    /// Add a new clause to the formula.
    pub fn add(&mut self, clause: Clause)
        ensures
            final(self)@ == old(self)@.push(clause@),
    {
        self.0.push(clause);
        proof {
            assert(final(self)@ =~= old(self)@.push(clause@));
        }
    }

    /// Get all literal identifiers in the formula, sorted ascending,
    /// without duplicates.
    pub fn literals(&self) -> (r: Vec<Literal>)
        ensures
            sorted_strict(r@),
            forall|id: Literal| r@.contains(id) <==> spec_formula_literals(self@).contains(id),
    {
        let mut vars: Vec<Literal> = Vec::new();
        let mut i: usize = 0;
        while i < self.0.len()
            invariant
                i <= self.0.len(),
                sorted_strict(vars@),
                forall|id: Literal|
                    vars@.contains(id) <==> exists|k: int, j: int|
                        0 <= k < i && 0 <= j < self@[k].len() && spec_lit(#[trigger] self@[k][j]) == id,
            decreases self.0.len() - i,
        {
            let clause = &self.0[i];
            let mut j: usize = 0;
            while j < clause.0.len()
                invariant
                    i < self.0.len(),
                    j <= clause.0.len(),
                    clause == &self.0[i as int],
                    sorted_strict(vars@),
                    forall|id: Literal|
                        vars@.contains(id) <==> ((exists|k: int, l: int|
                            0 <= k < i && 0 <= l < self@[k].len() && spec_lit(
                                #[trigger] self@[k][l],
                            ) == id) || (exists|l: int|
                            0 <= l < j && spec_lit(#[trigger] self@[i as int][l]) == id)),
                decreases clause.0.len() - j,
            {
                let id = match clause.0[j] {
                    Variable::Positive(id) => id,
                    Variable::Negative(id) => id,
                };
                proof {
                    assert(spec_lit(self@[i as int][j as int]) == id);
                }
                insert_sorted_unique(&mut vars, id);
                j = j + 1;
            }
            i = i + 1;
        }
        proof {
            assert forall|id: Literal| vars@.contains(id) <==> spec_formula_literals(
                self@,
            ).contains(id) by {
                assert(spec_formula_literals(self@).contains(id) <==> exists|k: int, j: int|
                    0 <= k < self@.len() && 0 <= j < self@[k].len() && spec_lit(
                        #[trigger] self@[k][j],
                    ) == id);
            }
        }
        vars
    }

    pub fn len(&self) -> (n: usize)
        ensures
            n == self@.len(),
    {
        self.0.len()
    }

    /// The clauses of the formula, in order.
    pub fn iter(&self) -> (r: &Vec<Clause>)
        ensures
            r@.len() == self@.len(),
            forall|i: int| 0 <= i < self@.len() ==> (#[trigger] r@[i])@ == self@[i],
    {
        &self.0
    }

    /// Create a formula from a list of clauses, each given as a list of
    /// variables.
    pub fn from(clauses: Vec<Vec<Variable>>) -> (r: Self)
        ensures
            r@.len() == clauses@.len(),
            forall|i: int| 0 <= i < clauses@.len() ==> r@[i] == (#[trigger] clauses@[i])@,
    {
        let ghost orig = clauses@;
        let mut clauses = clauses;
        let n0 = clauses.len();
        proof {
            assert(orig.len() == n0);
        }
        let mut formula = Formula::new();
        let mut i: usize = 0;
        while clauses.len() > 0
            invariant
                orig.len() <= usize::MAX,
                i + clauses@.len() == orig.len(),
                forall|k: int| 0 <= k < clauses@.len() ==> clauses@[k] == orig[i + k],
                formula@.len() == i,
                forall|k: int| 0 <= k < i ==> formula@[k] == (#[trigger] orig[k])@,
            decreases clauses.len(),
        {
            let c = clauses.remove(0);
            proof {
                assert(c == orig[i as int]);
            }
            formula.add(Clause(c));
            i = i + 1;
        }
        formula
    }
}

/// The assignment described by a list of (literal, value) entries:
/// each entry binds its literal to its value.
pub open spec fn map_of(s: Seq<(Literal, bool)>) -> Map<Literal, bool>
    decreases s.len(),
{
    if s.len() == 0 {
        Map::empty()
    } else {
        map_of(s.drop_last()).insert(s.last().0, s.last().1)
    }
}

/// Whether no two entries bind the same literal.
pub open spec fn distinct_keys(s: Seq<(Literal, bool)>) -> bool {
    forall|i: int, j: int| 0 <= i < j < s.len() ==> (#[trigger] s[i]).0 != (#[trigger] s[j]).0
}

/// A literal is bound by `map_of(s)` exactly when some entry carries it.
pub proof fn lemma_map_of_dom(s: Seq<(Literal, bool)>)
    ensures
        forall|k: Literal|
            map_of(s).contains_key(k) <==> exists|i: int| 0 <= i < s.len() && (#[trigger] s[i]).0 == k,
    decreases s.len(),
{
    if s.len() > 0 {
        let dl = s.drop_last();
        lemma_map_of_dom(dl);
        assert(map_of(s) == map_of(dl).insert(s.last().0, s.last().1));
        assert forall|k: Literal| map_of(s).contains_key(k) implies exists|i: int|
            0 <= i < s.len() && (#[trigger] s[i]).0 == k by {
            if k == s.last().0 {
                assert((s[s.len() - 1]).0 == k);
            } else {
                assert(map_of(dl).contains_key(k));
                let i = choose|i: int| 0 <= i < dl.len() && (#[trigger] dl[i]).0 == k;
                assert(dl[i] == s[i]);
                assert((s[i]).0 == k);
            }
        }
        assert forall|k: Literal| (exists|i: int| 0 <= i < s.len() && (#[trigger] s[i]).0 == k)
            implies map_of(s).contains_key(k) by {
            let i = choose|i: int| 0 <= i < s.len() && (#[trigger] s[i]).0 == k;
            if i < s.len() - 1 {
                assert((dl[i]).0 == k);
                assert(map_of(dl).contains_key(k));
            }
        }
    }
}

/// With distinct keys, `map_of(s)` maps each entry's literal to that
/// entry's value.
pub proof fn lemma_map_of_index(s: Seq<(Literal, bool)>)
    requires
        distinct_keys(s),
    ensures
        forall|i: int| 0 <= i < s.len() ==> map_of(s)[(#[trigger] s[i]).0] == s[i].1,
    decreases s.len(),
{
    if s.len() > 0 {
        assert(distinct_keys(s.drop_last()));
        lemma_map_of_index(s.drop_last());
        assert forall|i: int| 0 <= i < s.len() implies map_of(s)[(#[trigger] s[i]).0] == s[i].1 by {
            if i < s.len() - 1 {
                assert(s[i] == s.drop_last()[i]);
                assert(s[i].0 != s.last().0);
            }
        }
    }
}

/// Two entry lists with distinct keys where the second holds exactly the
/// first's entries for other literals plus one binding `(id, value)`
/// describe the first's assignment updated at `id`.
pub proof fn lemma_map_of_insert(
    olds: Seq<(Literal, bool)>,
    news: Seq<(Literal, bool)>,
    id: Literal,
    value: bool,
)
    requires
        distinct_keys(olds),
        distinct_keys(news),
        forall|p: (Literal, bool)|
            news.contains(p) <==> (p == (id, value) || (olds.contains(p) && p.0 != id)),
    ensures
        map_of(news) == map_of(olds).insert(id, value),
{
    lemma_map_of_dom(olds);
    lemma_map_of_dom(news);
    lemma_map_of_index(olds);
    lemma_map_of_index(news);
    let m1 = map_of(news);
    let m2 = map_of(olds).insert(id, value);
    assert(news.contains((id, value)));
    assert forall|k: Literal| m1.contains_key(k) implies m2.contains_key(k) by {
        let i = choose|i: int| 0 <= i < news.len() && (#[trigger] news[i]).0 == k;
        assert(news.contains(news[i]));
        if news[i] != (id, value) {
            assert(olds.contains(news[i]));
        }
    }
    assert forall|k: Literal| m2.contains_key(k) implies m1.contains_key(k) by {
        if k == id {
            let i = choose|i: int| 0 <= i < news.len() && news[i] == (id, value);
            assert((news[i]).0 == k);
        } else {
            let i = choose|i: int| 0 <= i < olds.len() && (#[trigger] olds[i]).0 == k;
            assert(olds.contains(olds[i]));
            assert(news.contains(olds[i]));
            let j = choose|j: int| 0 <= j < news.len() && news[j] == olds[i];
            assert((news[j]).0 == k);
        }
    }
    assert forall|k: Literal| m1.contains_key(k) implies m1[k] == m2[k] by {
        let i = choose|i: int| 0 <= i < news.len() && (#[trigger] news[i]).0 == k;
        assert(m1[k] == news[i].1);
        assert(news.contains(news[i]));
        if news[i] == (id, value) {
            assert(m2[k] == value);
        } else {
            assert(olds.contains(news[i]));
            let j = choose|j: int| 0 <= j < olds.len() && olds[j] == news[i];
            assert(m2[k] == olds[j].1);
        }
    }
    assert(m1 =~= m2);
}

/// Two entry lists with distinct keys where the second holds exactly the
/// first's entries for literals other than `id` describe the first's
/// assignment with `id` unbound.
pub proof fn lemma_map_of_remove(
    olds: Seq<(Literal, bool)>,
    news: Seq<(Literal, bool)>,
    id: Literal,
)
    requires
        distinct_keys(olds),
        distinct_keys(news),
        forall|p: (Literal, bool)| news.contains(p) <==> (olds.contains(p) && p.0 != id),
    ensures
        map_of(news) == map_of(olds).remove(id),
{
    lemma_map_of_dom(olds);
    lemma_map_of_dom(news);
    lemma_map_of_index(olds);
    lemma_map_of_index(news);
    let m1 = map_of(news);
    let m2 = map_of(olds).remove(id);
    assert forall|k: Literal| m1.contains_key(k) implies m2.contains_key(k) && m1[k] == m2[k] by {
        let i = choose|i: int| 0 <= i < news.len() && (#[trigger] news[i]).0 == k;
        assert(news.contains(news[i]));
        assert(olds.contains(news[i]));
        let j = choose|j: int| 0 <= j < olds.len() && olds[j] == news[i];
        assert(m1[k] == news[i].1);
        assert(map_of(olds)[k] == olds[j].1);
    }
    assert forall|k: Literal| m2.contains_key(k) implies m1.contains_key(k) by {
        let i = choose|i: int| 0 <= i < olds.len() && (#[trigger] olds[i]).0 == k;
        assert(olds.contains(olds[i]));
        assert(news.contains(olds[i]));
        let j = choose|j: int| 0 <= j < news.len() && news[j] == olds[i];
        assert((news[j]).0 == k);
    }
    assert(m1 =~= m2);
}

/// The clause that forbids exactly the assignment described by an entry
/// list: each entry contributes the opposite of its assigned polarity
/// (value true gives a negative occurrence, value false a positive one).
pub open spec fn spec_negative_clause(s: Seq<(Literal, bool)>) -> Seq<Variable> {
    Seq::new(
        s.len(),
        |i: int|
            if s[i].1 {
                Variable::Negative(s[i].0)
            } else {
                Variable::Positive(s[i].0)
            },
    )
}

/// Blocking-clause law: an assignment over the same literals satisfies a
/// solution's negative clause exactly when it differs from that
/// solution. In particular the solution itself never satisfies its own
/// negative clause, so a formula extended with it can never yield that
/// solution again.
pub proof fn lemma_blocking_clause(s: Solution, m: Map<Literal, bool>)
    requires
        s.wf(),
        m.dom() == s@.dom(),
    ensures
        spec_satisfy_clause(spec_negative_clause(s.entries()), m) <==> m != s@,
{
    let c = spec_negative_clause(s.entries());
    let e = s.entries();
    assert(distinct_keys(e));
    lemma_map_of_dom(e);
    lemma_map_of_index(e);
    if spec_satisfy_clause(c, m) {
        let i = choose|i: int| 0 <= i < c.len() && spec_eval_variable(c[i], m);
        let k = (e[i]).0;
        let v = e[i].1;
        assert(s@[k] == v);
        assert(s@.contains_key(k));
        assert(m.dom().contains(k));
        if v {
            assert(c[i] == Variable::Negative(k));
            assert(!m[k]);
        } else {
            assert(c[i] == Variable::Positive(k));
            assert(m[k]);
        }
        assert(m[k] != s@[k]);
        assert(m != s@);
    }
    if m != s@ {
        assert(exists|k: Literal| #[trigger] m.dom().contains(k) && m[k] != s@[k]) by {
            if !(exists|k: Literal| #[trigger] m.dom().contains(k) && m[k] != s@[k]) {
                assert(m =~= s@);
            }
        }
        let k = choose|k: Literal| #[trigger] m.dom().contains(k) && m[k] != s@[k];
        assert(s@.contains_key(k));
        let i = choose|i: int| 0 <= i < e.len() && (#[trigger] e[i]).0 == k;
        let v = e[i].1;
        assert(s@[k] == v);
        assert(m[k] == !v);
        assert(spec_eval_variable(c[i], m));
        assert(spec_satisfy_clause(c, m));
    }
}

/// Once a formula holds a solution's negative clause, that solution no
/// longer satisfies the formula: any further solving can never return it
/// again.
pub proof fn lemma_blocked_solution_stays_blocked(s: Solution, w: Seq<Seq<Variable>>, k: int)
    requires
        s.wf(),
        0 <= k < w.len(),
        w[k] == spec_negative_clause(s.entries()),
    ensures
        !spec_satisfy_formula(w, s@),
{
    lemma_blocking_clause(s, s@);
    assert(!spec_satisfy_clause(w[k], s@));
}

/// A solution is a mapping of literals to truth values. The entries are
/// kept sorted by literal identifier, so enumeration order is
/// deterministic.
#[derive(Debug, Eq, PartialEq)]
pub struct Solution(Vec<(Literal, bool)>);

impl View for Solution {
    type V = Map<Literal, bool>;

    open spec fn view(&self) -> Map<Literal, bool> {
        map_of(self.entries())
    }
}

impl Clone for Solution {
    fn clone(&self) -> (r: Self)
        ensures
            r.entries() == self.entries(),
            r@ == self@,
    {
        let mut entries: Vec<(Literal, bool)> = Vec::new();
        let mut i: usize = 0;
        while i < self.0.len()
            invariant
                i <= self.0.len(),
                entries@ == self.0@.subrange(0, i as int),
            decreases self.0.len() - i,
        {
            entries.push(self.0[i]);
            i = i + 1;
        }
        proof {
            assert(entries@ =~= self.0@);
        }
        Solution(entries)
    }
}

impl Solution {
    /// The entry list behind the solution, ordered by literal identifier.
    pub closed spec fn entries(self) -> Seq<(Literal, bool)> {
        self.0@
    }

    /// Well-formedness: the entries are sorted by strictly ascending
    /// literal identifier, so each literal is bound at most once.
    pub open spec fn wf(self) -> bool {
        forall|i: int, j: int|
            0 <= i < j < self.entries().len() ==> (#[trigger] self.entries()[i]).0 < (
            #[trigger] self.entries()[j]).0
    }

    /// Create a new empty solution.
    pub fn new() -> (r: Self)
        ensures
            r.wf(),
            r.entries() == Seq::<(Literal, bool)>::empty(),
            r@ == Map::<Literal, bool>::empty(),
    {
        let r = Solution(Vec::new());
        proof {
            assert(r.entries() =~= Seq::<(Literal, bool)>::empty());
        }
        r
    }

    /// The truth value assigned to a literal. The literal must be bound:
    /// looking up an unbound literal is a contract violation.
    pub fn get(&self, id: Literal) -> (value: bool)
        requires
            self.wf(),
            self@.contains_key(id),
        ensures
            value == self@[id],
    {
        proof {
            lemma_map_of_dom(self.entries());
        }
        let mut i: usize = 0;
        while i < self.0.len()
            invariant
                self.wf(),
                i <= self.0.len(),
                forall|k: int| 0 <= k < i ==> (#[trigger] self.entries()[k]).0 != id,
            decreases self.0.len() - i,
        {
            if self.0[i].0 == id {
                proof {
                    assert(distinct_keys(self.entries()));
                    lemma_map_of_index(self.entries());
                    assert((self.entries()[i as int]).0 == id);
                    assert(self@[id] == self.entries()[i as int].1);
                }
                return self.0[i].1;
            }
            i = i + 1;
        }
        proof {
            let k = choose|k: int| 0 <= k < self.entries().len() && (#[trigger] self.entries()[k]).0 == id;
            assert(false);
        }
        false
    }

    /// Whether a literal is bound to a truth value.
    pub fn contains(&self, id: Literal) -> (r: bool)
        ensures
            r == self@.contains_key(id),
    {
        let mut i: usize = 0;
        while i < self.0.len()
            invariant
                i <= self.0.len(),
                forall|k: int| 0 <= k < i ==> (#[trigger] self.entries()[k]).0 != id,
            decreases self.0.len() - i,
        {
            if self.0[i].0 == id {
                proof {
                    lemma_map_of_dom(self.entries());
                    assert(self@.contains_key(id)) by {
                        assert((self.entries()[i as int]).0 == id);
                    }
                }
                return true;
            }
            i = i + 1;
        }
        proof {
            lemma_map_of_dom(self.entries());
            assert(!self@.contains_key(id)) by {
                if self@.contains_key(id) {
                    let k = choose|k: int|
                        0 <= k < self.entries().len() && (#[trigger] self.entries()[k]).0 == id;
                }
            }
        }
        false
    }

    /// Assign a truth value to a literal, adding or overwriting its
    /// binding.
    pub fn set(&mut self, id: Literal, value: bool)
        requires
            old(self).wf(),
        ensures
            final(self).wf(),
            final(self)@ == old(self)@.insert(id, value),
            final(self)@.dom() == old(self)@.dom().insert(id),
    {
        let ghost olds = self.entries();
        let mut i: usize = 0;
        while i < self.0.len() && self.0[i].0 < id
            invariant
                i <= self.0.len(),
                self.entries() == olds,
                old(self).wf(),
                forall|k: int| 0 <= k < i ==> (#[trigger] olds[k]).0 < id,
            decreases self.0.len() - i,
        {
            i = i + 1;
        }
        proof {
            assert(forall|k: int| i <= k < olds.len() ==> (#[trigger] olds[k]).0 >= id);
        }
        if i < self.0.len() && self.0[i].0 == id {
            self.0.remove(i);
            self.0.insert(i, (id, value));
            proof {
                let news = self.entries();
                assert(news =~= olds.update(i as int, (id, value)));
                lemma_set_entries(olds, news, i as int, id, value);
            }
        } else {
            self.0.insert(i, (id, value));
            proof {
                let news = self.entries();
                assert(forall|k: int| 0 <= k < i ==> news[k] == olds[k]);
                assert(news[i as int] == (id, value));
                assert(forall|k: int| i < k < news.len() ==> news[k] == olds[k - 1]);
                assert(forall|k: int| i <= k < olds.len() ==> (#[trigger] olds[k]).0 > id);
                lemma_set_entries_fresh(olds, news, i as int, id, value);
            }
        }
        proof {
            assert(final(self)@.dom() =~= old(self)@.dom().insert(id));
        }
    }

    /// Drop the binding of a literal, if there is one.
    pub fn remove(&mut self, id: Literal)
        requires
            old(self).wf(),
        ensures
            final(self).wf(),
            final(self)@ == old(self)@.remove(id),
    {
        let ghost olds = self.entries();
        let mut i: usize = 0;
        while i < self.0.len()
            invariant
                i <= self.0.len(),
                self.entries() == olds,
                olds == old(self).entries(),
                old(self).wf(),
                forall|k: int| 0 <= k < i ==> (#[trigger] olds[k]).0 != id,
            decreases self.0.len() - i,
        {
            if self.0[i].0 == id {
                self.0.remove(i);
                proof {
                    let news = self.entries();
                    assert(news =~= olds.remove(i as int));
                    assert(distinct_keys(olds));
                    lemma_remove_entries(olds, news, i as int, id);
                }
                return ;
            }
            i = i + 1;
        }
        proof {
            lemma_map_of_dom(olds);
            assert(!old(self)@.contains_key(id));
            assert(final(self)@ =~= old(self)@.remove(id));
        }
    }

    /// The literals bound by the solution, sorted ascending.
    pub fn literals(&self) -> (r: Vec<Literal>)
        requires
            self.wf(),
        ensures
            r@.len() == self.entries().len(),
            forall|i: int| 0 <= i < r@.len() ==> r@[i] == (#[trigger] self.entries()[i]).0,
            sorted_strict(r@),
            forall|id: Literal| r@.contains(id) <==> self@.contains_key(id),
    {
        proof {
            lemma_map_of_dom(self.entries());
        }
        let mut r: Vec<Literal> = Vec::new();
        let mut i: usize = 0;
        while i < self.0.len()
            invariant
                i <= self.0.len(),
                r@.len() == i,
                forall|k: int| 0 <= k < i ==> r@[k] == (#[trigger] self.entries()[k]).0,
            decreases self.0.len() - i,
        {
            r.push(self.0[i].0);
            i = i + 1;
        }
        proof {
            lemma_map_of_dom(self.entries());
            assert forall|p: int, q: int| 0 <= p < q < r@.len() implies r@[p] < r@[q] by {
                assert(r@[p] == (self.entries()[p]).0);
                assert(r@[q] == (self.entries()[q]).0);
            }
            assert forall|id: Literal| r@.contains(id) implies self@.contains_key(id) by {
                let k = choose|k: int| 0 <= k < r@.len() && r@[k] == id;
                assert((self.entries()[k]).0 == id);
            }
            assert forall|id: Literal| self@.contains_key(id) implies r@.contains(id) by {
                let k = choose|k: int|
                    0 <= k < self.entries().len() && (#[trigger] self.entries()[k]).0 == id;
                assert(r@[k] == id);
            }
        }
        r
    }

    /// Set every bound literal to `false`, keeping the set of bound
    /// literals unchanged.
    pub fn reset(&mut self)
        requires
            old(self).wf(),
        ensures
            final(self).wf(),
            final(self).entries().len() == old(self).entries().len(),
            forall|i: int|
                0 <= i < final(self).entries().len() ==> #[trigger] final(self).entries()[i] == ((
                old(self).entries()[i]).0, false),
            final(self)@.dom() == old(self)@.dom(),
            forall|k: Literal| final(self)@.contains_key(k) ==> final(self)@[k] == false,
    {
        let ghost olds = self.entries();
        let mut entries: Vec<(Literal, bool)> = Vec::new();
        let mut i: usize = 0;
        while i < self.0.len()
            invariant
                i <= self.0.len(),
                self.entries() == olds,
                old(self).wf(),
                entries@.len() == i,
                forall|k: int| 0 <= k < i ==> #[trigger] entries@[k] == ((olds[k]).0, false),
            decreases self.0.len() - i,
        {
            let id = self.0[i].0;
            entries.push((id, false));
            i = i + 1;
        }
        self.0 = entries;
        proof {
            let news = self.entries();
            assert(distinct_keys(olds));
            assert(distinct_keys(news));
            lemma_map_of_dom(olds);
            lemma_map_of_dom(news);
            lemma_map_of_index(news);
            assert forall|k: Literal| final(self)@.contains_key(k) implies old(self)@.contains_key(
                k,
            ) by {
                let i0 = choose|i0: int| 0 <= i0 < news.len() && (#[trigger] news[i0]).0 == k;
                assert((olds[i0]).0 == k);
            }
            assert forall|k: Literal| old(self)@.contains_key(k) implies final(self)@.contains_key(
                k,
            ) by {
                let i0 = choose|i0: int| 0 <= i0 < olds.len() && (#[trigger] olds[i0]).0 == k;
                assert((news[i0]).0 == k);
            }
            assert(final(self)@.dom() =~= old(self)@.dom());
            assert forall|k: Literal| final(self)@.contains_key(k) implies final(self)@[k]
                == false by {
                let i0 = choose|i0: int| 0 <= i0 < news.len() && (#[trigger] news[i0]).0 == k;
                assert(map_of(news)[k] == news[i0].1);
            }
        }
    }

    /// Whether the solution satisfies the formula, under the
    /// default-false policy for unbound literals.
    pub fn satisfy(&self, formula: &Formula) -> (r: bool)
        requires
            self.wf(),
        ensures
            r == spec_satisfy_formula(formula@, self@),
    {
        crate::utils::satisfy_formula(formula, self)
    }

    /// Build the clause that forbids exactly this solution, by
    /// De Morgan's law: each bound literal contributes the opposite of
    /// its assigned polarity.
    pub fn negative_clause(&self) -> (r: Clause)
        requires
            self.wf(),
        ensures
            r@ == spec_negative_clause(self.entries()),
    {
        let mut vars: Vec<Variable> = Vec::new();
        let mut i: usize = 0;
        while i < self.0.len()
            invariant
                i <= self.0.len(),
                vars@.len() == i,
                forall|k: int|
                    0 <= k < i ==> #[trigger] vars@[k] == spec_negative_clause(self.entries())[k],
            decreases self.0.len() - i,
        {
            let (id, value) = self.0[i];
            if value {
                vars.push(Variable::Negative(id));
            } else {
                vars.push(Variable::Positive(id));
            }
            i = i + 1;
        }
        let r = Clause(vars);
        proof {
            assert(r@ =~= spec_negative_clause(self.entries()));
        }
        r
    }

    /// Create a solution from a list of pairs of literals and truth
    /// values; later pairs overwrite earlier ones.
    pub fn from(pairs: &[(Literal, bool)]) -> (r: Self)
        ensures
            r.wf(),
            r@ == map_of(pairs@),
    {
        let mut r = Solution::new();
        let n = pairs.len();
        let mut i: usize = 0;
        while i < n
            invariant
                i <= n,
                n == pairs@.len(),
                r.wf(),
                r@ == map_of(pairs@.subrange(0, i as int)),
            decreases n - i,
        {
            let p = *vstd::slice::slice_index_get(pairs, i);
            r.set(p.0, p.1);
            proof {
                let pre = pairs@.subrange(0, i as int);
                let post = pairs@.subrange(0, i + 1);
                assert(post.drop_last() =~= pre);
                assert(post.last() == p);
            }
            i = i + 1;
        }
        proof {
            assert(pairs@.subrange(0, pairs@.len() as int) =~= pairs@);
        }
        r
    }
}

/// Helper for `Solution::set` when the literal was already bound: the
/// entry list updated in place at the literal's position describes the
/// updated assignment.
proof fn lemma_set_entries(
    olds: Seq<(Literal, bool)>,
    news: Seq<(Literal, bool)>,
    i: int,
    id: Literal,
    value: bool,
)
    requires
        distinct_keys(olds),
        0 <= i < olds.len(),
        (olds[i]).0 == id,
        news == olds.update(i, (id, value)),
    ensures
        distinct_keys(news),
        map_of(news) == map_of(olds).insert(id, value),
{
    assert forall|p: (Literal, bool)| news.contains(p) implies (p == (id, value) || (olds.contains(
        p,
    ) && p.0 != id)) by {
        let k = choose|k: int| 0 <= k < news.len() && news[k] == p;
        if k != i {
            assert(olds[k] == p);
            assert(p.0 != id);
        }
    }
    assert forall|p: (Literal, bool)| (p == (id, value) || (olds.contains(p) && p.0 != id))
        implies news.contains(p) by {
        if p == (id, value) {
            assert(news[i] == p);
        } else {
            let k = choose|k: int| 0 <= k < olds.len() && olds[k] == p;
            assert(news[k] == p);
        }
    }
    lemma_map_of_insert(olds, news, id, value);
}

/// Helper for `Solution::set` when the literal was unbound: the entry
/// list with `(id, value)` inserted at its sorted position describes the
/// updated assignment and stays sorted.
proof fn lemma_set_entries_fresh(
    olds: Seq<(Literal, bool)>,
    news: Seq<(Literal, bool)>,
    i: int,
    id: Literal,
    value: bool,
)
    requires
        distinct_keys(olds),
        forall|p: int, q: int| 0 <= p < q < olds.len() ==> (#[trigger] olds[p]).0 < (#[trigger] olds[q]).0,
        0 <= i <= olds.len(),
        forall|k: int| 0 <= k < i ==> (#[trigger] olds[k]).0 < id,
        forall|k: int| i <= k < olds.len() ==> (#[trigger] olds[k]).0 > id,
        news.len() == olds.len() + 1,
        forall|k: int| 0 <= k < i ==> #[trigger] news[k] == olds[k],
        news[i] == (id, value),
        forall|k: int| i < k < news.len() ==> #[trigger] news[k] == olds[k - 1],
    ensures
        forall|p: int, q: int| 0 <= p < q < news.len() ==> (#[trigger] news[p]).0 < (#[trigger] news[q]).0,
        map_of(news) == map_of(olds).insert(id, value),
{
    assert forall|p: int, q: int| 0 <= p < q < news.len() implies (#[trigger] news[p]).0 < (
    #[trigger] news[q]).0 by {
        if p < i && q == i {
        } else if p == i && q > i {
            assert(news[q] == olds[q - 1]);
        } else if p < i && q > i {
            assert(news[q] == olds[q - 1]);
        } else if p > i && q > i {
            assert(news[p] == olds[p - 1]);
            assert(news[q] == olds[q - 1]);
        }
    }
    assert forall|p: (Literal, bool)| news.contains(p) implies (p == (id, value) || (olds.contains(
        p,
    ) && p.0 != id)) by {
        let k = choose|k: int| 0 <= k < news.len() && news[k] == p;
        if k < i {
            assert(olds[k] == p);
        } else if k > i {
            assert(olds[k - 1] == p);
        }
    }
    assert forall|p: (Literal, bool)| (p == (id, value) || (olds.contains(p) && p.0 != id))
        implies news.contains(p) by {
        if p == (id, value) {
            assert(news[i] == p);
        } else {
            let k = choose|k: int| 0 <= k < olds.len() && olds[k] == p;
            if k < i {
                assert(news[k] == p);
            } else {
                assert(news[k + 1] == p);
            }
        }
    }
    lemma_map_of_insert(olds, news, id, value);
}

/// Helper for `Solution::remove`: the entry list with the literal's
/// entry taken out describes the assignment with that literal unbound.
proof fn lemma_remove_entries(olds: Seq<(Literal, bool)>, news: Seq<(Literal, bool)>, i: int, id: Literal)
    requires
        distinct_keys(olds),
        forall|p: int, q: int| 0 <= p < q < olds.len() ==> (#[trigger] olds[p]).0 < (#[trigger] olds[q]).0,
        0 <= i < olds.len(),
        (olds[i]).0 == id,
        news == olds.remove(i),
    ensures
        forall|p: int, q: int| 0 <= p < q < news.len() ==> (#[trigger] news[p]).0 < (#[trigger] news[q]).0,
        map_of(news) == map_of(olds).remove(id),
{
    assert forall|p: (Literal, bool)| news.contains(p) implies (olds.contains(p) && p.0 != id) by {
        let k = choose|k: int| 0 <= k < news.len() && news[k] == p;
        if k < i {
            assert(olds[k] == p);
        } else {
            assert(olds[k + 1] == p);
        }
    }
    assert forall|p: (Literal, bool)| (olds.contains(p) && p.0 != id) implies news.contains(p) by {
        let k = choose|k: int| 0 <= k < olds.len() && olds[k] == p;
        if k < i {
            assert(news[k] == p);
        } else {
            assert(news[k - 1] == p);
        }
    }
    lemma_map_of_remove(olds, news, id);
}

} // verus!
