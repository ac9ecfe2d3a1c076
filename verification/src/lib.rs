//! A decision procedure for propositional formulas in conjunctive normal
//! form: the CNF data model with clause evaluation and unit detection, a
//! one-shot unit-clause preprocessing pass, and a recursive DPLL solver.

use vstd::prelude::*;

pub mod parser;
pub mod preprocessing;
pub mod solver;

verus! {

/// Verdict of a satisfiability check.
#[derive(Clone, Copy, Debug, PartialEq, Eq, Structural)]
pub enum Satisfiability {
    Satisfiable,
    Unsatisfiable,
}

impl Satisfiability {
    /// Disjunction of two verdicts: satisfiable when either side is.
    pub fn or(self, rhs: Self) -> (r: Self)
        ensures
            r == Satisfiability::Satisfiable <==> (self == Satisfiability::Satisfiable
                || rhs == Satisfiability::Satisfiable),
    {
        match (self, rhs) {
            (Satisfiability::Satisfiable, _) => Satisfiability::Satisfiable,
            (_, Satisfiability::Satisfiable) => Satisfiability::Satisfiable,
            _ => Satisfiability::Unsatisfiable,
        }
    }
}

/// A boolean variable, identified by a positive integer.
#[derive(Debug, PartialEq, Eq, Structural, Hash, Copy, Clone)]
pub struct Variable(pub u64);

/// A variable together with the polarity under which the literal is
/// satisfied: polarity `true` means the literal holds when the variable is
/// assigned `true`, polarity `false` when it is assigned `false`.
#[derive(Debug, PartialEq, Eq, Structural, Hash, Copy, Clone)]
pub struct Literal {
    pub variable: Variable,
    pub polarity: bool,
}

/// An ordered disjunction of literals. A clause with no literals can never
/// be satisfied.
#[derive(Debug, Clone)]
pub struct Clause(pub Vec<Literal>);

/// A conjunction of clauses over variables `1..=num_variables`.
#[derive(Debug)]
pub struct Cnf {
    pub num_variables: u64,
    pub clauses: Vec<Clause>,
}

/// The literal's variable identifier lies in `1..=bound`.
pub open spec fn lit_in_bound(l: Literal, bound: int) -> bool {
    1 <= l.variable.0 && l.variable.0 <= bound
}

/// Every literal of the clause has its variable identifier in `1..=bound`.
pub open spec fn clause_in_bound(c: Seq<Literal>, bound: int) -> bool {
    forall|p: int| 0 <= p < c.len() ==> lit_in_bound(#[trigger] c[p], bound)
}

/// The literal holds under the assignment: its variable is assigned to the
/// literal's polarity.
pub open spec fn lit_true(l: Literal, asn: Seq<Option<bool>>) -> bool {
    asn[l.variable.0 - 1] == Some(l.polarity)
}

/// The literal can no longer hold: its variable is assigned to the opposite
/// of the literal's polarity.
pub open spec fn lit_false(l: Literal, asn: Seq<Option<bool>>) -> bool {
    asn[l.variable.0 - 1] == Some(!l.polarity)
}

/// The literal's variable carries an assignment.
pub open spec fn lit_assigned(l: Literal, asn: Seq<Option<bool>>) -> bool {
    asn[l.variable.0 - 1] is Some
}

/// Some literal of the clause holds under the assignment.
pub open spec fn clause_sat(c: Seq<Literal>, asn: Seq<Option<bool>>) -> bool {
    exists|p: int| 0 <= p < c.len() && #[trigger] lit_true(c[p], asn)
}

/// Every literal of the clause is assigned opposite to its polarity; no
/// extension of the assignment can satisfy the clause. The empty clause is
/// vacuously violated.
pub open spec fn clause_violated(c: Seq<Literal>, asn: Seq<Option<bool>>) -> bool {
    forall|p: int| 0 <= p < c.len() ==> #[trigger] lit_false(c[p], asn)
}

/// The clause is not yet satisfied but still has an unassigned literal.
pub open spec fn clause_undecided(c: Seq<Literal>, asn: Seq<Option<bool>>) -> bool {
    !clause_sat(c, asn) && exists|p: int|
        0 <= p < c.len() && !(#[trigger] lit_assigned(c[p], asn))
}

/// How many literals of the clause have no assignment yet.
pub open spec fn unassigned_count(c: Seq<Literal>, asn: Seq<Option<bool>>) -> nat
    decreases c.len(),
{
    if c.len() == 0 {
        0
    } else {
        unassigned_count(c.drop_last(), asn) + (if lit_assigned(c.last(), asn) {
            0nat
        } else {
            1nat
        })
    }
}

/// The clause is not satisfied and exactly one of its literals is still
/// unassigned: that literal is forced.
pub open spec fn clause_is_unit(c: Seq<Literal>, asn: Seq<Option<bool>>) -> bool {
    !clause_sat(c, asn) && unassigned_count(c, asn) == 1
}

/// The one unassigned literal of a unit clause.
pub open spec fn unit_literal_of(c: Seq<Literal>, asn: Seq<Option<bool>>) -> Literal {
    c[choose|p: int| 0 <= p < c.len() && !lit_assigned(c[p], asn)]
}

/// The forced literals of all unit clauses, in clause order, duplicates
/// kept.
pub open spec fn spec_unit_literals(cs: Seq<Seq<Literal>>, asn: Seq<Option<bool>>) -> Seq<Literal>
    decreases cs.len(),
{
    if cs.len() == 0 {
        Seq::empty()
    } else {
        spec_unit_literals(cs.drop_last(), asn) + (if clause_is_unit(cs.last(), asn) {
            seq![unit_literal_of(cs.last(), asn)]
        } else {
            Seq::empty()
        })
    }
}

/// A clause whose unassigned count is zero has every literal assigned.
pub proof fn lemma_count_zero(c: Seq<Literal>, asn: Seq<Option<bool>>)
    requires
        unassigned_count(c, asn) == 0,
    ensures
        forall|p: int| 0 <= p < c.len() ==> #[trigger] lit_assigned(c[p], asn),
    decreases c.len(),
{
    if c.len() > 0 {
        lemma_count_zero(c.drop_last(), asn);
        assert forall|p: int| 0 <= p < c.len() implies #[trigger] lit_assigned(c[p], asn) by {
            if p < c.len() - 1 {
                assert(c.drop_last()[p] == c[p]);
            }
        }
    }
}

/// In a clause with exactly one unassigned literal, any two unassigned
/// positions coincide.
pub proof fn lemma_count_one_unique(
    c: Seq<Literal>,
    asn: Seq<Option<bool>>,
    p1: int,
    p2: int,
)
    requires
        unassigned_count(c, asn) == 1,
        0 <= p1 < c.len(),
        0 <= p2 < c.len(),
        !lit_assigned(c[p1], asn),
        !lit_assigned(c[p2], asn),
    ensures
        p1 == p2,
    decreases c.len(),
{
    if lit_assigned(c.last(), asn) {
        assert(c.drop_last()[p1] == c[p1] && c.drop_last()[p2] == c[p2]) by {
            assert(p1 < c.len() - 1 && p2 < c.len() - 1);
        }
        lemma_count_one_unique(c.drop_last(), asn, p1, p2);
    } else {
        assert(unassigned_count(c.drop_last(), asn) == 0);
        lemma_count_zero(c.drop_last(), asn);
        assert forall|p: int| 0 <= p < c.len() - 1 implies #[trigger] lit_assigned(c[p], asn) by {
            assert(c.drop_last()[p] == c[p]);
            assert(lit_assigned(c.drop_last()[p], asn));
        }
        assert(p1 == c.len() - 1 && p2 == c.len() - 1);
    }
}

impl Cnf {
    /// The clauses as a sequence of literal sequences.
    pub open spec fn clause_seq(self) -> Seq<Seq<Literal>> {
        self.clauses@.map_values(|c: Clause| c.0@)
    }

    /// Every literal of every clause has its variable in `1..=bound`.
    pub open spec fn lits_in_bound(self, bound: int) -> bool {
        forall|i: int|
            0 <= i < self.clauses@.len() ==> clause_in_bound(#[trigger] self.clauses@[i].0@, bound)
    }

    /// Every literal's variable identifier lies in `1..=num_variables`.
    pub open spec fn wf(self) -> bool {
        self.lits_in_bound(self.num_variables as int)
    }

    /// Every clause has a literal that holds under the assignment.
    pub open spec fn sat_under(self, asn: Seq<Option<bool>>) -> bool {
        forall|i: int|
            0 <= i < self.clauses@.len() ==> clause_sat(#[trigger] self.clauses@[i].0@, asn)
    }

    /// Clause `i` is the first clause not satisfied under the assignment,
    /// and it is conclusively violated.
    pub open spec fn blocked_at(self, asn: Seq<Option<bool>>, i: int) -> bool {
        &&& 0 <= i < self.clauses@.len()
        &&& clause_violated(self.clauses@[i].0@, asn)
        &&& forall|j: int| 0 <= j < i ==> clause_sat(#[trigger] self.clauses@[j].0@, asn)
    }

    /// Clause `i` is the first clause not satisfied under the assignment,
    /// and it still has an unassigned literal.
    pub open spec fn undecided_at(self, asn: Seq<Option<bool>>, i: int) -> bool {
        &&& 0 <= i < self.clauses@.len()
        &&& clause_undecided(self.clauses@[i].0@, asn)
        &&& forall|j: int| 0 <= j < i ==> clause_sat(#[trigger] self.clauses@[j].0@, asn)
    }

    /// Some clause of the formula is a unit under the assignment and forces
    /// the given literal.
    pub open spec fn unit_source_in(self, l: Literal, asn: Seq<Option<bool>>) -> bool {
        exists|j: int|
            0 <= j < self.clauses@.len() && clause_is_unit(#[trigger] self.clauses@[j].0@, asn)
                && l == unit_literal_of(self.clauses@[j].0@, asn)
    }

    /// The three evaluation outcomes exclude one another.
    proof fn lemma_outcomes_exclusive(self, asn: Seq<Option<bool>>)
        ensures
            self.sat_under(asn) ==> (forall|i: int| !self.blocked_at(asn, i))
                && (forall|i: int| !self.undecided_at(asn, i)),
            forall|i: int, j: int|
                #![trigger self.blocked_at(asn, i), self.undecided_at(asn, j)]
                self.blocked_at(asn, i) ==> !self.undecided_at(asn, j),
    {
        assert forall|i: int| self.sat_under(asn) implies !self.blocked_at(asn, i) by {
            if self.blocked_at(asn, i) {
                let c = self.clauses@[i].0@;
                let p = choose|p: int| 0 <= p < c.len() && #[trigger] lit_true(c[p], asn);
                assert(lit_false(c[p], asn));
            }
        }
        assert forall|i: int| self.sat_under(asn) implies !self.undecided_at(asn, i) by {
        }
        assert forall|i: int, j: int| self.blocked_at(asn, i) implies !self.undecided_at(
            asn,
            j,
        ) by {
            if self.undecided_at(asn, j) {
                if i < j {
                    let c = self.clauses@[i].0@;
                    let p = choose|p: int| 0 <= p < c.len() && #[trigger] lit_true(c[p], asn);
                    assert(lit_false(c[p], asn));
                } else if j < i {
                    let c = self.clauses@[j].0@;
                    let p = choose|p: int| 0 <= p < c.len() && #[trigger] lit_true(c[p], asn);
                    assert(lit_false(c[p], asn));
                } else {
                    let c = self.clauses@[i].0@;
                    let p = choose|p: int|
                        0 <= p < c.len() && !(#[trigger] lit_assigned(c[p], asn));
                    assert(lit_false(c[p], asn));
                }
            }
        }
    }

    /// Among the first `i + 1` clauses one is unsatisfied; under a total
    /// assignment some clause is then conclusively violated first.
    proof fn lemma_first_unsat_clause(self, asn: Seq<Option<bool>>, i: int)
        requires
            self.lits_in_bound(asn.len() as int),
            forall|j: int| 0 <= j < asn.len() ==> (#[trigger] asn[j]) is Some,
            0 <= i < self.clauses@.len(),
            !clause_sat(self.clauses@[i].0@, asn),
        ensures
            exists|j: int| self.blocked_at(asn, j),
        decreases i,
    {
        if forall|k: int| 0 <= k < i ==> clause_sat(#[trigger] self.clauses@[k].0@, asn) {
            let c = self.clauses@[i].0@;
            assert forall|p: int| 0 <= p < c.len() implies #[trigger] lit_false(c[p], asn) by {
                assert(lit_in_bound(c[p], asn.len() as int));
                assert(!lit_true(c[p], asn));
                match asn[c[p].variable.0 - 1] {
                    Some(b) => {
                        assert(b != c[p].polarity);
                        assert(b == !c[p].polarity);
                    },
                    None => {
                        assert(false);
                    },
                }
            }
            assert(self.blocked_at(asn, i));
        } else {
            let k = choose|k: int| 0 <= k < i && !clause_sat(#[trigger] self.clauses@[k].0@, asn);
            self.lemma_first_unsat_clause(asn, k);
        }
    }

    /// Under a total assignment, evaluation is determinate and matches the
    /// direct boolean reading of the conjunction of disjunctions: no clause
    /// is ever undecided, and a verdict of unsatisfiable is reached exactly
    /// when some clause has no true literal.
    pub proof fn lemma_total_evaluation(self, asn: Seq<Option<bool>>)
        requires
            self.lits_in_bound(asn.len() as int),
            forall|j: int| 0 <= j < asn.len() ==> (#[trigger] asn[j]) is Some,
        ensures
            self.sat_under(asn) <==> !(exists|i: int| self.blocked_at(asn, i)),
            !(exists|i: int| self.undecided_at(asn, i)),
    {
        self.lemma_outcomes_exclusive(asn);
        assert forall|i: int| !self.undecided_at(asn, i) by {
            if self.undecided_at(asn, i) {
                let c = self.clauses@[i].0@;
                let p = choose|p: int| 0 <= p < c.len() && !(#[trigger] lit_assigned(c[p], asn));
                assert(lit_in_bound(c[p], asn.len() as int));
                assert(asn[c[p].variable.0 - 1] is Some);
            }
        }
        if !self.sat_under(asn) {
            let i = choose|i: int|
                0 <= i < self.clauses@.len() && !clause_sat(#[trigger] self.clauses@[i].0@, asn);
            self.lemma_first_unsat_clause(asn, i);
        }
    }

    /// A clause that is neither satisfied nor conclusively violated still
    /// has an unassigned literal.
    proof fn lemma_open_clause_has_unassigned(self, asn: Seq<Option<bool>>, i: int)
        requires
            0 <= i < self.clauses@.len(),
            !clause_sat(self.clauses@[i].0@, asn),
            !clause_violated(self.clauses@[i].0@, asn),
        ensures
            clause_undecided(self.clauses@[i].0@, asn),
    {
        let c = self.clauses@[i].0@;
        let p = choose|p: int| 0 <= p < c.len() && !(#[trigger] lit_false(c[p], asn));
        if lit_assigned(c[p], asn) {
            assert(!lit_true(c[p], asn));
            match asn[c[p].variable.0 - 1] {
                Some(b) => {
                    assert(b != c[p].polarity);
                    assert(b == !c[p].polarity);
                },
                None => {
                    assert(false);
                },
            }
        }
    }

    /// As long as no clause is conclusively violated, one clause that is
    /// neither satisfied nor fully assigned keeps the verdict open:
    /// evaluation is then indeterminate.
    pub proof fn lemma_open_clause_means_indeterminate(self, asn: Seq<Option<bool>>, i: int)
        requires
            forall|j: int|
                0 <= j < self.clauses@.len() ==> !clause_violated(#[trigger] self.clauses@[j].0@, asn),
            0 <= i < self.clauses@.len(),
            !clause_sat(self.clauses@[i].0@, asn),
        ensures
            exists|j: int| self.undecided_at(asn, j),
            !self.sat_under(asn),
            !(exists|j: int| self.blocked_at(asn, j)),
        decreases i,
    {
        self.lemma_open_clause_has_unassigned(asn, i);
        if forall|k: int| 0 <= k < i ==> clause_sat(#[trigger] self.clauses@[k].0@, asn) {
            assert(self.undecided_at(asn, i));
        } else {
            let k = choose|k: int| 0 <= k < i && !clause_sat(#[trigger] self.clauses@[k].0@, asn);
            self.lemma_open_clause_means_indeterminate(asn, k);
        }
        self.lemma_outcomes_exclusive(asn);
        let j = choose|j: int| self.undecided_at(asn, j);
        assert forall|j2: int| !self.blocked_at(asn, j2) by {
            if self.blocked_at(asn, j2) {
                assert(!self.undecided_at(asn, j));
            }
        }
    }

    /// Evaluate the formula against a (possibly partial) assignment, clause
    /// by clause, stopping at the first clause that is not satisfied: if that
    /// clause is fully assigned the formula is unsatisfiable, otherwise the
    /// verdict is still open (`None`).
    pub fn is_satisfied(&self, assignments: &Vec<Option<bool>>) -> (r: Option<Satisfiability>)
        requires
            self.lits_in_bound(assignments@.len() as int),
        ensures
            r == Some(Satisfiability::Satisfiable) <==> self.sat_under(assignments@),
            r == Some(Satisfiability::Unsatisfiable) <==> exists|i: int|
                self.blocked_at(assignments@, i),
            r is None <==> exists|i: int| self.undecided_at(assignments@, i),
    {
        proof {
            self.lemma_outcomes_exclusive(assignments@);
        }
        let ghost asn = assignments@;
        let n = assignments.len();
        let mut i: usize = 0;
        while i < self.clauses.len()
            invariant
                self.lits_in_bound(asn.len() as int),
                asn == assignments@,
                n == asn.len(),
                0 <= i <= self.clauses.len(),
                forall|j: int| 0 <= j < i ==> clause_sat(#[trigger] self.clauses@[j].0@, asn),
            decreases self.clauses.len() - i,
        {
            let ghost c = self.clauses@[i as int].0@;
            let num_literals = self.clauses[i].0.len();
            let mut all_assigned = true;
            let mut satisfied = false;
            let mut p: usize = 0;
            while p < num_literals
                invariant_except_break
                    !satisfied,
                    0 <= p <= num_literals,
                    num_literals == c.len(),
                    c == self.clauses@[i as int].0@,
                    0 <= i < self.clauses@.len(),
                    asn == assignments@,
                    n == asn.len(),
                    clause_in_bound(c, asn.len() as int),
                    forall|q: int| 0 <= q < p ==> !lit_true(#[trigger] c[q], asn),
                    all_assigned <==> (forall|q: int|
                        0 <= q < p ==> #[trigger] lit_assigned(c[q], asn)),
                ensures
                    satisfied ==> clause_sat(c, asn),
                    !satisfied ==> p == num_literals && (forall|q: int|
                        0 <= q < c.len() ==> !lit_true(#[trigger] c[q], asn)) && (all_assigned
                        <==> (forall|q: int| 0 <= q < c.len() ==> #[trigger] lit_assigned(c[q], asn))),
                decreases num_literals - p,
            {
                let literal = self.clauses[i].0[p];
                proof {
                    assert(literal == c[p as int]);
                    assert(lit_in_bound(literal, asn.len() as int));
                    assert(literal.variable.0 <= n);
                }
                let index = (literal.variable.0 - 1) as usize;
                proof {
                    assert(index as int == literal.variable.0 - 1);
                }
                match assignments[index] {
                    Some(value) => {
                        if value == literal.polarity {
                            satisfied = true;
                            assert(lit_true(c[p as int], asn));
                            break ;
                        }
                    },
                    None => {
                        all_assigned = false;
                        assert(!lit_assigned(c[p as int], asn));
                    },
                }
                p = p + 1;
            }
            if !satisfied {
                proof {
                    self.lemma_outcomes_exclusive(asn);
                }
                if all_assigned {
                    assert forall|q: int| 0 <= q < c.len() implies #[trigger] lit_false(
                        c[q],
                        asn,
                    ) by {
                        assert(lit_assigned(c[q], asn));
                        assert(!lit_true(c[q], asn));
                        let v = asn[c[q].variable.0 - 1];
                        match v {
                            Some(b) => {
                                assert(b != c[q].polarity);
                                assert(b == !c[q].polarity);
                            },
                            None => {
                                assert(false);
                            },
                        }
                    }
                    assert(self.blocked_at(asn, i as int));
                    return Some(Satisfiability::Unsatisfiable);
                } else {
                    assert(clause_undecided(c, asn));
                    assert(self.undecided_at(asn, i as int));
                    assert forall|k: int| !self.blocked_at(asn, k) by {
                        if self.blocked_at(asn, k) {
                            assert(!self.undecided_at(asn, i as int));
                        }
                    }
                    return None;
                }
            }
            i = i + 1;
        }
        assert(self.sat_under(asn));
        Some(Satisfiability::Satisfiable)
    }

    /// Collect the forced literal of every clause that is a unit under the
    /// assignment: not yet satisfied and with exactly one unassigned
    /// literal. Literals come in clause order, without deduplication; the
    /// same variable may be forced more than once, possibly with opposite
    /// polarities.
    pub fn get_unit_clauses(&self, assignments: &Vec<Option<bool>>) -> (r: Vec<Literal>)
        requires
            self.lits_in_bound(assignments@.len() as int),
        ensures
            r@ == spec_unit_literals(self.clause_seq(), assignments@),
            forall|k: int|
                0 <= k < r@.len() ==> !lit_assigned(#[trigger] r@[k], assignments@)
                    && lit_in_bound(r@[k], assignments@.len() as int),
            forall|k: int|
                0 <= k < r@.len() ==> self.unit_source_in(#[trigger] r@[k], assignments@),
    {
        let ghost asn = assignments@;
        let ghost cv = self.clause_seq();
        let n = assignments.len();
        let mut unit_clauses: Vec<Literal> = Vec::new();
        let mut i: usize = 0;
        while i < self.clauses.len()
            invariant
                self.lits_in_bound(asn.len() as int),
                asn == assignments@,
                n == asn.len(),
                cv == self.clause_seq(),
                cv.len() == self.clauses@.len(),
                0 <= i <= self.clauses.len(),
                unit_clauses@ == spec_unit_literals(cv.take(i as int), asn),
                forall|k: int|
                    0 <= k < unit_clauses@.len() ==> !lit_assigned(
                        #[trigger] unit_clauses@[k],
                        asn,
                    ) && lit_in_bound(unit_clauses@[k], asn.len() as int),
                forall|k: int|
                    0 <= k < unit_clauses@.len() ==> self.unit_source_in(
                        #[trigger] unit_clauses@[k],
                        asn,
                    ),
            decreases self.clauses.len() - i,
        {
            let ghost c = self.clauses@[i as int].0@;
            proof {
                assert(cv[i as int] == c);
            }
            let num_literals = self.clauses[i].0.len();
            let mut satisfied = false;
            let mut ucount: usize = 0;
            let mut upos: usize = 0;
            let mut p: usize = 0;
            while p < num_literals
                invariant_except_break
                    !satisfied,
                    0 <= p <= num_literals,
                    num_literals == c.len(),
                    c == self.clauses@[i as int].0@,
                    0 <= i < self.clauses@.len(),
                    asn == assignments@,
                    n == asn.len(),
                    clause_in_bound(c, asn.len() as int),
                    forall|q: int| 0 <= q < p ==> !lit_true(#[trigger] c[q], asn),
                    ucount as nat == unassigned_count(c.take(p as int), asn),
                    ucount <= p,
                    ucount >= 1 ==> 0 <= upos < p && !lit_assigned(c[upos as int], asn),
                ensures
                    satisfied ==> clause_sat(c, asn),
                    !satisfied ==> p == num_literals && (forall|q: int|
                        0 <= q < p ==> !lit_true(#[trigger] c[q], asn)) && ucount as nat
                        == unassigned_count(c.take(p as int), asn) && (ucount >= 1 ==> 0 <= upos < p
                        && !lit_assigned(c[upos as int], asn)),
                decreases num_literals - p,
            {
                let literal = self.clauses[i].0[p];
                proof {
                    assert(literal == c[p as int]);
                    assert(lit_in_bound(literal, asn.len() as int));
                    assert(literal.variable.0 <= n);
                    assert(c.take(p as int + 1).drop_last() =~= c.take(p as int));
                    assert(c.take(p as int + 1).last() == c[p as int]);
                }
                let index = (literal.variable.0 - 1) as usize;
                match assignments[index] {
                    None => {
                        assert(!lit_assigned(c[p as int], asn));
                        ucount = ucount + 1;
                        upos = p;
                    },
                    Some(value) => {
                        if value == literal.polarity {
                            satisfied = true;
                            assert(lit_true(c[p as int], asn));
                            break ;
                        }
                        assert(lit_assigned(c[p as int], asn));
                    },
                }
                p = p + 1;
            }
            proof {
                assert(c.take(c.len() as int) =~= c);
                if !satisfied {
                    assert(!clause_sat(c, asn));
                    assert(ucount as nat == unassigned_count(c, asn));
                }
                assert(cv.take(i as int + 1).drop_last() =~= cv.take(i as int));
                assert(cv.take(i as int + 1).last() == cv[i as int]);
            }
            if !satisfied && ucount == 1 {
                let forced = self.clauses[i].0[upos];
                proof {
                    assert(clause_is_unit(c, asn));
                    assert(forced == c[upos as int]);
                    assert(0 <= upos < c.len() && !lit_assigned(c[upos as int], asn));
                    let q = choose|q: int| 0 <= q < c.len() && !lit_assigned(c[q], asn);
                    lemma_count_one_unique(c, asn, q, upos as int);
                    assert(forced == unit_literal_of(c, asn));
                    assert(lit_in_bound(forced, asn.len() as int));
                }
                let ghost previous = unit_clauses@;
                unit_clauses.push(forced);
                proof {
                    assert(unit_clauses@ =~= spec_unit_literals(cv.take(i as int + 1), asn));
                    assert(clause_is_unit(self.clauses@[i as int].0@, asn));
                    assert(self.unit_source_in(forced, asn));
                    assert forall|k: int|
                        0 <= k < unit_clauses@.len() implies self.unit_source_in(
                        #[trigger] unit_clauses@[k],
                        asn,
                    ) by {
                        if k < previous.len() {
                            assert(unit_clauses@[k] == previous[k]);
                        } else {
                            assert(unit_clauses@[k] == forced);
                        }
                    }
                }
            } else {
                proof {
                    assert(!clause_is_unit(c, asn));
                    assert(unit_clauses@ =~= spec_unit_literals(cv.take(i as int + 1), asn));
                }
            }
            i = i + 1;
        }
        proof {
            assert(cv.take(self.clauses@.len() as int) =~= cv);
        }
        unit_clauses
    }
}

} // verus!
