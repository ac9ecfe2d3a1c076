//! The recursive DPLL search: evaluate, propagate units, branch on the
//! lowest unassigned variable, and backtrack by undoing exactly the
//! assignments made at the current depth.

use vstd::prelude::*;

use crate::{
    clause_in_bound, clause_is_unit, clause_sat, lemma_count_one_unique, lit_assigned, lit_false,
    lit_in_bound, lit_true, unit_literal_of, Cnf, Literal, Satisfiability,
};

verus! {

/// `t` agrees with `s` on every variable that `s` assigns.
pub open spec fn extends(t: Seq<Option<bool>>, s: Seq<Option<bool>>) -> bool {
    t.len() == s.len() && forall|i: int|
        0 <= i < s.len() && (#[trigger] s[i]) is Some ==> t[i] == s[i]
}

/// Every variable carries an assignment.
pub open spec fn is_total(t: Seq<Option<bool>>) -> bool {
    forall|i: int| 0 <= i < t.len() ==> (#[trigger] t[i]) is Some
}

/// Some total assignment extending `s` satisfies the formula.
pub open spec fn sat_extension_exists(cnf: Cnf, s: Seq<Option<bool>>) -> bool {
    exists|t: Seq<Option<bool>>| extends(t, s) && is_total(t) && #[trigger] cnf.sat_under(t)
}

/// How many variables are still unassigned.
pub open spec fn count_unassigned_vars(s: Seq<Option<bool>>) -> nat
    decreases s.len(),
{
    if s.len() == 0 {
        0
    } else {
        count_unassigned_vars(s.drop_last()) + (if s.last() is Some {
            0nat
        } else {
            1nat
        })
    }
}

/// Assigning an unassigned variable lowers the unassigned count by one.
proof fn lemma_count_update(s: Seq<Option<bool>>, i: int, b: bool)
    requires
        0 <= i < s.len(),
        s[i] is None,
    ensures
        count_unassigned_vars(s.update(i, Some(b))) + 1 == count_unassigned_vars(s),
    decreases s.len(),
{
    let s2 = s.update(i, Some(b));
    if i == s.len() - 1 {
        assert(s2.drop_last() =~= s.drop_last());
    } else {
        assert(s2.drop_last() =~= s.drop_last().update(i, Some(b)));
        assert(s.drop_last()[i] == s[i]);
        lemma_count_update(s.drop_last(), i, b);
        assert(s2.last() == s.last());
    }
}

/// Extension is transitive.
pub proof fn lemma_extends_trans(
    a: Seq<Option<bool>>,
    b: Seq<Option<bool>>,
    c: Seq<Option<bool>>,
)
    requires
        extends(a, b),
        extends(b, c),
    ensures
        extends(a, c),
{
    assert forall|i: int| 0 <= i < c.len() && (#[trigger] c[i]) is Some implies a[i] == c[i] by {
        assert(b[i] == c[i]);
        assert(a[i] == b[i]);
    }
}

/// A satisfied formula stays satisfied under any extension of the
/// assignment.
pub proof fn lemma_sat_under_extends(cnf: Cnf, s: Seq<Option<bool>>, t: Seq<Option<bool>>)
    requires
        cnf.sat_under(s),
        extends(t, s),
        cnf.lits_in_bound(s.len() as int),
    ensures
        cnf.sat_under(t),
{
    assert forall|i: int| 0 <= i < cnf.clauses@.len() implies clause_sat(
        #[trigger] cnf.clauses@[i].0@,
        t,
    ) by {
        let c = cnf.clauses@[i].0@;
        assert(clause_sat(c, s));
        let p = choose|p: int| 0 <= p < c.len() && #[trigger] lit_true(c[p], s);
        assert(lit_in_bound(c[p], s.len() as int));
        assert(t[c[p].variable.0 - 1] == s[c[p].variable.0 - 1]);
        assert(lit_true(c[p], t));
    }
}

/// In a unit clause, any satisfying total extension must make the one
/// unassigned literal true.
pub proof fn lemma_unit_forced(c: Seq<Literal>, s: Seq<Option<bool>>, t: Seq<Option<bool>>)
    requires
        clause_is_unit(c, s),
        extends(t, s),
        clause_sat(c, t),
        clause_in_bound(c, s.len() as int),
    ensures
        lit_true(unit_literal_of(c, s), t),
{
    let p = choose|p: int| 0 <= p < c.len() && #[trigger] lit_true(c[p], t);
    assert(lit_in_bound(c[p], s.len() as int));
    if lit_assigned(c[p], s) {
        assert(!lit_true(c[p], s));
        assert(t[c[p].variable.0 - 1] == s[c[p].variable.0 - 1]);
        assert(false);
    }
    let q = choose|q: int| 0 <= q < c.len() && !lit_assigned(c[q], s);
    lemma_count_one_unique(c, s, p, q);
    assert(unit_literal_of(c, s) == c[p]);
}

/// `s` with every unassigned variable set to `true`.
pub open spec fn fill_true(s: Seq<Option<bool>>) -> Seq<Option<bool>> {
    Seq::new(
        s.len(),
        |i: int|
            if s[i] is Some {
                s[i]
            } else {
                Some(true)
            },
    )
}

/// Filling the unassigned variables yields a total extension.
pub proof fn lemma_fill_true(s: Seq<Option<bool>>)
    ensures
        extends(fill_true(s), s),
        is_total(fill_true(s)),
{
}

/// Some total assignment over the declared variables satisfies the
/// formula.
pub open spec fn satisfiable(cnf: Cnf) -> bool {
    exists|t: Seq<Option<bool>>|
        t.len() == cnf.num_variables && is_total(t) && #[trigger] cnf.sat_under(t)
}

/// On a fully unassigned vector, the verdict pinned by `solve` is plain
/// satisfiability: some total assignment over the declared variables
/// satisfies the formula. Together with the contract of `solve`, this makes
/// the solver's answer a function of the formula alone: deterministic, and
/// in agreement with exhaustive enumeration of all total assignments.
pub proof fn lemma_fresh_verdict_is_satisfiability(cnf: Cnf, s: Seq<Option<bool>>)
    requires
        s.len() == cnf.num_variables,
        forall|i: int| 0 <= i < s.len() ==> (#[trigger] s[i]) is None,
    ensures
        sat_extension_exists(cnf, s) <==> satisfiable(cnf),
{
    if sat_extension_exists(cnf, s) {
        let t = choose|t: Seq<Option<bool>>|
            extends(t, s) && is_total(t) && #[trigger] cnf.sat_under(t);
        assert(t.len() == cnf.num_variables && is_total(t) && cnf.sat_under(t));
    }
    if satisfiable(cnf) {
        let t = choose|t: Seq<Option<bool>>|
            t.len() == cnf.num_variables && is_total(t) && #[trigger] cnf.sat_under(t);
        assert(extends(t, s));
    }
}

/// The DPLL engine: a formula together with the one shared assignment
/// vector that the recursive search mutates and restores.
pub struct MinosSolver {
    pub cnf: Cnf,
    pub assignments: Vec<Option<bool>>,
}

impl MinosSolver {
    /// The assignment vector has one slot per declared variable and every
    /// literal of the formula stays within it.
    pub open spec fn wf(self) -> bool {
        self.cnf.wf() && self.assignments@.len() == self.cnf.num_variables
    }

    /// Build a solver with a fresh, fully unassigned assignment vector.
    pub fn from_cnf(cnf: Cnf) -> (r: Self)
        requires
            cnf.wf(),
            cnf.num_variables <= usize::MAX,
        ensures
            r.wf(),
            r.cnf == cnf,
            forall|i: int| 0 <= i < r.assignments@.len() ==> (#[trigger] r.assignments@[i]) is None,
    {
        let num_variables = cnf.num_variables as usize;
        let mut assignments: Vec<Option<bool>> = Vec::new();
        let mut i: usize = 0;
        while i < num_variables
            invariant
                0 <= i <= num_variables,
                assignments@.len() == i,
                forall|j: int| 0 <= j < i ==> (#[trigger] assignments@[j]) is None,
            decreases num_variables - i,
        {
            assignments.push(None);
            i = i + 1;
        }
        Self { cnf, assignments }
    }

    /// Look up the current assignment of the literal's variable.
    pub fn get_assignment(&self, literal: &Literal) -> (r: Option<bool>)
        requires
            lit_in_bound(*literal, self.assignments@.len() as int),
        ensures
            r == self.assignments@[literal.variable.0 - 1],
    {
        let n = self.assignments.len();
        proof {
            assert(literal.variable.0 <= n);
        }
        let assignment = self.assignments[(literal.variable.0 - 1) as usize];
        return assignment;
    }

    /// Unset the variable of every given literal. Used by backtracking to
    /// undo exactly the unit propagations of the current search depth.
    fn unset_units(&mut self, units: &Vec<Literal>)
        requires
            forall|k: int|
                0 <= k < units@.len() ==> lit_in_bound(
                    #[trigger] units@[k],
                    old(self).assignments@.len() as int,
                ),
        ensures
            final(self).cnf == old(self).cnf,
            final(self).assignments@.len() == old(self).assignments@.len(),
            forall|i: int|
                0 <= i < final(self).assignments@.len() ==> final(self).assignments@[i] == (
                if exists|k: int|
                    0 <= k < units@.len() && (#[trigger] units@[k]).variable.0 - 1 == i {
                    None::<bool>
                } else {
                    old(self).assignments@[i]
                }),
    {
        let ghost orig = self.assignments@;
        let ghost orig_cnf = self.cnf;
        let n = self.assignments.len();
        let mut k: usize = 0;
        while k < units.len()
            invariant
                self.cnf == orig_cnf,
                n == orig.len(),
                self.assignments@.len() == orig.len(),
                forall|k2: int|
                    0 <= k2 < units@.len() ==> lit_in_bound(#[trigger] units@[k2], orig.len() as int),
                0 <= k <= units@.len(),
                forall|i: int|
                    0 <= i < orig.len() ==> self.assignments@[i] == (if exists|k2: int|
                        0 <= k2 < k && (#[trigger] units@[k2]).variable.0 - 1 == i {
                        None::<bool>
                    } else {
                        orig[i]
                    }),
            decreases units.len() - k,
        {
            let literal = units[k];
            proof {
                assert(lit_in_bound(units@[k as int], orig.len() as int));
                assert(literal.variable.0 <= n);
            }
            let index = (literal.variable.0 - 1) as usize;
            proof {
                assert(index as int == literal.variable.0 - 1);
            }
            let ghost before = self.assignments@;
            self.assignments.set(index, None);
            proof {
                assert forall|i: int| 0 <= i < orig.len() implies self.assignments@[i] == (
                if exists|k2: int|
                    0 <= k2 < k + 1 && (#[trigger] units@[k2]).variable.0 - 1 == i {
                    None::<bool>
                } else {
                    orig[i]
                }) by {
                    if i == index {
                        assert(0 <= k < k + 1 && units@[k as int].variable.0 - 1 == i);
                    } else {
                        assert(self.assignments@[i] == before[i]);
                        if exists|k2: int|
                            0 <= k2 < k + 1 && (#[trigger] units@[k2]).variable.0 - 1 == i {
                            let k2 = choose|k2: int|
                                0 <= k2 < k + 1 && (#[trigger] units@[k2]).variable.0 - 1 == i;
                            assert(k2 != k);
                            assert(0 <= k2 < k && units@[k2].variable.0 - 1 == i);
                        }
                    }
                }
            }
            k = k + 1;
        }
    }

    /// Run the DPLL search from the current assignment. The verdict is
    /// exact: `Satisfiable` if and only if some total extension of the
    /// starting assignment satisfies the formula.
    pub fn solve(&mut self) -> (r: Satisfiability)
        requires
            old(self).wf(),
        ensures
            final(self).wf(),
            final(self).cnf == old(self).cnf,
            r == Satisfiability::Satisfiable <==> sat_extension_exists(
                old(self).cnf,
                old(self).assignments@,
            ),
            r == Satisfiability::Satisfiable ==> old(self).cnf.sat_under(final(self).assignments@)
                && extends(final(self).assignments@, old(self).assignments@),
            r == Satisfiability::Unsatisfiable ==> final(self).assignments@ == old(
                self,
            ).assignments@,
    {
        let ghost a0 = self.assignments@;
        let ghost cnf0 = self.cnf;
        let r = self.dpll();
        proof {
            match r {
                Satisfiability::Satisfiable => {
                    let t = fill_true(self.assignments@);
                    lemma_fill_true(self.assignments@);
                    lemma_sat_under_extends(cnf0, self.assignments@, t);
                    lemma_extends_trans(t, self.assignments@, a0);
                    assert(sat_extension_exists(cnf0, a0));
                },
                Satisfiability::Unsatisfiable => {
                },
            }
        }
        r
    }

    /// One level of the recursive search: evaluate, apply unit implications,
    /// branch on the lowest unassigned variable, and restore the assignment
    /// before returning an unsatisfiable verdict. A satisfiable verdict
    /// leaves the satisfying assignment in place.
    fn dpll(&mut self) -> (r: Satisfiability)
        requires
            old(self).wf(),
        ensures
            final(self).wf(),
            final(self).cnf == old(self).cnf,
            r == Satisfiability::Satisfiable ==> old(self).cnf.sat_under(final(self).assignments@)
                && extends(final(self).assignments@, old(self).assignments@),
            r == Satisfiability::Unsatisfiable ==> final(self).assignments@ == old(
                self,
            ).assignments@ && !sat_extension_exists(old(self).cnf, old(self).assignments@),
        decreases count_unassigned_vars(self.assignments@),
    {
        let ghost a0 = self.assignments@;
        let ghost cnf0 = self.cnf;
        let ghost n = a0.len();
        proof {
            assert(cnf0.lits_in_bound(n as int));
        }
        match self.cnf.is_satisfied(&self.assignments) {
            Some(Satisfiability::Satisfiable) => {
                return Satisfiability::Satisfiable;
            },
            Some(Satisfiability::Unsatisfiable) => {
                proof {
                    let i = choose|i: int| cnf0.blocked_at(a0, i);
                    assert forall|t: Seq<Option<bool>>|
                        extends(t, a0) && is_total(t) implies !cnf0.sat_under(t) by {
                        if cnf0.sat_under(t) {
                            let c = cnf0.clauses@[i].0@;
                            assert(clause_sat(c, t));
                            let p = choose|p: int| 0 <= p < c.len() && #[trigger] lit_true(c[p], t);
                            assert(lit_false(c[p], a0));
                            assert(lit_in_bound(c[p], n as int));
                            assert(t[c[p].variable.0 - 1] == a0[c[p].variable.0 - 1]);
                            assert(false);
                        }
                    }
                }
                return Satisfiability::Unsatisfiable;
            },
            None => {},
        }
        let unit_propagations = self.cnf.get_unit_clauses(&self.assignments);
        let ghost units = unit_propagations@;
        let num_vars = self.assignments.len();
        let mut k: usize = 0;
        while k < unit_propagations.len()
            invariant
                self.cnf == cnf0,
                cnf0 == old(self).cnf,
                a0 == old(self).assignments@,
                cnf0.wf(),
                cnf0.lits_in_bound(n as int),
                self.assignments@.len() == n,
                n == cnf0.num_variables,
                num_vars == n,
                units == unit_propagations@,
                0 <= k <= units.len(),
                forall|k2: int|
                    0 <= k2 < units.len() ==> !lit_assigned(#[trigger] units[k2], a0)
                        && lit_in_bound(units[k2], n as int),
                forall|k2: int|
                    0 <= k2 < units.len() ==> cnf0.unit_source_in(#[trigger] units[k2], a0),
                extends(self.assignments@, a0),
                count_unassigned_vars(self.assignments@) <= count_unassigned_vars(a0),
                forall|i: int|
                    0 <= i < n && self.assignments@[i] != a0[i] ==> exists|k2: int|
                        0 <= k2 < units.len() && (#[trigger] units[k2]).variable.0 - 1 == i,
                forall|t: Seq<Option<bool>>|
                    extends(t, a0) && is_total(t) && #[trigger] cnf0.sat_under(t) ==> extends(
                        t,
                        self.assignments@,
                    ),
            decreases units.len() - k,
        {
            let literal = unit_propagations[k];
            proof {
                assert(lit_in_bound(units[k as int], n as int));
                assert(literal.variable.0 <= num_vars);
            }
            let index = (literal.variable.0 - 1) as usize;
            proof {
                assert(index as int == literal.variable.0 - 1);
            }
            match self.assignments[index] {
                Some(assignment) => {
                    if assignment != literal.polarity {
                        proof {
                            assert forall|t: Seq<Option<bool>>|
                                extends(t, a0) && is_total(t) implies !cnf0.sat_under(t) by {
                                if cnf0.sat_under(t) {
                                    assert(cnf0.unit_source_in(literal, a0));
                                    let j = choose|j: int|
                                        0 <= j < cnf0.clauses@.len() && clause_is_unit(
                                            #[trigger] cnf0.clauses@[j].0@,
                                            a0,
                                        ) && literal == unit_literal_of(cnf0.clauses@[j].0@, a0);
                                    let c = cnf0.clauses@[j].0@;
                                    assert(clause_sat(c, t));
                                    lemma_unit_forced(c, a0, t);
                                    assert(t[index as int] == Some(literal.polarity));
                                    assert(extends(t, self.assignments@));
                                    assert(self.assignments@[index as int] == Some(assignment));
                                    assert(t[index as int] == Some(assignment));
                                    assert(false);
                                }
                            }
                        }
                        let ghost before_restore = self.assignments@;
                        self.unset_units(&unit_propagations);
                        proof {
                            assert forall|i: int| 0 <= i < n implies self.assignments@[i]
                                == a0[i] by {
                                if exists|k2: int|
                                    0 <= k2 < units.len() && (#[trigger] units[k2]).variable.0 - 1
                                        == i {
                                    let k2 = choose|k2: int|
                                        0 <= k2 < units.len() && (#[trigger] units[k2]).variable.0
                                            - 1 == i;
                                    assert(!lit_assigned(units[k2], a0));
                                    assert(a0[i] is None);
                                    assert(self.assignments@[i] == None::<bool>);
                                } else {
                                    assert(self.assignments@[i] == before_restore[i]);
                                    assert(before_restore[i] == a0[i]);
                                }
                            }
                            assert(self.assignments@ =~= a0);
                        }
                        return Satisfiability::Unsatisfiable;
                    }
                },
                None => {
                    let ghost before = self.assignments@;
                    self.assignments.set(index, Some(literal.polarity));
                    proof {
                        lemma_count_update(before, index as int, literal.polarity);
                        assert forall|t: Seq<Option<bool>>|
                            extends(t, a0) && is_total(t) && #[trigger] cnf0.sat_under(t) implies
                            extends(t, self.assignments@) by {
                            assert(extends(t, before));
                            assert(cnf0.unit_source_in(literal, a0));
                            let j = choose|j: int|
                                0 <= j < cnf0.clauses@.len() && clause_is_unit(
                                    #[trigger] cnf0.clauses@[j].0@,
                                    a0,
                                ) && literal == unit_literal_of(cnf0.clauses@[j].0@, a0);
                            let c = cnf0.clauses@[j].0@;
                            assert(clause_sat(c, t));
                            lemma_unit_forced(c, a0, t);
                            assert(t[index as int] == Some(literal.polarity));
                            assert forall|i: int|
                                0 <= i < self.assignments@.len() && (#[trigger] self.assignments@[i]) is Some implies t[i]
                                == self.assignments@[i] by {
                                if i != index {
                                    assert(self.assignments@[i] == before[i]);
                                }
                            }
                        }
                        assert forall|i: int|
                            0 <= i < n && self.assignments@[i] != a0[i] implies exists|k2: int|
                            0 <= k2 < units.len() && (#[trigger] units[k2]).variable.0 - 1
                                == i by {
                            if i != index {
                                assert(before[i] != a0[i]);
                            } else {
                                assert(0 <= k < units.len() && units[k as int].variable.0 - 1
                                    == i);
                            }
                        }
                    }
                },
            }
            k = k + 1;
        }
        let ghost a1 = self.assignments@;
        let mut idx: usize = 0;
        let mut found = false;
        while idx < num_vars
            invariant_except_break
                !found,
                0 <= idx <= num_vars,
                num_vars == self.assignments@.len(),
                self.assignments@ == a1,
                self.cnf == cnf0,
                forall|j: int| 0 <= j < idx ==> (#[trigger] a1[j]) is Some,
            ensures
                self.assignments@ == a1,
                self.cnf == cnf0,
                found ==> 0 <= idx < num_vars && a1[idx as int] is None,
                !found ==> idx == num_vars && (forall|j: int|
                    0 <= j < num_vars ==> (#[trigger] a1[j]) is Some),
            decreases num_vars - idx,
        {
            match self.assignments[idx] {
                None => {
                    found = true;
                    break ;
                },
                Some(_) => {},
            }
            idx = idx + 1;
        }
        if !found {
            proof {
                assert(is_total(a1));
            }
            match self.cnf.is_satisfied(&self.assignments) {
                Some(Satisfiability::Satisfiable) => {
                    return Satisfiability::Satisfiable;
                },
                Some(Satisfiability::Unsatisfiable) => {
                    proof {
                        let i = choose|i: int| cnf0.blocked_at(a1, i);
                        assert forall|t: Seq<Option<bool>>|
                            extends(t, a0) && is_total(t) implies !cnf0.sat_under(t) by {
                            if cnf0.sat_under(t) {
                                assert(extends(t, a1));
                                assert forall|i2: int| 0 <= i2 < n implies t[i2] == a1[i2] by {
                                    assert(a1[i2] is Some);
                                }
                                assert(t =~= a1);
                                let c = cnf0.clauses@[i].0@;
                                assert(clause_sat(c, a1));
                                let p = choose|p: int|
                                    0 <= p < c.len() && #[trigger] lit_true(c[p], a1);
                                assert(lit_false(c[p], a1));
                                assert(false);
                            }
                        }
                    }
                    let ghost before_restore = self.assignments@;
                    self.unset_units(&unit_propagations);
                    proof {
                        assert forall|i: int| 0 <= i < n implies self.assignments@[i] == a0[i] by {
                            if exists|k2: int|
                                0 <= k2 < units.len() && (#[trigger] units[k2]).variable.0 - 1
                                    == i {
                                let k2 = choose|k2: int|
                                    0 <= k2 < units.len() && (#[trigger] units[k2]).variable.0 - 1
                                        == i;
                                assert(!lit_assigned(units[k2], a0));
                                assert(a0[i] is None);
                                assert(self.assignments@[i] == None::<bool>);
                            } else {
                                assert(self.assignments@[i] == before_restore[i]);
                                assert(before_restore[i] == a0[i]);
                            }
                        }
                        assert(self.assignments@ =~= a0);
                    }
                    return Satisfiability::Unsatisfiable;
                },
                None => {
                    proof {
                        let i = choose|i: int| cnf0.undecided_at(a1, i);
                        let c = cnf0.clauses@[i].0@;
                        let p = choose|p: int|
                            0 <= p < c.len() && !(#[trigger] lit_assigned(c[p], a1));
                        assert(lit_in_bound(c[p], n as int));
                        assert(a1[c[p].variable.0 - 1] is Some);
                        assert(false);
                    }
                    return vstd::pervasive::unreached();
                },
            }
        }
        proof {
            assert(a1[idx as int] is None);
            lemma_count_update(a1, idx as int, true);
        }
        self.assignments.set(idx, Some(true));
        let ghost a_true = self.assignments@;
        let true_branch = self.dpll();
        match true_branch {
            Satisfiability::Satisfiable => {
                proof {
                    assert(extends(self.assignments@, a_true));
                    assert(extends(a_true, a1)) by {
                        assert forall|i: int|
                            0 <= i < a1.len() && (#[trigger] a1[i]) is Some implies a_true[i]
                            == a1[i] by {}
                    }
                    lemma_extends_trans(self.assignments@, a_true, a1);
                    lemma_extends_trans(self.assignments@, a1, a0);
                }
                return Satisfiability::Satisfiable;
            },
            Satisfiability::Unsatisfiable => {},
        }
        proof {
            assert(self.assignments@ == a_true);
            assert(a_true.update(idx as int, Some(false)) =~= a1.update(idx as int, Some(false)));
            lemma_count_update(a1, idx as int, false);
        }
        self.assignments.set(idx, Some(false));
        let ghost a_false = self.assignments@;
        let false_branch = self.dpll();
        match false_branch {
            Satisfiability::Satisfiable => {
                proof {
                    assert(extends(self.assignments@, a_false));
                    assert(extends(a_false, a1)) by {
                        assert forall|i: int|
                            0 <= i < a1.len() && (#[trigger] a1[i]) is Some implies a_false[i]
                            == a1[i] by {}
                    }
                    lemma_extends_trans(self.assignments@, a_false, a1);
                    lemma_extends_trans(self.assignments@, a1, a0);
                }
                return Satisfiability::Satisfiable;
            },
            Satisfiability::Unsatisfiable => {},
        }
        proof {
            assert(self.assignments@ == a_false);
            assert forall|t: Seq<Option<bool>>|
                extends(t, a0) && is_total(t) implies !cnf0.sat_under(t) by {
                if cnf0.sat_under(t) {
                    assert(extends(t, a1));
                    assert(0 <= idx < t.len());
                    assert(t[idx as int] is Some);
                    if t[idx as int] == Some(true) {
                        assert(extends(t, a_true)) by {
                            assert forall|i: int|
                                0 <= i < a_true.len() && (#[trigger] a_true[i]) is Some implies
                                t[i] == a_true[i] by {
                                if i != idx {
                                    assert(a_true[i] == a1[i]);
                                }
                            }
                        }
                        assert(!sat_extension_exists(cnf0, a_true));
                        assert(false);
                    } else {
                        assert(t[idx as int] == Some(false));
                        assert(extends(t, a_false)) by {
                            assert forall|i: int|
                                0 <= i < a_false.len() && (#[trigger] a_false[i]) is Some implies
                                t[i] == a_false[i] by {
                                if i != idx {
                                    assert(a_false[i] == a1[i]);
                                }
                            }
                        }
                        assert(!sat_extension_exists(cnf0, a_false));
                        assert(false);
                    }
                }
            }
        }
        self.assignments.set(idx, None);
        proof {
            assert(self.assignments@ =~= a1);
        }
        let ghost before_restore = self.assignments@;
        self.unset_units(&unit_propagations);
        proof {
            assert forall|i: int| 0 <= i < n implies self.assignments@[i] == a0[i] by {
                if exists|k2: int|
                    0 <= k2 < units.len() && (#[trigger] units[k2]).variable.0 - 1 == i {
                    let k2 = choose|k2: int|
                        0 <= k2 < units.len() && (#[trigger] units[k2]).variable.0 - 1 == i;
                    assert(!lit_assigned(units[k2], a0));
                    assert(a0[i] is None);
                    assert(self.assignments@[i] == None::<bool>);
                } else {
                    assert(self.assignments@[i] == before_restore[i]);
                    assert(before_restore[i] == a0[i]);
                }
            }
            assert(self.assignments@ =~= a0);
        }
        return Satisfiability::Unsatisfiable;
    }
}

} // verus!
