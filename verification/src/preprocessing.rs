//! One-shot static simplification: variables forced by unit clauses of the
//! original formula are eliminated before the search begins. A contradictory
//! pair of unit clauses is detected here and short-circuits to a trivially
//! unsatisfiable formula.

use vstd::prelude::*;

use crate::solver::{is_total, satisfiable};
use crate::{
    clause_in_bound, clause_sat, lit_assigned, lit_in_bound, lit_true, Clause, Cnf, Literal,
};

verus! {

/// Some clause among the first `i` is a unit clause forcing variable slot
/// `v` (zero-based) to polarity `b`.
pub open spec fn forces_upto(cnf: Cnf, i: int, v: int, b: bool) -> bool {
    exists|j: int|
        0 <= j < i && (#[trigger] cnf.clauses@[j].0@).len() == 1
            && cnf.clauses@[j].0@[0].variable.0 - 1 == v && cnf.clauses@[j].0@[0].polarity == b
}

/// Some unit clause of the formula forces variable slot `v` to polarity
/// `b`.
pub open spec fn forces(cnf: Cnf, v: int, b: bool) -> bool {
    forces_upto(cnf, cnf.clauses@.len() as int, v, b)
}

/// Two unit clauses force the same variable to opposite polarities.
pub open spec fn has_unit_conflict(cnf: Cnf) -> bool {
    exists|v: int| #[trigger] forces(cnf, v, true) && forces(cnf, v, false)
}

/// The forced-value mapping of the formula, one slot per variable. Only
/// meaningful when the formula has no unit conflict.
pub open spec fn forced_map(cnf: Cnf) -> Seq<Option<bool>> {
    Seq::new(
        cnf.num_variables as nat,
        |v: int|
            if forces(cnf, v, true) || forces(cnf, v, false) {
                Some(forces(cnf, v, true))
            } else {
                None
            },
    )
}

/// The literals of the clause whose variable has no forced value, in
/// order: a literal forced to the opposite polarity is dropped.
pub open spec fn kept_lits(c: Seq<Literal>, m: Seq<Option<bool>>) -> Seq<Literal>
    decreases c.len(),
{
    if c.len() == 0 {
        Seq::empty()
    } else {
        kept_lits(c.drop_last(), m) + (if lit_assigned(c.last(), m) {
            Seq::<Literal>::empty()
        } else {
            seq![c.last()]
        })
    }
}

/// The clause list after simplification under the forced-value mapping: a
/// clause with a literal forced to its own polarity is dropped entirely;
/// every other clause keeps exactly its unforced literals.
pub open spec fn rebuilt_clauses(cs: Seq<Seq<Literal>>, m: Seq<Option<bool>>) -> Seq<Seq<Literal>>
    decreases cs.len(),
{
    if cs.len() == 0 {
        Seq::empty()
    } else {
        rebuilt_clauses(cs.drop_last(), m) + (if clause_sat(cs.last(), m) {
            Seq::<Seq<Literal>>::empty()
        } else {
            seq![kept_lits(cs.last(), m)]
        })
    }
}

/// What preprocessing promises: the variable count is kept; a unit
/// conflict yields a single empty clause; otherwise the clause list is
/// rebuilt under the forced-value mapping.
pub open spec fn preprocessed_form(cnf: Cnf, r: Cnf) -> bool {
    &&& r.num_variables == cnf.num_variables
    &&& (has_unit_conflict(cnf) ==> r.clauses@.len() == 1 && r.clauses@[0].0@.len() == 0)
    &&& (!has_unit_conflict(cnf) ==> r.clause_seq() == rebuilt_clauses(
        cnf.clause_seq(),
        forced_map(cnf),
    ))
}

/// Extending the clause prefix by one step adds exactly that clause's
/// forcing, if it is a unit clause.
proof fn lemma_forces_step(cnf: Cnf, i: int)
    requires
        0 <= i < cnf.clauses@.len(),
    ensures
        forall|v: int, b: bool|
            #![trigger forces_upto(cnf, i + 1, v, b)]
            forces_upto(cnf, i + 1, v, b) <==> (forces_upto(cnf, i, v, b) || (
            cnf.clauses@[i].0@.len() == 1 && cnf.clauses@[i].0@[0].variable.0 - 1 == v
                && cnf.clauses@[i].0@[0].polarity == b)),
{
    assert forall|v: int, b: bool|
        #![trigger forces_upto(cnf, i + 1, v, b)]
        forces_upto(cnf, i + 1, v, b) <==> (forces_upto(cnf, i, v, b) || (cnf.clauses@[i].0@.len()
            == 1 && cnf.clauses@[i].0@[0].variable.0 - 1 == v && cnf.clauses@[i].0@[0].polarity
            == b)) by {
        if forces_upto(cnf, i + 1, v, b) {
            let j = choose|j: int|
                0 <= j < i + 1 && (#[trigger] cnf.clauses@[j].0@).len() == 1
                    && cnf.clauses@[j].0@[0].variable.0 - 1 == v && cnf.clauses@[j].0@[0].polarity
                    == b;
            if j < i {
                assert(forces_upto(cnf, i, v, b));
            }
        }
        if forces_upto(cnf, i, v, b) {
            let j = choose|j: int|
                0 <= j < i && (#[trigger] cnf.clauses@[j].0@).len() == 1
                    && cnf.clauses@[j].0@[0].variable.0 - 1 == v && cnf.clauses@[j].0@[0].polarity
                    == b;
            assert(forces_upto(cnf, i + 1, v, b));
        }
    }
}

/// Eliminate variables forced by unit clauses of the original formula: a
/// clause satisfied by a forced value is dropped, a literal falsified by a
/// forced value is removed from its clause, and a contradictory pair of
/// unit clauses yields a formula with one empty clause. The result is a
/// fresh formula with the same declared variable count.
pub fn preprocess(cnf: &Cnf) -> (r: Cnf)
    requires
        cnf.wf(),
        cnf.num_variables <= usize::MAX,
    ensures
        r.wf(),
        preprocessed_form(*cnf, r),
{
    let ghost n = cnf.num_variables as int;
    let ghost cv = cnf.clause_seq();
    let num_vars = cnf.num_variables as usize;
    let num_clauses = cnf.clauses.len();

    let mut unit_literals: Vec<Option<bool>> = Vec::new();
    let mut j: usize = 0;
    while j < num_vars
        invariant
            0 <= j <= num_vars,
            unit_literals@.len() == j,
            forall|v: int| 0 <= v < j ==> (#[trigger] unit_literals@[v]) is None,
        decreases num_vars - j,
    {
        unit_literals.push(None);
        j = j + 1;
    }

    let mut i: usize = 0;
    while i < num_clauses
        invariant
            cnf.wf(),
            n == cnf.num_variables,
            num_vars == n,
            num_clauses == cnf.clauses@.len(),
            0 <= i <= num_clauses,
            unit_literals@.len() == n,
            forall|v: int, b: bool|
                #![trigger forces_upto(*cnf, i as int, v, b)]
                0 <= v < n ==> (unit_literals@[v] == Some(b) <==> forces_upto(
                    *cnf,
                    i as int,
                    v,
                    b,
                )),
        decreases num_clauses - i,
    {
        proof {
            lemma_forces_step(*cnf, i as int);
        }
        if cnf.clauses[i].0.len() == 1 {
            let unit_literal = cnf.clauses[i].0[0];
            proof {
                assert(unit_literal == cnf.clauses@[i as int].0@[0]);
                assert(lit_in_bound(unit_literal, n));
                assert(unit_literal.variable.0 <= num_vars);
            }
            let v = (unit_literal.variable.0 - 1) as usize;
            let conflict = match unit_literals[v] {
                Some(b) => b != unit_literal.polarity,
                None => false,
            };
            if conflict {
                proof {
                    let b = unit_literals@[v as int]->Some_0;
                    assert(forces_upto(*cnf, i as int, v as int, b));
                    assert(forces_upto(*cnf, i as int + 1, v as int, b));
                    assert(forces_upto(*cnf, i as int + 1, v as int, unit_literal.polarity));
                    assert(forces(*cnf, v as int, b)) by {
                        lemma_forces_monotone(*cnf, i as int + 1, v as int, b);
                    }
                    assert(forces(*cnf, v as int, unit_literal.polarity)) by {
                        lemma_forces_monotone(*cnf, i as int + 1, v as int, unit_literal.polarity);
                    }
                    assert(has_unit_conflict(*cnf));
                }
                let mut conflict_clauses: Vec<Clause> = Vec::new();
                conflict_clauses.push(Clause(Vec::new()));
                let out = Cnf { num_variables: cnf.num_variables, clauses: conflict_clauses };
                proof {
                    assert(out.wf());
                }
                return out;
            }
            let ghost before = unit_literals@;
            unit_literals.set(v, Some(unit_literal.polarity));
            proof {
                assert forall|v2: int, b: bool|
                    #![trigger forces_upto(*cnf, i as int + 1, v2, b)]
                    0 <= v2 < n implies (unit_literals@[v2] == Some(b) <==> forces_upto(
                    *cnf,
                    i as int + 1,
                    v2,
                    b,
                )) by {
                    if v2 == v as int {
                        if b == unit_literal.polarity {
                            assert(forces_upto(*cnf, i as int + 1, v2, b));
                        } else {
                            assert(unit_literals@[v2] != Some(b));
                            if forces_upto(*cnf, i as int + 1, v2, b) {
                                assert(forces_upto(*cnf, i as int, v2, b));
                                assert(before[v2] == Some(b));
                            }
                        }
                    } else {
                        assert(unit_literals@[v2] == before[v2]);
                    }
                }
            }
        } else {
            proof {
                assert forall|v2: int, b: bool|
                    #![trigger forces_upto(*cnf, i as int + 1, v2, b)]
                    0 <= v2 < n implies (unit_literals@[v2] == Some(b) <==> forces_upto(
                    *cnf,
                    i as int + 1,
                    v2,
                    b,
                )) by {
                    assert(cnf.clauses@[i as int].0@.len() != 1);
                }
            }
        }
        i = i + 1;
    }
    proof {
        assert forall|v: int| 0 <= v < n implies unit_literals@[v] == forced_map(*cnf)[v] by {
            if forces(*cnf, v, true) {
                assert(unit_literals@[v] == Some(true));
            } else if forces(*cnf, v, false) {
                assert(unit_literals@[v] == Some(false));
            } else {
                if unit_literals@[v] is Some {
                    let b = unit_literals@[v]->Some_0;
                    assert(unit_literals@[v] == Some(b));
                    assert(forces(*cnf, v, b));
                }
            }
        }
        assert(unit_literals@ =~= forced_map(*cnf));
        assert(!has_unit_conflict(*cnf)) by {
            if has_unit_conflict(*cnf) {
                let v = choose|v: int| #[trigger]
                    forces(*cnf, v, true) && forces(*cnf, v, false);
                lemma_forces_in_range(*cnf, v, true);
                assert(unit_literals@[v] == Some(true) && unit_literals@[v] == Some(false));
            }
        }
    }
    let ghost m = unit_literals@;

    let mut new_clauses: Vec<Clause> = Vec::new();
    let mut i2: usize = 0;
    while i2 < num_clauses
        invariant
            cnf.wf(),
            n == cnf.num_variables,
            num_vars == n,
            num_clauses == cnf.clauses@.len(),
            cv == cnf.clause_seq(),
            cv.len() == num_clauses,
            0 <= i2 <= num_clauses,
            m == unit_literals@,
            m.len() == n,
            new_clauses@.map_values(|c: Clause| c.0@) == rebuilt_clauses(cv.take(i2 as int), m),
            forall|q: int|
                0 <= q < new_clauses@.len() ==> clause_in_bound(#[trigger] new_clauses@[q].0@, n),
        decreases num_clauses - i2,
    {
        let ghost c = cnf.clauses@[i2 as int].0@;
        proof {
            assert(cv[i2 as int] == c);
        }
        let num_literals = cnf.clauses[i2].0.len();
        let mut new_lits: Vec<Literal> = Vec::new();
        let mut erased = false;
        let mut p: usize = 0;
        while p < num_literals
            invariant_except_break
                !erased,
                0 <= p <= num_literals,
                num_literals == c.len(),
                c == cnf.clauses@[i2 as int].0@,
                0 <= i2 < cnf.clauses@.len(),
                m == unit_literals@,
                m.len() == n,
                num_vars == n,
                clause_in_bound(c, n),
                forall|q: int| 0 <= q < p ==> !lit_true(#[trigger] c[q], m),
                new_lits@ == kept_lits(c.take(p as int), m),
                forall|q: int| 0 <= q < new_lits@.len() ==> lit_in_bound(#[trigger] new_lits@[q], n),
            ensures
                erased ==> clause_sat(c, m),
                !erased ==> p == num_literals && (forall|q: int|
                    0 <= q < p ==> !lit_true(#[trigger] c[q], m)) && new_lits@ == kept_lits(
                    c.take(p as int),
                    m,
                ) && (forall|q: int|
                    0 <= q < new_lits@.len() ==> lit_in_bound(#[trigger] new_lits@[q], n)),
            decreases num_literals - p,
        {
            let literal = cnf.clauses[i2].0[p];
            proof {
                assert(literal == c[p as int]);
                assert(lit_in_bound(literal, n));
                assert(literal.variable.0 <= num_vars);
                assert(c.take(p as int + 1).drop_last() =~= c.take(p as int));
                assert(c.take(p as int + 1).last() == c[p as int]);
            }
            let v = (literal.variable.0 - 1) as usize;
            match unit_literals[v] {
                Some(b) => {
                    if b == literal.polarity {
                        erased = true;
                        proof {
                            assert(lit_true(c[p as int], m));
                        }
                        break ;
                    }
                    proof {
                        assert(lit_assigned(c[p as int], m));
                    }
                },
                None => {
                    proof {
                        assert(!lit_assigned(c[p as int], m));
                    }
                    new_lits.push(literal);
                },
            }
            p = p + 1;
        }
        proof {
            assert(c.take(c.len() as int) =~= c);
            assert(cv.take(i2 as int + 1).drop_last() =~= cv.take(i2 as int));
            assert(cv.take(i2 as int + 1).last() == cv[i2 as int]);
        }
        if !erased {
            proof {
                assert(!clause_sat(c, m));
                assert(new_lits@ == kept_lits(c, m));
            }
            new_clauses.push(Clause(new_lits));
            proof {
                assert(new_clauses@.map_values(|cl: Clause| cl.0@) =~= rebuilt_clauses(
                    cv.take(i2 as int + 1),
                    m,
                ));
            }
        } else {
            proof {
                assert(new_clauses@.map_values(|cl: Clause| cl.0@) =~= rebuilt_clauses(
                    cv.take(i2 as int + 1),
                    m,
                ));
            }
        }
        i2 = i2 + 1;
    }
    proof {
        assert(cv.take(num_clauses as int) =~= cv);
    }
    let out = Cnf { num_variables: cnf.num_variables, clauses: new_clauses };
    proof {
        assert(out.clause_seq() == rebuilt_clauses(cnf.clause_seq(), forced_map(*cnf)));
        assert(out.wf());
    }
    out
}

/// A forcing clause pins its variable inside the declared range.
proof fn lemma_forces_in_range(cnf: Cnf, v: int, b: bool)
    requires
        cnf.wf(),
        forces(cnf, v, b),
    ensures
        0 <= v < cnf.num_variables,
{
    let j = choose|j: int|
        0 <= j < cnf.clauses@.len() && (#[trigger] cnf.clauses@[j].0@).len() == 1
            && cnf.clauses@[j].0@[0].variable.0 - 1 == v && cnf.clauses@[j].0@[0].polarity == b;
    assert(lit_in_bound(cnf.clauses@[j].0@[0], cnf.num_variables as int));
}

/// A forcing seen in a prefix of the clause list is a forcing of the whole
/// formula.
proof fn lemma_forces_monotone(cnf: Cnf, i: int, v: int, b: bool)
    requires
        0 <= i <= cnf.clauses@.len(),
        forces_upto(cnf, i, v, b),
    ensures
        forces(cnf, v, b),
{
    let j = choose|j: int|
        0 <= j < i && (#[trigger] cnf.clauses@[j].0@).len() == 1 && cnf.clauses@[j].0@[0].variable.0
            - 1 == v && cnf.clauses@[j].0@[0].polarity == b;
    assert(0 <= j < cnf.clauses@.len());
}

/// A literal with no forced value survives the simplification of its
/// clause.
proof fn lemma_kept_contains(c: Seq<Literal>, m: Seq<Option<bool>>, p: int)
    requires
        0 <= p < c.len(),
        !lit_assigned(c[p], m),
    ensures
        exists|k: int| 0 <= k < kept_lits(c, m).len() && #[trigger] kept_lits(c, m)[k] == c[p],
    decreases c.len(),
{
    let kept = kept_lits(c, m);
    if p == c.len() - 1 {
        assert(kept[kept.len() - 1] == c[p]);
    } else {
        assert(c.drop_last()[p] == c[p]);
        lemma_kept_contains(c.drop_last(), m, p);
        let k = choose|k: int|
            0 <= k < kept_lits(c.drop_last(), m).len() && #[trigger] kept_lits(c.drop_last(), m)[k]
                == c.drop_last()[p];
        assert(kept[k] == kept_lits(c.drop_last(), m)[k]);
    }
}

/// Every literal of a simplified clause stems from the original clause and
/// has no forced value.
proof fn lemma_kept_member(c: Seq<Literal>, m: Seq<Option<bool>>, k: int)
    requires
        0 <= k < kept_lits(c, m).len(),
    ensures
        !lit_assigned(kept_lits(c, m)[k], m),
        exists|p: int| 0 <= p < c.len() && #[trigger] c[p] == kept_lits(c, m)[k],
    decreases c.len(),
{
    let kept = kept_lits(c, m);
    let prev = kept_lits(c.drop_last(), m);
    if k < prev.len() {
        lemma_kept_member(c.drop_last(), m, k);
        assert(kept[k] == prev[k]);
        let p = choose|p: int|
            0 <= p < c.drop_last().len() && #[trigger] c.drop_last()[p] == prev[k];
        assert(c[p] == kept[k]);
    } else {
        assert(!lit_assigned(c.last(), m));
        assert(kept[k] == c.last());
        assert(c[c.len() - 1] == kept[k]);
    }
}

/// Every simplified clause stems from an original clause that no forced
/// value satisfies.
proof fn lemma_rebuilt_member(cs: Seq<Seq<Literal>>, m: Seq<Option<bool>>, k: int)
    requires
        0 <= k < rebuilt_clauses(cs, m).len(),
    ensures
        exists|i: int|
            0 <= i < cs.len() && !clause_sat(#[trigger] cs[i], m) && rebuilt_clauses(cs, m)[k]
                == kept_lits(cs[i], m),
    decreases cs.len(),
{
    let rb = rebuilt_clauses(cs, m);
    let prev = rebuilt_clauses(cs.drop_last(), m);
    if k < prev.len() {
        lemma_rebuilt_member(cs.drop_last(), m, k);
        let i = choose|i: int|
            0 <= i < cs.drop_last().len() && !clause_sat(#[trigger] cs.drop_last()[i], m)
                && prev[k] == kept_lits(cs.drop_last()[i], m);
        assert(cs[i] == cs.drop_last()[i]);
        assert(!clause_sat(cs[i], m) && rb[k] == kept_lits(cs[i], m));
    } else {
        assert(!clause_sat(cs.last(), m));
        assert(rb[k] == kept_lits(cs.last(), m));
        assert(cs[cs.len() - 1] == cs.last());
        assert(!clause_sat(cs[cs.len() - 1], m) && rb[k] == kept_lits(cs[cs.len() - 1], m));
    }
}

/// Every original clause that no forced value satisfies appears, in
/// simplified form, in the rebuilt clause list.
proof fn lemma_rebuilt_contains(cs: Seq<Seq<Literal>>, m: Seq<Option<bool>>, i: int)
    requires
        0 <= i < cs.len(),
        !clause_sat(cs[i], m),
    ensures
        exists|k: int|
            0 <= k < rebuilt_clauses(cs, m).len() && #[trigger] rebuilt_clauses(cs, m)[k]
                == kept_lits(cs[i], m),
    decreases cs.len(),
{
    let rb = rebuilt_clauses(cs, m);
    let prev = rebuilt_clauses(cs.drop_last(), m);
    if i == cs.len() - 1 {
        assert(rb[rb.len() - 1] == kept_lits(cs[i], m));
    } else {
        assert(cs.drop_last()[i] == cs[i]);
        lemma_rebuilt_contains(cs.drop_last(), m, i);
        let k = choose|k: int|
            0 <= k < prev.len() && #[trigger] prev[k] == kept_lits(cs.drop_last()[i], m);
        assert(rb[k] == prev[k]);
    }
}

/// Preprocessing preserves satisfiability: the simplified formula has a
/// satisfying total assignment exactly when the original does. This holds
/// also for a formula whose unit clauses conflict, where both sides are
/// unsatisfiable.
pub proof fn lemma_preprocess_preserves_satisfiability(cnf: Cnf, simplified: Cnf)
    requires
        cnf.wf(),
        preprocessed_form(cnf, simplified),
    ensures
        satisfiable(cnf) <==> satisfiable(simplified),
{
    let n = cnf.num_variables as int;
    let cv = cnf.clause_seq();
    if has_unit_conflict(cnf) {
        let v = choose|v: int| #[trigger] forces(cnf, v, true) && forces(cnf, v, false);
        lemma_forces_in_range(cnf, v, true);
        if satisfiable(cnf) {
            let t = choose|t: Seq<Option<bool>>|
                t.len() == cnf.num_variables && is_total(t) && #[trigger] cnf.sat_under(t);
            let jt = choose|j: int|
                0 <= j < cnf.clauses@.len() && (#[trigger] cnf.clauses@[j].0@).len() == 1
                    && cnf.clauses@[j].0@[0].variable.0 - 1 == v && cnf.clauses@[j].0@[0].polarity
                    == true;
            let jf = choose|j: int|
                0 <= j < cnf.clauses@.len() && (#[trigger] cnf.clauses@[j].0@).len() == 1
                    && cnf.clauses@[j].0@[0].variable.0 - 1 == v && cnf.clauses@[j].0@[0].polarity
                    == false;
            assert(clause_sat(cnf.clauses@[jt].0@, t));
            assert(clause_sat(cnf.clauses@[jf].0@, t));
            let pt = choose|p: int|
                0 <= p < cnf.clauses@[jt].0@.len() && #[trigger] lit_true(cnf.clauses@[jt].0@[p], t);
            let pf = choose|p: int|
                0 <= p < cnf.clauses@[jf].0@.len() && #[trigger] lit_true(cnf.clauses@[jf].0@[p], t);
            assert(t[v] == Some(true) && t[v] == Some(false));
        }
        if satisfiable(simplified) {
            let t = choose|t: Seq<Option<bool>>|
                t.len() == simplified.num_variables && is_total(t) && #[trigger] simplified.sat_under(
                    t,
                );
            assert(!clause_sat(simplified.clauses@[0].0@, t));
        }
    } else {
        let m = forced_map(cnf);
        assert(m.len() == n);
        assert(simplified.clause_seq() == rebuilt_clauses(cv, m));
        // Whatever the forced map assigns comes from a unit clause, which a
        // satisfying assignment must obey.
        if satisfiable(cnf) {
            let t = choose|t: Seq<Option<bool>>|
                t.len() == cnf.num_variables && is_total(t) && #[trigger] cnf.sat_under(t);
            assert forall|v: int| 0 <= v < n && (#[trigger] m[v]) is Some implies t[v] == m[v] by {
                let b = m[v]->Some_0;
                assert(forces(cnf, v, b));
                let j = choose|j: int|
                    0 <= j < cnf.clauses@.len() && (#[trigger] cnf.clauses@[j].0@).len() == 1
                        && cnf.clauses@[j].0@[0].variable.0 - 1 == v
                        && cnf.clauses@[j].0@[0].polarity == b;
                assert(clause_sat(cnf.clauses@[j].0@, t));
                let p = choose|p: int|
                    0 <= p < cnf.clauses@[j].0@.len() && #[trigger] lit_true(
                        cnf.clauses@[j].0@[p],
                        t,
                    );
                assert(p == 0);
            }
            assert forall|k: int|
                0 <= k < simplified.clauses@.len() implies clause_sat(
                #[trigger] simplified.clauses@[k].0@,
                t,
            ) by {
                assert(simplified.clauses@[k].0@ == simplified.clause_seq()[k]);
                lemma_rebuilt_member(cv, m, k);
                let i = choose|i: int|
                    0 <= i < cv.len() && !clause_sat(#[trigger] cv[i], m) && rebuilt_clauses(
                        cv,
                        m,
                    )[k] == kept_lits(cv[i], m);
                let c = cv[i];
                assert(c == cnf.clauses@[i].0@);
                assert(clause_sat(c, t));
                let p = choose|p: int| 0 <= p < c.len() && #[trigger] lit_true(c[p], t);
                assert(lit_in_bound(c[p], n));
                if m[c[p].variable.0 - 1] is Some {
                    assert(t[c[p].variable.0 - 1] == m[c[p].variable.0 - 1]);
                    assert(lit_true(c[p], m));
                    assert(false);
                }
                lemma_kept_contains(c, m, p);
                let k2 = choose|k2: int|
                    0 <= k2 < kept_lits(c, m).len() && #[trigger] kept_lits(c, m)[k2] == c[p];
                assert(lit_true(kept_lits(c, m)[k2], t));
            }
            assert(simplified.sat_under(t));
            assert(t.len() == simplified.num_variables);
            assert(satisfiable(simplified));
        }
        // A satisfying assignment of the simplified formula, overridden
        // with the forced values, satisfies the original.
        if satisfiable(simplified) {
            let t = choose|t: Seq<Option<bool>>|
                t.len() == simplified.num_variables && is_total(t) && #[trigger] simplified.sat_under(
                    t,
                );
            let t2 = Seq::new(
                n as nat,
                |v: int|
                    if m[v] is Some {
                        m[v]
                    } else {
                        t[v]
                    },
            );
            assert(is_total(t2)) by {
                assert forall|v: int| 0 <= v < t2.len() implies (#[trigger] t2[v]) is Some by {
                    if m[v] is None {
                        assert(t[v] is Some);
                    }
                }
            }
            assert forall|i: int| 0 <= i < cnf.clauses@.len() implies clause_sat(
                #[trigger] cnf.clauses@[i].0@,
                t2,
            ) by {
                let c = cnf.clauses@[i].0@;
                assert(c == cv[i]);
                if clause_sat(c, m) {
                    let p = choose|p: int| 0 <= p < c.len() && #[trigger] lit_true(c[p], m);
                    assert(lit_in_bound(c[p], n));
                    assert(t2[c[p].variable.0 - 1] == m[c[p].variable.0 - 1]);
                    assert(lit_true(c[p], t2));
                } else {
                    lemma_rebuilt_contains(cv, m, i);
                    let k = choose|k: int|
                        0 <= k < rebuilt_clauses(cv, m).len() && #[trigger] rebuilt_clauses(
                            cv,
                            m,
                        )[k] == kept_lits(cv[i], m);
                    assert(simplified.clauses@[k].0@ == simplified.clause_seq()[k]);
                    assert(simplified.clauses@[k].0@ == kept_lits(c, m));
                    assert(clause_sat(kept_lits(c, m), t));
                    let k2 = choose|k2: int|
                        0 <= k2 < kept_lits(c, m).len() && #[trigger] lit_true(
                            kept_lits(c, m)[k2],
                            t,
                        );
                    lemma_kept_member(c, m, k2);
                    let p = choose|p: int|
                        0 <= p < c.len() && #[trigger] c[p] == kept_lits(c, m)[k2];
                    assert(lit_in_bound(c[p], n));
                    assert(!lit_assigned(c[p], m));
                    assert(t2[c[p].variable.0 - 1] == t[c[p].variable.0 - 1]);
                    assert(lit_true(c[p], t2));
                }
            }
            assert(t2.len() == cnf.num_variables && is_total(t2) && cnf.sat_under(t2));
            assert(satisfiable(cnf));
        }
    }
}

} // verus!
