use minos::preprocessing::preprocess;
use minos::solver::MinosSolver;
use minos::{Clause, Cnf, Literal, Satisfiability, Variable};

fn lit(raw: i64) -> Literal {
    Literal {
        variable: Variable(raw.unsigned_abs()),
        polarity: raw > 0,
    }
}

fn formula(num_variables: u64, clause_lits: &[&[i64]]) -> Cnf {
    Cnf {
        num_variables,
        clauses: clause_lits
            .iter()
            .map(|ls| Clause(ls.iter().map(|&raw| lit(raw)).collect()))
            .collect(),
    }
}

fn solve(cnf: Cnf) -> Satisfiability {
    let mut solver = MinosSolver::from_cnf(cnf);
    solver.solve()
}

/// Evaluate the formula under every one of the 2^n total assignments and
/// report whether any satisfies it.
fn brute_force(cnf: &Cnf) -> Satisfiability {
    let n = cnf.num_variables as u32;
    for bits in 0u64..(1u64 << n) {
        let assignment: Vec<Option<bool>> =
            (0..n).map(|v| Some(bits & (1u64 << v) != 0)).collect();
        if cnf.is_satisfied(&assignment) == Some(Satisfiability::Satisfiable) {
            return Satisfiability::Satisfiable;
        }
    }
    Satisfiability::Unsatisfiable
}

#[test]
fn unit_propagation_forces_satisfiable() {
    // Scenario: (x1) AND (NOT x1 OR x2)
    let cnf = formula(2, &[&[1], &[-1, 2]]);
    assert_eq!(solve(cnf), Satisfiability::Satisfiable);
}

#[test]
fn satisfying_assignment_is_left_in_place() {
    // (x1) AND (NOT x1 OR x2): unit propagation forces x1 = true, x2 = true.
    let cnf = formula(2, &[&[1], &[-1, 2]]);
    let mut solver = MinosSolver::from_cnf(cnf);
    assert_eq!(solver.solve(), Satisfiability::Satisfiable);
    assert_eq!(solver.get_assignment(&lit(1)), Some(true));
    assert_eq!(solver.get_assignment(&lit(2)), Some(true));
}

#[test]
fn conflicting_units_are_unsatisfiable() {
    // Scenario: (x1) AND (NOT x1)
    let cnf = formula(1, &[&[1], &[-1]]);
    assert_eq!(solve(cnf), Satisfiability::Unsatisfiable);
}

#[test]
fn evaluation_of_total_assignments() {
    // Scenario: (x1 OR NOT x2) AND (x2 OR x3)
    let cnf = formula(3, &[&[1, -2], &[2, 3]]);
    assert_eq!(
        cnf.is_satisfied(&vec![Some(true), Some(true), Some(true)]),
        Some(Satisfiability::Satisfiable)
    );
    assert_eq!(
        cnf.is_satisfied(&vec![Some(false), Some(true), Some(true)]),
        Some(Satisfiability::Unsatisfiable)
    );
}

#[test]
fn zero_clauses_is_trivially_satisfiable() {
    let cnf = formula(2, &[]);
    assert_eq!(solve(cnf), Satisfiability::Satisfiable);
}

#[test]
fn empty_clause_is_unsatisfiable() {
    let cnf = formula(2, &[&[1, 2], &[]]);
    assert_eq!(
        cnf.is_satisfied(&vec![Some(true), Some(true)]),
        Some(Satisfiability::Unsatisfiable)
    );
    assert_eq!(solve(formula(2, &[&[1, 2], &[]])), Satisfiability::Unsatisfiable);
}

#[test]
fn solver_matches_brute_force_enumeration() {
    let cases: Vec<Cnf> = vec![
        formula(1, &[]),
        formula(1, &[&[1], &[-1]]),
        formula(2, &[&[1], &[-1, 2]]),
        formula(3, &[&[1, -2], &[2, 3]]),
        formula(3, &[&[1, 2, 3], &[-1, -2], &[-2, -3], &[-1, -3]]),
        formula(3, &[&[1], &[-1, 2], &[-2, 3], &[-3, -1]]),
        formula(
            4,
            &[&[1, 2], &[-1, 3], &[-2, -3], &[3, 4], &[-3, -4], &[-1, -4], &[1, 4]],
        ),
        formula(4, &[&[-1, -2], &[1], &[2]]),
    ];
    for cnf in cases {
        let expected = brute_force(&cnf);
        let direct = solve(Cnf {
            num_variables: cnf.num_variables,
            clauses: cnf.clauses.clone(),
        });
        assert_eq!(direct, expected);
        let simplified = preprocess(&cnf);
        assert_eq!(solve(simplified), expected);
    }
}

#[test]
fn backtracking_restores_the_assignment_on_failure() {
    // An unsatisfiable search must leave the assignment vector exactly as it
    // found it: fully unassigned for a fresh solver.
    let cnf = formula(
        3,
        &[&[1, 2, 3], &[-1, -2], &[-2, -3], &[-1, -3], &[-1, 2], &[1, -3], &[-2, 1]],
    );
    let mut solver = MinosSolver::from_cnf(cnf);
    assert_eq!(solver.solve(), Satisfiability::Unsatisfiable);
    for id in 1..=3 {
        assert_eq!(solver.get_assignment(&lit(id)), None);
    }
}

#[test]
fn solver_is_deterministic() {
    let make = || formula(3, &[&[1, -2], &[2, 3], &[-1, -3]]);
    let first = solve(make());
    for _ in 0..3 {
        assert_eq!(solve(make()), first);
    }
}

#[test]
fn unit_clause_detection() {
    // (x1) AND (NOT x1 OR x2): with nothing assigned only (x1) is a unit.
    let cnf = formula(2, &[&[1], &[-1, 2]]);
    assert_eq!(cnf.get_unit_clauses(&vec![None, None]), vec![lit(1)]);
    // With x1 = true the second clause becomes a unit forcing x2.
    assert_eq!(cnf.get_unit_clauses(&vec![Some(true), None]), vec![lit(2)]);
    // A satisfied clause is not a unit.
    assert_eq!(cnf.get_unit_clauses(&vec![Some(true), Some(true)]), vec![]);
}

#[test]
fn unit_clauses_keep_duplicates_and_conflicts() {
    let cnf = formula(2, &[&[1], &[1], &[-1], &[2, -2]]);
    assert_eq!(
        cnf.get_unit_clauses(&vec![None, None]),
        vec![lit(1), lit(1), lit(-1)]
    );
}

#[test]
fn preprocess_drops_satisfied_clauses_and_false_literals() {
    // (x1) AND (NOT x1 OR x2) AND (x2 OR x3): x1 is forced true, so the
    // first two clauses shrink away and the third is untouched.
    let cnf = formula(3, &[&[1], &[-1, 2], &[2, 3]]);
    let simplified = preprocess(&cnf);
    assert_eq!(simplified.num_variables, 3);
    assert_eq!(simplified.clauses.len(), 2);
    assert_eq!(simplified.clauses[0].0, vec![lit(2)]);
    assert_eq!(simplified.clauses[1].0, vec![lit(2), lit(3)]);
}

#[test]
fn preprocess_detects_conflicting_units() {
    // (x1) AND (NOT x1): the forced values clash, so preprocessing yields a
    // formula with one empty clause, unsatisfiable downstream.
    let cnf = formula(1, &[&[1], &[-1]]);
    let simplified = preprocess(&cnf);
    assert_eq!(simplified.num_variables, 1);
    assert_eq!(simplified.clauses.len(), 1);
    assert!(simplified.clauses[0].0.is_empty());
    assert_eq!(solve(simplified), Satisfiability::Unsatisfiable);
}

#[test]
fn preprocess_preserves_verdict() {
    let cases: Vec<Cnf> = vec![
        formula(2, &[&[1], &[-1, 2]]),
        formula(3, &[&[1], &[-2], &[-1, 2, 3]]),
        formula(3, &[&[1], &[-1]]),
        formula(3, &[&[1, -2], &[2, 3]]),
    ];
    for cnf in cases {
        let simplified = preprocess(&cnf);
        let original_verdict = solve(cnf);
        assert_eq!(solve(simplified), original_verdict);
    }
}

#[test]
fn verdict_disjunction() {
    let sat = Satisfiability::Satisfiable;
    let unsat = Satisfiability::Unsatisfiable;
    assert_eq!(sat.or(sat), sat);
    assert_eq!(sat.or(unsat), sat);
    assert_eq!(unsat.or(sat), sat);
    assert_eq!(unsat.or(unsat), unsat);
}
