use minos::preprocessing::preprocess;
use minos::solver::MinosSolver;
use minos::{Cnf, Literal, Satisfiability, Variable};

#[test]
fn parse_simple_formula() {
    let text = "c a comment\np cnf 3 2\n1 -2 0\n2 3 0\n";
    let cnf = Cnf::from_string(text).expect("valid DIMACS input");
    assert_eq!(cnf.num_variables, 3);
    assert_eq!(cnf.clauses.len(), 2);
    assert_eq!(
        cnf.clauses[0].0,
        vec![
            Literal {
                variable: Variable(1),
                polarity: true
            },
            Literal {
                variable: Variable(2),
                polarity: false
            },
        ]
    );
    assert_eq!(
        cnf.clauses[1].0,
        vec![
            Literal {
                variable: Variable(2),
                polarity: true
            },
            Literal {
                variable: Variable(3),
                polarity: true
            },
        ]
    );
}

#[test]
fn parse_skips_comments_and_blank_lines() {
    let text = "c first\n\nc second\np cnf 1 1\nc inside\n1 0\n";
    let cnf = Cnf::from_string(text).expect("valid DIMACS input");
    assert_eq!(cnf.num_variables, 1);
    assert_eq!(cnf.clauses.len(), 1);
}

#[test]
fn parse_handles_windows_line_endings() {
    let text = "p cnf 2 2\r\n1 2 0\r\n-1 0\r\n";
    let cnf = Cnf::from_string(text).expect("valid DIMACS input");
    assert_eq!(cnf.num_variables, 2);
    assert_eq!(cnf.clauses.len(), 2);
}

#[test]
fn parse_rejects_bad_header() {
    assert!(Cnf::from_string("").is_err());
    assert!(Cnf::from_string("q cnf 1 1\n1 0\n").is_err());
    assert!(Cnf::from_string("p sat 1 1\n1 0\n").is_err());
    assert!(Cnf::from_string("p cnf x 1\n1 0\n").is_err());
    assert!(Cnf::from_string("p cnf 1\n1 0\n").is_err());
}

#[test]
fn parse_rejects_invalid_literals() {
    assert!(Cnf::from_string("p cnf 2 1\n1 two 0\n").is_err());
    assert!(Cnf::from_string("p cnf 2 1\n- 0\n").is_err());
}

#[test]
fn parse_rejects_out_of_range_variables() {
    // The declared count is 2, so variable 3 is malformed input, reported
    // rather than indexed.
    assert!(Cnf::from_string("p cnf 2 1\n1 3 0\n").is_err());
    assert!(Cnf::from_string("p cnf 2 1\n-0 0\n").is_err());
}

#[test]
fn parse_then_solve_end_to_end() {
    let text = "c pigeonhole: two pigeons, one hole\np cnf 2 3\n1 2 0\n-1 -2 0\n1 -2 0\n";
    let cnf = Cnf::from_string(text).expect("valid DIMACS input");
    let simplified = preprocess(&cnf);
    let mut solver = MinosSolver::from_cnf(simplified);
    assert_eq!(solver.solve(), Satisfiability::Satisfiable);

    let text2 = "p cnf 1 2\n1 0\n-1 0\n";
    let cnf2 = Cnf::from_string(text2).expect("valid DIMACS input");
    let simplified2 = preprocess(&cnf2);
    let mut solver2 = MinosSolver::from_cnf(simplified2);
    assert_eq!(solver2.solve(), Satisfiability::Unsatisfiable);
}
