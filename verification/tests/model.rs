use minos::{Clause, Cnf, Literal, Satisfiability, Variable};

#[test]
fn test_cnf_is_satisfied() {
    // (x1 OR NOT x2) AND (x2 OR x3)
    let cnf = Cnf {
        num_variables: 3,
        clauses: vec![
            Clause(vec![
                Literal {
                    variable: Variable(1),
                    polarity: true,
                },
                Literal {
                    variable: Variable(2),
                    polarity: false,
                },
            ]),
            Clause(vec![
                Literal {
                    variable: Variable(2),
                    polarity: true,
                },
                Literal {
                    variable: Variable(3),
                    polarity: true,
                },
            ]),
        ],
    };

    assert_eq!(
        cnf.is_satisfied(&vec![Some(true), Some(true), Some(true)]),
        Some(Satisfiability::Satisfiable)
    );
    assert_eq!(
        cnf.is_satisfied(&vec![Some(false), Some(false), Some(true)]),
        Some(Satisfiability::Satisfiable)
    );
    assert_eq!(
        cnf.is_satisfied(&vec![Some(false), Some(true), Some(true)]),
        Some(Satisfiability::Unsatisfiable)
    );
    assert_eq!(
        cnf.is_satisfied(&vec![Some(true), Some(false), Some(false)]),
        Some(Satisfiability::Unsatisfiable)
    );
}

#[test]
fn test_cnf_partially_assigned() {
    // (x1 OR NOT x2) AND (x2 OR x3)
    let cnf = Cnf {
        num_variables: 3,
        clauses: vec![
            Clause(vec![
                Literal {
                    variable: Variable(1),
                    polarity: true,
                },
                Literal {
                    variable: Variable(2),
                    polarity: false,
                },
            ]),
            Clause(vec![
                Literal {
                    variable: Variable(2),
                    polarity: true,
                },
                Literal {
                    variable: Variable(3),
                    polarity: true,
                },
            ]),
        ],
    };

    assert_eq!(cnf.is_satisfied(&vec![Some(true), None, None]), None);
    assert_eq!(cnf.is_satisfied(&vec![None, None, Some(true)]), None);
    assert_eq!(cnf.is_satisfied(&vec![None, None, None]), None);
}

#[test]
fn test_one_unit_clause() {
    // (x1) AND (NOT x1 OR x2)
    let cnf = Cnf {
        num_variables: 3,
        clauses: vec![
            Clause(vec![Literal {
                variable: Variable(1),
                polarity: true,
            }]),
            Clause(vec![
                Literal {
                    variable: Variable(1),
                    polarity: false,
                },
                Literal {
                    variable: Variable(2),
                    polarity: true,
                },
            ]),
        ],
    };

    assert_eq!(cnf.is_satisfied(&vec![Some(true), None]), None);
}
