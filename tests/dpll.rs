use satyrs::cnf::CNF;
use satyrs::dimacs::parse_dimacs;
use satyrs::dpll::DPLL;
use satyrs::literal::{decode, encode, negate};

fn parse(text: &str) -> CNF {
    parse_dimacs(text.as_bytes()).unwrap()
}

/// Whether `assignment` (variable v at index v - 1) satisfies every clause,
/// given as signed integers.
fn satisfies(assignment: &[bool], clauses: &[&[i32]]) -> bool {
    clauses.iter().all(|c| {
        c.iter().any(|&v| {
            let value = assignment[(v.abs() - 1) as usize];
            if v > 0 {
                value
            } else {
                !value
            }
        })
    })
}

#[test]
fn conflicting_units_are_unsatisfiable() {
    let cnf = parse("p cnf 1 2\n1 0\n-1 0\n");
    assert!(DPLL(&cnf).is_none());
}

#[test]
fn minimal_satisfiable_formula() {
    let cnf = parse("p cnf 3 3\n1 2 0\n2 3 0\n1 -3 0\n");
    let (assignment, partial) = DPLL(&cnf).unwrap();
    assert_eq!(assignment.len(), 3);
    assert!(satisfies(&assignment, &[&[1, 2], &[2, 3], &[1, -3]]));
    assert_eq!(partial.assignment.len(), 3);
}

#[test]
fn pigeonhole_three_into_two_is_unsatisfiable() {
    // Variable 2 * p + h - 2 says pigeon p (1..=3) sits in hole h (1..=2).
    let text = "p cnf 6 9
1 2 0
3 4 0
5 6 0
-1 -3 0
-1 -5 0
-3 -5 0
-2 -4 0
-2 -6 0
-4 -6 0
";
    assert!(DPLL(&parse(text)).is_none());
}

#[test]
fn satisfiable_formula_needs_splitting() {
    let clauses: &[&[i32]] = &[
        &[1, 2, 3],
        &[-1, -2],
        &[-2, -3],
        &[-1, -3],
        &[1, -4, 5],
        &[-5, 4],
        &[2, 4, -1],
        &[3, 5, 6],
        &[-6, -3, 1],
    ];
    let mut text = String::from("p cnf 6 9\n");
    for c in clauses {
        for v in c.iter() {
            text.push_str(&format!("{} ", v));
        }
        text.push_str("0\n");
    }
    let (assignment, _) = DPLL(&parse(&text)).unwrap();
    assert!(satisfies(&assignment, clauses));
}

#[test]
fn empty_clause_is_unsatisfiable() {
    let cnf = parse("p cnf 2 2\n1 2 0\n0\n");
    assert!(DPLL(&cnf).is_none());
}

#[test]
fn unconstrained_variables_are_set_true() {
    let cnf = parse("p cnf 3 1\n-2 0\n");
    let (assignment, _) = DPLL(&cnf).unwrap();
    assert_eq!(assignment, vec![true, false, true]);
}

#[test]
fn dpll_leaves_the_input_database_alone() {
    let cnf = parse("p cnf 2 2\n1 2 0\n-1 0\n");
    let before = cnf.clauses.clone();
    let (assignment, _) = DPLL(&cnf).unwrap();
    assert_eq!(assignment, vec![false, true]);
    assert_eq!(cnf.clauses, before);
}

#[test]
fn literal_round_trip() {
    let nvar = 7;
    for v in 1..=nvar {
        assert_eq!(decode(encode(v)), v);
        assert_eq!(decode(encode(-v)), -v);
        assert_eq!(negate(encode(v)), encode(-v));
    }
    assert_eq!(encode(1), 0);
    assert_eq!(encode(-1), 1);
    assert_eq!(encode(3), 4);
    assert_eq!(encode(-3), 5);
}
