use std::collections::HashSet;

use satyrs::cnf::{clause_literals, format_output, zeroth, DimacsError, PartialAssignment, CNF};
use satyrs::dimacs::parse_dimacs;
use satyrs::literal::encode;

fn parse(text: &str) -> Result<CNF, DimacsError> {
    parse_dimacs(text.as_bytes())
}

/// The occurrence index and the units, recomputed from the clauses.
fn index_is_exact(cnf: &CNF) -> bool {
    for (lit, ids) in cnf.occurrences.iter() {
        if ids.is_empty() {
            return false;
        }
        for id in ids {
            match cnf.clauses.get(id) {
                Some(c) => {
                    if !c.contains(lit) {
                        return false;
                    }
                }
                None => return false,
            }
        }
    }
    for (id, c) in cnf.clauses.iter() {
        for lit in c {
            match cnf.occurrences.get(lit) {
                Some(ids) => {
                    if !ids.contains(id) {
                        return false;
                    }
                }
                None => return false,
            }
        }
        if (c.len() == 1) != cnf.units.contains(id) {
            return false;
        }
    }
    cnf.units.iter().all(|id| cnf.clauses.contains_key(id))
}

#[test]
#[should_panic]
fn variable_out_of_range() {
    let text = "
            p cnf 2 3
            1 2 0
            4 1 0
        ";
    let _ = parse(text).unwrap();
}

#[test]
#[should_panic]
fn invalid_nvar() {
    let text = "
            p cnf gd 3
            1 2 0
            4 1 0
        ";
    let _ = parse(text).unwrap();
}

#[test]
#[should_panic]
fn invalid_nclause() {
    let text = "
            p cnf 2 gdd
            1 2 0
            4 1 0
        ";
    let _ = parse(text).unwrap();
}

#[test]
#[should_panic]
fn too_many_clauses() {
    let text = "
            p cnf 5 5
            1 2 0
            2 3 0
            3 4 0
            4 5 0
            1 3 0
            2 4 0
        ";
    let _ = parse(text).unwrap();
}

#[test]
#[should_panic]
fn too_little_clauses() {
    let text = "
            p cnf 5 5
            1 2 0
            2 3 0
            3 4 0
        ";
    let _ = parse(text).unwrap();
}

#[test]
fn should_work() {
    let text = "
            p cnf 3 3
            1 2 0
            2 3 0
            1 -3 0
        ";
    let _ = parse(text).unwrap();
}

#[test]
fn should_ignore_comments() {
    let text = "
            c comment
            p cnf 3 3
            c comment
            1 2 0
            2 3 0
            c comment
            1 -3 0
            c comment
            c comment
            c comment
        ";
    let _ = parse(text).unwrap();
}

#[test]
#[should_panic]
fn duplicate_problem_statement() {
    let text = "
            p cnf 3 3
            1 2 0
            p cnf 3 3
            2 3 0
            1 -3 0
        ";
    let _ = parse(text).unwrap();
}

#[test]
#[should_panic]
fn duplicate_problem_statement_2() {
    let text = "
            p cnf 3 3
            p cnf 3 3
            1 2 0
            2 3 0
            1 -3 0
        ";
    let _ = parse(text).unwrap();
}

#[test]
fn adds_unit_clauses() {
    let text = "
            p cnf 3 4
            1 0
            2 0
            3 0
            -1 -3 0
        ";
    let cnf = parse(text).unwrap();
    assert_eq!(cnf.units.len(), 3);
}

#[test]
fn unit_propagate_works() {
    let text = "
            p cnf 2 2
            1 0
            1 2 0
        ";
    let mut cnf = parse(text).unwrap();
    cnf.unit_propagate(0);
    assert!(cnf.units.is_empty());
}

#[test]
fn unit_propagate_works_2() {
    let text = "
            p cnf 4 4
            1 0
            1 2 0
            2 3 0
            4 0
        ";
    let mut cnf = parse(text).unwrap();
    cnf.unit_propagate(0);
    // Only one unit clause left
    assert_eq!(cnf.units.len(), 1);
    assert!(cnf.units.contains(&3));
    cnf.unit_propagate(3);
    // No more unit clauses
    assert!(cnf.units.is_empty());
}

/// Six unit clauses over two variables: propagating the first unit of each
/// variable deletes the other units of that variable, which then are no
/// longer units and are not propagated again.
#[test]
fn unit_propagate_works_special() {
    let text = "
            p cnf 2 6
            1 0
            1 0
            2 0
            2 0
            2 0
            2 0
        ";
    let mut cnf = parse(text).unwrap();
    for id in 0..6 {
        if cnf.units.contains(&id) {
            cnf.unit_propagate(id);
        }
    }
    // The result should be an empty cnf - no clauses, no unit clauses.
    assert_eq!(cnf.clauses.len(), 0);
    assert_eq!(cnf.units.len(), 0);
}

#[test]
fn remove_negation_adds_units() {
    let text = "
            p cnf 4 4
            1 0
            2 -1 0
            3 -1 0
            4 1 0
        ";
    let mut cnf = parse(text).unwrap();
    cnf.unit_propagate(0);
    assert_eq!(cnf.units.len(), 2);
    // Unit prop should have removed clauses 0 and 3
    assert!(!cnf.units.contains(&0));
    assert!(!cnf.units.contains(&3));
    // But should have added clauses 1 and 2
    assert!(cnf.units.contains(&1));
    assert!(cnf.units.contains(&2));
}

#[test]
fn propagation_tracks_nclause() {
    let text = "
            p cnf 4 4
            1 0
            2 -1 0
            3 -1 0
            4 1 0
        ";
    let mut cnf = parse(text).unwrap();
    cnf.unit_propagate(0);
    assert_eq!(cnf.nclause, 2);
    cnf.propagate(encode(2));
    assert_eq!(cnf.nclause, 1);
    cnf.propagate(encode(3));
    assert_eq!(cnf.nclause, 0);
}

#[test]
fn zeroth_works() {
    let mut hs = HashSet::new();
    hs.insert(5);
    assert_eq!(zeroth(&hs), 5);
}

#[test]
fn zeroth_works_2() {
    let mut hs = HashSet::new();
    hs.insert(5);
    hs.insert(535);
    let zth = zeroth(&hs);
    assert!(zth == 5 || zth == 535);
}

#[test]
fn parser_error_variants() {
    assert_eq!(parse("c only a comment\n").err(), Some(DimacsError::NoProblemStatement));
    assert_eq!(parse("").err(), Some(DimacsError::NoProblemStatement));
    assert_eq!(parse("1 2 0\np cnf 2 1\n").err(), Some(DimacsError::NoProblemStatement));
    assert_eq!(parse("p cnf 3\n1 0\n").err(), Some(DimacsError::InvalidProblemStatement));
    assert_eq!(parse("p dnf 3 1\n1 0\n").err(), Some(DimacsError::InvalidProblemStatement));
    assert_eq!(parse("p cnf gd 3\n").err(), Some(DimacsError::InvalidProblemStatement));
    assert_eq!(parse("p cnf 0 3\n").err(), Some(DimacsError::InvalidVariableOrClauseCount));
    assert_eq!(parse("p cnf 3 0\n").err(), Some(DimacsError::InvalidVariableOrClauseCount));
    assert_eq!(
        parse("p cnf 3 3\n1 2 0\np cnf 3 3\n2 3 0\n1 -3 0\n").err(),
        Some(DimacsError::DuplicateProblemStatement)
    );
    assert_eq!(parse("p cnf 2 1\n1 0\n2 0\n").err(), Some(DimacsError::TooManyClauses));
    assert_eq!(
        parse("p cnf 5 5\n1 2 0\n2 3 0\n3 4 0\n4 5 0\n").err(),
        Some(DimacsError::TooFewClauses)
    );
    assert_eq!(parse("p cnf 2 1\n4 1 0\n").err(), Some(DimacsError::VariableOutOfRange));
    assert_eq!(parse("p cnf 2 1\n-3 1 0\n").err(), Some(DimacsError::VariableOutOfRange));
    assert_eq!(parse("x y\np cnf 2 1\n1 0\n").err(), Some(DimacsError::UnknownStatement));
    assert_eq!(parse("p cnf 2 1\n1 x 0\n").err(), Some(DimacsError::UnknownStatement));
}

#[test]
fn parser_builds_clauses_by_line() {
    let cnf = parse("c a formula\np cnf 3 3\n1 2 0\n2 3 0\n1 -3 0\n").unwrap();
    assert_eq!(cnf.nvar, 3);
    assert_eq!(cnf.nclause, 3);
    assert_eq!(cnf.clauses.len(), 3);
    let expect = |v: &[i32]| -> HashSet<i32> { v.iter().map(|&x| encode(x)).collect() };
    assert_eq!(cnf.clauses[&0], expect(&[1, 2]));
    assert_eq!(cnf.clauses[&1], expect(&[2, 3]));
    assert_eq!(cnf.clauses[&2], expect(&[1, -3]));
    assert!(index_is_exact(&cnf));
    assert!(cnf.units.is_empty());
}

#[test]
fn parser_keeps_an_empty_clause() {
    let cnf = parse("p cnf 1 2\n1 0\n0\n").unwrap();
    assert_eq!(cnf.clauses.len(), 2);
    assert!(cnf.clauses[&1].is_empty());
    assert!(index_is_exact(&cnf));
}

#[test]
fn duplicate_literals_collapse() {
    let cnf = parse("p cnf 2 1\n1 1 -2 1 0\n").unwrap();
    assert_eq!(cnf.clauses[&0].len(), 2);
}

#[test]
fn add_clause_counts_and_indexes() {
    let mut cnf = CNF::new(3, 0);
    assert_eq!(cnf.add_clause(vec![1, -2, 0]), Ok(()));
    assert_eq!(cnf.add_clause(vec![3]), Ok(()));
    assert_eq!(cnf.nclause, 2);
    assert_eq!(cnf.clauses.len(), 2);
    assert!(cnf.units.contains(&1));
    assert!(index_is_exact(&cnf));
    assert_eq!(cnf.add_clause(vec![1, 4, 0]), Err(DimacsError::VariableOutOfRange));
    assert_eq!(cnf.add_clause(vec![-4]), Err(DimacsError::VariableOutOfRange));
    assert_eq!(cnf.nclause, 2);
    assert_eq!(cnf.clauses.len(), 2);
}

#[test]
fn clause_ids_are_not_reused_after_deletion() {
    let mut cnf = CNF::new(3, 0);
    cnf.add_clause(vec![1, 0]).unwrap();
    cnf.add_clause(vec![2, 3, 0]).unwrap();
    cnf.propagate(encode(1));
    assert_eq!(cnf.clauses.len(), 1);
    cnf.add_clause(vec![-3, 0]).unwrap();
    assert!(cnf.clauses.contains_key(&1));
    assert!(cnf.clauses.contains_key(&2));
    assert!(!cnf.clauses.contains_key(&0));
    assert!(index_is_exact(&cnf));
}

#[test]
fn clause_literals_encodes_and_rejects() {
    let hs = clause_literals(&vec![2, -1, 0, 2], 2).unwrap();
    let expect: HashSet<i32> = [encode(2), encode(-1)].into_iter().collect();
    assert_eq!(hs, expect);
    assert_eq!(clause_literals(&vec![3], 2).err(), Some(DimacsError::VariableOutOfRange));
}

#[test]
fn index_stays_exact_under_propagation() {
    let mut cnf = parse("p cnf 4 5\n1 2 0\n-1 3 0\n-1 -2 4 0\n2 -4 0\n1 -1 3 0\n").unwrap();
    assert!(index_is_exact(&cnf));
    cnf.propagate(encode(1));
    assert!(index_is_exact(&cnf));
    // Clauses 0 and 4 contained 1; -1 left clauses 1 and 2.
    assert_eq!(cnf.clauses.len(), 3);
    assert_eq!(cnf.nclause, 3);
    assert_eq!(cnf.units.len(), 1);
    assert!(cnf.units.contains(&1));
    cnf.propagate(encode(-3));
    assert!(index_is_exact(&cnf));
    assert!(cnf.clauses[&1].is_empty());
    assert!(!cnf.units.contains(&1));
}

#[test]
fn propagating_twice_changes_nothing_more() {
    let mut cnf = parse("p cnf 3 4\n1 2 0\n-1 3 0\n1 0\n2 3 0\n").unwrap();
    cnf.propagate(encode(1));
    let nclause = cnf.nclause;
    let clauses = cnf.clauses.clone();
    let occurrences = cnf.occurrences.clone();
    let units = cnf.units.clone();
    cnf.propagate(encode(1));
    assert_eq!(cnf.nclause, nclause);
    assert_eq!(cnf.clauses, clauses);
    assert_eq!(cnf.occurrences, occurrences);
    assert_eq!(cnf.units, units);
}

#[test]
fn partial_assignment_assigns_and_unassigns() {
    let mut p = PartialAssignment::new(3);
    assert_eq!(p.assignment, vec![None, None, None]);
    assert_eq!(p.unassigned.len(), 3);
    p.assign_literal(encode(-2));
    assert_eq!(p.assignment, vec![None, Some(false), None]);
    assert!(!p.unassigned.contains(&1));
    p.assign_literal(encode(3));
    assert_eq!(p.assignment, vec![None, Some(false), Some(true)]);
    p.unassign_literal(encode(-2));
    assert_eq!(p.assignment, vec![None, None, Some(true)]);
    assert!(p.unassigned.contains(&1));
    assert_eq!(p.unassigned.len(), 2);
    let q = p.clone();
    p.assign_literal(encode(1));
    assert_eq!(q.assignment, vec![None, None, Some(true)]);
}

#[test]
fn format_output_renders_signed_variables() {
    assert_eq!(format_output(&vec![true, false, true]), "1 -2 3");
    assert_eq!(format_output(&vec![]), "");
    assert_eq!(format_output(&vec![false]), "-1");
    let mut many = vec![true; 12];
    many[10] = false;
    assert_eq!(format_output(&many), "1 2 3 4 5 6 7 8 9 10 -11 12");
}
