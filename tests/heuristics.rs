use satyrs::cnf::CNF;
use satyrs::dimacs::parse_dimacs;
use satyrs::heuristics::{compare_weights, jw, max_clause_len, min_clause_len, mom, random};
use satyrs::literal::encode;

fn parse(text: &str) -> CNF {
    parse_dimacs(text.as_bytes()).unwrap()
}

#[test]
fn jw_works() {
    let cnf = parse(
        "
            p cnf 4 4
            1 2 0
            1 3 0
            1 4 0
            -1 2 0
        ",
    );
    // The heuristic should select variable 1, positively.
    assert_eq!(jw(&cnf), encode(1));
}

#[test]
fn jw_works_2() {
    let cnf = parse(
        "
            p cnf 5 5
            1 2 0
            1 3 5 0
            2 5 0
            1 4 3 0
            -1 2 0
        ",
    );
    // Now, although 1 occurs several times, 2 occurs the most in small clauses
    assert_eq!(jw(&cnf), encode(2));
}

#[test]
fn jw_breaks_ties_by_smallest_token() {
    // Both polarities of both variables weigh 1/4.
    let cnf = parse("p cnf 2 2\n1 2 0\n-1 -2 0\n");
    assert_eq!(jw(&cnf), encode(1));
    let cnf = parse("p cnf 3 2\n3 2 0\n-3 -2 0\n");
    assert_eq!(jw(&cnf), encode(2));
}

#[test]
fn jw_weighs_short_clauses_exponentially() {
    // 3 occurs in one clause of length 1 (weight 1/2); 1 occurs in three
    // clauses of length 3 (weight 3/8).
    let cnf = parse("p cnf 5 4\n3 0\n1 2 4 0\n1 4 5 0\n1 2 5 0\n");
    assert_eq!(jw(&cnf), encode(3));
    // Four clauses of length 3 (weight 1/2) tie with one unit clause; the
    // smaller token wins.
    let cnf = parse("p cnf 5 5\n3 0\n1 2 4 0\n1 4 5 0\n1 2 5 0\n1 -2 -4 0\n");
    assert_eq!(jw(&cnf), encode(1));
}

#[test]
fn compare_weights_is_exact() {
    // 2/4 against 1/2 + 0/4: equal.
    assert_eq!(compare_weights(&vec![0, 0, 2], &vec![0, 1, 0]), 0);
    // 3/4 against 1/2.
    assert_eq!(compare_weights(&vec![0, 0, 3], &vec![0, 1, 0]), 1);
    // 1/8 against 1/4.
    assert_eq!(compare_weights(&vec![0, 0, 0, 1], &vec![0, 0, 1, 0]), -1);
    // Deep differences are not lost to rounding.
    let mut a = vec![0u64; 200];
    let mut b = vec![0u64; 200];
    a[1] = 1;
    b[1] = 1;
    a[199] = 1;
    assert_eq!(compare_weights(&a, &b), 1);
    assert_eq!(compare_weights(&b, &a), -1);
}

#[test]
fn max_clause_len_finds_longest() {
    let cnf = parse("p cnf 5 3\n1 0\n1 2 3 4 0\n2 5 0\n");
    assert_eq!(max_clause_len(&cnf), 4);
}

#[test]
fn random_picks_an_occurring_literal() {
    let cnf = parse("p cnf 3 2\n1 -2 0\n3 0\n");
    let lit = random(&cnf);
    assert!(cnf.clauses.values().any(|c| c.contains(&lit)));
}

#[test]
fn mom_prefers_both_polarities_in_shortest_clauses() {
    // Shortest clauses have two literals: 1 is in two of them (score
    // 2 * 1024), 2 and -2 are in one each (score 2 * 1024 + 1).
    let cnf = parse("p cnf 3 3\n1 2 0\n1 -2 0\n3 1 2 0\n");
    assert_eq!(min_clause_len(&cnf), 2);
    assert_eq!(mom(&cnf), encode(2));
}

#[test]
fn mom_counts_only_shortest_clauses() {
    let cnf = parse("p cnf 4 4\n3 0\n1 2 0\n1 4 0\n1 2 4 0\n");
    assert_eq!(min_clause_len(&cnf), 1);
    assert_eq!(mom(&cnf), encode(3));
}
