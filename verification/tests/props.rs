//! Scenario tests for the library's stated properties: parsing round
//! trips, the typed parse errors, the normal forms, the truth table, the
//! set evaluator and the powerset.

use boole::{
    conjunctive_normal_form, eval_set, negation_normal_form, parse, powerset, Clause, Node,
    ParseError,
};

#[test]
fn round_trip() {
    for formula in ["0", "1", "A", "AB&", "AB|C&!", "AB=C=", "AB^CD>|ZY&=", "1011||="] {
        assert_eq!(parse(formula).unwrap().formula(), formula);
    }
}

#[test]
fn parse_errors() {
    assert_eq!(parse("").unwrap_err(), ParseError::EmptyFormula);
    assert_eq!(parse("AB").unwrap_err(), ParseError::TooManyOperands);
    assert_eq!(parse("A&").unwrap_err(), ParseError::InsufficientOperands);
    assert_eq!(parse("!").unwrap_err(), ParseError::InsufficientOperands);
    assert_eq!(parse("a").unwrap_err(), ParseError::InvalidSymbol);
    assert_eq!(parse("AB&#").unwrap_err(), ParseError::InvalidSymbol);
    // The scan stops at the first failure.
    assert_eq!(parse("&a").unwrap_err(), ParseError::InsufficientOperands);
}

/// All assignments of the formula's variables, as 26-entry vectors.
fn all_assignments(variables: &str) -> Vec<Vec<bool>> {
    let vars: Vec<char> = variables.chars().collect();
    let k = vars.len();
    let mut all = Vec::new();
    for i in 0..(1usize << k) {
        let mut a = vec![false; 26];
        for (p, c) in vars.iter().enumerate() {
            a[(*c as u8 - b'A') as usize] = i & (1 << (k - 1 - p)) != 0;
        }
        all.push(a);
    }
    all
}

#[test]
fn nnf_preserves_truth() {
    for formula in ["AB=", "AB^", "AB>C=!", "AB|C&!", "A!!!", "AB=C=", "A0&1|B^"] {
        let tree = parse(formula).unwrap();
        let mut rewritten = parse(formula).unwrap();
        rewritten.to_nnf();
        assert!(rewritten.is_nnf());
        for a in all_assignments(&tree.variables()) {
            assert_eq!(tree.evaluate_with(&a), rewritten.evaluate_with(&a));
        }
    }
}

#[test]
fn cnf_preserves_truth_and_shape() {
    for formula in ["AB=", "AB^", "AB>C=!", "AB|C&!", "AB&C|", "AB=C=", "AB&CD&|"] {
        let tree = parse(formula).unwrap();
        let cnf = conjunctive_normal_form(formula);
        let rewritten = parse(&cnf).unwrap();
        assert!(rewritten.is_cnf());
        for a in all_assignments(&tree.variables()) {
            assert_eq!(tree.evaluate_with(&a), rewritten.evaluate_with(&a));
        }
        // Once a conjunction appears, conjunctions are all that remain.
        if let Some(index) = cnf.chars().position(|c| c == '&') {
            assert!(cnf.chars().skip(index).all(|c| c == '&'));
        }
    }
}

#[test]
fn nnf_examples() {
    assert_eq!(negation_normal_form("A"), "A");
    assert_eq!(negation_normal_form("A!!"), "A");
    assert_eq!(negation_normal_form("AB="), "A!B|B!A|&");
    assert_eq!(negation_normal_form("AB^"), "AB|A!B!|&");
}

#[test]
fn sat_more() {
    assert!(boole::sat("1"));
    assert!(!boole::sat("0"));
    assert!(boole::sat("AA!|"));
    assert!(!boole::sat("AA=!"));
    assert!(boole::sat("AB=C="));
}

#[test]
fn variables_sorted_distinct() {
    assert_eq!(parse("BA|A&B^C|").unwrap().variables(), "ABC");
    assert_eq!(parse("10&").unwrap().variables(), "");
    assert_eq!(parse("ZA|").unwrap().variables(), "AZ");
}

#[test]
fn truth_table_exact() {
    let table = parse("AB&").unwrap().truth_table();
    let expected = "| A | B | = |\n\
                    |---|---|---|\n\
                    | 0 | 0 | 0 |\n\
                    | 0 | 1 | 0 |\n\
                    | 1 | 0 | 0 |\n\
                    | 1 | 1 | 1 |";
    assert_eq!(table, expected);
}

#[test]
fn truth_table_row_count() {
    for (formula, k) in [("A", 1), ("AB|", 2), ("AB|C&", 3), ("1", 0)] {
        let table = parse(formula).unwrap().truth_table();
        assert_eq!(table.lines().count(), 2 + (1 << k));
    }
}

#[test]
fn set_eval_more() {
    // Overlapping sets: the union holds each element once.
    assert_eq!(eval_set("AB|", vec![vec![0, 1], vec![1, 2]]), vec![0, 1, 2]);
    // Symmetric difference.
    assert_eq!(eval_set("AB^", vec![vec![0, 1], vec![1, 2]]), vec![0, 2]);
    // Material implication relative to the universe.
    assert_eq!(eval_set("AB>", vec![vec![0], vec![1]]), vec![1]);
    // Equivalence keeps the elements whose memberships agree.
    assert_eq!(eval_set("AB=", vec![vec![0, 1], vec![1, 2]]), vec![1]);
    // A repeated variable is bound to its first set.
    assert_eq!(eval_set("AA&", vec![vec![1, 2], vec![3, 4]]), vec![1, 2]);
}

#[test]
fn powerset_small() {
    let expected: Vec<Vec<i32>> = vec![
        vec![],
        vec![1],
        vec![2],
        vec![3],
        vec![1, 2],
        vec![1, 3],
        vec![2, 3],
        vec![1, 2, 3],
    ];
    assert_eq!(powerset(vec![1, 2, 3]), expected);
    assert_eq!(powerset(vec![]), vec![Vec::<i32>::new()]);
}

#[test]
fn node_shape() {
    let tree = parse("AB&").unwrap();
    assert_eq!(tree.root.clause(), Clause::Conjunction);
    assert_eq!(tree.root.left().clause(), Clause::Variable('A'));
    assert_eq!(tree.root.right().clause(), Clause::Variable('B'));
    assert_eq!(tree.root.depth(), 1);
    let leaf = Node::new(Clause::Value(true), None, None);
    assert_eq!(leaf.formula(), "1");
}

#[test]
fn clause_codec() {
    for c in "01ABZ!&|^>=".chars() {
        assert!(Clause::symbol_char(c));
        assert_eq!(Clause::from(c).to(), c);
    }
    assert!(!Clause::symbol_char('a'));
    assert!(!Clause::symbol_char(' '));
    assert_eq!(Clause::Conjunction.symbol(), '∧');
    assert_eq!(Clause::Value(false).symbol(), '⊥');
    assert_eq!(Clause::Variable('Q').symbol(), 'Q');
}

#[test]
fn simplify_passes() {
    let mut tree = parse("AB>").unwrap();
    tree.root.implies();
    assert_eq!(tree.formula(), "A!B|");

    let mut tree = parse("AB=").unwrap();
    tree.root.simplify();
    assert_eq!(tree.formula(), "A!B|B!A|&");
}

#[test]
fn evaluate_with_assignment() {
    let tree = parse("AB&").unwrap();
    let mut a = vec![false; 26];
    a[0] = true;
    assert!(!tree.evaluate_with(&a));
    a[1] = true;
    assert!(tree.evaluate_with(&a));
}

#[test]
fn arithmetic_edges() {
    assert_eq!(boole::adder(u32::MAX, 1), 0);
    assert_eq!(boole::adder(0, 0), 0);
    assert_eq!(boole::multiplier(u32::MAX, 2), u32::MAX - 1);
    assert_eq!(boole::multiplier(0x10000, 0x10000), 0);
    assert_eq!(boole::gray_code(0), 0);
}
