//! The engine end to end: evaluation, normal forms, satisfiability and set
//! evaluation through the public string entry points.

use boole::{conjunctive_normal_form, eval_formula, eval_set, negation_normal_form, parse};

fn compare(formula: &str, result: bool) {
    println!("{formula}: {result}");

    assert_eq!(eval_formula(formula), result);
}

fn compare_nnf(formula: &str, answer: &str) {
    let nnf = negation_normal_form(formula);

    println!("{formula}: {nnf} != {answer}");

    assert_eq!(nnf, answer);
}

fn compare_cnf(formula: &str, answer: &str) {
    let cnf = conjunctive_normal_form(formula);

    println!("{formula}: {cnf} - {answer}");

    assert_eq!(cnf, answer);
}

#[test]
fn main_eval() {
    compare("10&", false);
    compare("10|", true);
    compare("11>", true);
    compare("10=", false);
    compare("1011||=", true);
}

#[test]
fn main_nnf() {
    compare_nnf("AB&!", "A!B!|");
    compare_nnf("AB|!", "A!B!&");
    compare_nnf("AB>", "A!B|");
    compare_nnf("AB|C&!", "A!B!&C!|");
}

#[test]
fn cnf() {
    compare_cnf("AB&!", "A!B!|");
    compare_cnf("AB|!", "A!B!&");
    compare_cnf("AB|C&", "AB|C&");
    compare_cnf("AB|C|D|", "ABCD|||");
    compare_cnf("AB&C&D&", "ABCD&&&");
    compare_cnf("AB&!C!|", "A!B!C!||");
    compare_cnf("AB|!C!&", "A!B!C!&&");
}

#[test]
fn sat() {
    assert!(boole::sat("AB|"));
    assert!(boole::sat("AB&"));
    assert!(!boole::sat("AA!&"));
    assert!(!boole::sat("AA^"));
}

#[test]
fn rpn_test() {
    let cases = [
        ("10&", false),
        ("10|", true),
        ("11>", true),
        ("10=", false),
        ("1011||=", true),
    ];
    for (formula, result) in cases {
        println!("{formula}: {result}");

        assert_eq!(eval_formula(formula), result);
        assert_eq!(parse(formula).unwrap().formula(), formula);
    }
}

#[test]
fn tree_eval() {
    compare("10&", false);
    compare("10|", true);
    compare("11>", true);
    compare("10=", false);
    compare("1011||=", true);
}

#[test]
fn tree_nnf() {
    compare_nnf("AB|!", "A!B!&");
    compare_nnf("AB>", "A!B|");
    compare_nnf("AB|C&!", "A!B!&C!|");
}

#[test]
fn table_test() {
    assert_eq!(boole::sat("AB|"), true);
    assert_eq!(boole::sat("AB&"), true);
    assert_eq!(boole::sat("AA!&"), false);
    assert_eq!(boole::sat("AA^"), false);
}

fn compare_set(formula: &str, sets: Vec<Vec<i32>>, res: Vec<i32>) {
    assert_eq!(res, eval_set(formula, sets));
}

#[test]
fn set_test() {
    compare_set("AB&", vec![vec![0, 1, 2], vec![0, 3, 4]], vec![0]);
    compare_set("AB|", vec![vec![0, 1, 2], vec![3, 4, 5]], vec![0, 1, 2, 3, 4, 5]);
    compare_set("A!", vec![vec![0, 1, 2]], vec![]);
}
