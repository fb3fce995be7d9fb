//! A propositional-logic engine over postfix (reverse-Polish) formulas.
//!
//! A formula is a string over `{0, 1, A-Z, !, &, |, ^, >, =}` in strict
//! postfix order.  The library parses such a string into a binary expression
//! tree, evaluates it under an assignment, rewrites it into negation normal
//! form and conjunctive normal form, derives a truth table, decides
//! satisfiability by exhaustive enumeration, and evaluates the same formula
//! over sets of integers.

use vstd::prelude::*;

pub mod clause;
pub mod math;
pub mod node;
pub mod outside;
pub mod parser;
pub mod rewrite;
pub mod sets;
pub mod table;
pub mod tree;

pub use clause::Clause;
pub use math::{adder, gray_code, multiplier};
pub use node::Node;
pub use parser::{parse, ParseError};
pub use sets::{eval_set, powerset};
pub use tree::Tree;

use crate::parser::{lemma_ser_parses_back, parsed, valid_formula};
use crate::rewrite::amp_canonical;

verus! {

/// Parses a closed formula, one over `0` and `1` only, and evaluates it.
///
/// A closed formula has the same truth value under every assignment.
pub fn eval_formula(formula: &str) -> (r: bool)
    requires
        valid_formula(formula@),
        parsed(formula@).vars() == Set::<char>::empty(),
    ensures
        forall|m: Map<char, bool>| r == parsed(formula@).truth(m),
{
    let tree = match parse(formula) {
        Ok(t) => t,
        Err(_) => {
            proof {
                assert(false);
            }
            return false;
        },
    };
    tree.evaluate()
}

/// Parses a formula and writes back its negation normal form, in which
/// negation wraps only constants and variables and the only connectives
/// are conjunction and disjunction.  The rewriting preserves the truth
/// value under every assignment.
pub fn negation_normal_form(formula: &str) -> (r: String)
    requires
        valid_formula(formula@),
    ensures
        r@ == parsed(formula@).simplified_form().nnf_form().ser(),
        valid_formula(r@),
        parsed(r@) == parsed(formula@).simplified_form().nnf_form(),
        parsed(formula@).simplified_form().nnf_form().nnf(),
        forall|m: Map<char, bool>|
            parsed(formula@).simplified_form().nnf_form().truth(m) == parsed(formula@).truth(m),
{
    let mut tree = match parse(formula) {
        Ok(t) => t,
        Err(_) => {
            proof {
                assert(false);
            }
            return String::new();
        },
    };
    tree.to_nnf();
    proof {
        lemma_ser_parses_back(tree@);
    }
    tree.formula()
}

/// Parses a formula and writes back its conjunctive normal form: a
/// conjunction of disjunctions of possibly negated operands, with the
/// conjunctions right-associated so that once a `&` appears in the output
/// only `&` follows.  The rewriting preserves the truth value under every
/// assignment.
pub fn conjunctive_normal_form(formula: &str) -> (r: String)
    requires
        valid_formula(formula@),
    ensures
        r@ == parsed(formula@).simplified_form().nnf_form().cnf_form().unbalanced_form().ser(),
        valid_formula(r@),
        parsed(r@) == parsed(formula@).simplified_form().nnf_form().cnf_form().unbalanced_form(),
        parsed(formula@).simplified_form().nnf_form().cnf_form().unbalanced_form().cnf(),
        amp_canonical(r@),
        forall|m: Map<char, bool>|
            parsed(formula@).simplified_form().nnf_form().cnf_form().unbalanced_form().truth(m)
                == parsed(formula@).truth(m),
{
    let mut tree = match parse(formula) {
        Ok(t) => t,
        Err(_) => {
            proof {
                assert(false);
            }
            return String::new();
        },
    };
    tree.to_cnf();
    tree.root.unbalance();
    proof {
        lemma_ser_parses_back(tree@);
    }
    tree.formula()
}

/// Parses a formula and decides whether some assignment of truth values to
/// its variables makes it true.
pub fn sat(formula: &str) -> (r: bool)
    requires
        valid_formula(formula@),
    ensures
        r <==> exists|m: Map<char, bool>| parsed(formula@).truth(m),
{
    let tree = match parse(formula) {
        Ok(t) => t,
        Err(_) => {
            proof {
                assert(false);
            }
            return false;
        },
    };
    tree.sat()
}

} // verus!
