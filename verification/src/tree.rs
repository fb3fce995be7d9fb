//! The tree wrapper that owns a formula's root node and exposes the
//! engine's entry points.

use vstd::prelude::*;

use crate::node::{map_of, Node};
use crate::rewrite::amp_canonical;
use crate::sets::sets_map;
use crate::table::{is_var_seq, table_str};

verus! {

/// A parsed formula.  Its view is the root [`Node`].
#[derive(Debug)]
pub struct Tree {
    pub root: Node,
}

impl Clone for Tree {
    /// Deep copy: the clone is equal to the original tree.
    fn clone(&self) -> (r: Self)
        ensures
            r == *self,
    {
        Tree { root: self.root.clone() }
    }
}

impl View for Tree {
    type V = Node;

    open spec fn view(&self) -> Node {
        self.root
    }
}

impl Tree {
    /// Writes the formula back out in postfix notation.
    pub fn formula(&self) -> (r: String)
        requires
            self@.wf(),
        ensures
            r@ == self@.ser(),
    {
        self.root.formula()
    }

    /// Evaluates a closed formula, one with no variables.
    pub fn evaluate(&self) -> (r: bool)
        requires
            self@.wf(),
            self@.vars() == Set::<char>::empty(),
        ensures
            forall|m: Map<char, bool>| r == self@.truth(m),
    {
        self.root.evaluate()
    }

    /// Evaluates the formula under a total assignment: entry `i` of
    /// `assignment` is the value of the `i`-th uppercase letter.
    pub fn evaluate_with(&self, assignment: &Vec<bool>) -> (r: bool)
        requires
            self@.wf(),
            assignment.len() == 26,
        ensures
            r == self@.truth(map_of(assignment@)),
    {
        self.root.evaluate_with(assignment)
    }

    /// Evaluates the formula over sets of integers; see
    /// [`Node::evaluate_sets`].
    pub fn evaluate_sets(
        &self,
        encompassing: &Vec<i32>,
        vars: &Vec<char>,
        sets: &Vec<Vec<i32>>,
    ) -> (r: Vec<i32>)
        requires
            self@.wf(),
            !self@.has_literal(),
            forall|c: char| #[trigger] self@.vars().contains(c) ==> vars@.contains(c),
            vars@.len() == sets@.len(),
            forall|i: int| 0 <= i < sets@.len() ==> (#[trigger] sets@[i])@.no_duplicates(),
            encompassing@.no_duplicates(),
        ensures
            r@.no_duplicates(),
            r@.to_set() == self@.set_val(
                encompassing@.to_set(),
                sets_map(vars@, sets.deep_view()),
            ),
    {
        self.root.evaluate_sets(encompassing, vars, sets)
    }

    /// Rewrites the formula into negation normal form, preserving its
    /// truth value under every assignment.
    pub fn to_nnf(&mut self)
        requires
            old(self)@.wf(),
        ensures
            final (self)@ == old(self)@.simplified_form().nnf_form(),
            final (self)@.wf(),
            final (self)@.nnf(),
            forall|m: Map<char, bool>| final (self)@.truth(m) == old(self)@.truth(m),
    {
        self.root.to_nnf();
    }

    /// Rewrites the formula into conjunctive normal form, preserving its
    /// truth value under every assignment.
    pub fn to_cnf(&mut self)
        requires
            old(self)@.wf(),
        ensures
            final (self)@ == old(self)@.simplified_form().nnf_form().cnf_form(),
            final (self)@.wf(),
            final (self)@.cnf(),
            forall|m: Map<char, bool>| final (self)@.truth(m) == old(self)@.truth(m),
    {
        self.root.to_cnf();
    }

    /// Pushes the conjunctions of a formula in conjunctive normal form to
    /// the end of its serialization by right-rotating the conjunction
    /// chains.
    pub fn push_conjunctions(&mut self)
        requires
            old(self)@.wf(),
            old(self)@.cnf(),
        ensures
            final (self)@ == old(self)@.right_balanced_form(),
            final (self)@.wf(),
            final (self)@.cnf(),
            amp_canonical(final (self)@.ser()),
            forall|m: Map<char, bool>| final (self)@.truth(m) == old(self)@.truth(m),
    {
        self.root.right_balance_conjunctions();
    }

    /// Whether the formula is in negation normal form.
    pub fn is_nnf(&self) -> (r: bool)
        requires
            self@.wf(),
        ensures
            r == self@.nnf(),
    {
        self.root.is_nnf()
    }

    /// Whether the formula is in conjunctive normal form.
    pub fn is_cnf(&self) -> (r: bool)
        requires
            self@.wf(),
        ensures
            r == self@.cnf(),
    {
        self.root.is_cnf()
    }

    /// Whether some assignment makes the formula true.
    pub fn sat(&self) -> (r: bool)
        requires
            self@.wf(),
        ensures
            r <==> exists|m: Map<char, bool>| self@.truth(m),
    {
        self.root.sat()
    }

    /// The distinct variables of the formula, sorted ascending.
    pub fn variables(&self) -> (r: String)
        requires
            self@.wf(),
        ensures
            r@ == self@.var_seq(),
            is_var_seq(self@, r@),
            r@.len() <= 26,
    {
        self.root.variables()
    }

    /// The rendered truth table of the formula.
    pub fn truth_table(&self) -> (r: String)
        requires
            self@.wf(),
        ensures
            r@ == table_str(self@),
    {
        self.root.truth_table()
    }
}

} // verus!
