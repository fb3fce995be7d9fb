//! The rewrite engine: simplification (eliminating equivalence, material
//! implication and exclusive or), negation normal form, conjunctive normal
//! form, and the right-rotation pass that canonicalizes serialized output.
//!
//! Every transformation is specified as a spec-level function on trees; the
//! executable methods are proved to compute exactly those functions, to
//! preserve the truth value of the formula under every assignment, and to
//! establish the advertised normal form.

use vstd::prelude::*;

use crate::clause::Clause;
use crate::node::Node;

verus! {

impl Node {
    /// No equivalence connective occurs in this tree.
    pub open spec fn no_equivalence(self) -> bool
        decreases self,
    {
        &&& !(self.clause is Equivalence)
        &&& match self.left {
            Some(l) => l.no_equivalence(),
            None => true,
        }
        &&& match self.right {
            Some(r) => r.no_equivalence(),
            None => true,
        }
    }

    /// No material implication occurs in this tree.
    pub open spec fn no_material(self) -> bool
        decreases self,
    {
        &&& !(self.clause is Material)
        &&& match self.left {
            Some(l) => l.no_material(),
            None => true,
        }
        &&& match self.right {
            Some(r) => r.no_material(),
            None => true,
        }
    }

    /// No exclusive or occurs in this tree.
    pub open spec fn no_exclusive(self) -> bool
        decreases self,
    {
        &&& !(self.clause is Exclusive)
        &&& match self.left {
            Some(l) => l.no_exclusive(),
            None => true,
        }
        &&& match self.right {
            Some(r) => r.no_exclusive(),
            None => true,
        }
    }

    /// The tree with every equivalence `A = B` rewritten into
    /// `(A > B) & (B > A)`, which duplicates both operands.
    pub open spec fn rw_equivalence(self) -> Node
        decreases self,
    {
        match (self.clause, self.left, self.right) {
            (Clause::Equivalence, Some(l), Some(r)) => {
                let a = l.rw_equivalence();
                let b = r.rw_equivalence();
                Node::bin(
                    Clause::Conjunction,
                    Node::bin(Clause::Material, a, b),
                    Node::bin(Clause::Material, b, a),
                )
            },
            (_, l, r) => Node {
                clause: self.clause,
                left: match l {
                    Some(l) => Some(Box::new(l.rw_equivalence())),
                    None => None,
                },
                right: match r {
                    Some(r) => Some(Box::new(r.rw_equivalence())),
                    None => None,
                },
            },
        }
    }

    /// The tree with every material implication `A > B` rewritten into
    /// `!A | B`.
    pub open spec fn rw_material(self) -> Node
        decreases self,
    {
        match (self.clause, self.left, self.right) {
            (Clause::Material, Some(l), Some(r)) => Node::bin(
                Clause::Disjunction,
                Node::neg(l.rw_material()),
                r.rw_material(),
            ),
            (_, l, r) => Node {
                clause: self.clause,
                left: match l {
                    Some(l) => Some(Box::new(l.rw_material())),
                    None => None,
                },
                right: match r {
                    Some(r) => Some(Box::new(r.rw_material())),
                    None => None,
                },
            },
        }
    }

    /// The tree with every exclusive or `A ^ B` rewritten into
    /// `(A | B) & !(A & B)`, which duplicates both operands.
    pub open spec fn rw_exclusive(self) -> Node
        decreases self,
    {
        match (self.clause, self.left, self.right) {
            (Clause::Exclusive, Some(l), Some(r)) => {
                let a = l.rw_exclusive();
                let b = r.rw_exclusive();
                Node::bin(
                    Clause::Conjunction,
                    Node::bin(Clause::Disjunction, a, b),
                    Node::neg(Node::bin(Clause::Conjunction, a, b)),
                )
            },
            (_, l, r) => Node {
                clause: self.clause,
                left: match l {
                    Some(l) => Some(Box::new(l.rw_exclusive())),
                    None => None,
                },
                right: match r {
                    Some(r) => Some(Box::new(r.rw_exclusive())),
                    None => None,
                },
            },
        }
    }

    /// What `simplify` computes: equivalence elimination first (it
    /// introduces implications), then implication elimination, then
    /// exclusive-or elimination.
    pub open spec fn simplified_form(self) -> Node {
        self.rw_equivalence().rw_material().rw_exclusive()
    }
}

/// Equivalence elimination leaves a well-formed tree with no equivalence
/// connective, preserves the truth value under every assignment, and
/// introduces no exclusive or.
pub proof fn lemma_rw_equivalence(n: Node)
    requires
        n.wf(),
    ensures
        n.rw_equivalence().wf(),
        n.rw_equivalence().no_equivalence(),
        n.no_exclusive() ==> n.rw_equivalence().no_exclusive(),
        forall|m: Map<char, bool>| n.rw_equivalence().truth(m) == n.truth(m),
    decreases n,
{
    reveal_with_fuel(Node::truth, 4);
    reveal_with_fuel(Node::wf, 4);
    reveal_with_fuel(Node::no_equivalence, 4);
    reveal_with_fuel(Node::no_exclusive, 4);
    match n.left {
        Some(l) => lemma_rw_equivalence(*l),
        None => {},
    }
    match n.right {
        Some(r) => lemma_rw_equivalence(*r),
        None => {},
    }
    assert forall|m: Map<char, bool>| n.rw_equivalence().truth(m) == n.truth(m) by {
        reveal_with_fuel(Node::truth, 4);
        match n.left {
            Some(l) => assert(l.rw_equivalence().truth(m) == l.truth(m)),
            None => {},
        }
        match n.right {
            Some(r) => assert(r.rw_equivalence().truth(m) == r.truth(m)),
            None => {},
        }
    }
}

/// Implication elimination leaves a well-formed tree with no material
/// implication, preserves the truth value under every assignment, and
/// introduces neither equivalence nor exclusive or.
pub proof fn lemma_rw_material(n: Node)
    requires
        n.wf(),
    ensures
        n.rw_material().wf(),
        n.rw_material().no_material(),
        n.no_equivalence() ==> n.rw_material().no_equivalence(),
        n.no_exclusive() ==> n.rw_material().no_exclusive(),
        forall|m: Map<char, bool>| n.rw_material().truth(m) == n.truth(m),
    decreases n,
{
    reveal_with_fuel(Node::truth, 4);
    reveal_with_fuel(Node::wf, 4);
    reveal_with_fuel(Node::no_equivalence, 4);
    reveal_with_fuel(Node::no_material, 4);
    reveal_with_fuel(Node::no_exclusive, 4);
    match n.left {
        Some(l) => lemma_rw_material(*l),
        None => {},
    }
    match n.right {
        Some(r) => lemma_rw_material(*r),
        None => {},
    }
    assert forall|m: Map<char, bool>| n.rw_material().truth(m) == n.truth(m) by {
        reveal_with_fuel(Node::truth, 4);
        match n.left {
            Some(l) => assert(l.rw_material().truth(m) == l.truth(m)),
            None => {},
        }
        match n.right {
            Some(r) => assert(r.rw_material().truth(m) == r.truth(m)),
            None => {},
        }
    }
}

/// Exclusive-or elimination leaves a well-formed tree with no exclusive or,
/// preserves the truth value under every assignment, and introduces neither
/// equivalence nor material implication.
pub proof fn lemma_rw_exclusive(n: Node)
    requires
        n.wf(),
    ensures
        n.rw_exclusive().wf(),
        n.rw_exclusive().no_exclusive(),
        n.no_equivalence() ==> n.rw_exclusive().no_equivalence(),
        n.no_material() ==> n.rw_exclusive().no_material(),
        forall|m: Map<char, bool>| n.rw_exclusive().truth(m) == n.truth(m),
    decreases n,
{
    reveal_with_fuel(Node::truth, 4);
    reveal_with_fuel(Node::wf, 4);
    reveal_with_fuel(Node::no_equivalence, 4);
    reveal_with_fuel(Node::no_material, 4);
    reveal_with_fuel(Node::no_exclusive, 4);
    match n.left {
        Some(l) => lemma_rw_exclusive(*l),
        None => {},
    }
    match n.right {
        Some(r) => lemma_rw_exclusive(*r),
        None => {},
    }
    assert forall|m: Map<char, bool>| n.rw_exclusive().truth(m) == n.truth(m) by {
        reveal_with_fuel(Node::truth, 4);
        match n.left {
            Some(l) => assert(l.rw_exclusive().truth(m) == l.truth(m)),
            None => {},
        }
        match n.right {
            Some(r) => assert(r.rw_exclusive().truth(m) == r.truth(m)),
            None => {},
        }
    }
}

/// The three passes together leave a well-formed tree that contains only
/// constants, variables, negation, conjunction and disjunction, with the
/// truth value intact.
pub proof fn lemma_simplified_form(n: Node)
    requires
        n.wf(),
    ensures
        n.simplified_form().wf(),
        n.simplified_form().simplified(),
        forall|m: Map<char, bool>| n.simplified_form().truth(m) == n.truth(m),
{
    lemma_rw_equivalence(n);
    lemma_rw_material(n.rw_equivalence());
    lemma_rw_exclusive(n.rw_equivalence().rw_material());
    lemma_simplified_parts(n.simplified_form());
}

/// A tree free of each of the three eliminated connectives separately is
/// simplified.
proof fn lemma_simplified_parts(n: Node)
    requires
        n.no_equivalence(),
        n.no_material(),
        n.no_exclusive(),
    ensures
        n.simplified(),
    decreases n,
{
    match n.left {
        Some(l) => lemma_simplified_parts(*l),
        None => {},
    }
    match n.right {
        Some(r) => lemma_simplified_parts(*r),
        None => {},
    }
}

impl Node {
    /// Consumes the tree and eliminates every equivalence.
    fn equivalence(self) -> (r: Node)
        ensures
            r == self.rw_equivalence(),
        decreases self,
    {
        let Node { clause, left, right } = self;
        let left = match left {
            Some(l) => Some(Box::new((*l).equivalence())),
            None => None,
        };
        let right = match right {
            Some(r) => Some(Box::new((*r).equivalence())),
            None => None,
        };
        match (clause, left, right) {
            (Clause::Equivalence, Some(a), Some(b)) => {
                let a = *a;
                let b = *b;
                let a2 = a.clone();
                let b2 = b.clone();
                Node {
                    clause: Clause::Conjunction,
                    left: Some(
                        Box::new(
                            Node {
                                clause: Clause::Material,
                                left: Some(Box::new(a)),
                                right: Some(Box::new(b)),
                            },
                        ),
                    ),
                    right: Some(
                        Box::new(
                            Node {
                                clause: Clause::Material,
                                left: Some(Box::new(b2)),
                                right: Some(Box::new(a2)),
                            },
                        ),
                    ),
                }
            },
            (clause, left, right) => Node { clause, left, right },
        }
    }

    /// Consumes the tree and eliminates every material implication.
    fn material(self) -> (r: Node)
        ensures
            r == self.rw_material(),
        decreases self,
    {
        let Node { clause, left, right } = self;
        let left = match left {
            Some(l) => Some(Box::new((*l).material())),
            None => None,
        };
        let right = match right {
            Some(r) => Some(Box::new((*r).material())),
            None => None,
        };
        match (clause, left, right) {
            (Clause::Material, Some(a), Some(b)) => Node {
                clause: Clause::Disjunction,
                left: Some(Box::new(Node { clause: Clause::Negation, left: Some(a), right: None })),
                right: Some(b),
            },
            (clause, left, right) => Node { clause, left, right },
        }
    }

    /// Consumes the tree and eliminates every exclusive or.
    fn exclusivity(self) -> (r: Node)
        ensures
            r == self.rw_exclusive(),
        decreases self,
    {
        let Node { clause, left, right } = self;
        let left = match left {
            Some(l) => Some(Box::new((*l).exclusivity())),
            None => None,
        };
        let right = match right {
            Some(r) => Some(Box::new((*r).exclusivity())),
            None => None,
        };
        match (clause, left, right) {
            (Clause::Exclusive, Some(a), Some(b)) => {
                let a = *a;
                let b = *b;
                let a2 = a.clone();
                let b2 = b.clone();
                let both = Node {
                    clause: Clause::Conjunction,
                    left: Some(Box::new(a2)),
                    right: Some(Box::new(b2)),
                };
                Node {
                    clause: Clause::Conjunction,
                    left: Some(
                        Box::new(
                            Node {
                                clause: Clause::Disjunction,
                                left: Some(Box::new(a)),
                                right: Some(Box::new(b)),
                            },
                        ),
                    ),
                    right: Some(
                        Box::new(
                            Node {
                                clause: Clause::Negation,
                                left: Some(Box::new(both)),
                                right: None,
                            },
                        ),
                    ),
                }
            },
            (clause, left, right) => Node { clause, left, right },
        }
    }

    /// Rewrites every material implication `A > B` in place into `!A | B`.
    ///
    /// This is one of the passes of `simplify`; run after equivalence
    /// elimination it leaves the tree implication-free.
    pub fn implies(&mut self)
        requires
            old(self).wf(),
        ensures
            *final (self) == old(self).rw_material(),
            final (self).wf(),
            final (self).no_material(),
            forall|m: Map<char, bool>| final (self).truth(m) == old(self).truth(m),
    {
        let mut tmp = Node { clause: Clause::Value(false), left: None, right: None };
        core::mem::swap(self, &mut tmp);
        *self = tmp.material();
        proof {
            lemma_rw_material(*old(self));
        }
    }

    /// Eliminates equivalence, material implication and exclusive or, in
    /// that order, leaving only constants, variables, negation, conjunction
    /// and disjunction, with the truth value intact under every assignment.
    pub fn simplify(&mut self)
        requires
            old(self).wf(),
        ensures
            *final (self) == old(self).simplified_form(),
            final (self).wf(),
            final (self).simplified(),
            forall|m: Map<char, bool>| final (self).truth(m) == old(self).truth(m),
    {
        let mut tmp = Node { clause: Clause::Value(false), left: None, right: None };
        core::mem::swap(self, &mut tmp);
        *self = tmp.equivalence().material().exclusivity();
        proof {
            lemma_simplified_form(*old(self));
        }
    }
}

impl Node {
    /// The negation normal form of a simplified tree: De Morgan's laws push
    /// negations inward and double negations collapse, until negation wraps
    /// only constants and variables.
    pub open spec fn nnf_form(self) -> Node
        decreases self.size(),
        via Self::nnf_form_decreases
    {
        match (self.clause, self.left, self.right) {
            (Clause::Conjunction, Some(l), Some(r)) => Node::bin(
                Clause::Conjunction,
                l.nnf_form(),
                r.nnf_form(),
            ),
            (Clause::Disjunction, Some(l), Some(r)) => Node::bin(
                Clause::Disjunction,
                l.nnf_form(),
                r.nnf_form(),
            ),
            (Clause::Negation, Some(l), _) => match (l.clause, l.left, l.right) {
                (Clause::Negation, Some(ll), _) => ll.nnf_form(),
                (Clause::Conjunction, Some(a), Some(b)) => Node::bin(
                    Clause::Disjunction,
                    Node::neg(*a).nnf_form(),
                    Node::neg(*b).nnf_form(),
                ),
                (Clause::Disjunction, Some(a), Some(b)) => Node::bin(
                    Clause::Conjunction,
                    Node::neg(*a).nnf_form(),
                    Node::neg(*b).nnf_form(),
                ),
                _ => self,
            },
            _ => self,
        }
    }

    #[via_fn]
    proof fn nnf_form_decreases(self) {
        reveal_with_fuel(Node::size, 4);
    }
}

/// On a simplified well-formed tree, pushing negations inward yields a
/// well-formed tree in negation normal form with the truth value intact
/// under every assignment.
pub proof fn lemma_nnf_form(n: Node)
    requires
        n.wf(),
        n.simplified(),
    ensures
        n.nnf_form().wf(),
        n.nnf_form().nnf(),
        n.nnf_form().simplified(),
        forall|m: Map<char, bool>| n.nnf_form().truth(m) == n.truth(m),
    decreases n.size(),
{
    reveal_with_fuel(Node::truth, 4);
    reveal_with_fuel(Node::wf, 4);
    reveal_with_fuel(Node::nnf, 4);
    reveal_with_fuel(Node::simplified, 4);
    reveal_with_fuel(Node::size, 4);
    match (n.clause, n.left, n.right) {
        (Clause::Conjunction, Some(l), Some(r)) | (Clause::Disjunction, Some(l), Some(r)) => {
            lemma_nnf_form(*l);
            lemma_nnf_form(*r);
            assert forall|m: Map<char, bool>| n.nnf_form().truth(m) == n.truth(m) by {
                assert(l.nnf_form().truth(m) == l.truth(m));
                assert(r.nnf_form().truth(m) == r.truth(m));
            }
        },
        (Clause::Negation, Some(l), _) => {
            match (l.clause, l.left, l.right) {
                (Clause::Negation, Some(ll), _) => {
                    lemma_nnf_form(*ll);
                    assert forall|m: Map<char, bool>| n.nnf_form().truth(m) == n.truth(m) by {
                        assert(ll.nnf_form().truth(m) == ll.truth(m));
                        assert(n.truth(m) == ll.truth(m));
                    }
                },
                (Clause::Conjunction, Some(a), Some(b))
                | (Clause::Disjunction, Some(a), Some(b)) => {
                    lemma_nnf_form(Node::neg(*a));
                    lemma_nnf_form(Node::neg(*b));
                    assert forall|m: Map<char, bool>| n.nnf_form().truth(m) == n.truth(m) by {
                        assert(Node::neg(*a).nnf_form().truth(m) == Node::neg(*a).truth(m));
                        assert(Node::neg(*b).nnf_form().truth(m) == Node::neg(*b).truth(m));
                    }
                },
                _ => {},
            }
        },
        _ => {},
    }
}

impl Node {
    /// Consumes a simplified tree and pushes every negation down to the
    /// operands.
    fn push_negations(self) -> (res: Node)
        requires
            self.wf(),
            self.simplified(),
        ensures
            res == self.nnf_form(),
        decreases self.size(),
    {
        proof {
            reveal_with_fuel(Node::size, 4);
            reveal_with_fuel(Node::wf, 4);
            reveal_with_fuel(Node::simplified, 4);
        }
        match self.clause {
            Clause::Conjunction | Clause::Disjunction => {
                let Node { clause, left, right } = self;
                let l = *left.unwrap();
                let r = *right.unwrap();
                Node {
                    clause,
                    left: Some(Box::new(l.push_negations())),
                    right: Some(Box::new(r.push_negations())),
                }
            },
            Clause::Negation => {
                let Node { clause, left, right } = self;
                let l = *left.unwrap();
                match l.clause {
                    Clause::Negation => (*l.left.unwrap()).push_negations(),
                    Clause::Conjunction | Clause::Disjunction => {
                        let flipped = match l.clause {
                            Clause::Conjunction => Clause::Disjunction,
                            _ => Clause::Conjunction,
                        };
                        let Node { clause: _, left: la, right: lb } = l;
                        let a = *la.unwrap();
                        let b = *lb.unwrap();
                        let na = Node {
                            clause: Clause::Negation,
                            left: Some(Box::new(a)),
                            right: None,
                        };
                        let nb = Node {
                            clause: Clause::Negation,
                            left: Some(Box::new(b)),
                            right: None,
                        };
                        Node {
                            clause: flipped,
                            left: Some(Box::new(na.push_negations())),
                            right: Some(Box::new(nb.push_negations())),
                        }
                    },
                    _ => Node { clause, left: Some(Box::new(l)), right },
                }
            },
            _ => self,
        }
    }

    /// Whether this tree is in negation normal form.
    pub fn is_nnf(&self) -> (r: bool)
        requires
            self.wf(),
        ensures
            r == self.nnf(),
        decreases *self,
    {
        match self.clause {
            Clause::Value(_) | Clause::Variable(_) => true,
            Clause::Negation => self.left().clause().is_operand(),
            Clause::Conjunction | Clause::Disjunction => self.left().is_nnf() && self.right()
                .is_nnf(),
            _ => false,
        }
    }

    /// Whether this tree is in conjunctive normal form.
    pub fn is_cnf(&self) -> (r: bool)
        requires
            self.wf(),
        ensures
            r == self.cnf(),
        decreases *self,
    {
        match self.clause {
            Clause::Value(_) | Clause::Variable(_) => true,
            Clause::Negation => self.left().clause().is_operand(),
            Clause::Conjunction => self.left().is_cnf() && self.right().is_cnf(),
            Clause::Disjunction => {
                let l = self.left();
                let r = self.right();
                let l_ok = match l.clause() {
                    Clause::Conjunction => false,
                    _ => l.is_cnf(),
                };
                let r_ok = match r.clause() {
                    Clause::Conjunction => false,
                    _ => r.is_cnf(),
                };
                l_ok && r_ok
            },
            _ => false,
        }
    }

    /// Converts the tree to negation normal form: simplification, then De
    /// Morgan's laws and double-negation elimination applied to a fixed
    /// point.  The truth value is intact under every assignment.
    pub fn to_nnf(&mut self)
        requires
            old(self).wf(),
        ensures
            *final (self) == old(self).simplified_form().nnf_form(),
            final (self).wf(),
            final (self).nnf(),
            forall|m: Map<char, bool>| final (self).truth(m) == old(self).truth(m),
    {
        self.simplify();
        let mut tmp = Node { clause: Clause::Value(false), left: None, right: None };
        core::mem::swap(self, &mut tmp);
        let ghost simplified = tmp;
        *self = tmp.push_negations();
        proof {
            lemma_nnf_form(simplified);
        }
    }
}

impl Node {
    /// The conjunctive normal form of the disjunction of two trees already
    /// in conjunctive normal form: a disjunction distributes into the
    /// branches of a conjunction, duplicating the other side, and the left
    /// side is preferred when both sides are conjunctions.
    pub open spec fn dist_form(a: Node, b: Node) -> Node
        decreases a.size() + b.size(),
        via Self::dist_form_decreases
    {
        match (a.clause, a.left, a.right) {
            (Clause::Conjunction, Some(a1), Some(a2)) => Node::bin(
                Clause::Conjunction,
                Node::dist_form(b, *a1),
                Node::dist_form(b, *a2),
            ),
            _ => match (b.clause, b.left, b.right) {
                (Clause::Conjunction, Some(b1), Some(b2)) => Node::bin(
                    Clause::Conjunction,
                    Node::dist_form(a, *b1),
                    Node::dist_form(a, *b2),
                ),
                _ => Node::bin(Clause::Disjunction, a, b),
            },
        }
    }

    #[via_fn]
    proof fn dist_form_decreases(a: Node, b: Node) {
        reveal_with_fuel(Node::size, 4);
    }

    /// The conjunctive normal form of a tree already in negation normal
    /// form: conjunctions are kept and disjunctions are distributed.
    pub open spec fn cnf_form(self) -> Node
        decreases self,
    {
        match (self.clause, self.left, self.right) {
            (Clause::Conjunction, Some(l), Some(r)) => Node::bin(
                Clause::Conjunction,
                l.cnf_form(),
                r.cnf_form(),
            ),
            (Clause::Disjunction, Some(l), Some(r)) => Node::dist_form(l.cnf_form(), r.cnf_form()),
            _ => self,
        }
    }
}

/// Distributing the disjunction of two well-formed trees in conjunctive
/// normal form yields a well-formed tree in conjunctive normal form whose
/// truth value is the disjunction of the two inputs, under every
/// assignment.
pub proof fn lemma_dist_form(a: Node, b: Node)
    requires
        a.wf(),
        b.wf(),
        a.cnf(),
        b.cnf(),
    ensures
        Node::dist_form(a, b).wf(),
        Node::dist_form(a, b).cnf(),
        forall|m: Map<char, bool>|
            Node::dist_form(a, b).truth(m) == (a.truth(m) || b.truth(m)),
    decreases a.size() + b.size(),
{
    reveal_with_fuel(Node::truth, 4);
    reveal_with_fuel(Node::wf, 4);
    reveal_with_fuel(Node::cnf, 4);
    reveal_with_fuel(Node::size, 4);
    match (a.clause, a.left, a.right) {
        (Clause::Conjunction, Some(a1), Some(a2)) => {
            lemma_dist_form(b, *a1);
            lemma_dist_form(b, *a2);
            assert forall|m: Map<char, bool>|
                Node::dist_form(a, b).truth(m) == (a.truth(m) || b.truth(m)) by {
                assert(Node::dist_form(b, *a1).truth(m) == (b.truth(m) || a1.truth(m)));
                assert(Node::dist_form(b, *a2).truth(m) == (b.truth(m) || a2.truth(m)));
            }
        },
        _ => {
            match (b.clause, b.left, b.right) {
                (Clause::Conjunction, Some(b1), Some(b2)) => {
                    lemma_dist_form(a, *b1);
                    lemma_dist_form(a, *b2);
                    assert forall|m: Map<char, bool>|
                        Node::dist_form(a, b).truth(m) == (a.truth(m) || b.truth(m)) by {
                        assert(Node::dist_form(a, *b1).truth(m) == (a.truth(m) || b1.truth(m)));
                        assert(Node::dist_form(a, *b2).truth(m) == (a.truth(m) || b2.truth(m)));
                    }
                },
                _ => {},
            }
        },
    }
}

/// On a well-formed tree in negation normal form, distribution yields a
/// well-formed tree in conjunctive normal form with the truth value intact
/// under every assignment.
pub proof fn lemma_cnf_form(n: Node)
    requires
        n.wf(),
        n.nnf(),
    ensures
        n.cnf_form().wf(),
        n.cnf_form().cnf(),
        forall|m: Map<char, bool>| n.cnf_form().truth(m) == n.truth(m),
    decreases n,
{
    reveal_with_fuel(Node::truth, 4);
    reveal_with_fuel(Node::wf, 4);
    reveal_with_fuel(Node::nnf, 4);
    reveal_with_fuel(Node::cnf, 4);
    match (n.clause, n.left, n.right) {
        (Clause::Conjunction, Some(l), Some(r)) => {
            lemma_cnf_form(*l);
            lemma_cnf_form(*r);
            assert forall|m: Map<char, bool>| n.cnf_form().truth(m) == n.truth(m) by {
                assert(l.cnf_form().truth(m) == l.truth(m));
                assert(r.cnf_form().truth(m) == r.truth(m));
            }
        },
        (Clause::Disjunction, Some(l), Some(r)) => {
            lemma_cnf_form(*l);
            lemma_cnf_form(*r);
            lemma_dist_form(l.cnf_form(), r.cnf_form());
            assert forall|m: Map<char, bool>| n.cnf_form().truth(m) == n.truth(m) by {
                assert(l.cnf_form().truth(m) == l.truth(m));
                assert(r.cnf_form().truth(m) == r.truth(m));
                assert(Node::dist_form(l.cnf_form(), r.cnf_form()).truth(m) == (l.cnf_form().truth(
                    m,
                ) || r.cnf_form().truth(m)));
            }
        },
        _ => {},
    }
}

impl Node {
    /// The conjunctive normal form of `a | b`, for `a` and `b` already in
    /// conjunctive normal form.
    fn distribute(a: Node, b: Node) -> (res: Node)
        requires
            a.wf(),
            b.wf(),
            a.cnf(),
            b.cnf(),
        ensures
            res == Node::dist_form(a, b),
        decreases a.size() + b.size(),
    {
        proof {
            reveal_with_fuel(Node::size, 4);
            reveal_with_fuel(Node::wf, 4);
            reveal_with_fuel(Node::cnf, 4);
        }
        let a_conj = match a.clause {
            Clause::Conjunction => true,
            _ => false,
        };
        if a_conj {
            let Node { clause, left, right } = a;
            let a1 = *left.unwrap();
            let a2 = *right.unwrap();
            let b2 = b.clone();
            Node {
                clause: Clause::Conjunction,
                left: Some(Box::new(Node::distribute(b, a1))),
                right: Some(Box::new(Node::distribute(b2, a2))),
            }
        } else {
            let b_conj = match b.clause {
                Clause::Conjunction => true,
                _ => false,
            };
            if b_conj {
                let Node { clause, left, right } = b;
                let b1 = *left.unwrap();
                let b2 = *right.unwrap();
                let a2 = a.clone();
                Node {
                    clause: Clause::Conjunction,
                    left: Some(Box::new(Node::distribute(a, b1))),
                    right: Some(Box::new(Node::distribute(a2, b2))),
                }
            } else {
                Node {
                    clause: Clause::Disjunction,
                    left: Some(Box::new(a)),
                    right: Some(Box::new(b)),
                }
            }
        }
    }

    /// Consumes a tree in negation normal form and distributes every
    /// disjunction over the conjunctions beneath it.
    fn into_cnf(self) -> (res: Node)
        requires
            self.wf(),
            self.nnf(),
        ensures
            res == self.cnf_form(),
        decreases self,
    {
        proof {
            reveal_with_fuel(Node::wf, 4);
            reveal_with_fuel(Node::nnf, 4);
        }
        match self.clause {
            Clause::Conjunction => {
                let Node { clause, left, right } = self;
                let l = *left.unwrap();
                let r = *right.unwrap();
                Node {
                    clause,
                    left: Some(Box::new(l.into_cnf())),
                    right: Some(Box::new(r.into_cnf())),
                }
            },
            Clause::Disjunction => {
                let Node { clause: _, left, right } = self;
                let l = *left.unwrap();
                let r = *right.unwrap();
                let ghost gl = l;
                let ghost gr = r;
                let lc = l.into_cnf();
                let rc = r.into_cnf();
                proof {
                    lemma_cnf_form(gl);
                    lemma_cnf_form(gr);
                }
                Node::distribute(lc, rc)
            },
            _ => self,
        }
    }

    /// Converts the tree to conjunctive normal form: negation normal form
    /// first, then distribution of disjunction over conjunction to a fixed
    /// point.  The truth value is intact under every assignment.
    pub fn to_cnf(&mut self)
        requires
            old(self).wf(),
        ensures
            *final (self) == old(self).simplified_form().nnf_form().cnf_form(),
            final (self).wf(),
            final (self).cnf(),
            forall|m: Map<char, bool>| final (self).truth(m) == old(self).truth(m),
    {
        self.to_nnf();
        let mut tmp = Node { clause: Clause::Value(false), left: None, right: None };
        core::mem::swap(self, &mut tmp);
        let ghost normal = tmp;
        *self = tmp.into_cnf();
        proof {
            lemma_cnf_form(normal);
        }
    }
}

/// Conjunctive normal form is a special case of negation normal form.
pub proof fn lemma_cnf_implies_nnf(n: Node)
    requires
        n.cnf(),
    ensures
        n.nnf(),
    decreases n,
{
    match n.left {
        Some(l) => if l.cnf() {
            lemma_cnf_implies_nnf(*l)
        },
        None => {},
    }
    match n.right {
        Some(r) => if r.cnf() {
            lemma_cnf_implies_nnf(*r)
        },
        None => {},
    }
}

/// A well-formed tree in negation normal form carries only constants,
/// variables, negation, conjunction and disjunction.
pub proof fn lemma_nnf_implies_simplified(n: Node)
    requires
        n.wf(),
        n.nnf(),
    ensures
        n.simplified(),
    decreases n,
{
    reveal_with_fuel(Node::wf, 3);
    reveal_with_fuel(Node::nnf, 3);
    reveal_with_fuel(Node::simplified, 3);
    match n.left {
        Some(l) => if l.nnf() {
            lemma_nnf_implies_simplified(*l)
        },
        None => {},
    }
    match n.right {
        Some(r) => if r.nnf() {
            lemma_nnf_implies_simplified(*r)
        },
        None => {},
    }
}

/// No character of `s` after the first `&` is anything but `&`: once a
/// conjunction appears in a canonical serialized formula, conjunctions are
/// all that remain.
pub open spec fn amp_canonical(s: Seq<char>) -> bool {
    forall|i: int, j: int| 0 <= i <= j < s.len() && s[i] == '&' ==> s[j] == '&'
}

/// No `&` occurs in `s`.
pub open spec fn no_amp(s: Seq<char>) -> bool {
    forall|i: int| 0 <= i < s.len() ==> s[i] != '&'
}

impl Node {
    /// No conjunction occurs in this tree.
    pub open spec fn and_free(self) -> bool
        decreases self,
    {
        &&& !(self.clause is Conjunction)
        &&& match self.left {
            Some(l) => l.and_free(),
            None => true,
        }
        &&& match self.right {
            Some(r) => r.and_free(),
            None => true,
        }
    }

    /// The conjunctions of this tree form a chain down the right spine:
    /// every conjunction's left child is conjunction-free, and whatever is
    /// not on the spine is conjunction-free.
    pub open spec fn and_spine(self) -> bool
        decreases self,
    {
        match (self.clause, self.left, self.right) {
            (Clause::Conjunction, Some(l), Some(r)) => l.and_free() && r.and_spine(),
            _ => self.and_free(),
        }
    }

    /// The tree right-rotated to a fixed point: while a binary node's left
    /// child carries the same connective, the chain rotates right; then the
    /// pass continues down the right child.  On conjunctive normal form
    /// this right-associates the conjunction chain and every top-level
    /// disjunction chain, purely for canonical serialization.
    pub open spec fn unbalanced_form(self) -> Node
        decreases self.size(), (match self.left {
            Some(l) => l.size(),
            None => 0,
        }),
        via Self::unbalanced_form_decreases
    {
        match (self.clause, self.left, self.right) {
            (c, Some(l), Some(r)) => match (l.clause, l.left, l.right) {
                (lc, Some(a), Some(b)) => if lc == c {
                    Node::bin(c, *a, Node::bin(c, *b, *r)).unbalanced_form()
                } else {
                    Node::bin(c, *l, r.unbalanced_form())
                },
                _ => Node::bin(c, *l, r.unbalanced_form()),
            },
            _ => self,
        }
    }

    #[via_fn]
    proof fn unbalanced_form_decreases(self) {
        reveal_with_fuel(Node::size, 4);
    }

    /// Like `unbalanced_form`, but rotating conjunction chains only: the
    /// pass that pushes every conjunction to the end of the serialized
    /// formula.
    pub open spec fn right_balanced_form(self) -> Node
        decreases self.size(), (match self.left {
            Some(l) => l.size(),
            None => 0,
        }),
        via Self::right_balanced_form_decreases
    {
        match (self.clause, self.left, self.right) {
            (Clause::Conjunction, Some(l), Some(r)) => match (l.clause, l.left, l.right) {
                (Clause::Conjunction, Some(a), Some(b)) => Node::bin(
                    Clause::Conjunction,
                    *a,
                    Node::bin(Clause::Conjunction, *b, *r),
                ).right_balanced_form(),
                _ => Node::bin(Clause::Conjunction, *l, r.right_balanced_form()),
            },
            _ => self,
        }
    }

    #[via_fn]
    proof fn right_balanced_form_decreases(self) {
        reveal_with_fuel(Node::size, 4);
    }
}

/// A tree in conjunctive normal form that is not itself a conjunction
/// contains no conjunction at all.
pub proof fn lemma_cnf_without_conjunction_is_and_free(n: Node)
    requires
        n.wf(),
        n.cnf(),
        !(n.clause is Conjunction),
    ensures
        n.and_free(),
    decreases n,
{
    reveal_with_fuel(Node::wf, 3);
    reveal_with_fuel(Node::cnf, 3);
    reveal_with_fuel(Node::and_free, 3);
    match n.left {
        Some(l) => lemma_cnf_without_conjunction_is_and_free(*l),
        None => {},
    }
    match n.right {
        Some(r) => lemma_cnf_without_conjunction_is_and_free(*r),
        None => {},
    }
}

/// On conjunctive normal form, the rotation pass preserves
/// well-formedness, the normal form and the truth value, leaves a
/// conjunction-free tree conjunction-free, and drives the conjunctions
/// onto the right spine.
pub proof fn lemma_unbalanced_form(n: Node)
    requires
        n.wf(),
        n.cnf(),
    ensures
        n.unbalanced_form().wf(),
        n.unbalanced_form().cnf(),
        n.unbalanced_form().and_spine(),
        n.and_free() ==> n.unbalanced_form().and_free(),
        forall|m: Map<char, bool>| n.unbalanced_form().truth(m) == n.truth(m),
    decreases n.size(), (match n.left {
        Some(l) => l.size(),
        None => 0,
    }),
{
    reveal_with_fuel(Node::truth, 4);
    reveal_with_fuel(Node::wf, 4);
    reveal_with_fuel(Node::cnf, 4);
    reveal_with_fuel(Node::size, 4);
    reveal_with_fuel(Node::and_free, 4);
    reveal_with_fuel(Node::and_spine, 4);
    match (n.clause, n.left, n.right) {
        (c, Some(l), Some(r)) => {
            match (l.clause, l.left, l.right) {
                (lc, Some(a), Some(b)) if lc == c => {
                    let rotated = Node::bin(c, *a, Node::bin(c, *b, *r));
                    assert(rotated.size() == n.size());
                    assert(rotated.wf());
                    assert(rotated.cnf());
                    lemma_unbalanced_form(rotated);
                    assert forall|m: Map<char, bool>|
                        n.unbalanced_form().truth(m) == n.truth(m) by {
                        assert(rotated.unbalanced_form().truth(m) == rotated.truth(m));
                        assert(rotated.truth(m) == n.truth(m));
                    }
                },
                _ => {
                    lemma_unbalanced_form(*r);
                    if c is Conjunction {
                        lemma_cnf_without_conjunction_is_and_free(*l);
                    } else {
                        lemma_cnf_without_conjunction_is_and_free(*l);
                        lemma_cnf_without_conjunction_is_and_free(*r);
                    }
                    assert forall|m: Map<char, bool>|
                        n.unbalanced_form().truth(m) == n.truth(m) by {
                        assert(r.unbalanced_form().truth(m) == r.truth(m));
                    }
                },
            }
        },
        _ => {
            lemma_cnf_without_conjunction_is_and_free(n);
        },
    }
}

/// On conjunctive normal form, rotating the conjunction chains preserves
/// well-formedness, the normal form and the truth value, and drives the
/// conjunctions onto the right spine.
pub proof fn lemma_right_balanced_form(n: Node)
    requires
        n.wf(),
        n.cnf(),
    ensures
        n.right_balanced_form().wf(),
        n.right_balanced_form().cnf(),
        n.right_balanced_form().and_spine(),
        forall|m: Map<char, bool>| n.right_balanced_form().truth(m) == n.truth(m),
    decreases n.size(), (match n.left {
        Some(l) => l.size(),
        None => 0,
    }),
{
    reveal_with_fuel(Node::truth, 4);
    reveal_with_fuel(Node::wf, 4);
    reveal_with_fuel(Node::cnf, 4);
    reveal_with_fuel(Node::size, 4);
    reveal_with_fuel(Node::and_free, 4);
    reveal_with_fuel(Node::and_spine, 4);
    match (n.clause, n.left, n.right) {
        (Clause::Conjunction, Some(l), Some(r)) => {
            match (l.clause, l.left, l.right) {
                (Clause::Conjunction, Some(a), Some(b)) => {
                    let rotated = Node::bin(
                        Clause::Conjunction,
                        *a,
                        Node::bin(Clause::Conjunction, *b, *r),
                    );
                    assert(rotated.size() == n.size());
                    assert(rotated.wf());
                    assert(rotated.cnf());
                    lemma_right_balanced_form(rotated);
                    assert forall|m: Map<char, bool>|
                        n.right_balanced_form().truth(m) == n.truth(m) by {
                        assert(rotated.right_balanced_form().truth(m) == rotated.truth(m));
                        assert(rotated.truth(m) == n.truth(m));
                    }
                },
                _ => {
                    lemma_right_balanced_form(*r);
                    lemma_cnf_without_conjunction_is_and_free(*l);
                    assert forall|m: Map<char, bool>|
                        n.right_balanced_form().truth(m) == n.truth(m) by {
                        assert(r.right_balanced_form().truth(m) == r.truth(m));
                    }
                },
            }
        },
        _ => {
            lemma_cnf_without_conjunction_is_and_free(n);
        },
    }
}

/// The serialization of a well-formed conjunction-free tree contains no
/// `&`.
pub proof fn lemma_and_free_no_amp(n: Node)
    requires
        n.wf(),
        n.and_free(),
    ensures
        no_amp(n.ser()),
    decreases n,
{
    reveal_with_fuel(Node::ser, 3);
    match n.left {
        Some(l) => lemma_and_free_no_amp(*l),
        None => {},
    }
    match n.right {
        Some(r) => lemma_and_free_no_amp(*r),
        None => {},
    }
}

/// The serialization of a well-formed tree whose conjunctions form a right
/// spine is canonical: after the first `&` only `&` follows.
pub proof fn lemma_and_spine_amp_canonical(n: Node)
    requires
        n.wf(),
        n.and_spine(),
    ensures
        amp_canonical(n.ser()),
    decreases n,
{
    reveal_with_fuel(Node::ser, 3);
    match (n.clause, n.left, n.right) {
        (Clause::Conjunction, Some(l), Some(r)) => {
            lemma_and_free_no_amp(*l);
            lemma_and_spine_amp_canonical(*r);
            let ls = l.ser();
            let rs = r.ser();
            let s = n.ser();
            assert(s == ls + rs + seq!['&']);
            assert forall|i: int, j: int|
                0 <= i <= j < s.len() && s[i] == '&' implies s[j] == '&' by {
                assert(i >= ls.len());
                if j < s.len() - 1 {
                    assert(rs[i - ls.len()] == '&');
                    assert(rs[j - ls.len()] == '&');
                }
            }
        },
        _ => {
            lemma_and_free_no_amp(n);
        },
    }
}

impl Node {
    /// Consumes a tree in conjunctive normal form and right-rotates every
    /// same-connective chain reachable along the right spine.
    fn into_unbalanced(self) -> (res: Node)
        requires
            self.wf(),
            self.cnf(),
        ensures
            res == self.unbalanced_form(),
        decreases self.size(), (match self.left {
            Some(l) => l.size(),
            None => 0,
        }),
    {
        proof {
            reveal_with_fuel(Node::size, 4);
            reveal_with_fuel(Node::wf, 4);
            reveal_with_fuel(Node::cnf, 4);
        }
        let Node { clause, left, right } = self;
        match (left, right) {
            (Some(l), Some(r)) => {
                let l = *l;
                let rotate = l.clause == clause && l.left.is_some() && l.right.is_some();
                if rotate {
                    let Node { clause: _, left: la, right: lb } = l;
                    let a = *la.unwrap();
                    let b = *lb.unwrap();
                    let inner = Node { clause, left: Some(Box::new(b)), right: Some(r) };
                    let rotated = Node { clause, left: Some(Box::new(a)), right: Some(
                        Box::new(inner),
                    ) };
                    proof {
                        assert(rotated.size() == self.size());
                        assert(rotated.wf());
                        assert(rotated.cnf());
                    }
                    rotated.into_unbalanced()
                } else {
                    Node { clause, left: Some(Box::new(l)), right: Some(
                        Box::new((*r).into_unbalanced()),
                    ) }
                }
            },
            (left, right) => Node { clause, left, right },
        }
    }

    /// Consumes a tree in conjunctive normal form and right-rotates its
    /// conjunction chains.
    fn into_right_balanced(self) -> (res: Node)
        requires
            self.wf(),
            self.cnf(),
        ensures
            res == self.right_balanced_form(),
        decreases self.size(), (match self.left {
            Some(l) => l.size(),
            None => 0,
        }),
    {
        proof {
            reveal_with_fuel(Node::size, 4);
            reveal_with_fuel(Node::wf, 4);
            reveal_with_fuel(Node::cnf, 4);
        }
        let is_conj = match self.clause {
            Clause::Conjunction => true,
            _ => false,
        };
        if !is_conj {
            return self;
        }
        let Node { clause, left, right } = self;
        match (left, right) {
            (Some(l), Some(r)) => {
                let l = *l;
                let rotate = match l.clause {
                    Clause::Conjunction => l.left.is_some() && l.right.is_some(),
                    _ => false,
                };
                if rotate {
                    let Node { clause: _, left: la, right: lb } = l;
                    let a = *la.unwrap();
                    let b = *lb.unwrap();
                    let inner = Node { clause, left: Some(Box::new(b)), right: Some(r) };
                    let rotated = Node { clause, left: Some(Box::new(a)), right: Some(
                        Box::new(inner),
                    ) };
                    proof {
                        assert(rotated.size() == self.size());
                        assert(rotated.wf());
                        assert(rotated.cnf());
                    }
                    rotated.into_right_balanced()
                } else {
                    Node { clause, left: Some(Box::new(l)), right: Some(
                        Box::new((*r).into_right_balanced()),
                    ) }
                }
            },
            (left, right) => Node { clause, left, right },
        }
    }

    /// Right-rotates every same-connective chain along the right spine, so
    /// that conjunction and disjunction chains of a formula in conjunctive
    /// normal form serialize right-associated, with every conjunction at
    /// the end.
    pub fn unbalance(&mut self)
        requires
            old(self).wf(),
            old(self).cnf(),
        ensures
            *final (self) == old(self).unbalanced_form(),
            final (self).wf(),
            final (self).cnf(),
            final (self).and_spine(),
            amp_canonical(final (self).ser()),
            forall|m: Map<char, bool>| final (self).truth(m) == old(self).truth(m),
    {
        let mut tmp = Node { clause: Clause::Value(false), left: None, right: None };
        core::mem::swap(self, &mut tmp);
        let ghost orig = tmp;
        *self = tmp.into_unbalanced();
        proof {
            lemma_unbalanced_form(orig);
            lemma_and_spine_amp_canonical(*self);
        }
    }

    /// Right-rotates the conjunction chains, moving every conjunction of a
    /// formula in conjunctive normal form to the end of its serialization.
    pub fn right_balance_conjunctions(&mut self)
        requires
            old(self).wf(),
            old(self).cnf(),
        ensures
            *final (self) == old(self).right_balanced_form(),
            final (self).wf(),
            final (self).cnf(),
            final (self).and_spine(),
            amp_canonical(final (self).ser()),
            forall|m: Map<char, bool>| final (self).truth(m) == old(self).truth(m),
    {
        let mut tmp = Node { clause: Clause::Value(false), left: None, right: None };
        core::mem::swap(self, &mut tmp);
        let ghost orig = tmp;
        *self = tmp.into_right_balanced();
        proof {
            lemma_right_balanced_form(orig);
            lemma_and_spine_amp_canonical(*self);
        }
    }
}

} // verus!
