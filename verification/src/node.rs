//! The binary expression tree: each node carries a [`Clause`] and owns up to
//! two children, as many as the clause's arity demands.

use vstd::prelude::*;
use vstd::string::StringExecFns;

use crate::clause::Clause;
use crate::outside::push_char;

verus! {

/// One node of a formula tree.  `left` is present iff the arity is at least
/// one; `right` is present iff the arity is two; every operation of the
/// library keeps this in step with the clause (see [`Node::wf`]).
#[derive(Debug)]
pub struct Node {
    pub clause: Clause,
    pub left: Option<Box<Node>>,
    pub right: Option<Box<Node>>,
}

/// The assignment read by [`Node::truth`], as a map from variable names to
/// truth values: entry `i` of `a` is the value of the `i`-th uppercase
/// letter.
pub open spec fn map_of(a: Seq<bool>) -> Map<char, bool> {
    Map::new(|c: char| 'A' <= c && c <= 'Z', |c: char| a[c as int - 'A' as int])
}

impl Node {
    /// An operand node: a constant or a variable, with no children.
    pub open spec fn leaf(clause: Clause) -> Node {
        Node { clause, left: None, right: None }
    }

    /// A negation node wrapping `a`.
    pub open spec fn neg(a: Node) -> Node {
        Node { clause: Clause::Negation, left: Some(Box::new(a)), right: None }
    }

    /// A binary node with children `a` and `b`.
    pub open spec fn bin(clause: Clause, a: Node, b: Node) -> Node {
        Node { clause, left: Some(Box::new(a)), right: Some(Box::new(b)) }
    }

    /// The left child, meaningful only when the arity is at least one.
    pub open spec fn l(self) -> Node {
        *self.left.unwrap()
    }

    /// The right child, meaningful only when the arity is two.
    pub open spec fn r(self) -> Node {
        *self.right.unwrap()
    }

    /// The number of nodes in this tree.
    pub open spec fn size(self) -> nat
        decreases self,
    {
        1 + match self.left {
            Some(l) => l.size(),
            None => 0,
        } + match self.right {
            Some(r) => r.size(),
            None => 0,
        }
    }

    /// The number of edges on the longest downward path from this node.
    pub open spec fn spec_depth(self) -> nat
        decreases self,
    {
        let dl = match self.left {
            Some(l) => l.spec_depth() + 1,
            None => 0,
        };
        let dr = match self.right {
            Some(r) => r.spec_depth() + 1,
            None => 0,
        };
        if dl >= dr {
            dl
        } else {
            dr
        }
    }

    /// Well-formedness: every node's children match its clause's arity, and
    /// every variable name is an uppercase letter.
    pub open spec fn wf(self) -> bool
        decreases self,
    {
        &&& self.clause.valid()
        &&& (self.left is Some <==> self.clause.arity() >= 1)
        &&& (self.right is Some <==> self.clause.arity() == 2)
        &&& match self.left {
            Some(l) => l.wf(),
            None => true,
        }
        &&& match self.right {
            Some(r) => r.wf(),
            None => true,
        }
    }

    /// The postfix serialization of this tree: both children's
    /// serializations, then the node's own character.
    pub open spec fn ser(self) -> Seq<char>
        decreases self,
    {
        (match self.left {
            Some(l) => l.ser(),
            None => Seq::empty(),
        }) + (match self.right {
            Some(r) => r.ser(),
            None => Seq::empty(),
        }) + seq![self.clause.spec_to()]
    }

    /// The set of variable names that occur in this tree.
    pub open spec fn vars(self) -> Set<char>
        decreases self,
    {
        (match self.clause {
            Clause::Variable(v) => set![v],
            _ => Set::empty(),
        }) + (match self.left {
            Some(l) => l.vars(),
            None => Set::empty(),
        }) + (match self.right {
            Some(r) => r.vars(),
            None => Set::empty(),
        })
    }

    /// Whether a boolean constant occurs anywhere in this tree.
    pub open spec fn has_literal(self) -> bool
        decreases self,
    {
        ||| self.clause is Value
        ||| match self.left {
            Some(l) => l.has_literal(),
            None => false,
        }
        ||| match self.right {
            Some(r) => r.has_literal(),
            None => false,
        }
    }

    /// The truth value of this formula under the assignment `m`.
    pub open spec fn truth(self, m: Map<char, bool>) -> bool
        decreases self,
    {
        let lv = match self.left {
            Some(l) => l.truth(m),
            None => false,
        };
        let rv = match self.right {
            Some(r) => r.truth(m),
            None => false,
        };
        match self.clause {
            Clause::Value(b) => b,
            Clause::Variable(v) => m[v],
            Clause::Negation => !lv,
            Clause::Conjunction => lv && rv,
            Clause::Disjunction => lv || rv,
            Clause::Exclusive => lv != rv,
            Clause::Material => !lv || rv,
            Clause::Equivalence => lv == rv,
        }
    }

    /// The set denoted by this formula when each variable stands for a set
    /// of integers and `u` is the encompassing universe.  Negation is
    /// complement relative to `u`; conjunction is intersection; disjunction
    /// is union; exclusive or is symmetric difference; material implication
    /// of `A` and `B` is `u` minus (`A` minus `B`); equivalence keeps the
    /// elements of `u` whose memberships in both sides agree.  Constants
    /// denote no set and are rejected by the evaluator.
    pub open spec fn set_val(self, u: Set<i32>, m: Map<char, Set<i32>>) -> Set<i32>
        decreases self,
    {
        let lv = match self.left {
            Some(l) => l.set_val(u, m),
            None => Set::empty(),
        };
        let rv = match self.right {
            Some(r) => r.set_val(u, m),
            None => Set::empty(),
        };
        match self.clause {
            Clause::Value(_) => Set::empty(),
            Clause::Variable(v) => m[v],
            Clause::Negation => u.difference(lv),
            Clause::Conjunction => lv.intersect(rv),
            Clause::Disjunction => lv.union(rv),
            Clause::Exclusive => lv.difference(rv).union(rv.difference(lv)),
            Clause::Material => u.difference(lv.difference(rv)),
            Clause::Equivalence => u.filter(|x: i32| lv.contains(x) == rv.contains(x)),
        }
    }

    /// Whether this tree is free of equivalence, implication and exclusive
    /// or, the three connectives that `simplify` eliminates.
    pub open spec fn simplified(self) -> bool
        decreases self,
    {
        &&& !(self.clause is Exclusive)
        &&& !(self.clause is Material)
        &&& !(self.clause is Equivalence)
        &&& match self.left {
            Some(l) => l.simplified(),
            None => true,
        }
        &&& match self.right {
            Some(r) => r.simplified(),
            None => true,
        }
    }

    /// Negation normal form: negation wraps only operands, and the only
    /// connectives are conjunction and disjunction.
    pub open spec fn nnf(self) -> bool
        decreases self,
    {
        match self.clause {
            Clause::Value(_) => true,
            Clause::Variable(_) => true,
            Clause::Negation => match self.left {
                Some(l) => l.clause.is_operand(),
                None => false,
            },
            Clause::Conjunction | Clause::Disjunction => (match self.left {
                Some(l) => l.nnf(),
                None => false,
            }) && (match self.right {
                Some(r) => r.nnf(),
                None => false,
            }),
            _ => false,
        }
    }

    /// Conjunctive normal form: negation normal form in which no
    /// disjunction has a conjunction as a direct child.
    pub open spec fn cnf(self) -> bool
        decreases self,
    {
        match self.clause {
            Clause::Value(_) => true,
            Clause::Variable(_) => true,
            Clause::Negation => match self.left {
                Some(l) => l.clause.is_operand(),
                None => false,
            },
            Clause::Conjunction => (match self.left {
                Some(l) => l.cnf(),
                None => false,
            }) && (match self.right {
                Some(r) => r.cnf(),
                None => false,
            }),
            Clause::Disjunction => (match self.left {
                Some(l) => !(l.clause is Conjunction) && l.cnf(),
                None => false,
            }) && (match self.right {
                Some(r) => !(r.clause is Conjunction) && r.cnf(),
                None => false,
            }),
            _ => false,
        }
    }
}

impl Node {
    /// Builds a node from a clause and children whose count matches the
    /// clause's arity.
    pub fn new(clause: Clause, left: Option<Box<Node>>, right: Option<Box<Node>>) -> (r: Node)
        requires
            clause.valid(),
            left is Some <==> clause.arity() >= 1,
            right is Some <==> clause.arity() == 2,
            left is Some ==> left.unwrap().wf(),
            right is Some ==> right.unwrap().wf(),
        ensures
            r == (Node { clause, left, right }),
            r.wf(),
    {
        Node { clause, left, right }
    }

    /// The clause of this node.
    pub fn clause(&self) -> (r: Clause)
        ensures
            r == self.clause,
    {
        self.clause
    }

    /// The left child; callers must know that the arity is at least one.
    pub fn left(&self) -> (r: &Node)
        requires
            self.left is Some,
        ensures
            *r == self.l(),
    {
        self.left.as_ref().unwrap()
    }

    /// The right child; callers must know that the arity is two.
    pub fn right(&self) -> (r: &Node)
        requires
            self.right is Some,
        ensures
            *r == self.r(),
    {
        self.right.as_ref().unwrap()
    }

    /// The right child, borrowed mutably; callers must know that the arity
    /// is two.
    pub fn right_mut(&mut self) -> (r: &mut Node)
        requires
            old(self).right is Some,
        ensures
            *r == old(self).r(),
            *final (self) == (Node {
                clause: old(self).clause,
                left: old(self).left,
                right: Some(Box::new(*final (r))),
            }),
    {
        let b = self.right.as_mut().unwrap();
        &mut **b
    }

    /// The children of this node, left before right: as many as the
    /// clause's arity.
    pub fn children(&self) -> (r: Vec<&Node>)
        ensures
            r@.len() == (if self.left is Some {
                1int
            } else {
                0int
            }) + (if self.right is Some {
                1int
            } else {
                0int
            }),
            self.left is Some ==> *r@[0] == self.l(),
            self.right is Some ==> *r@[r@.len() - 1] == self.r(),
    {
        let mut r: Vec<&Node> = Vec::new();
        if let Some(l) = &self.left {
            r.push(&**l);
        }
        if let Some(right) = &self.right {
            r.push(&**right);
        }
        r
    }

    /// The number of edges on the longest downward path, saturating at
    /// `usize::MAX` for trees too deep to measure.
    pub fn depth(&self) -> (r: usize)
        ensures
            self.spec_depth() <= usize::MAX ==> r == self.spec_depth(),
            self.spec_depth() > usize::MAX ==> r == usize::MAX,
        decreases *self,
    {
        let dl: usize = match &self.left {
            Some(l) => {
                let d = l.depth();
                if d == usize::MAX {
                    d
                } else {
                    d + 1
                }
            },
            None => 0,
        };
        let dr: usize = match &self.right {
            Some(r) => {
                let d = r.depth();
                if d == usize::MAX {
                    d
                } else {
                    d + 1
                }
            },
            None => 0,
        };
        if dl >= dr {
            dl
        } else {
            dr
        }
    }

    /// Writes this tree back out as a postfix formula string.
    pub fn formula(&self) -> (r: String)
        requires
            self.wf(),
        ensures
            r@ == self.ser(),
        decreases *self,
    {
        let mut s = String::new();
        if let Some(l) = &self.left {
            let ls = l.formula();
            s.append(ls.as_str());
        }
        if let Some(r) = &self.right {
            let rs = r.formula();
            s.append(rs.as_str());
        }
        push_char(&mut s, self.clause.to());
        s
    }

    /// Evaluates this formula under a total assignment: entry `i` of
    /// `assignment` is the value of the `i`-th uppercase letter.
    pub fn evaluate_with(&self, assignment: &Vec<bool>) -> (r: bool)
        requires
            self.wf(),
            assignment.len() == 26,
        ensures
            r == self.truth(map_of(assignment@)),
        decreases *self,
    {
        match self.clause {
            Clause::Value(b) => b,
            Clause::Variable(v) => {
                let idx = (v as u32 - 65) as usize;
                assignment[idx]
            },
            Clause::Negation => !self.left().evaluate_with(assignment),
            Clause::Conjunction => self.left().evaluate_with(assignment) && self.right()
                .evaluate_with(assignment),
            Clause::Disjunction => self.left().evaluate_with(assignment) || self.right()
                .evaluate_with(assignment),
            Clause::Exclusive => self.left().evaluate_with(assignment) != self.right()
                .evaluate_with(assignment),
            Clause::Material => !self.left().evaluate_with(assignment) || self.right()
                .evaluate_with(assignment),
            Clause::Equivalence => self.left().evaluate_with(assignment) == self.right()
                .evaluate_with(assignment),
        }
    }

    /// Evaluates a closed formula, one with no variables; its truth value is
    /// the same under every assignment.
    pub fn evaluate(&self) -> (r: bool)
        requires
            self.wf(),
            self.vars() == Set::<char>::empty(),
        ensures
            forall|m: Map<char, bool>| r == self.truth(m),
    {
        let values: Vec<bool> = vec![false;26];
        let r = self.evaluate_with(&values);
        proof {
            assert forall|m: Map<char, bool>| r == self.truth(m) by {
                lemma_truth_depends_only_on_vars(*self, map_of(values@), m);
            }
        }
        r
    }
}

impl Clone for Node {
    /// Deep copy: the clone is equal to the original tree.
    fn clone(&self) -> (r: Self)
        ensures
            r == *self,
        decreases *self,
    {
        Node {
            clause: self.clause,
            left: match &self.left {
                Some(l) => Some(Box::new((&**l).clone())),
                None => None,
            },
            right: match &self.right {
                Some(r) => Some(Box::new((&**r).clone())),
                None => None,
            },
        }
    }
}

/// The truth value of a formula depends only on the variables that occur in
/// it: two assignments that agree on those variables evaluate it alike.
pub proof fn lemma_truth_depends_only_on_vars(n: Node, m1: Map<char, bool>, m2: Map<char, bool>)
    requires
        forall|c: char| n.vars().contains(c) ==> m1[c] == m2[c],
    ensures
        n.truth(m1) == n.truth(m2),
    decreases n,
{
    match n.left {
        Some(l) => {
            assert(forall|c: char| l.vars().contains(c) ==> n.vars().contains(c));
            lemma_truth_depends_only_on_vars(*l, m1, m2);
        },
        None => {},
    }
    match n.right {
        Some(r) => {
            assert(forall|c: char| r.vars().contains(c) ==> n.vars().contains(c));
            lemma_truth_depends_only_on_vars(*r, m1, m2);
        },
        None => {},
    }
}

} // verus!
