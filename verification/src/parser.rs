//! The postfix parser: a stack machine that turns a formula string into an
//! expression tree, reporting a typed error for every way an input can be
//! malformed.

use vstd::prelude::*;
use vstd::string::StrSliceExecFns;

use crate::clause::Clause;
use crate::node::Node;
use crate::tree::Tree;

verus! {

/// Why a formula string failed to parse.
#[derive(Clone, Copy, Debug, PartialEq, Eq, Structural)]
pub enum ParseError {
    /// A character outside the formula alphabet.
    InvalidSymbol,
    /// An operator arrived while the stack held fewer operands than its
    /// arity.
    InsufficientOperands,
    /// More than one tree was left on the stack at the end of the input.
    TooManyOperands,
    /// The input was empty.
    EmptyFormula,
}

/// One step of the stack machine: reading `c` with the working stack
/// `stack`.  Operands are pushed; an operator pops as many trees as its
/// arity and pushes the combined tree; for a binary operator the tree popped
/// second becomes the left child.
pub open spec fn parse_step(stack: Seq<Node>, c: char) -> Result<Seq<Node>, ParseError> {
    if !Clause::spec_symbol_char(c) {
        Err(ParseError::InvalidSymbol)
    } else {
        let clause = Clause::spec_from(c);
        if clause.arity() == 0 {
            Ok(stack.push(Node::leaf(clause)))
        } else if clause.arity() == 1 {
            if stack.len() >= 1 {
                Ok(stack.drop_last().push(Node::neg(stack.last())))
            } else {
                Err(ParseError::InsufficientOperands)
            }
        } else {
            if stack.len() >= 2 {
                Ok(
                    stack.drop_last().drop_last().push(
                        Node::bin(clause, stack[stack.len() - 2], stack.last()),
                    ),
                )
            } else {
                Err(ParseError::InsufficientOperands)
            }
        }
    }
}

/// The stack machine run over the whole input, left to right, stopping at
/// the first failing character.
pub open spec fn parse_run(s: Seq<char>) -> Result<Seq<Node>, ParseError>
    decreases s.len(),
{
    if s.len() == 0 {
        Ok(Seq::empty())
    } else {
        match parse_run(s.drop_last()) {
            Ok(stack) => parse_step(stack, s.last()),
            Err(e) => Err(e),
        }
    }
}

/// What parsing `s` yields: the single tree left on the stack, or the first
/// error the scan meets, or a leftover-content error at the end.
pub open spec fn parse_result(s: Seq<char>) -> Result<Node, ParseError> {
    match parse_run(s) {
        Ok(stack) => if stack.len() == 1 {
            Ok(stack[0])
        } else if stack.len() == 0 {
            Err(ParseError::EmptyFormula)
        } else {
            Err(ParseError::TooManyOperands)
        },
        Err(e) => Err(e),
    }
}

/// Whether `s` is a syntactically valid postfix formula.
pub open spec fn valid_formula(s: Seq<char>) -> bool {
    parse_result(s) is Ok
}

/// The tree a valid formula parses to.
pub open spec fn parsed(s: Seq<char>) -> Node {
    parse_result(s)->Ok_0
}

/// The serializations of the stack's trees, oldest first, laid end to end.
pub open spec fn stack_ser(stack: Seq<Node>) -> Seq<char>
    decreases stack.len(),
{
    if stack.len() == 0 {
        Seq::empty()
    } else {
        stack_ser(stack.drop_last()) + stack.last().ser()
    }
}

/// After a successful run of the stack machine every tree on the stack is
/// well formed, and their serializations joined in order reproduce the
/// input exactly.
pub proof fn lemma_parse_run_wf_ser(s: Seq<char>)
    requires
        parse_run(s) is Ok,
    ensures
        forall|i: int|
            0 <= i < parse_run(s)->Ok_0.len() ==> (#[trigger] parse_run(s)->Ok_0[i]).wf(),
        stack_ser(parse_run(s)->Ok_0) == s,
    decreases s.len(),
{
    if s.len() == 0 {
        assert(stack_ser(parse_run(s)->Ok_0) =~= s);
    } else {
        let front = s.drop_last();
        let c = s.last();
        let st0 = parse_run(front)->Ok_0;
        lemma_parse_run_wf_ser(front);
        let st1 = parse_run(s)->Ok_0;
        let clause = Clause::spec_from(c);
        if clause.arity() == 0 {
            crate::clause::lemma_clause_char_round_trip(c);
            assert(st1.drop_last() =~= st0);
            assert(Node::leaf(clause).ser() =~= seq![c]);
            assert(stack_ser(st1) =~= s);
        } else if clause.arity() == 1 {
            let top = st0.last();
            assert(st1.drop_last() =~= st0.drop_last());
            assert(Node::neg(top).ser() =~= top.ser() + seq![c]);
            assert(stack_ser(st1) =~= stack_ser(st0.drop_last()) + top.ser() + seq![c]);
            assert(stack_ser(st0) =~= stack_ser(st0.drop_last()) + top.ser());
            assert(stack_ser(st1) =~= s);
            assert forall|i: int| 0 <= i < st1.len() implies (#[trigger] st1[i]).wf() by {
                if i < st1.len() - 1 {
                    assert(st1[i] == st0[i]);
                }
            }
        } else {
            let right = st0.last();
            let left = st0[st0.len() - 2];
            let built = Node::bin(clause, left, right);
            assert(st1.drop_last() =~= st0.drop_last().drop_last());
            assert(built.ser() =~= left.ser() + right.ser() + seq![c]);
            assert(stack_ser(st0.drop_last()) =~= stack_ser(st0.drop_last().drop_last())
                + left.ser()) by {
                assert(st0.drop_last().last() == left);
            }
            assert(stack_ser(st0) =~= stack_ser(st0.drop_last()) + right.ser());
            assert(stack_ser(st1) =~= stack_ser(st0.drop_last().drop_last()) + built.ser());
            assert(stack_ser(st1) =~= stack_ser(st0) + seq![c]);
            assert(stack_ser(st1) =~= front + seq![c]);
            assert(s =~= front + seq![c]);
            assert(stack_ser(st1) =~= s);
            assert forall|i: int| 0 <= i < st1.len() implies (#[trigger] st1[i]).wf() by {
                if i < st1.len() - 1 {
                    assert(st1[i] == st0[i]);
                }
            }
        }
    }
}

/// Round trip: serializing the tree of a valid formula reproduces the
/// formula, character for character.
pub proof fn lemma_parse_round_trip(s: Seq<char>)
    requires
        valid_formula(s),
    ensures
        parsed(s).wf(),
        parsed(s).ser() == s,
{
    lemma_parse_run_wf_ser(s);
    let stack = parse_run(s)->Ok_0;
    assert(stack_ser(stack.drop_last()) + stack.last().ser() == s);
    assert(stack.drop_last().len() == 0);
    assert(stack_ser(stack.drop_last()) =~= Seq::<char>::empty());
    assert(parsed(s).ser() =~= s);
}

/// The stack machine resumed from a given working stack over further
/// input.
pub open spec fn parse_run_from(stack: Seq<Node>, t: Seq<char>) -> Result<Seq<Node>, ParseError>
    decreases t.len(),
{
    if t.len() == 0 {
        Ok(stack)
    } else {
        match parse_run_from(stack, t.drop_last()) {
            Ok(st) => parse_step(st, t.last()),
            Err(e) => Err(e),
        }
    }
}

/// Running the machine over concatenated input is running it over the
/// first part and resuming over the second.
proof fn lemma_parse_run_from_append(stack: Seq<Node>, a: Seq<char>, b: Seq<char>)
    ensures
        parse_run_from(stack, a + b) == (match parse_run_from(stack, a) {
            Ok(st) => parse_run_from(st, b),
            Err(e) => Err(e),
        }),
    decreases b.len(),
{
    if b.len() == 0 {
        assert(a + b =~= a);
    } else {
        assert((a + b).drop_last() =~= a + b.drop_last());
        assert((a + b).last() == b.last());
        lemma_parse_run_from_append(stack, a, b.drop_last());
    }
}

/// Resuming over a single character is one step of the machine.
proof fn lemma_parse_run_from_single(stack: Seq<Node>, c: char)
    ensures
        parse_run_from(stack, seq![c]) == parse_step(stack, c),
{
    assert(seq![c].drop_last() =~= Seq::<char>::empty());
    assert(parse_run_from(stack, seq![c].drop_last()) == Ok::<Seq<Node>, ParseError>(stack));
    assert(seq![c].last() == c);
}

/// Feeding a well-formed tree's serialization to the machine pushes
/// exactly that tree.
proof fn lemma_parse_run_from_ser(stack: Seq<Node>, n: Node)
    requires
        n.wf(),
    ensures
        parse_run_from(stack, n.ser()) == Ok::<Seq<Node>, ParseError>(stack.push(n)),
    decreases n,
{
    let c = n.clause.spec_to();
    crate::clause::lemma_clause_char_round_trip_rev(n.clause);
    match (n.left, n.right) {
        (None, None) => {
            assert(n.ser() =~= seq![c]);
            lemma_parse_run_from_single(stack, c);
            assert(parse_step(stack, c) == Ok::<Seq<Node>, ParseError>(
                stack.push(Node::leaf(n.clause)),
            ));
            assert(Node::leaf(n.clause) == n);
            assert(parse_run_from(stack, n.ser()) == Ok::<Seq<Node>, ParseError>(stack.push(n)));
        },
        (Some(l), None) => {
            lemma_parse_run_from_ser(stack, *l);
            assert(n.ser() =~= l.ser() + seq![c]);
            lemma_parse_run_from_append(stack, l.ser(), seq![c]);
            let st = stack.push(*l);
            lemma_parse_run_from_single(st, c);
            assert(parse_step(st, c) == Ok::<Seq<Node>, ParseError>(
                st.drop_last().push(Node::neg(st.last())),
            ));
            assert(st.drop_last() =~= stack);
            assert(Node::neg(*l) == n);
            assert(parse_run_from(stack, n.ser()) == Ok::<Seq<Node>, ParseError>(stack.push(n)));
        },
        (Some(l), Some(r)) => {
            lemma_parse_run_from_ser(stack, *l);
            lemma_parse_run_from_ser(stack.push(*l), *r);
            assert(n.ser() =~= (l.ser() + r.ser()) + seq![c]);
            lemma_parse_run_from_append(stack, l.ser() + r.ser(), seq![c]);
            lemma_parse_run_from_append(stack, l.ser(), r.ser());
            let st = stack.push(*l).push(*r);
            lemma_parse_run_from_single(st, c);
            assert(st.len() >= 2);
            assert(parse_step(st, c) == Ok::<Seq<Node>, ParseError>(
                st.drop_last().drop_last().push(Node::bin(n.clause, st[st.len() - 2], st.last())),
            ));
            assert(st.drop_last().drop_last() =~= stack);
            assert(st[st.len() - 2] == *l);
            assert(Node::bin(n.clause, *l, *r) == n);
            assert(parse_run_from(stack, n.ser()) == Ok::<Seq<Node>, ParseError>(stack.push(n)));
        },
        (None, Some(_)) => {
            assert(false);
        },
    }
}

/// The machine started empty is the machine resumed from the empty stack.
proof fn lemma_parse_run_is_run_from(s: Seq<char>)
    ensures
        parse_run(s) == parse_run_from(Seq::<Node>::empty(), s),
    decreases s.len(),
{
    if s.len() > 0 {
        lemma_parse_run_is_run_from(s.drop_last());
    }
}

/// Round trip, the other way: the serialization of any well-formed tree is
/// a valid formula, and parsing it yields the tree again.  Together with
/// `lemma_parse_round_trip` this makes serialization the exact inverse of
/// parsing.
pub proof fn lemma_ser_parses_back(n: Node)
    requires
        n.wf(),
    ensures
        valid_formula(n.ser()),
        parsed(n.ser()) == n,
{
    lemma_parse_run_is_run_from(n.ser());
    lemma_parse_run_from_ser(Seq::<Node>::empty(), n);
    let stack = Seq::<Node>::empty().push(n);
    assert(stack.len() == 1);
    assert(stack[0] == n);
}

/// Once the scan has failed, reading further characters cannot recover: the
/// run over any extension reports the same error.
proof fn lemma_parse_run_sticky_err(s: Seq<char>, i: int)
    requires
        0 <= i <= s.len(),
        parse_run(s.take(i)) is Err,
    ensures
        parse_run(s) == parse_run(s.take(i)),
    decreases s.len() - i,
{
    if i == s.len() {
        assert(s.take(i) =~= s);
    } else {
        assert(s.take(i + 1).drop_last() =~= s.take(i));
        assert(parse_run(s.take(i + 1)) == parse_run(s.take(i)));
        lemma_parse_run_sticky_err(s, i + 1);
    }
}

/// Parses a postfix formula string into a tree.
///
/// Exactly the syntactically valid formulas are accepted, and the parsed
/// tree serializes back to the input; each malformed input is reported as
/// the specific [`ParseError`] that the left-to-right scan meets first.
pub fn parse(formula: &str) -> (r: Result<Tree, ParseError>)
    ensures
        match r {
            Ok(t) => valid_formula(formula@) && t@ == parsed(formula@) && t@.wf() && t@.ser()
                == formula@,
            Err(e) => !valid_formula(formula@) && parse_result(formula@) == Err::<
                Node,
                ParseError,
            >(e),
        },
{
    let ghost s = formula@;
    let n = formula.unicode_len();
    let mut stack: Vec<Node> = Vec::new();
    for i in 0..n
        invariant
            n == s.len(),
            formula@ == s,
            parse_run(s.take(i as int)) == Ok::<Seq<Node>, ParseError>(stack@),
            forall|k: int| 0 <= k < stack@.len() ==> (#[trigger] stack@[k]).wf(),
    {
        let c = formula.get_char(i);
        proof {
            assert(s.take(i + 1).drop_last() =~= s.take(i as int));
            assert(s.take(i + 1).last() == c);
        }
        if !Clause::symbol_char(c) {
            proof {
                lemma_parse_run_sticky_err(s, i + 1);
            }
            return Err(ParseError::InvalidSymbol);
        }
        let clause = Clause::from(c);
        let node = match clause {
            Clause::Value(_) | Clause::Variable(_) => Node::new(clause, None, None),
            Clause::Negation => {
                match stack.pop() {
                    Some(top) => Node::new(clause, Some(Box::new(top)), None),
                    None => {
                        proof {
                            lemma_parse_run_sticky_err(s, i + 1);
                        }
                        return Err(ParseError::InsufficientOperands);
                    },
                }
            },
            _ => {
                let right = match stack.pop() {
                    Some(top) => top,
                    None => {
                        proof {
                            lemma_parse_run_sticky_err(s, i + 1);
                        }
                        return Err(ParseError::InsufficientOperands);
                    },
                };
                let left = match stack.pop() {
                    Some(top) => top,
                    None => {
                        proof {
                            lemma_parse_run_sticky_err(s, i + 1);
                        }
                        return Err(ParseError::InsufficientOperands);
                    },
                };
                Node::new(clause, Some(Box::new(left)), Some(Box::new(right)))
            },
        };
        stack.push(node);
        proof {
            assert(parse_run(s.take(i + 1)) == Ok::<Seq<Node>, ParseError>(stack@));
        }
    }
    proof {
        assert(s.take(n as int) =~= s);
    }
    if stack.len() == 0 {
        return Err(ParseError::EmptyFormula);
    }
    if stack.len() > 1 {
        return Err(ParseError::TooManyOperands);
    }
    let root = match stack.pop() {
        Some(top) => top,
        None => {
            return Err(ParseError::EmptyFormula);
        },
    };
    proof {
        assert(root == parsed(s));
        lemma_parse_round_trip(s);
    }
    Ok(Tree { root })
}

} // verus!
