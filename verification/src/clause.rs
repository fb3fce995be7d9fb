//! The tag carried by every node of an expression tree: a boolean constant,
//! a named variable, or one of the six connectives.

use vstd::prelude::*;

verus! {

/// The kind of a formula node.  `Value` and `Variable` are operands
/// (arity 0), `Negation` is unary, and the remaining connectives are binary.
#[derive(Clone, Copy, Debug, PartialEq, Eq, Structural)]
pub enum Clause {
    // Operands
    Value(bool),
    Variable(char),
    // Operators
    Negation,
    Conjunction,
    Disjunction,
    Exclusive,
    Material,
    Equivalence,
}

impl Clause {
    /// How many children a node tagged with this clause must carry.
    pub open spec fn arity(self) -> nat {
        match self {
            Clause::Value(_) => 0,
            Clause::Variable(_) => 0,
            Clause::Negation => 1,
            Clause::Conjunction => 2,
            Clause::Disjunction => 2,
            Clause::Exclusive => 2,
            Clause::Material => 2,
            Clause::Equivalence => 2,
        }
    }

    /// A clause is valid when any variable name it carries is an uppercase
    /// ASCII letter.
    pub open spec fn valid(self) -> bool {
        match self {
            Clause::Variable(v) => 'A' <= v && v <= 'Z',
            _ => true,
        }
    }

    /// True for the two operand kinds, which have no children.
    pub open spec fn spec_is_operand(self) -> bool {
        self is Value || self is Variable
    }

    /// True for the two operand kinds, which have no children.
    #[verifier::when_used_as_spec(spec_is_operand)]
    pub fn is_operand(self) -> (r: bool)
        ensures
            r == self.spec_is_operand(),
    {
        match self {
            Clause::Value(_) => true,
            Clause::Variable(_) => true,
            _ => false,
        }
    }

    /// Whether `c` is one of the characters of the formula alphabet.
    pub open spec fn spec_symbol_char(c: char) -> bool {
        ||| c == '0'
        ||| c == '1'
        ||| ('A' <= c && c <= 'Z')
        ||| c == '!'
        ||| c == '&'
        ||| c == '|'
        ||| c == '^'
        ||| c == '>'
        ||| c == '='
    }

    /// Whether `c` is one of the characters of the formula alphabet.
    #[verifier::when_used_as_spec(spec_symbol_char)]
    pub fn symbol_char(c: char) -> (r: bool)
        ensures
            r == Clause::spec_symbol_char(c),
    {
        c == '0' || c == '1' || ('A' <= c && c <= 'Z') || c == '!' || c == '&' || c == '|'
            || c == '^' || c == '>' || c == '='
    }

    /// The clause denoted by a formula character.
    pub open spec fn spec_from(c: char) -> Clause {
        if c == '0' {
            Clause::Value(false)
        } else if c == '1' {
            Clause::Value(true)
        } else if 'A' <= c && c <= 'Z' {
            Clause::Variable(c)
        } else if c == '!' {
            Clause::Negation
        } else if c == '&' {
            Clause::Conjunction
        } else if c == '|' {
            Clause::Disjunction
        } else if c == '^' {
            Clause::Exclusive
        } else if c == '>' {
            Clause::Material
        } else {
            Clause::Equivalence
        }
    }

    /// Reads a clause from its formula character.
    ///
    /// Characters outside the alphabet denote no clause and are excluded.
    pub fn from(c: char) -> (r: Clause)
        requires
            Clause::symbol_char(c),
        ensures
            r == Clause::spec_from(c),
            r.valid(),
    {
        match c {
            '0' => Clause::Value(false),
            '1' => Clause::Value(true),
            '!' => Clause::Negation,
            '&' => Clause::Conjunction,
            '|' => Clause::Disjunction,
            '^' => Clause::Exclusive,
            '>' => Clause::Material,
            '=' => Clause::Equivalence,
            _ => Clause::Variable(c),
        }
    }

    /// The formula character denoting this clause.
    pub open spec fn spec_to(&self) -> char {
        match *self {
            Clause::Value(false) => '0',
            Clause::Value(true) => '1',
            Clause::Variable(v) => v,
            Clause::Negation => '!',
            Clause::Conjunction => '&',
            Clause::Disjunction => '|',
            Clause::Exclusive => '^',
            Clause::Material => '>',
            Clause::Equivalence => '=',
        }
    }

    /// Writes this clause as its formula character, the inverse of `from`.
    #[verifier::when_used_as_spec(spec_to)]
    pub fn to(&self) -> (r: char)
        ensures
            r == self.spec_to(),
    {
        match *self {
            Clause::Value(false) => '0',
            Clause::Value(true) => '1',
            Clause::Variable(v) => v,
            Clause::Negation => '!',
            Clause::Conjunction => '&',
            Clause::Disjunction => '|',
            Clause::Exclusive => '^',
            Clause::Material => '>',
            Clause::Equivalence => '=',
        }
    }

    /// The display glyph of this clause, used by pretty printers.
    pub open spec fn spec_symbol(self) -> char {
        match self {
            Clause::Value(false) => '⊥',
            Clause::Value(true) => '⊤',
            Clause::Variable(v) => v,
            Clause::Negation => '¬',
            Clause::Conjunction => '∧',
            Clause::Disjunction => '∨',
            Clause::Exclusive => '⊕',
            Clause::Material => '⇒',
            Clause::Equivalence => '⇔',
        }
    }

    /// The display glyph of this clause, used by pretty printers.
    pub fn symbol(&self) -> (r: char)
        ensures
            r == self.spec_symbol(),
    {
        match *self {
            Clause::Value(false) => '⊥',
            Clause::Value(true) => '⊤',
            Clause::Variable(v) => v,
            Clause::Negation => '¬',
            Clause::Conjunction => '∧',
            Clause::Disjunction => '∨',
            Clause::Exclusive => '⊕',
            Clause::Material => '⇒',
            Clause::Equivalence => '⇔',
        }
    }
}

/// Reading a clause from a character and writing it back yields the
/// character again: the two single-character codecs are mutually inverse.
pub proof fn lemma_clause_char_round_trip(c: char)
    requires
        Clause::symbol_char(c),
    ensures
        Clause::spec_from(c).spec_to() == c,
        Clause::spec_from(c).valid(),
{
}

/// Writing a valid clause and reading it back yields the clause again: the
/// character of every valid clause is in the formula alphabet and denotes
/// that clause.
pub proof fn lemma_clause_char_round_trip_rev(clause: Clause)
    requires
        clause.valid(),
    ensures
        Clause::spec_symbol_char(clause.spec_to()),
        Clause::spec_from(clause.spec_to()) == clause,
{
}

} // verus!
