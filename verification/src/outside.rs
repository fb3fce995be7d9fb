//! Thin wrappers around functions of std and of itertools that vstd gives
//! no specification.  Each wrapper's contract states what the wrapped
//! function's documentation promises; nothing else in the library is
//! trusted.

use vstd::prelude::*;

verus! {

/// `s` with the duplicates removed: of every group of equal elements the
/// first occurrence stays, in its place.
pub open spec fn dedup_first<T>(s: Seq<T>) -> Seq<T>
    decreases s.len(),
{
    if s.len() == 0 {
        Seq::empty()
    } else {
        let front = dedup_first(s.drop_last());
        if s.drop_last().contains(s.last()) {
            front
        } else {
            front.push(s.last())
        }
    }
}

/// Whether `s` is sorted in ascending order.
pub open spec fn sorted_ascending(s: Seq<char>) -> bool {
    forall|i: int, j: int| 0 <= i <= j < s.len() ==> s[i] <= s[j]
}

/// `sep` inserted between every two neighbouring elements of `s`.
pub open spec fn interspersed<T>(s: Seq<T>, sep: T) -> Seq<T>
    decreases s.len(),
{
    if s.len() <= 1 {
        s
    } else {
        interspersed(s.drop_last(), sep) + seq![sep, s.last()]
    }
}

/// `a` and `b` alternated, starting with `a`; when one side runs out the
/// rest of the other follows.
pub open spec fn interleaved<T>(a: Seq<T>, b: Seq<T>) -> Seq<T>
    decreases a.len() + b.len(),
{
    if a.len() == 0 {
        b
    } else {
        seq![a.first()] + interleaved(b, a.drop_first())
    }
}

/// Relies on `itertools::Itertools::unique`: keeps the first occurrence of
/// each element, in order.
#[verifier::external_body]
pub(crate) fn unique_i32(v: Vec<i32>) -> (r: Vec<i32>)
    ensures
        r@ == dedup_first(v@),
{
    itertools::Itertools::unique(v.into_iter()).collect()
}

/// Relies on `itertools::Itertools::unique`: keeps the first occurrence of
/// each element, in order.
#[verifier::external_body]
pub(crate) fn unique_chars(v: Vec<char>) -> (r: Vec<char>)
    ensures
        r@ == dedup_first(v@),
{
    itertools::Itertools::unique(v.into_iter()).collect()
}

/// Relies on `itertools::Itertools::sorted`: sorts into ascending order,
/// keeping exactly the elements given.
#[verifier::external_body]
pub(crate) fn sorted_chars(v: Vec<char>) -> (r: Vec<char>)
    ensures
        r@.to_multiset() == v@.to_multiset(),
        sorted_ascending(r@),
{
    itertools::Itertools::sorted(v.into_iter()).collect()
}

/// Relies on `itertools::Itertools::intersperse`: puts `sep` between every
/// two neighbouring elements.
#[verifier::external_body]
pub(crate) fn intersperse_chars(v: Vec<char>, sep: char) -> (r: Vec<char>)
    ensures
        r@ == interspersed(v@, sep),
{
    itertools::Itertools::intersperse(v.into_iter(), sep).collect()
}

/// Relies on `itertools::Itertools::interleave`: alternates the two inputs,
/// starting with the first, and finishes with whatever is left over.
#[verifier::external_body]
pub(crate) fn interleave_chars(a: Vec<char>, b: Vec<char>) -> (r: Vec<char>)
    ensures
        r@ == interleaved(a@, b@),
{
    itertools::Itertools::interleave(a.into_iter(), b.into_iter()).collect()
}

/// Lexicographic order on integer sequences, element by element.
pub open spec fn le_lex(a: Seq<i32>, b: Seq<i32>) -> bool
    decreases a.len(),
{
    if a.len() == 0 {
        true
    } else if b.len() == 0 {
        false
    } else if a.first() < b.first() {
        true
    } else if a.first() > b.first() {
        false
    } else {
        le_lex(a.drop_first(), b.drop_first())
    }
}

/// The order the powerset is listed in: shorter sequences first, and
/// sequences of one length lexicographically.
pub open spec fn le_size_lex(a: Seq<i32>, b: Seq<i32>) -> bool {
    a.len() < b.len() || (a.len() == b.len() && le_lex(a, b))
}

/// Relies on `itertools::Itertools::sorted_by`: sorts into ascending order
/// by the given comparison, keeping exactly the elements given.  The
/// comparison closure translates the library's own three-way comparison
/// into `Ordering`.
#[verifier::external_body]
pub(crate) fn sorted_by_size_lex(v: Vec<Vec<i32>>) -> (r: Vec<Vec<i32>>)
    ensures
        r.deep_view().to_multiset() == v.deep_view().to_multiset(),
        forall|i: int, j: int|
            0 <= i <= j < r.deep_view().len() ==> le_size_lex(
                r.deep_view()[i],
                r.deep_view()[j],
            ),
{
    itertools::Itertools::sorted_by(
        v.into_iter(),
        |a, b| match crate::sets::cmp_size_lex(a, b) {
            -1 => core::cmp::Ordering::Less,
            0 => core::cmp::Ordering::Equal,
            _ => core::cmp::Ordering::Greater,
        },
    ).collect()
}

/// Relies on `String::push`: appends one character at the end.
#[verifier::external_body]
pub(crate) fn push_char(s: &mut String, c: char)
    ensures
        final(s)@ == old(s)@.push(c),
{
    s.push(c)
}

} // verus!
