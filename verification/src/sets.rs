//! The set evaluator and the powerset: a formula evaluated over sets of
//! integers, with each variable bound to a set, and the enumeration of all
//! subsets of a set.

use vstd::arithmetic::div_mod::lemma_div_denominator;
use vstd::arithmetic::power2::{lemma_pow2_pos, lemma_pow2_unfold, pow2};
use vstd::prelude::*;

use crate::clause::Clause;
use crate::node::Node;
use crate::outside::{le_lex, le_size_lex, sorted_by_size_lex, unique_i32};
use crate::parser::{parse, parsed, valid_formula};
use crate::table::{lemma_add_contains, lemma_dedup_first, pow2_usize};

verus! {

/// The uppercase letters of `s`, in order of appearance, duplicates kept.
pub open spec fn upper_chars(s: Seq<char>) -> Seq<char>
    decreases s.len(),
{
    if s.len() == 0 {
        Seq::empty()
    } else {
        let front = upper_chars(s.drop_last());
        if 'A' <= s.last() && s.last() <= 'Z' {
            front.push(s.last())
        } else {
            front
        }
    }
}

/// The set-valued assignment that a variable list and a parallel list of
/// sets denote: a variable is bound to the set at its first occurrence in
/// the list.
pub open spec fn sets_map(vars: Seq<char>, sets: Seq<Seq<i32>>) -> Map<char, Set<i32>> {
    Map::new(
        |c: char| vars.contains(c),
        |c: char| sets[vars.index_of_first(c)->0].to_set(),
    )
}

/// The union of all the listed sets.
pub open spec fn sets_union(sets: Seq<Seq<i32>>) -> Set<i32> {
    Set::new(|x: i32| exists|i: int| 0 <= i < sets.len() && #[trigger] sets[i].contains(x))
}

/// The first `i` of the listed sets laid end to end.
pub open spec fn flat_prefix(ss: Seq<Seq<i32>>, i: int) -> Seq<i32>
    decreases i,
{
    if i <= 0 {
        Seq::empty()
    } else {
        flat_prefix(ss, i - 1) + ss[i - 1]
    }
}

/// An element stands in the laid-out prefix exactly when one of its sets
/// holds it.
proof fn lemma_flat_prefix_contains(ss: Seq<Seq<i32>>, i: int, x: i32)
    requires
        0 <= i <= ss.len(),
    ensures
        flat_prefix(ss, i).contains(x) <==> exists|q: int|
            0 <= q < i && #[trigger] ss[q].contains(x),
    decreases i,
{
    if i > 0 {
        lemma_flat_prefix_contains(ss, i - 1, x);
        lemma_add_contains(flat_prefix(ss, i - 1), ss[i - 1], x);
        if flat_prefix(ss, i).contains(x) {
            if ss[i - 1].contains(x) {
                assert(0 <= i - 1 < i && ss[i - 1].contains(x));
            }
        }
    }
}

/// A variable of a child occurs in the parent.
proof fn lemma_child_vars(n: Node)
    ensures
        n.left is Some ==> forall|c: char| #[trigger] n.l().vars().contains(c) ==> n.vars().contains(c),
        n.right is Some ==> forall|c: char| #[trigger] n.r().vars().contains(c) ==> n.vars().contains(c),
{
}

/// Whether `v` holds `x`, by linear search.
fn contains_i32(v: &Vec<i32>, x: i32) -> (r: bool)
    ensures
        r == v@.contains(x),
{
    let n = v.len();
    for i in 0..n
        invariant
            n == v@.len(),
            forall|j: int| 0 <= j < i ==> v@[j] != x,
    {
        if v[i] == x {
            return true;
        }
    }
    false
}

/// A copy of `v`.
fn copy_vec_i32(v: &Vec<i32>) -> (r: Vec<i32>)
    ensures
        r@ == v@,
{
    let n = v.len();
    let mut r: Vec<i32> = Vec::new();
    for i in 0..n
        invariant
            n == v@.len(),
            r@ == v@.subrange(0, i as int),
    {
        r.push(v[i]);
        proof {
            assert(r@ =~= v@.subrange(0, i + 1));
        }
    }
    proof {
        assert(r@ =~= v@);
    }
    r
}

/// The elements of `v` whose membership in `w` equals `keep`, in order.
fn filter_by_membership(v: &Vec<i32>, w: &Vec<i32>, keep: bool) -> (r: Vec<i32>)
    requires
        v@.no_duplicates(),
    ensures
        r@.no_duplicates(),
        forall|x: i32| r@.contains(x) <==> (v@.contains(x) && w@.contains(x) == keep),
{
    let n = v.len();
    let mut r: Vec<i32> = Vec::new();
    for i in 0..n
        invariant
            n == v@.len(),
            v@.no_duplicates(),
            r@.no_duplicates(),
            forall|x: i32|
                r@.contains(x) <==> ((exists|j: int| 0 <= j < i && v@[j] == x) && w@.contains(x)
                    == keep),
    {
        let x = v[i];
        if contains_i32(w, x) == keep {
            let ghost old_r = r@;
            proof {
                if old_r.contains(x) {
                    let j = choose|j: int| 0 <= j < i && v@[j] == x;
                    assert(v@[j] == v@[i as int]);
                    assert(false);
                }
            }
            r.push(x);
            proof {
                assert forall|y: i32|
                    r@.contains(y) implies ((exists|j: int| 0 <= j < i + 1 && v@[j] == y)
                    && w@.contains(y) == keep) by {
                    let q = choose|q: int| 0 <= q < r@.len() && r@[q] == y;
                    if q < old_r.len() {
                        assert(old_r[q] == y);
                        assert(old_r.contains(y));
                    } else {
                        assert(y == x);
                        assert(v@[i as int] == y);
                    }
                }
                assert forall|y: i32|
                    ((exists|j: int| 0 <= j < i + 1 && v@[j] == y) && w@.contains(y)
                        == keep) implies r@.contains(y) by {
                    let j = choose|j: int| 0 <= j < i + 1 && v@[j] == y;
                    if j < i {
                        assert(old_r.contains(y));
                        let q = choose|q: int| 0 <= q < old_r.len() && old_r[q] == y;
                        assert(r@[q] == y);
                    } else {
                        assert(r@.last() == y);
                    }
                }
            }
        } else {
            proof {
                assert forall|y: i32|
                    ((exists|j: int| 0 <= j < i + 1 && v@[j] == y) && w@.contains(y)
                        == keep) implies r@.contains(y) by {
                    let j = choose|j: int| 0 <= j < i + 1 && v@[j] == y;
                    assert(j < i);
                }
            }
        }
    }
    r
}

/// The elements of `u` that pass the material or equivalence test on
/// their memberships in `l` and `r`: when `equiv` is true, keeps the
/// elements whose memberships in `l` and `r` agree; otherwise keeps the
/// elements in `r` or outside `l`.
fn filter_material_equiv(u: &Vec<i32>, l: &Vec<i32>, r: &Vec<i32>, equiv: bool) -> (res: Vec<i32>)
    requires
        u@.no_duplicates(),
    ensures
        res@.no_duplicates(),
        forall|x: i32|
            res@.contains(x) <==> (u@.contains(x) && (if equiv {
                l@.contains(x) == r@.contains(x)
            } else {
                r@.contains(x) || !l@.contains(x)
            })),
{
    let n = u.len();
    let mut res: Vec<i32> = Vec::new();
    for i in 0..n
        invariant
            n == u@.len(),
            u@.no_duplicates(),
            res@.no_duplicates(),
            forall|x: i32|
                res@.contains(x) <==> ((exists|j: int| 0 <= j < i && u@[j] == x) && (if equiv {
                    l@.contains(x) == r@.contains(x)
                } else {
                    r@.contains(x) || !l@.contains(x)
                })),
    {
        let x = u[i];
        let in_l = contains_i32(l, x);
        let in_r = contains_i32(r, x);
        let keep = if equiv {
            in_l == in_r
        } else {
            in_r || !in_l
        };
        if keep {
            let ghost old_res = res@;
            proof {
                if old_res.contains(x) {
                    let j = choose|j: int| 0 <= j < i && u@[j] == x;
                    assert(u@[j] == u@[i as int]);
                    assert(false);
                }
            }
            res.push(x);
            proof {
                assert forall|y: i32| res@.contains(y) implies ((exists|j: int|
                    0 <= j < i + 1 && u@[j] == y) && (if equiv {
                    l@.contains(y) == r@.contains(y)
                } else {
                    r@.contains(y) || !l@.contains(y)
                })) by {
                    let q = choose|q: int| 0 <= q < res@.len() && res@[q] == y;
                    if q < old_res.len() {
                        assert(old_res[q] == y);
                        assert(old_res.contains(y));
                    } else {
                        assert(y == x);
                        assert(u@[i as int] == y);
                    }
                }
                assert forall|y: i32|
                    ((exists|j: int| 0 <= j < i + 1 && u@[j] == y) && (if equiv {
                        l@.contains(y) == r@.contains(y)
                    } else {
                        r@.contains(y) || !l@.contains(y)
                    })) implies res@.contains(y) by {
                    let j = choose|j: int| 0 <= j < i + 1 && u@[j] == y;
                    if j < i {
                        assert(old_res.contains(y));
                        let q = choose|q: int| 0 <= q < old_res.len() && old_res[q] == y;
                        assert(res@[q] == y);
                    } else {
                        assert(res@.last() == y);
                    }
                }
            }
        } else {
            proof {
                assert forall|y: i32|
                    ((exists|j: int| 0 <= j < i + 1 && u@[j] == y) && (if equiv {
                        l@.contains(y) == r@.contains(y)
                    } else {
                        r@.contains(y) || !l@.contains(y)
                    })) implies res@.contains(y) by {
                    let j = choose|j: int| 0 <= j < i + 1 && u@[j] == y;
                    assert(j < i);
                }
            }
        }
    }
    res
}

/// The position of the first occurrence of `c` in `vars`.
fn find_first_var(vars: &Vec<char>, c: char) -> (idx: usize)
    requires
        vars@.contains(c),
    ensures
        idx < vars@.len(),
        vars@.index_of_first(c) == Some(idx as int),
{
    let n = vars.len();
    for i in 0..n
        invariant
            n == vars@.len(),
            vars@.contains(c),
            forall|j: int| 0 <= j < i ==> vars@[j] != c,
    {
        if vars[i] == c {
            proof {
                vars@.index_of_first_ensures(c);
                let fi = vars@.index_of_first(c)->0;
                if fi < i as int {
                    assert(vars@[fi] == c);
                    assert(false);
                }
                if fi > i as int {
                    assert(vars@[i as int] != c);
                    assert(false);
                }
            }
            return i;
        }
    }
    proof {
        let j = choose|j: int| 0 <= j < vars@.len() && vars@[j] == c;
        assert(false);
    }
    0
}

impl Node {
    /// Evaluates this formula over sets of integers: the variable `c` is
    /// bound to the set at the first position of `c` in `vars`, negation
    /// is complement relative to `encompassing`, and the connectives map
    /// to the corresponding set operations.  Constants denote no set and
    /// are excluded.
    pub fn evaluate_sets(
        &self,
        encompassing: &Vec<i32>,
        vars: &Vec<char>,
        sets: &Vec<Vec<i32>>,
    ) -> (r: Vec<i32>)
        requires
            self.wf(),
            !self.has_literal(),
            forall|c: char| #[trigger] self.vars().contains(c) ==> vars@.contains(c),
            vars@.len() == sets@.len(),
            forall|i: int| 0 <= i < sets@.len() ==> (#[trigger] sets@[i])@.no_duplicates(),
            encompassing@.no_duplicates(),
        ensures
            r@.no_duplicates(),
            r@.to_set() == self.set_val(
                encompassing@.to_set(),
                sets_map(vars@, sets.deep_view()),
            ),
        decreases *self,
    {
        let ghost u = encompassing@.to_set();
        let ghost m = sets_map(vars@, sets.deep_view());
        proof {
            lemma_child_vars(*self);
        }
        match self.clause {
            Clause::Variable(v) => {
                proof {
                    assert(self.vars().contains(v));
                }
                let idx = find_first_var(vars, v);
                let r = copy_vec_i32(&sets[idx]);
                proof {
                    assert(sets.deep_view()[idx as int] == sets@[idx as int]@);
                    assert(m[v] == sets@[idx as int]@.to_set());
                    assert(r@.to_set() =~= self.set_val(u, m));
                }
                r
            },
            Clause::Value(_) => {
                proof {
                    assert(false);
                }
                Vec::new()
            },
            Clause::Negation => {
                let l = self.left().evaluate_sets(encompassing, vars, sets);
                let r = filter_by_membership(encompassing, &l, false);
                proof {
                    assert(r@.to_set() =~= self.set_val(u, m));
                }
                r
            },
            Clause::Conjunction => {
                let l = self.left().evaluate_sets(encompassing, vars, sets);
                let rv = self.right().evaluate_sets(encompassing, vars, sets);
                let r = filter_by_membership(&l, &rv, true);
                proof {
                    assert(r@.to_set() =~= self.set_val(u, m));
                }
                r
            },
            Clause::Disjunction => {
                let l = self.left().evaluate_sets(encompassing, vars, sets);
                let rv = self.right().evaluate_sets(encompassing, vars, sets);
                let mut both = copy_vec_i32(&l);
                let n = rv.len();
                for i in 0..n
                    invariant
                        n == rv@.len(),
                        both@ == l@ + rv@.subrange(0, i as int),
                {
                    both.push(rv[i]);
                    proof {
                        assert(both@ =~= l@ + rv@.subrange(0, i + 1));
                    }
                }
                proof {
                    assert(both@ =~= l@ + rv@);
                }
                let r = unique_i32(both);
                proof {
                    lemma_dedup_first(l@ + rv@);
                    assert forall|x: i32| r@.contains(x) <==> (l@.contains(x) || rv@.contains(
                        x,
                    )) by {
                        lemma_add_contains(l@, rv@, x);
                    }
                    assert(r@.to_set() =~= self.set_val(u, m));
                }
                r
            },
            Clause::Exclusive => {
                let l = self.left().evaluate_sets(encompassing, vars, sets);
                let rv = self.right().evaluate_sets(encompassing, vars, sets);
                let mut only_l = filter_by_membership(&l, &rv, false);
                let only_r = filter_by_membership(&rv, &l, false);
                let ghost ol = only_l@;
                let n = only_r.len();
                for i in 0..n
                    invariant
                        n == only_r@.len(),
                        only_l@ == ol + only_r@.subrange(0, i as int),
                {
                    only_l.push(only_r[i]);
                    proof {
                        assert(only_l@ =~= ol + only_r@.subrange(0, i + 1));
                    }
                }
                proof {
                    assert(only_l@ =~= ol + only_r@);
                    assert forall|i: int, j: int|
                        0 <= i < j < only_l@.len() implies only_l@[i] != only_l@[j] by {
                        if i < ol.len() && j >= ol.len() {
                            assert(ol.contains(only_l@[i]));
                            assert(only_r@.contains(only_l@[j]));
                        }
                    }
                    assert forall|x: i32| only_l@.contains(x) <==> (ol.contains(x)
                        || only_r@.contains(x)) by {
                        lemma_add_contains(ol, only_r@, x);
                    }
                    assert(only_l@.to_set() =~= self.set_val(u, m));
                }
                only_l
            },
            Clause::Material => {
                let l = self.left().evaluate_sets(encompassing, vars, sets);
                let rv = self.right().evaluate_sets(encompassing, vars, sets);
                let filtered = filter_material_equiv(encompassing, &l, &rv, false);
                let r = unique_i32(filtered);
                proof {
                    lemma_dedup_first(filtered@);
                    assert(r@.to_set() =~= self.set_val(u, m));
                }
                r
            },
            Clause::Equivalence => {
                let l = self.left().evaluate_sets(encompassing, vars, sets);
                let rv = self.right().evaluate_sets(encompassing, vars, sets);
                let filtered = filter_material_equiv(encompassing, &l, &rv, true);
                let r = unique_i32(filtered);
                proof {
                    lemma_dedup_first(filtered@);
                    assert(r@.to_set() =~= self.set_val(u, m));
                }
                r
            },
        }
    }
}

/// Parses a postfix formula whose variables stand for sets of integers and
/// evaluates it: the `i`-th uppercase letter of the formula text, in order
/// of appearance, is bound to `sets[i]`, and the universe is the union of
/// all the given sets.
pub fn eval_set(formula: &str, sets: Vec<Vec<i32>>) -> (r: Vec<i32>)
    requires
        valid_formula(formula@),
        !parsed(formula@).has_literal(),
        sets@.len() == upper_chars(formula@).len(),
        forall|i: int| 0 <= i < sets@.len() ==> (#[trigger] sets@[i])@.no_duplicates(),
    ensures
        r@.no_duplicates(),
        r@.to_set() == parsed(formula@).set_val(
            sets_union(sets.deep_view()),
            sets_map(upper_chars(formula@), sets.deep_view()),
        ),
{
    let tree = match parse(formula) {
        Ok(t) => t,
        Err(_) => {
            proof {
                assert(false);
            }
            return Vec::new();
        },
    };
    let fs = formula;
    let n = vstd::string::StrSliceExecFns::unicode_len(fs);
    let mut vars: Vec<char> = Vec::new();
    for i in 0..n
        invariant
            n == fs@.len(),
            vars@ == upper_chars(fs@.take(i as int)),
    {
        let c = vstd::string::StrSliceExecFns::get_char(fs, i);
        proof {
            assert(fs@.take(i + 1).drop_last() =~= fs@.take(i as int));
            assert(fs@.take(i + 1).last() == c);
        }
        if 'A' <= c && c <= 'Z' {
            vars.push(c);
        }
    }
    proof {
        assert(fs@.take(n as int) =~= fs@);
    }
    let mut encompassing: Vec<i32> = Vec::new();
    let ghost d = sets.deep_view();
    let outer = sets.len();
    for i in 0..outer
        invariant
            outer == sets@.len(),
            d == sets.deep_view(),
            encompassing@ == flat_prefix(d, i as int),
    {
        let inner = sets[i].len();
        proof {
            assert(d[i as int] == sets@[i as int]@);
        }
        for j in 0..inner
            invariant
                0 <= i < sets@.len(),
                d == sets.deep_view(),
                d[i as int] == sets@[i as int]@,
                inner == sets@[i as int]@.len(),
                encompassing@ == flat_prefix(d, i as int) + sets@[i as int]@.subrange(0, j as int),
        {
            encompassing.push(sets[i][j]);
            proof {
                assert(encompassing@ =~= flat_prefix(d, i as int) + sets@[i as int]@.subrange(
                    0,
                    j + 1,
                ));
            }
        }
        proof {
            assert(sets@[i as int]@.subrange(0, inner as int) =~= sets@[i as int]@);
            assert(encompassing@ =~= flat_prefix(d, i + 1));
        }
    }
    let universe = unique_i32(encompassing);
    proof {
        lemma_dedup_first(encompassing@);
        assert forall|x: i32|
            universe@.to_set().contains(x) <==> sets_union(d).contains(x) by {
            lemma_flat_prefix_contains(d, outer as int, x);
        }
        assert(universe@.to_set() =~= sets_union(sets.deep_view()));
        crate::table::lemma_ser_vars(tree@);
        crate::table::lemma_vars_upper(tree@);
        assert forall|c: char| #[trigger] tree@.vars().contains(c) implies vars@.contains(c) by {
            assert(tree@.ser().contains(c));
            assert(fs@.contains(c));
            lemma_upper_chars_contains(fs@, c);
        }
        assert(vars@.len() == sets@.len());
    }
    tree.root.evaluate_sets(&universe, &vars, &sets)
}

/// A character stands among the uppercase letters of `s` exactly when it
/// is an uppercase letter occurring in `s`.
proof fn lemma_upper_chars_contains(s: Seq<char>, c: char)
    requires
        'A' <= c && c <= 'Z',
        s.contains(c),
    ensures
        upper_chars(s).contains(c),
    decreases s.len(),
{
    let i = choose|i: int| 0 <= i < s.len() && s[i] == c;
    if i == s.len() - 1 {
        assert(upper_chars(s).last() == c);
    } else {
        assert(s.drop_last()[i] == c);
        assert(s.drop_last().contains(c));
        lemma_upper_chars_contains(s.drop_last(), c);
        let front = upper_chars(s.drop_last());
        let j = choose|j: int| 0 <= j < front.len() && front[j] == c;
        if 'A' <= s.last() && s.last() <= 'Z' {
            assert(front.push(s.last())[j] == c);
        }
    }
}

/// When two equally long sequences first differ at `p`, the one with the
/// smaller element there comes first lexicographically, strictly.
proof fn lemma_le_lex_from_diff(x: Seq<i32>, y: Seq<i32>, p: int)
    requires
        x.len() == y.len(),
        0 <= p < x.len(),
        forall|j: int| 0 <= j < p ==> x[j] == y[j],
        x[p] < y[p],
    ensures
        le_lex(x, y),
        !le_lex(y, x),
    decreases p,
{
    if p == 0 {
    } else {
        assert(x.first() == y.first());
        assert forall|j: int| 0 <= j < p - 1 implies x.drop_first()[j] == y.drop_first()[j] by {
            assert(x[j + 1] == y[j + 1]);
        }
        assert(x.drop_first()[p - 1] == x[p]);
        assert(y.drop_first()[p - 1] == y[p]);
        lemma_le_lex_from_diff(x.drop_first(), y.drop_first(), p - 1);
    }
}

/// Every sequence compares lexicographically at or before itself.
proof fn lemma_le_lex_refl(x: Seq<i32>)
    ensures
        le_lex(x, x),
    decreases x.len(),
{
    if x.len() > 0 {
        lemma_le_lex_refl(x.drop_first());
    }
}

/// Three-way comparison of two integer vectors: first by length, then
/// element by element.  Returns a negative, zero or positive sign as the
/// first compares below, equal to or above the second.
pub fn cmp_size_lex(a: &Vec<i32>, b: &Vec<i32>) -> (r: i8)
    ensures
        -1 <= r && r <= 1,
        (r <= 0) == le_size_lex(a@, b@),
        (r >= 0) == le_size_lex(b@, a@),
        (r == 0) == (a@ == b@),
{
    let alen = a.len();
    let blen = b.len();
    if alen < blen {
        return -1;
    }
    if alen > blen {
        return 1;
    }
    for p in 0..alen
        invariant
            alen == a@.len(),
            alen == b@.len(),
            forall|j: int| 0 <= j < p ==> a@[j] == b@[j],
    {
        if a[p] < b[p] {
            proof {
                lemma_le_lex_from_diff(a@, b@, p as int);
            }
            return -1;
        }
        if a[p] > b[p] {
            proof {
                lemma_le_lex_from_diff(b@, a@, p as int);
            }
            return 1;
        }
    }
    proof {
        assert(a@ =~= b@);
        lemma_le_lex_refl(a@);
    }
    0
}

/// The subsequence of `s` that the bits of `m` select: the last element is
/// kept when the lowest bit is set, and the remaining bits select from the
/// rest.
pub open spec fn mask_subseq(s: Seq<i32>, m: nat) -> Seq<i32>
    decreases s.len(),
{
    if s.len() == 0 {
        Seq::empty()
    } else {
        let rest = mask_subseq(s.drop_last(), m / 2);
        if m % 2 == 1 {
            rest.push(s.last())
        } else {
            rest
        }
    }
}

/// A selected subsequence only holds elements of the sequence it was
/// selected from.
proof fn lemma_mask_subseq_elements(s: Seq<i32>, m: nat, x: i32)
    requires
        mask_subseq(s, m).contains(x),
    ensures
        s.contains(x),
    decreases s.len(),
{
    if s.len() > 0 {
        let rest = mask_subseq(s.drop_last(), m / 2);
        if m % 2 == 1 {
            let q = choose|q: int|
                0 <= q < mask_subseq(s, m).len() && mask_subseq(s, m)[q] == x;
            if q < rest.len() {
                assert(rest[q] == x);
                lemma_mask_subseq_elements(s.drop_last(), m / 2, x);
                let j = choose|j: int| 0 <= j < s.drop_last().len() && s.drop_last()[j] == x;
                assert(s[j] == x);
            } else {
                assert(s[s.len() - 1] == x);
            }
        } else {
            lemma_mask_subseq_elements(s.drop_last(), m / 2, x);
            let j = choose|j: int| 0 <= j < s.drop_last().len() && s.drop_last()[j] == x;
            assert(s[j] == x);
        }
    }
}

/// Over a duplicate-free sequence, different masks select different
/// subsequences: the powerset enumeration lists every subset exactly once.
pub proof fn lemma_mask_subseq_injective(s: Seq<i32>, m1: nat, m2: nat)
    requires
        s.no_duplicates(),
        m1 < pow2(s.len()),
        m2 < pow2(s.len()),
        m1 != m2,
    ensures
        mask_subseq(s, m1) != mask_subseq(s, m2),
    decreases s.len(),
{
    vstd::arithmetic::power2::lemma2_to64();
    if s.len() == 0 {
        assert(false);
    } else {
        let r1 = mask_subseq(s.drop_last(), m1 / 2);
        let r2 = mask_subseq(s.drop_last(), m2 / 2);
        assert(!s.drop_last().contains(s.last())) by {
            if s.drop_last().contains(s.last()) {
                let j = choose|j: int|
                    0 <= j < s.drop_last().len() && s.drop_last()[j] == s.last();
                assert(s[j] == s[s.len() - 1]);
                assert(false);
            }
        }
        if m1 % 2 != m2 % 2 {
            if m1 % 2 == 1 {
                if r1.push(s.last()) == r2 {
                    assert(r2.contains(s.last())) by {
                        assert(r1.push(s.last()).last() == s.last());
                    }
                    lemma_mask_subseq_elements(s.drop_last(), m2 / 2, s.last());
                    assert(false);
                }
            } else {
                if r2.push(s.last()) == r1 {
                    assert(r1.contains(s.last())) by {
                        assert(r2.push(s.last()).last() == s.last());
                    }
                    lemma_mask_subseq_elements(s.drop_last(), m1 / 2, s.last());
                    assert(false);
                }
            }
        } else {
            lemma_pow2_unfold(s.len());
            assert(m1 / 2 != m2 / 2) by (nonlinear_arith)
                requires
                    m1 != m2,
                    m1 % 2 == m2 % 2,
                    m1 >= 0,
                    m2 >= 0,
            ;
            assert(m1 / 2 < pow2((s.len() - 1) as nat)) by (nonlinear_arith)
                requires
                    m1 < 2 * pow2((s.len() - 1) as nat),
                    m1 >= 0,
                    pow2((s.len() - 1) as nat) > 0,
            ;
            assert(m2 / 2 < pow2((s.len() - 1) as nat)) by (nonlinear_arith)
                requires
                    m2 < 2 * pow2((s.len() - 1) as nat),
                    m2 >= 0,
                    pow2((s.len() - 1) as nat) > 0,
            ;
            assert(s.drop_last().no_duplicates());
            lemma_mask_subseq_injective(s.drop_last(), m1 / 2, m2 / 2);
            if m1 % 2 == 1 {
                if r1.push(s.last()) == r2.push(s.last()) {
                    assert(r1.push(s.last()).drop_last() =~= r1);
                    assert(r2.push(s.last()).drop_last() =~= r2);
                    assert(false);
                }
            }
        }
    }
}

/// The subsequence of `set` that the bits of `m` select, with element `j`
/// kept exactly when bit `set.len() - 1 - j` of `m` is set.
fn mask_subseq_vec(set: &Vec<i32>, m: usize) -> (r: Vec<i32>)
    requires
        set@.len() <= 30,
    ensures
        r@ == mask_subseq(set@, m as nat),
{
    let n = set.len();
    let mut r: Vec<i32> = Vec::new();
    proof {
        lemma_pow2_pos(n as nat);
    }
    for j in 0..n
        invariant
            n == set@.len(),
            n <= 30,
            r@ == mask_subseq(set@.subrange(0, j as int), (m as nat) / pow2((n - j) as nat)),
    {
        let pw = pow2_usize(n - 1 - j);
        proof {
            lemma_pow2_pos((n - 1 - j) as nat);
        }
        let keep = (m / pw) % 2 == 1;
        let ghost pref = set@.subrange(0, j + 1);
        let ghost q = (m as nat) / pow2((n - j - 1) as nat);
        proof {
            lemma_pow2_unfold((n - j) as nat);
            lemma_pow2_pos((n - j - 1) as nat);
            lemma_div_denominator(m as int, pow2((n - j - 1) as nat) as int, 2);
            assert(q / 2 == (m as nat) / pow2((n - j) as nat));
            assert(pref.drop_last() =~= set@.subrange(0, j as int));
            assert(pref.last() == set@[j as int]);
        }
        if keep {
            r.push(set[j]);
        }
        proof {
            assert(r@ == mask_subseq(pref, q));
        }
    }
    proof {
        assert(set@.subrange(0, n as int) =~= set@);
        assert(pow2(0) == 1) by {
            vstd::arithmetic::power2::lemma2_to64();
        }
        assert((m as nat) / 1 == m as nat);
        assert(r@ == mask_subseq(set@, m as nat));
    }
    r
}

/// Whether `sub` is a subset of `s`, listed in `s`'s order: some selection
/// of positions of `s` yields it.
pub open spec fn is_subset_of(sub: Seq<i32>, s: Seq<i32>) -> bool {
    exists|m: nat| m < pow2(s.len()) && sub == #[trigger] mask_subseq(s, m)
}

/// All subsets of `set`: every subsequence that some selection of
/// positions yields, each exactly once, listed shortest first and
/// sequences of one length in ascending lexicographic order.
pub fn powerset(set: Vec<i32>) -> (r: Vec<Vec<i32>>)
    requires
        set@.no_duplicates(),
        set@.len() <= 30,
    ensures
        r.deep_view().len() == pow2(set@.len()),
        forall|i: int|
            0 <= i < r.deep_view().len() ==> is_subset_of(#[trigger] r.deep_view()[i], set@),
        forall|sub: Seq<i32>| #[trigger] is_subset_of(sub, set@) ==> r.deep_view().contains(sub),
        r.deep_view().no_duplicates(),
        forall|i: int, j: int|
            0 <= i <= j < r.deep_view().len() ==> le_size_lex(
                r.deep_view()[i],
                r.deep_view()[j],
            ),
{
    let n = set.len();
    let total = pow2_usize(n);
    let mut subs: Vec<Vec<i32>> = Vec::new();
    for m in 0..total
        invariant
            n == set@.len(),
            n <= 30,
            total == pow2(n as nat),
            set@.no_duplicates(),
            subs.deep_view().len() == m,
            forall|q: int|
                0 <= q < m ==> subs.deep_view()[q] == mask_subseq(set@, q as nat),
    {
        let ghost before = subs.deep_view();
        let sub = mask_subseq_vec(&set, m);
        let ghost subv = sub@;
        subs.push(sub);
        proof {
            assert(subs.deep_view() =~~= before.push(subv));
        }
    }
    let ghost d0 = subs.deep_view();
    proof {
        assert forall|i: int, j: int| 0 <= i < j < d0.len() implies d0[i] != d0[j] by {
            lemma_mask_subseq_injective(set@, i as nat, j as nat);
        }
        assert(d0.no_duplicates());
    }
    let r = sorted_by_size_lex(subs);
    proof {
        broadcast use vstd::seq_lib::group_to_multiset_ensures;

        let d = r.deep_view();
        assert(d.to_multiset().len() == d0.to_multiset().len());
        assert(d.len() == d0.len());
        d0.lemma_multiset_has_no_duplicates();
        d.lemma_multiset_has_no_duplicates_conv();
        assert forall|i: int|
            0 <= i < r.deep_view().len() implies is_subset_of(
            #[trigger] r.deep_view()[i],
            set@,
        ) by {
            assert(d.contains(d[i]));
            assert(d.to_multiset().count(d[i]) > 0);
            assert(d0.contains(d[i]));
            let q = choose|q: int| 0 <= q < d0.len() && d0[q] == d[i];
            assert(d0[q] == mask_subseq(set@, q as nat));
            assert((q as nat) < pow2(set@.len()) && r.deep_view()[i] == mask_subseq(
                set@,
                q as nat,
            ));
        }
        assert forall|sub: Seq<i32>| #[trigger] is_subset_of(sub, set@) implies d.contains(
            sub,
        ) by {
            let m = choose|m: nat| m < pow2(set@.len()) && sub == #[trigger] mask_subseq(set@, m);
            assert(d0[m as int] == mask_subseq(set@, m));
            assert(d0.contains(sub));
            assert(d0.to_multiset().count(sub) > 0);
        }
    }
    r
}

} // verus!
