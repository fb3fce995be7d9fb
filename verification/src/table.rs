//! The truth table and satisfiability: the distinct variables of a formula,
//! the enumeration of all assignments over them, the exhaustive
//! satisfiability check, and the rendered table.

use vstd::arithmetic::div_mod::lemma_div_denominator;
use vstd::arithmetic::power2::{lemma_pow2_pos, lemma_pow2_unfold, pow2};
use vstd::prelude::*;

use crate::node::{map_of, Node};
use crate::outside::{dedup_first, push_char, sorted_ascending, sorted_chars, unique_chars};

verus! {

/// Concatenation holds an element exactly when one of the parts does.
pub proof fn lemma_add_contains<T>(a: Seq<T>, b: Seq<T>, x: T)
    ensures
        (a + b).contains(x) <==> (a.contains(x) || b.contains(x)),
{
    if (a + b).contains(x) {
        let i = choose|i: int| 0 <= i < (a + b).len() && (a + b)[i] == x;
        if i < a.len() {
            assert(a[i] == x);
        } else {
            assert(b[i - a.len()] == x);
        }
    }
    if a.contains(x) {
        let i = choose|i: int| 0 <= i < a.len() && a[i] == x;
        assert((a + b)[i] == x);
    }
    if b.contains(x) {
        let i = choose|i: int| 0 <= i < b.len() && b[i] == x;
        assert((a + b)[a.len() + i] == x);
    }
}

/// Removing duplicates keeps exactly the elements that were there, each
/// once.
pub proof fn lemma_dedup_first<T>(s: Seq<T>)
    ensures
        dedup_first(s).no_duplicates(),
        forall|x: T| dedup_first(s).contains(x) <==> s.contains(x),
    decreases s.len(),
{
    if s.len() == 0 {
    } else {
        lemma_dedup_first(s.drop_last());
        let front = dedup_first(s.drop_last());
        assert forall|x: T| dedup_first(s).contains(x) implies s.contains(x) by {
            if front.contains(x) || x == s.last() {
                if front.contains(x) {
                    assert(s.drop_last().contains(x));
                    let i = choose|i: int|
                        0 <= i < s.drop_last().len() && s.drop_last()[i] == x;
                    assert(s[i] == x);
                } else {
                    assert(s[s.len() - 1] == x);
                }
            } else {
                assert(dedup_first(s) == front.push(s.last()) || dedup_first(s) == front);
                if dedup_first(s) == front.push(s.last()) {
                    let i = choose|i: int|
                        0 <= i < dedup_first(s).len() && dedup_first(s)[i] == x;
                    if i < front.len() {
                        assert(front[i] == x);
                    }
                }
            }
        }
        assert forall|x: T| s.contains(x) implies dedup_first(s).contains(x) by {
            let i = choose|i: int| 0 <= i < s.len() && s[i] == x;
            if i < s.len() - 1 {
                assert(s.drop_last()[i] == x);
                assert(s.drop_last().contains(x));
                assert(front.contains(x));
                if !s.drop_last().contains(s.last()) {
                    let j = choose|j: int| 0 <= j < front.len() && front[j] == x;
                    assert(front.push(s.last())[j] == x);
                }
            } else {
                assert(x == s.last());
                if s.drop_last().contains(x) {
                    assert(front.contains(x));
                    if !s.drop_last().contains(s.last()) {
                    }
                } else {
                    assert(front.push(s.last()).last() == x);
                }
            }
        }
        if !s.drop_last().contains(s.last()) {
            assert(!front.contains(s.last()));
        }
    }
}

/// A sorted sequence without duplicates is strictly increasing.
proof fn lemma_sorted_distinct_strict(s: Seq<char>, i: int, j: int)
    requires
        sorted_ascending(s),
        s.no_duplicates(),
        0 <= i < j < s.len(),
    ensures
        s[i] < s[j],
{
}

/// A sorted duplicate-free sequence grows at least one code point per
/// step.
proof fn lemma_sorted_distinct_growth(s: Seq<char>, i: int)
    requires
        sorted_ascending(s),
        s.no_duplicates(),
        0 <= i < s.len(),
    ensures
        s[i] as int >= s[0] as int + i,
    decreases i,
{
    if i > 0 {
        lemma_sorted_distinct_growth(s, i - 1);
        lemma_sorted_distinct_strict(s, i - 1, i);
    }
}

/// A sorted duplicate-free sequence of uppercase letters has at most 26
/// elements, one for each letter.
pub proof fn lemma_upper_seq_len(s: Seq<char>)
    requires
        sorted_ascending(s),
        s.no_duplicates(),
        forall|i: int| 0 <= i < s.len() ==> 'A' <= #[trigger] s[i] && s[i] <= 'Z',
    ensures
        s.len() <= 26,
{
    if s.len() > 26 {
        lemma_sorted_distinct_growth(s, 26);
        assert(s[26] as int >= s[0] as int + 26);
        assert(false);
    }
}

/// Two sorted duplicate-free sequences with the same elements are the same
/// sequence.
pub proof fn lemma_sorted_distinct_unique(s1: Seq<char>, s2: Seq<char>)
    requires
        sorted_ascending(s1),
        s1.no_duplicates(),
        sorted_ascending(s2),
        s2.no_duplicates(),
        forall|c: char| s1.contains(c) <==> s2.contains(c),
    ensures
        s1 == s2,
    decreases s1.len(),
{
    if s1.len() == 0 {
        if s2.len() > 0 {
            assert(s2.contains(s2[0]));
            assert(false);
        }
        assert(s1 =~= s2);
    } else {
        assert(s1.contains(s1[0]));
        assert(s2.contains(s1[0]));
        assert(s2.len() > 0);
        assert(s2.contains(s2[0]));
        assert(s1.contains(s2[0]));
        let i1 = choose|i: int| 0 <= i < s2.len() && s2[i] == s1[0];
        let i2 = choose|i: int| 0 <= i < s1.len() && s1[i] == s2[0];
        assert(s2[0] <= s2[i1]);
        assert(s1[0] <= s1[i2]);
        assert(s1[0] == s2[0]);
        let t1 = s1.drop_first();
        let t2 = s2.drop_first();
        assert forall|c: char| t1.contains(c) implies t2.contains(c) by {
            let i = choose|i: int| 0 <= i < t1.len() && t1[i] == c;
            assert(s1[i + 1] == c);
            assert(s1.contains(c));
            assert(c != s1[0]);
            assert(s2.contains(c));
            let j = choose|j: int| 0 <= j < s2.len() && s2[j] == c;
            assert(j != 0);
            assert(t2[j - 1] == c);
        }
        assert forall|c: char| t2.contains(c) implies t1.contains(c) by {
            let i = choose|i: int| 0 <= i < t2.len() && t2[i] == c;
            assert(s2[i + 1] == c);
            assert(s2.contains(c));
            assert(c != s2[0]);
            assert(s1.contains(c));
            let j = choose|j: int| 0 <= j < s1.len() && s1[j] == c;
            assert(j != 0);
            assert(t1[j - 1] == c);
        }
        assert(sorted_ascending(t1)) by {
            assert forall|i: int, j: int| 0 <= i <= j < t1.len() implies t1[i] <= t1[j] by {
                assert(s1[i + 1] <= s1[j + 1]);
            }
        }
        assert(sorted_ascending(t2)) by {
            assert forall|i: int, j: int| 0 <= i <= j < t2.len() implies t2[i] <= t2[j] by {
                assert(s2[i + 1] <= s2[j + 1]);
            }
        }
        assert(t1.no_duplicates());
        assert(t2.no_duplicates());
        lemma_sorted_distinct_unique(t1, t2);
        assert(s1.len() == s2.len());
        assert forall|i: int| 0 <= i < s1.len() implies s1[i] == s2[i] by {
            if i > 0 {
                assert(t1[i - 1] == s1[i]);
                assert(t2[i - 1] == s2[i]);
            }
        }
        assert(s1 =~= s2);
    }
}

/// Every variable of a well-formed tree is an uppercase letter.
pub proof fn lemma_vars_upper(n: Node)
    requires
        n.wf(),
    ensures
        forall|c: char| #[trigger] n.vars().contains(c) ==> 'A' <= c && c <= 'Z',
    decreases n,
{
    match n.left {
        Some(l) => lemma_vars_upper(*l),
        None => {},
    }
    match n.right {
        Some(r) => lemma_vars_upper(*r),
        None => {},
    }
    assert forall|c: char| #[trigger] n.vars().contains(c) implies 'A' <= c && c <= 'Z' by {
        let base = match n.clause {
            crate::clause::Clause::Variable(v) => set![v],
            _ => Set::<char>::empty(),
        };
        let lv = match n.left {
            Some(l) => l.vars(),
            None => Set::<char>::empty(),
        };
        let rv = match n.right {
            Some(r) => r.vars(),
            None => Set::<char>::empty(),
        };
        assert(n.vars() == base + lv + rv);
        assert(base.contains(c) || lv.contains(c) || rv.contains(c));
    }
}

/// The uppercase letters of a well-formed tree's serialization are exactly
/// its variables.
pub proof fn lemma_ser_vars(n: Node)
    requires
        n.wf(),
    ensures
        forall|c: char|
            'A' <= c && c <= 'Z' ==> (#[trigger] n.ser().contains(c) <==> n.vars().contains(c)),
    decreases n,
{
    let ls = match n.left {
        Some(l) => l.ser(),
        None => Seq::<char>::empty(),
    };
    let rs = match n.right {
        Some(r) => r.ser(),
        None => Seq::<char>::empty(),
    };
    match n.left {
        Some(l) => lemma_ser_vars(*l),
        None => {},
    }
    match n.right {
        Some(r) => lemma_ser_vars(*r),
        None => {},
    }
    assert forall|c: char| 'A' <= c && c <= 'Z' implies (#[trigger] n.ser().contains(c)
        <==> n.vars().contains(c)) by {
        lemma_add_contains(ls, rs, c);
        lemma_add_contains(ls + rs, seq![n.clause.spec_to()], c);
        assert(seq![n.clause.spec_to()].contains(c) <==> n.clause.spec_to() == c) by {
            if seq![n.clause.spec_to()].contains(c) {
                assert(seq![n.clause.spec_to()][0] == c);
            }
            if n.clause.spec_to() == c {
                assert(seq![n.clause.spec_to()][0] == c);
            }
        }
    }
}

/// Whether `vs` lists the distinct variables of `n` in ascending order.
pub open spec fn is_var_seq(n: Node, vs: Seq<char>) -> bool {
    &&& sorted_ascending(vs)
    &&& vs.no_duplicates()
    &&& forall|c: char| vs.contains(c) <==> n.vars().contains(c)
}

impl Node {
    /// The distinct variables of this tree, in ascending order.  For a
    /// well-formed tree there is exactly one such sequence.
    pub open spec fn var_seq(self) -> Seq<char> {
        choose|vs: Seq<char>| is_var_seq(self, vs)
    }
}

/// Bit `b` of `i`, counting from the least significant.
pub open spec fn bit_of(i: nat, b: nat) -> bool {
    (i / pow2(b)) % 2 == 1
}

/// The assignment that row `i` of the truth table denotes: the variable at
/// position `p` of `vs` receives bit `vs.len() - 1 - p` of `i`, and every
/// other variable receives false.
pub open spec fn mask_map(vs: Seq<char>, i: nat) -> Map<char, bool> {
    Map::new(
        |c: char| true,
        |c: char| vs.contains(c) && bit_of(i, (vs.len() - 1 - vs.index_of(c)) as nat),
    )
}

/// The row index whose assignment agrees with `m` on the variables of
/// `vs`.
pub open spec fn mask_of(vs: Seq<char>, m: Map<char, bool>) -> nat
    decreases vs.len(),
{
    if vs.len() == 0 {
        0
    } else {
        2 * mask_of(vs.drop_last(), m) + (if m[vs.last()] {
            1nat
        } else {
            0nat
        })
    }
}

/// The row index of any assignment is within the table.
pub proof fn lemma_mask_of_bound(vs: Seq<char>, m: Map<char, bool>)
    ensures
        mask_of(vs, m) < pow2(vs.len()),
    decreases vs.len(),
{
    if vs.len() == 0 {
        assert(pow2(0) == 1) by {
            vstd::arithmetic::power2::lemma2_to64();
        }
    } else {
        lemma_mask_of_bound(vs.drop_last(), m);
        lemma_pow2_unfold(vs.len());
    }
}

/// Dividing by two shifts the bits down by one.
proof fn lemma_bit_split(i: nat, b: nat)
    requires
        b >= 1,
    ensures
        bit_of(i, b) == bit_of(i / 2, (b - 1) as nat),
{
    lemma_pow2_unfold(b);
    lemma_pow2_pos((b - 1) as nat);
    lemma_div_denominator(i as int, 2, pow2((b - 1) as nat) as int);
}

/// Reading back bit `vs.len() - 1 - p` of the row index built from `m`
/// recovers the value `m` gives the variable at position `p`.
pub proof fn lemma_mask_of_bit(vs: Seq<char>, m: Map<char, bool>, p: int)
    requires
        vs.no_duplicates(),
        0 <= p < vs.len(),
    ensures
        bit_of(mask_of(vs, m), (vs.len() - 1 - p) as nat) == m[vs[p]],
    decreases vs.len(),
{
    let x = mask_of(vs, m);
    let q = mask_of(vs.drop_last(), m);
    let e: nat = if m[vs.last()] {
        1nat
    } else {
        0nat
    };
    assert(x == 2 * q + e);
    if p == vs.len() - 1 {
        assert(pow2(0) == 1) by {
            vstd::arithmetic::power2::lemma2_to64();
        }
        assert((2 * q + e) % 2 == e) by (nonlinear_arith)
            requires
                e == 0 || e == 1,
        ;
        assert(bit_of(x, 0) == (e == 1));
    } else {
        let b = (vs.len() - 1 - p) as nat;
        assert(x / 2 == q) by (nonlinear_arith)
            requires
                x == 2 * q + e,
                e == 0 || e == 1,
                q >= 0,
        ;
        lemma_bit_split(x, b);
        assert(vs.drop_last().no_duplicates());
        lemma_mask_of_bit(vs.drop_last(), m, p);
        assert(vs.drop_last()[p] == vs[p]);
    }
}

/// Two different row indices of the table differ in some bit below
/// `pow2(k)`.
proof fn lemma_bits_differ(i: nat, j: nat, k: nat)
    requires
        i < pow2(k),
        j < pow2(k),
        i != j,
    ensures
        exists|b: nat| b < k && #[trigger] bit_of(i, b) != bit_of(j, b),
    decreases k,
{
    if k == 0 {
        assert(pow2(0) == 1) by {
            vstd::arithmetic::power2::lemma2_to64();
        }
    } else {
        assert(pow2(0) == 1) by {
            vstd::arithmetic::power2::lemma2_to64();
        }
        if i % 2 != j % 2 {
            assert(bit_of(i, 0) == (i % 2 == 1));
            assert(bit_of(j, 0) == (j % 2 == 1));
            assert(0 < k && bit_of(i, 0) != bit_of(j, 0));
        } else {
            lemma_pow2_unfold(k);
            assert(i / 2 < pow2((k - 1) as nat));
            assert(j / 2 < pow2((k - 1) as nat));
            assert(i / 2 != j / 2) by (nonlinear_arith)
                requires
                    i != j,
                    i % 2 == j % 2,
                    i >= 0,
                    j >= 0,
            ;
            lemma_bits_differ(i / 2, j / 2, (k - 1) as nat);
            let b = choose|b: nat|
                b < (k - 1) as nat && #[trigger] bit_of(i / 2, b) != bit_of(j / 2, b);
            lemma_bit_split(i, b + 1);
            lemma_bit_split(j, b + 1);
            assert(b + 1 < k && bit_of(i, b + 1) != bit_of(j, b + 1));
        }
    }
}

/// Distinct rows of the truth table carry distinct assignments: over the
/// formula's own variables, every combination of values appears exactly
/// once in the enumeration.
pub proof fn lemma_mask_map_injective(vs: Seq<char>, i: nat, j: nat)
    requires
        vs.no_duplicates(),
        i < pow2(vs.len()),
        j < pow2(vs.len()),
        i != j,
    ensures
        exists|c: char| #[trigger] vs.contains(c) && mask_map(vs, i)[c] != mask_map(vs, j)[c],
{
    lemma_bits_differ(i, j, vs.len());
    let b = choose|b: nat| b < vs.len() && #[trigger] bit_of(i, b) != bit_of(j, b);
    let p = vs.len() - 1 - b;
    let c = vs[p as int];
    assert(vs.contains(c));
    assert(vs.index_of(c) == p);
    assert(mask_map(vs, i)[c] == bit_of(i, b));
    assert(mask_map(vs, j)[c] == bit_of(j, b));
}

/// Whether the assignment of truth-table row `i` gives every listed
/// variable the value that `m` gives it.
pub open spec fn row_matches(vs: Seq<char>, i: nat, m: Map<char, bool>) -> bool {
    forall|p: int| 0 <= p < vs.len() ==> #[trigger] mask_map(vs, i)[vs[p]] == m[vs[p]]
}

/// Every combination of truth values for the listed variables appears as
/// some row of the truth table: the row built from the assignment agrees
/// with it on every listed variable.
pub proof fn lemma_mask_map_complete(vs: Seq<char>, m: Map<char, bool>)
    requires
        vs.no_duplicates(),
    ensures
        exists|i: nat| i < pow2(vs.len()) && #[trigger] row_matches(vs, i, m),
{
    let i = mask_of(vs, m);
    lemma_mask_of_bound(vs, m);
    assert forall|p: int| 0 <= p < vs.len() implies #[trigger] mask_map(vs, i)[vs[p]]
        == m[vs[p]] by {
        assert(vs.contains(vs[p]));
        assert(vs.index_of(vs[p]) == p);
        lemma_mask_of_bit(vs, m, p);
    }
    assert(row_matches(vs, i, m));
}

/// Two raised to `e`, computed by repeated doubling.
pub(crate) fn pow2_usize(e: usize) -> (r: usize)
    requires
        e <= 30,
    ensures
        r == pow2(e as nat),
{
    proof {
        vstd::arithmetic::power2::lemma2_to64();
    }
    let mut r: usize = 1;
    for b in 0..e
        invariant
            e <= 30,
            r == pow2(b as nat),
    {
        proof {
            vstd::arithmetic::power2::lemma2_to64();
            lemma_pow2_unfold((b + 1) as nat);
            if (b + 1) < 30 {
                vstd::arithmetic::power2::lemma_pow2_strictly_increases((b + 1) as nat, 30);
            }
            assert(2 * r == pow2((b + 1) as nat));
            assert(pow2((b + 1) as nat) <= pow2(30));
        }
        r = r * 2;
    }
    r
}

impl Node {
    /// The distinct variables of this tree, ascending, as a vector.
    pub(crate) fn var_vec(&self) -> (r: Vec<char>)
        requires
            self.wf(),
        ensures
            r@ == self.var_seq(),
            is_var_seq(*self, r@),
            forall|i: int| 0 <= i < r@.len() ==> 'A' <= #[trigger] r@[i] && r@[i] <= 'Z',
            r@.len() <= 26,
    {
        let f = self.formula();
        let fs = f.as_str();
        let n = fs.unicode_len();
        let mut ups: Vec<char> = Vec::new();
        for i in 0..n
            invariant
                n == fs@.len(),
                fs@ == self.ser(),
                forall|q: int|
                    0 <= q < ups@.len() ==> 'A' <= #[trigger] ups@[q] && ups@[q] <= 'Z',
                forall|c: char|
                    #[trigger] ups@.contains(c) <==> (exists|j: int|
                        0 <= j < i && fs@[j] == c && 'A' <= c && c <= 'Z'),
        {
            let c = fs.get_char(i);
            if 'A' <= c && c <= 'Z' {
                let ghost old_ups = ups@;
                ups.push(c);
                proof {
                    assert forall|d: char| #[trigger] ups@.contains(d) implies (exists|j: int|
                        0 <= j < i + 1 && fs@[j] == d && 'A' <= d && d <= 'Z') by {
                        let q = choose|q: int| 0 <= q < ups@.len() && ups@[q] == d;
                        if q < old_ups.len() {
                            assert(old_ups[q] == d);
                            assert(old_ups.contains(d));
                        } else {
                            assert(fs@[i as int] == d);
                        }
                    }
                    assert forall|d: char|
                        (exists|j: int|
                            0 <= j < i + 1 && fs@[j] == d && 'A' <= d && d
                                <= 'Z') implies #[trigger] ups@.contains(d) by {
                        let j = choose|j: int|
                            0 <= j < i + 1 && fs@[j] == d && 'A' <= d && d <= 'Z';
                        if j < i {
                            assert(old_ups.contains(d));
                            let q = choose|q: int|
                                0 <= q < old_ups.len() && old_ups[q] == d;
                            assert(ups@[q] == d);
                        } else {
                            assert(ups@.last() == d);
                        }
                    }
                }
            } else {
                proof {
                    assert forall|d: char|
                        (exists|j: int|
                            0 <= j < i + 1 && fs@[j] == d && 'A' <= d && d
                                <= 'Z') implies #[trigger] ups@.contains(d) by {
                        let j = choose|j: int|
                            0 <= j < i + 1 && fs@[j] == d && 'A' <= d && d <= 'Z';
                        assert(j < i);
                    }
                }
            }
        }
        proof {
            assert forall|c: char| #[trigger] ups@.contains(c) implies self.ser().contains(c) by {
                let j = choose|j: int| 0 <= j < n && fs@[j] == c && 'A' <= c && c <= 'Z';
            }
            assert forall|c: char|
                self.ser().contains(c) && 'A' <= c && c <= 'Z' implies #[trigger] ups@.contains(
                c,
            ) by {
                let j = choose|j: int| 0 <= j < self.ser().len() && self.ser()[j] == c;
                assert(fs@[j] == c);
            }
        }
        let uniq = unique_chars(ups);
        proof {
            lemma_dedup_first(ups@);
        }
        let sv = sorted_chars(uniq);
        proof {
            broadcast use vstd::seq_lib::group_to_multiset_ensures;

            uniq@.lemma_multiset_has_no_duplicates();
            sv@.lemma_multiset_has_no_duplicates_conv();
            assert forall|c: char| sv@.contains(c) <==> uniq@.contains(c) by {
                assert(sv@.contains(c) <==> sv@.to_multiset().count(c) > 0);
                assert(uniq@.contains(c) <==> uniq@.to_multiset().count(c) > 0);
            }
            lemma_ser_vars(*self);
            lemma_vars_upper(*self);
            assert forall|c: char| sv@.contains(c) <==> self.vars().contains(c) by {
                if sv@.contains(c) {
                    assert(uniq@.contains(c));
                    assert(ups@.contains(c));
                    assert('A' <= c && c <= 'Z');
                    assert(exists|j: int|
                        0 <= j < self.ser().len() && self.ser()[j] == c && 'A' <= c && c <= 'Z');
                    let j = choose|j: int|
                        0 <= j < self.ser().len() && self.ser()[j] == c && 'A' <= c && c <= 'Z';
                    assert(self.ser()[j] == c);
                    assert(self.ser().contains(c));
                    assert(self.vars().contains(c));
                }
                if self.vars().contains(c) {
                    assert('A' <= c && c <= 'Z');
                    assert(self.ser().contains(c));
                    let j = choose|j: int| 0 <= j < self.ser().len() && self.ser()[j] == c;
                    assert(ups@.contains(c));
                    assert(uniq@.contains(c));
                }
            }
            assert(is_var_seq(*self, sv@));
            assert(is_var_seq(*self, self.var_seq()));
            lemma_sorted_distinct_unique(sv@, self.var_seq());
            assert forall|i: int| 0 <= i < sv@.len() implies 'A' <= #[trigger] sv@[i] && sv@[i]
                <= 'Z' by {
                assert(sv@.contains(sv@[i]));
            }
            lemma_upper_seq_len(sv@);
        }
        sv
    }

    /// The distinct variables of this tree, deduplicated and sorted
    /// ascending, as a string.
    pub fn variables(&self) -> (r: String)
        requires
            self.wf(),
        ensures
            r@ == self.var_seq(),
            is_var_seq(*self, r@),
            r@.len() <= 26,
    {
        let vs = self.var_vec();
        let mut s = String::new();
        let k = vs.len();
        for p in 0..k
            invariant
                k == vs@.len(),
                s@ == vs@.subrange(0, p as int),
        {
            push_char(&mut s, vs[p]);
            proof {
                assert(s@ =~= vs@.subrange(0, p + 1));
            }
        }
        proof {
            assert(s@ =~= vs@);
        }
        s
    }

    /// The assignment of truth-table row `i`, as the 26-entry vector that
    /// `evaluate_with` reads: over the uppercase letters it agrees with
    /// `mask_map(vs, i)`.
    fn mask_assignment(vs: &Vec<char>, i: usize) -> (a: Vec<bool>)
        requires
            vs@.no_duplicates(),
            vs@.len() <= 26,
            forall|q: int| 0 <= q < vs@.len() ==> 'A' <= #[trigger] vs@[q] && vs@[q] <= 'Z',
        ensures
            a.len() == 26,
            forall|c: char|
                'A' <= c && c <= 'Z' ==> #[trigger] map_of(a@)[c] == mask_map(vs@, i as nat)[c],
    {
        let mut a: Vec<bool> = vec![false;26];
        let k = vs.len();
        for p in 0..k
            invariant
                k == vs@.len(),
                k <= 26,
                a.len() == 26,
                vs@.no_duplicates(),
                forall|q: int| 0 <= q < vs@.len() ==> 'A' <= #[trigger] vs@[q] && vs@[q] <= 'Z',
                forall|q: int|
                    0 <= q < p ==> a@[#[trigger] vs@[q] as int - 65] == bit_of(
                        i as nat,
                        (k - 1 - q) as nat,
                    ),
                forall|j: int|
                    0 <= j < 26 && (forall|q: int|
                        0 <= q < vs@.len() ==> #[trigger] vs@[q] as int - 65 != j) ==> a@[j]
                        == false,
                forall|j: int|
                    0 <= j < 26 && (forall|q: int|
                        0 <= q < p ==> #[trigger] vs@[q] as int - 65 != j) ==> a@[j] == false,
        {
            let c = vs[p];
            let b = k - 1 - p;
            let pw = pow2_usize(b);
            proof {
                lemma_pow2_pos(b as nat);
            }
            let val = (i / pw) % 2 == 1;
            let idx = (c as u32 - 65) as usize;
            a.set(idx, val);
            proof {
                assert(a@[vs@[p as int] as int - 65] == bit_of(i as nat, (k - 1 - p) as nat));
                assert forall|q: int|
                    0 <= q < p + 1 implies a@[#[trigger] vs@[q] as int - 65] == bit_of(
                    i as nat,
                    (k - 1 - q) as nat,
                ) by {
                    if q < p {
                        assert(vs@[q] != vs@[p as int]);
                        assert(vs@[q] as int - 65 != idx);
                    }
                }
            }
        }
        proof {
            assert forall|c: char| 'A' <= c && c <= 'Z' implies #[trigger] map_of(a@)[c]
                == mask_map(vs@, i as nat)[c] by {
                if vs@.contains(c) {
                    let q = vs@.index_of(c);
                    assert(vs@[q] == c);
                    assert(a@[c as int - 65] == bit_of(i as nat, (k - 1 - q) as nat));
                } else {
                    assert forall|q: int| 0 <= q < vs@.len() implies #[trigger] vs@[q] as int - 65
                        != c as int - 65 by {
                        if vs@[q] as int == c as int {
                            assert(vs@[q] == c);
                            assert(vs@.contains(c));
                        }
                    }
                    assert(a@[c as int - 65] == false);
                }
            }
        }
        a
    }

    /// Whether some assignment of truth values to the variables makes this
    /// formula true, decided by exhaustive enumeration of all assignments
    /// over the formula's own variables.
    pub fn sat(&self) -> (r: bool)
        requires
            self.wf(),
        ensures
            r <==> exists|m: Map<char, bool>| self.truth(m),
    {
        let vs = self.var_vec();
        let k = vs.len();
        let total = pow2_usize(k);
        let mut i: usize = 0;
        while i < total
            invariant
                self.wf(),
                is_var_seq(*self, vs@),
                forall|q: int| 0 <= q < vs@.len() ==> 'A' <= #[trigger] vs@[q] && vs@[q] <= 'Z',
                k == vs@.len(),
                k <= 26,
                total == pow2(k as nat),
                i <= total,
                forall|j: nat| j < i ==> !self.truth(#[trigger] mask_map(vs@, j)),
            decreases total - i,
        {
            let a = Self::mask_assignment(&vs, i);
            let v = self.evaluate_with(&a);
            proof {
                lemma_vars_upper(*self);
                crate::node::lemma_truth_depends_only_on_vars(
                    *self,
                    map_of(a@),
                    mask_map(vs@, i as nat),
                );
            }
            if v {
                proof {
                    assert(self.truth(mask_map(vs@, i as nat)));
                }
                return true;
            }
            i = i + 1;
        }
        proof {
            assert forall|m: Map<char, bool>| !self.truth(m) by {
                let idx = mask_of(vs@, m);
                lemma_mask_of_bound(vs@, m);
                assert(!self.truth(mask_map(vs@, idx)));
                assert forall|c: char| self.vars().contains(c) implies mask_map(vs@, idx)[c]
                    == m[c] by {
                    assert(vs@.contains(c));
                    let p = vs@.index_of(c);
                    assert(vs@[p] == c);
                    lemma_mask_of_bit(vs@, m, p);
                }
                crate::node::lemma_truth_depends_only_on_vars(*self, mask_map(vs@, idx), m);
            }
        }
        false
    }
}

/// The digit that a truth value prints as.
pub open spec fn bool_char(b: bool) -> char {
    if b {
        '1'
    } else {
        '0'
    }
}

/// A run of `n` column bars.
pub open spec fn bars(n: nat) -> Seq<char> {
    Seq::new(n, |i: int| '|')
}

/// The header line of the truth table: the column bars interleaved with
/// the variable names and the result column `=`, spaced apart.
pub open spec fn header_line(vs: Seq<char>) -> Seq<char> {
    crate::outside::interspersed(
        crate::outside::interleaved(bars(vs.len() + 2), vs.push('=')),
        ' ',
    )
}

/// The ruler line under the header.
pub open spec fn separator_line(k: nat) -> Seq<char> {
    crate::outside::interspersed(crate::outside::interspersed(bars(k + 2), '-'), '-')
}

/// The first `p` cells of row `i`: a bar, then one spaced cell per
/// variable, each showing the bit the row assigns to it.
pub open spec fn row_prefix(vs: Seq<char>, i: nat, p: int) -> Seq<char>
    decreases p,
{
    if p <= 0 {
        seq!['|']
    } else {
        row_prefix(vs, i, p - 1) + seq![
            ' ',
            bool_char(bit_of(i, (vs.len() - p) as nat)),
            ' ',
            '|',
        ]
    }
}

/// One full row of the table: the assignment cells, then the result cell.
pub open spec fn row_line(vs: Seq<char>, i: nat, res: bool) -> Seq<char> {
    row_prefix(vs, i, vs.len() as int) + seq![' ', bool_char(res), ' ', '|']
}

/// The first `count` rows of the table for `n`, each on its own line.
pub open spec fn table_rows(n: Node, vs: Seq<char>, count: nat) -> Seq<char>
    decreases count,
{
    if count == 0 {
        Seq::empty()
    } else {
        table_rows(n, vs, (count - 1) as nat) + seq!['\n'] + row_line(
            vs,
            (count - 1) as nat,
            n.truth(mask_map(vs, (count - 1) as nat)),
        )
    }
}

/// The whole rendered truth table of `n`: header, ruler, and one row for
/// each of the `pow2(k)` assignments of its `k` distinct variables.
pub open spec fn table_str(n: Node) -> Seq<char> {
    header_line(n.var_seq()) + seq!['\n'] + separator_line(n.var_seq().len()) + table_rows(
        n,
        n.var_seq(),
        pow2(n.var_seq().len()),
    )
}

/// A run of `n` column bars, as a vector.
fn bars_vec(n: usize) -> (r: Vec<char>)
    ensures
        r@ == bars(n as nat),
{
    let mut r: Vec<char> = Vec::new();
    for idx in 0..n
        invariant
            r@.len() == idx,
            forall|j: int| 0 <= j < idx ==> r@[j] == '|',
    {
        r.push('|');
    }
    proof {
        assert(r@ =~= bars(n as nat));
    }
    r
}

/// Appends every character of `v` to `s`.
fn append_chars(s: &mut String, v: &Vec<char>)
    ensures
        final (s)@ == old(s)@ + v@,
{
    let n = v.len();
    for p in 0..n
        invariant
            n == v@.len(),
            s@ == old(s)@ + v@.subrange(0, p as int),
    {
        push_char(s, v[p]);
        proof {
            assert(s@ =~= old(s)@ + v@.subrange(0, p + 1));
        }
    }
    proof {
        assert(v@.subrange(0, n as int) =~= v@);
    }
}

impl Node {
    /// Renders the full truth table of this formula: a header naming the
    /// variables in ascending order, a ruler, and one row per assignment,
    /// row `i` assigning bit `k - 1 - p` of `i` to the variable at
    /// position `p` and ending with the formula's value.
    pub fn truth_table(&self) -> (r: String)
        requires
            self.wf(),
        ensures
            r@ == table_str(*self),
    {
        let vs = self.var_vec();
        let k = vs.len();
        let mut vars_eq: Vec<char> = Vec::new();
        for p in 0..k
            invariant
                k == vs@.len(),
                vars_eq@ == vs@.subrange(0, p as int),
        {
            vars_eq.push(vs[p]);
            proof {
                assert(vars_eq@ =~= vs@.subrange(0, p + 1));
            }
        }
        proof {
            assert(vars_eq@ =~= vs@);
        }
        vars_eq.push('=');
        let mut out = String::new();
        let il = crate::outside::interleave_chars(bars_vec(k + 2), vars_eq);
        let header = crate::outside::intersperse_chars(il, ' ');
        append_chars(&mut out, &header);
        push_char(&mut out, '\n');
        let sep = crate::outside::intersperse_chars(
            crate::outside::intersperse_chars(bars_vec(k + 2), '-'),
            '-',
        );
        append_chars(&mut out, &sep);
        let ghost head = header_line(vs@) + seq!['\n'] + separator_line(k as nat);
        proof {
            assert(out@ =~= head);
        }
        let total = pow2_usize(k);
        let mut i: usize = 0;
        while i < total
            invariant
                self.wf(),
                is_var_seq(*self, vs@),
                vs@ == self.var_seq(),
                forall|q: int| 0 <= q < vs@.len() ==> 'A' <= #[trigger] vs@[q] && vs@[q] <= 'Z',
                k == vs@.len(),
                k <= 26,
                total == pow2(k as nat),
                i <= total,
                out@ == head + table_rows(*self, vs@, i as nat),
            decreases total - i,
        {
            let ghost row_start = out@;
            push_char(&mut out, '\n');
            let a = Self::mask_assignment(&vs, i);
            let v = self.evaluate_with(&a);
            proof {
                lemma_vars_upper(*self);
                crate::node::lemma_truth_depends_only_on_vars(
                    *self,
                    map_of(a@),
                    mask_map(vs@, i as nat),
                );
            }
            push_char(&mut out, '|');
            let ghost cells_start = row_start + seq!['\n'];
            proof {
                assert(out@ =~= cells_start + row_prefix(vs@, i as nat, 0));
            }
            for p in 0..k
                invariant
                    k == vs@.len(),
                    k <= 26,
                    a.len() == 26,
                    is_var_seq(*self, vs@),
                    forall|q: int|
                        0 <= q < vs@.len() ==> 'A' <= #[trigger] vs@[q] && vs@[q] <= 'Z',
                    forall|c: char|
                        'A' <= c && c <= 'Z' ==> #[trigger] map_of(a@)[c] == mask_map(
                            vs@,
                            i as nat,
                        )[c],
                    out@ == cells_start + row_prefix(vs@, i as nat, p as int),
            {
                let c = vs[p];
                let val = a[(c as u32 - 65) as usize];
                proof {
                    assert(map_of(a@)[c] == a@[c as int - 65]);
                    assert(vs@.index_of(c) == p) by {
                        assert(vs@[p as int] == c);
                        assert(vs@.contains(c));
                        let q = vs@.index_of(c);
                        assert(vs@[q] == c);
                    }
                    assert(val == bit_of(i as nat, (k - 1 - p) as nat));
                }
                push_char(&mut out, ' ');
                push_char(&mut out, if val { '1' } else { '0' });
                push_char(&mut out, ' ');
                push_char(&mut out, '|');
                proof {
                    assert(out@ =~= cells_start + row_prefix(vs@, i as nat, p + 1));
                }
            }
            push_char(&mut out, ' ');
            push_char(&mut out, if v { '1' } else { '0' });
            push_char(&mut out, ' ');
            push_char(&mut out, '|');
            proof {
                assert(out@ =~= cells_start + row_line(
                    vs@,
                    i as nat,
                    self.truth(mask_map(vs@, i as nat)),
                ));
                assert(out@ =~= head + table_rows(*self, vs@, (i + 1) as nat));
            }
            i = i + 1;
        }
        proof {
            assert(out@ == table_str(*self));
        }
        out
    }
}

} // verus!
