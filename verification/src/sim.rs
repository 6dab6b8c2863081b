//! Exact Jaccard similarity over sets of 32-bit tokens, represented as
//! rational numbers so that no floating point is needed: the numerator is the
//! intersection size and the denominator the union size. The undefined 0/0
//! case (two empty sets) is read as the value 0.

use vstd::prelude::*;
use vstd::seq_lib::*;
use vstd::set_lib::lemma_set_disjoint_lens;

verus! {

/// A similarity value `num / den`; `den == 0` only for the 0/0 case, which is
/// read as the value 0.
#[derive(Clone, Copy, Debug)]
pub struct Similarity {
    pub num: u64,
    pub den: u64,
}

/// A rational parameter (a query threshold or a target similarity).
/// The denominator must be positive; the numerator may be negative, so that a
/// caller can pass a threshold that no similarity is below.
#[derive(Clone, Copy, Debug)]
pub struct Ratio {
    pub num: i64,
    pub den: u64,
}

impl Ratio {
    pub open spec fn wf(self) -> bool {
        self.den > 0
    }
}

/// Numerator of the value of `s`, with 0/0 normalized to 0/1.
pub open spec fn sim_num(s: Similarity) -> int {
    if s.den == 0 {
        0
    } else {
        s.num as int
    }
}

/// Denominator of the value of `s`, with 0/0 normalized to 0/1.
pub open spec fn sim_den(s: Similarity) -> int {
    if s.den == 0 {
        1
    } else {
        s.den as int
    }
}

/// value(a) < value(b), comparing the exact rational values.
pub open spec fn sim_lt(a: Similarity, b: Similarity) -> bool {
    sim_num(a) * sim_den(b) < sim_num(b) * sim_den(a)
}

/// value(a) == value(b), comparing the exact rational values.
pub open spec fn sim_eqv(a: Similarity, b: Similarity) -> bool {
    sim_num(a) * sim_den(b) == sim_num(b) * sim_den(a)
}

/// value(s) >= value(t): the similarity meets the threshold.
pub open spec fn spec_meets_threshold(s: Similarity, t: Ratio) -> bool {
    sim_num(s) * t.den >= t.num * sim_den(s)
}

proof fn lemma_meets_neg(tn: int, td: int, sn: int, sd: int)
    by (nonlinear_arith)
    requires
        tn < 0,
        td >= 1,
        sn >= 0,
        sd >= 1,
    ensures
        sn * td >= tn * sd,
{
}

/// Decides `value(s) >= value(t)` exactly, by cross-multiplication.
pub fn meets_threshold(s: Similarity, t: Ratio) -> (r: bool)
    requires
        t.wf(),
    ensures
        r == spec_meets_threshold(s, t),
{
    let sn: u64 = if s.den == 0 { 0 } else { s.num };
    let sd: u64 = if s.den == 0 { 1 } else { s.den };
    if t.num < 0 {
        proof {
            lemma_meets_neg(t.num as int, t.den as int, sn as int, sd as int);
        }
        true
    } else {
        proof {
            lemma_mul_fits_u128(sn as int, t.den as int);
            lemma_mul_fits_u128(t.num as int, sd as int);
        }
        let lhs: u128 = (sn as u128) * (t.den as u128);
        let rhs: u128 = (t.num as u128) * (sd as u128);
        lhs >= rhs
    }
}

/// Size of the intersection: the numerator of the Jaccard similarity.
pub open spec fn jaccard_num(a: Set<i32>, b: Set<i32>) -> nat {
    a.intersect(b).len()
}

/// Size of the union: the denominator of the Jaccard similarity.
pub open spec fn jaccard_den(a: Set<i32>, b: Set<i32>) -> nat {
    a.union(b).len()
}

/// Jaccard similarity is symmetric in its two arguments.
pub proof fn lemma_jaccard_symmetric(a: Set<i32>, b: Set<i32>)
    ensures
        jaccard_num(a, b) == jaccard_num(b, a),
        jaccard_den(a, b) == jaccard_den(b, a),
{
    assert(a.intersect(b) =~= b.intersect(a));
    assert(a.union(b) =~= b.union(a));
}

/// A nonempty set has Jaccard similarity exactly 1 with itself:
/// the numerator equals the denominator and both are positive.
pub proof fn lemma_jaccard_self(a: Set<i32>)
    requires
        a.finite(),
        a.len() > 0,
    ensures
        jaccard_num(a, a) == jaccard_den(a, a),
        jaccard_den(a, a) > 0,
{
    assert(a.intersect(a) =~= a);
    assert(a.union(a) =~= a);
}

/// The Jaccard similarity of any set with the empty set is 0: the value is
/// defined (the 0/0 case is normalized to 0), never an undefined form.
pub proof fn lemma_jaccard_empty(a: Set<i32>)
    ensures
        jaccard_num(a, Set::empty()) == 0,
{
    assert(a.intersect(Set::empty()) =~= Set::<i32>::empty());
}

#[verifier::loop_isolation(false)]
pub(crate) fn contains_elem(v: &[i32], x: i32) -> (r: bool)
    ensures
        r == v@.contains(x),
{
    let mut j: usize = 0;
    while j < v.len()
        invariant
            0 <= j <= v@.len(),
            forall|k: int| 0 <= k < j ==> v@[k] != x,
        decreases v@.len() - j,
    {
        if v[j] == x {
            assert(v@.contains(x)) by {
                assert(v@[j as int] == x);
            }
            return true;
        }
        j += 1;
    }
    false
}

proof fn lemma_prefix_set_step(s: Seq<i32>, i: int)
    requires
        0 <= i < s.len(),
    ensures
        s.subrange(0, i + 1).to_set() == s.subrange(0, i).to_set().insert(s[i]),
{
    let pre = s.subrange(0, i);
    let ext = s.subrange(0, i + 1);
    assert(ext.to_set() =~= pre.to_set().insert(s[i])) by {
        assert forall|x: i32| ext.to_set().contains(x) implies pre.to_set().contains(x) || x == s[i] by {
            let k = choose|k: int| 0 <= k < ext.len() && ext[k] == x;
            if k < i {
                assert(pre[k] == x);
            }
        }
        assert forall|x: i32| pre.to_set().contains(x) implies ext.to_set().contains(x) by {
            let k = choose|k: int| 0 <= k < pre.len() && pre[k] == x;
            assert(ext[k] == x);
        }
        assert(ext[i] == s[i]);
        assert(ext.to_set().contains(s[i]));
    }
}

/// Computes the exact Jaccard similarity of the two sets of tokens held in
/// `a` and `b` (each listed without duplicates): the intersection size over
/// the union size.
#[verifier::loop_isolation(false)]
pub fn jaccard_similarity(a: &[i32], b: &[i32]) -> (r: Similarity)
    requires
        a@.no_duplicates(),
        b@.no_duplicates(),
        a@.len() + b@.len() <= usize::MAX,
    ensures
        r.num == jaccard_num(a@.to_set(), b@.to_set()),
        r.den == jaccard_den(a@.to_set(), b@.to_set()),
        r.num <= r.den,
        r.den == 0 <==> (a@.len() == 0 && b@.len() == 0),
{
    let ghost aset = a@.to_set();
    let ghost bset = b@.to_set();
    proof {
        a@.unique_seq_to_set();
        b@.unique_seq_to_set();
    }
    proof {
        assert(a@.subrange(0, 0).to_set() =~= Set::<i32>::empty());
        assert(Set::<i32>::empty().intersect(bset) =~= Set::<i32>::empty());
    }
    let mut inter: usize = 0;
    let mut i: usize = 0;
    while i < a.len()
        invariant
            0 <= i <= a@.len(),
            inter <= i,
            inter == a@.subrange(0, i as int).to_set().intersect(bset).len(),
        decreases a@.len() - i,
    {
        let ghost pre = a@.subrange(0, i as int).to_set();
        let ghost x = a@[i as int];
        proof {
            lemma_prefix_set_step(a@, i as int);
            a@.subrange(0, i as int).lemma_cardinality_of_set();
            if bset.contains(x) {
                assert(pre.insert(x).intersect(bset) =~= pre.intersect(bset).insert(x));
                assert(!pre.contains(x)) by {
                    if pre.contains(x) {
                        let k = choose|k: int|
                            0 <= k < i && a@.subrange(0, i as int)[k] == x;
                        assert(a@[k] == a@[i as int]);
                    }
                }
            } else {
                assert(pre.insert(x).intersect(bset) =~= pre.intersect(bset));
            }
        }
        if contains_elem(b, a[i]) {
            inter += 1;
        }
        i += 1;
    }
    proof {
        assert(a@.subrange(0, a@.len() as int) =~= a@);
    }
    proof {
        assert(b@.subrange(0, 0).to_set() =~= Set::<i32>::empty());
        assert(Set::<i32>::empty().difference(aset) =~= Set::<i32>::empty());
    }
    let mut extra: usize = 0;
    let mut j: usize = 0;
    while j < b.len()
        invariant
            0 <= j <= b@.len(),
            extra <= j,
            extra == b@.subrange(0, j as int).to_set().difference(aset).len(),
        decreases b@.len() - j,
    {
        let ghost pre = b@.subrange(0, j as int).to_set();
        let ghost x = b@[j as int];
        proof {
            lemma_prefix_set_step(b@, j as int);
            b@.subrange(0, j as int).lemma_cardinality_of_set();
            if aset.contains(x) {
                assert(pre.insert(x).difference(aset) =~= pre.difference(aset));
            } else {
                assert(pre.insert(x).difference(aset) =~= pre.difference(aset).insert(x));
                assert(!pre.contains(x)) by {
                    if pre.contains(x) {
                        let k = choose|k: int|
                            0 <= k < j && b@.subrange(0, j as int)[k] == x;
                        assert(b@[k] == b@[j as int]);
                    }
                }
            }
        }
        if !contains_elem(a, b[j]) {
            extra += 1;
        }
        j += 1;
    }
    proof {
        assert(b@.subrange(0, b@.len() as int) =~= b@);
        assert(aset.union(bset) =~= aset + bset.difference(aset));
        assert(aset.disjoint(bset.difference(aset)));
        lemma_set_disjoint_lens(aset, bset.difference(aset));
        if a@.len() == 0 && b@.len() == 0 {
            assert(aset.union(bset) =~= Set::<i32>::empty());
        }
        if a@.len() == 0 {
            assert(aset =~= Set::<i32>::empty());
            assert(bset.difference(aset) =~= bset);
        }
    }
    let union_count: usize = a.len() + extra;
    Similarity { num: inter as u64, den: union_count as u64 }
}

/// Lexicographic strict order on a query hit `(similarity, document id)`:
/// first by the exact similarity value, then by the id.
pub open spec fn hit_lt(a: (Similarity, u64), b: (Similarity, u64)) -> bool {
    sim_lt(a.0, b.0) || (sim_eqv(a.0, b.0) && a.1 < b.1)
}

proof fn lemma_mul_fits_u128(a: int, b: int)
    by (nonlinear_arith)
    requires
        0 <= a <= u64::MAX,
        0 <= b <= u64::MAX,
    ensures
        a * b <= u128::MAX,
{
}

fn cross_mul(a: u64, b: u64) -> (r: u128)
    ensures
        r == a as int * b as int,
{
    proof {
        lemma_mul_fits_u128(a as int, b as int);
    }
    (a as u128) * (b as u128)
}

/// Decides `hit_lt` exactly, by cross-multiplication of the two similarity
/// values.
pub fn hit_less(a: &(Similarity, u64), b: &(Similarity, u64)) -> (r: bool)
    ensures
        r == hit_lt(*a, *b),
{
    let an: u64 = if a.0.den == 0 { 0 } else { a.0.num };
    let ad: u64 = if a.0.den == 0 { 1 } else { a.0.den };
    let bn: u64 = if b.0.den == 0 { 0 } else { b.0.num };
    let bd: u64 = if b.0.den == 0 { 1 } else { b.0.den };
    let lhs = cross_mul(an, bd);
    let rhs = cross_mul(bn, ad);
    if lhs < rhs {
        true
    } else if lhs == rhs {
        a.1 < b.1
    } else {
        false
    }
}

proof fn lemma_frac_le_trans(n1: int, d1: int, n2: int, d2: int, n3: int, d3: int)
    by (nonlinear_arith)
    requires
        d1 > 0,
        d2 > 0,
        d3 > 0,
        n1 * d2 <= n2 * d1,
        n2 * d3 <= n3 * d2,
    ensures
        n1 * d3 <= n3 * d1,
{
}

proof fn lemma_frac_lt_trans_1(n1: int, d1: int, n2: int, d2: int, n3: int, d3: int)
    by (nonlinear_arith)
    requires
        d1 > 0,
        d2 > 0,
        d3 > 0,
        n1 * d2 < n2 * d1,
        n2 * d3 <= n3 * d2,
    ensures
        n1 * d3 < n3 * d1,
{
}

proof fn lemma_frac_lt_trans_2(n1: int, d1: int, n2: int, d2: int, n3: int, d3: int)
    by (nonlinear_arith)
    requires
        d1 > 0,
        d2 > 0,
        d3 > 0,
        n1 * d2 <= n2 * d1,
        n2 * d3 < n3 * d2,
    ensures
        n1 * d3 < n3 * d1,
{
}

/// The hit order is transitive.
pub proof fn lemma_hit_lt_trans(a: (Similarity, u64), b: (Similarity, u64), c: (Similarity, u64))
    requires
        hit_lt(a, b),
        hit_lt(b, c),
    ensures
        hit_lt(a, c),
{
    let (an, ad) = (sim_num(a.0), sim_den(a.0));
    let (bn, bd) = (sim_num(b.0), sim_den(b.0));
    let (cn, cd) = (sim_num(c.0), sim_den(c.0));
    if sim_lt(a.0, b.0) {
        lemma_frac_lt_trans_1(an, ad, bn, bd, cn, cd);
    } else if sim_lt(b.0, c.0) {
        lemma_frac_lt_trans_2(an, ad, bn, bd, cn, cd);
    } else {
        lemma_frac_le_trans(an, ad, bn, bd, cn, cd);
        lemma_frac_le_trans(cn, cd, bn, bd, an, ad);
    }
}

} // verus!
