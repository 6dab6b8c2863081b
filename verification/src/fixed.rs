//! Fixed-point evaluation of the LSH S-curve `1 - (1 - x^r)^b` and its
//! numerical integration by composite Simpson's rule, used by the
//! banding-parameter optimizer. Values in `[0, 1]` are held as 32.32
//! fixed-point integers (`FP_ONE` is 1.0), so every result is an exact,
//! fully specified integer and no floating point is needed.

use vstd::arithmetic::div_mod::lemma_fundamental_div_mod;
use vstd::prelude::*;

verus! {

/// The fixed-point scale: the value 1.0 is represented as `2^32`.
pub const FP_ONE: u64 = 0x1_0000_0000;

/// Fixed-point product with truncation: `(x * y) / FP_ONE`.
pub open spec fn spec_fp_mul(x: int, y: int) -> int {
    (x * y) / (FP_ONE as int)
}

/// Fixed-point power with truncation at every step; `FP_ONE` for exponent 0.
pub open spec fn spec_fp_pow(x: int, k: nat) -> int
    decreases k,
{
    if k == 0 {
        FP_ONE as int
    } else {
        spec_fp_mul(spec_fp_pow(x, (k - 1) as nat), x)
    }
}

proof fn lemma_fp_mul_bounds(x: int, y: int)
    by (nonlinear_arith)
    requires
        0 <= x <= FP_ONE,
        0 <= y <= FP_ONE,
    ensures
        0 <= spec_fp_mul(x, y) <= FP_ONE,
        spec_fp_mul(x, y) <= x,
{
}

proof fn lemma_fp_pow_bounds(x: int, k: nat)
    requires
        0 <= x <= FP_ONE,
    ensures
        0 <= spec_fp_pow(x, k) <= FP_ONE,
    decreases k,
{
    if k > 0 {
        lemma_fp_pow_bounds(x, (k - 1) as nat);
        lemma_fp_mul_bounds(spec_fp_pow(x, (k - 1) as nat), x);
    }
}

/// Fixed-point product of two values in `[0, 1]`.
pub fn fp_mul(x: u64, y: u64) -> (r: u64)
    requires
        x <= FP_ONE,
        y <= FP_ONE,
    ensures
        r == spec_fp_mul(x as int, y as int),
        r <= FP_ONE,
{
    proof {
        lemma_fp_mul_bounds(x as int, y as int);
        assert(x as int * y as int <= u128::MAX) by (nonlinear_arith)
            requires x <= FP_ONE, y <= FP_ONE;
    }
    (((x as u128) * (y as u128)) / (FP_ONE as u128)) as u64
}

/// Fixed-point power of a value in `[0, 1]`, truncating at every step.
pub fn fp_pow(x: u64, k: u32) -> (r: u64)
    requires
        x <= FP_ONE,
    ensures
        r == spec_fp_pow(x as int, k as nat),
        r <= FP_ONE,
{
    let mut acc: u64 = FP_ONE;
    let mut i: u32 = 0;
    while i < k
        invariant
            i <= k,
            x <= FP_ONE,
            acc <= FP_ONE,
            acc == spec_fp_pow(x as int, i as nat),
        decreases k - i,
    {
        acc = fp_mul(acc, x);
        i += 1;
    }
    acc
}

/// The LSH S-curve in fixed point: `1 - (1 - x^rows)^bands`, every operation
/// truncating as `spec_fp_mul` does.
pub open spec fn spec_minhash_fn(rows: nat, bands: nat, x: int) -> int {
    FP_ONE - spec_fp_pow(FP_ONE - spec_fp_pow(x, rows), bands)
}

/// The probability that two sets whose Jaccard similarity is `x` collide in
/// at least one band, for `rows` hash rounds per band and `bands` bands:
/// `1 - (1 - x^rows)^bands`, evaluated in fixed point.
pub fn minhash_fn(rows: u32, bands: u32, x: u64) -> (r: u64)
    requires
        x <= FP_ONE,
    ensures
        r == spec_minhash_fn(rows as nat, bands as nat, x as int),
        0 <= r <= FP_ONE,
{
    proof {
        lemma_fp_pow_bounds(x as int, rows as nat);
    }
    let inner: u64 = FP_ONE - fp_pow(x, rows);
    proof {
        lemma_fp_pow_bounds(inner as int, bands as nat);
    }
    FP_ONE - fp_pow(inner, bands)
}

/// One subinterval of composite Simpson's rule on `[x1, x1 + width]`:
/// `width / 6 * (S(x1) + 4 S(mid) + S(x2))`, in fixed point with one final
/// truncating division.
pub open spec fn spec_simpson_term(rows: nat, bands: nat, x1: int, width: int) -> int {
    (width * (spec_minhash_fn(rows, bands, x1) + 4 * spec_minhash_fn(
        rows,
        bands,
        (x1 + (x1 + width)) / 2,
    ) + spec_minhash_fn(rows, bands, x1 + width))) / (6 * (FP_ONE as int))
}

/// The sum of the first `n` Simpson subinterval terms starting at `a`.
pub open spec fn spec_simpson_sum(rows: nat, bands: nat, a: int, width: int, n: nat) -> int
    decreases n,
{
    if n == 0 {
        0
    } else {
        spec_simpson_sum(rows, bands, a, width, (n - 1) as nat) + spec_simpson_term(
            rows,
            bands,
            a + width * ((n - 1) as int),
            width,
        )
    }
}

proof fn lemma_term_bounds(width: int, s: int)
    by (nonlinear_arith)
    requires
        0 <= width,
        0 <= s <= 6 * FP_ONE,
    ensures
        0 <= (width * s) / (6 * (FP_ONE as int)) <= width,
{
}

/// Integrates the S-curve `1 - (1 - x^rows)^bands` over `[a, b]` by composite
/// Simpson's rule with 512 equal subintervals, in 32.32 fixed point. The
/// result is the exact fixed-point sum given by `spec_simpson_sum`.
#[verifier::loop_isolation(false)]
pub fn integrate_minhash_fn(rows: u32, bands: u32, a: u64, b: u64) -> (r: u64)
    requires
        a <= b,
        b <= FP_ONE,
    ensures
        r == spec_simpson_sum(rows as nat, bands as nat, a as int, ((b - a) / 512) as int, 512),
        r <= b - a,
{
    let width: u64 = (b - a) / 512;
    proof {
        lemma_fundamental_div_mod((b - a) as int, 512);
    }
    let mut ret: u64 = 0;
    let mut i: u32 = 0;
    while i < 512
        invariant
            i <= 512,
            ret <= i * width,
            ret == spec_simpson_sum(rows as nat, bands as nat, a as int, width as int, i as nat),
        decreases 512 - i,
    {
        proof {
            assert(width * (i as int) <= width * 512 && width * ((i + 1) as int) <= width * 512)
                by (nonlinear_arith)
                requires i < 512, width >= 0;
            assert(width * 512 <= b - a);
        }
        let x1: u64 = a + width * (i as u64);
        let x2: u64 = x1 + width;
        proof {
            assert(width * (i as int) + width == width * ((i + 1) as int)) by (nonlinear_arith);
            assert(x2 <= b);
        }
        let mid: u64 = (x1 + x2) / 2;
        proof {
            assert(mid <= x2);
        }
        let s1: u64 = minhash_fn(rows, bands, x1);
        let s4: u64 = minhash_fn(rows, bands, mid);
        let s2: u64 = minhash_fn(rows, bands, x2);
        let sum6: u64 = s1 + 4 * s4 + s2;
        proof {
            lemma_term_bounds(width as int, sum6 as int);
            assert(width as int * sum6 as int <= u128::MAX) by (nonlinear_arith)
                requires width <= FP_ONE, sum6 <= 6 * FP_ONE;
        }
        let term: u64 = (((width as u128) * (sum6 as u128)) / (6 * (FP_ONE as u128))) as u64;
        proof {
            assert((i + 1) as int * width == i as int * width + width) by (nonlinear_arith);
        }
        ret = ret + term;
        i += 1;
    }
    proof {
        assert(512 * width == width * 512) by (nonlinear_arith);
    }
    ret
}

} // verus!
