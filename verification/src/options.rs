//! Index configuration and the banding-parameter optimizer: when no band
//! count is given but a target similarity is, the optimizer picks the number
//! of bands whose S-curve best separates similarities at the target.

use crate::fixed::{integrate_minhash_fn, spec_simpson_sum, FP_ONE};
use crate::sim::Ratio;
use vstd::prelude::*;

verus! {

/// Configuration of one index: signature length (`num_hashes`), band count,
/// and the target similarity used to derive the band count when absent.
#[derive(Clone, Copy, Debug)]
pub struct MinhashOptions {
    pub num_hashes: i32,
    pub num_bands: Option<i32>,
    pub target_jaccard_similarity: Option<Ratio>,
}

/// The target similarity as a 32.32 fixed-point value.
pub open spec fn spec_target_fp(t: Ratio) -> int {
    (t.num * FP_ONE) / (t.den as int)
}

/// The separation error of band count `b` for signature length `n` and
/// fixed-point target `s`: the S-curve mass below the target minus the mass
/// above it (lower is better), each integral by Simpson's rule.
pub open spec fn spec_band_error(n: int, b: int, s: int) -> int {
    spec_simpson_sum((n / b) as nat, b as nat, 0, s / 512, 512) - spec_simpson_sum(
        (n / b) as nat,
        b as nat,
        s,
        (FP_ONE - s) / 512,
        512,
    )
}

/// The best `(band count, error)` among candidates `1 <= b <= ub` with
/// `b * b < n` and `b` dividing `n`, scanning upward and keeping the first
/// minimum.
pub open spec fn spec_best_upto(n: int, s: int, ub: int) -> Option<(int, int)>
    decreases ub,
{
    if ub < 1 {
        None
    } else {
        let prev = spec_best_upto(n, s, ub - 1);
        if ub * ub < n && n % ub == 0 {
            let e = spec_band_error(n, ub, s);
            match prev {
                None => Some((ub, e)),
                Some(p) => if e < p.1 {
                    Some((ub, e))
                } else {
                    Some(p)
                },
            }
        } else {
            prev
        }
    }
}

/// The band count the optimizer chooses for signature length `n` and
/// fixed-point target `s`: among divisors `b` of `n` with `1 <= b < sqrt(n)`
/// (that is, `b * b < n`), the first minimizing the separation error.
pub open spec fn spec_best_bands(n: int, s: int) -> Option<int> {
    match spec_best_upto(n, s, n - 1) {
        None => None,
        Some(p) => Some(p.0),
    }
}

/// Whatever the optimizer returns is a valid candidate: it divides `n`, is at
/// least 1, and lies strictly below the square root of `n`.
pub proof fn lemma_best_upto_props(n: int, s: int, ub: int)
    ensures
        match spec_best_upto(n, s, ub) {
            Some(p) => 1 <= p.0 <= ub && p.0 * p.0 < n && n % p.0 == 0 && p.1 == spec_band_error(
                n,
                p.0,
                s,
            ),
            None => true,
        },
    decreases ub,
{
    if ub >= 1 {
        lemma_best_upto_props(n, s, ub - 1);
    }
}

fn target_fp(t: Ratio) -> (r: u64)
    requires
        t.wf(),
        0 < t.num < t.den as int,
    ensures
        r == spec_target_fp(t),
        0 <= r < FP_ONE,
{
    proof {
        assert(t.num * (FP_ONE as int) <= u128::MAX && 0 <= (t.num * FP_ONE) / (t.den as int)
            < FP_ONE) by (nonlinear_arith)
            requires 0 < t.num < t.den as int, t.den > 0;
    }
    (((t.num as u128) * (FP_ONE as u128)) / (t.den as u128)) as u64
}

impl MinhashOptions {
    /// A well-formed configuration: a positive signature length, and a target
    /// similarity, when given, strictly between 0 and 1.
    pub open spec fn wf(self) -> bool {
        &&& self.num_hashes >= 1
        &&& match self.target_jaccard_similarity {
            Some(t) => t.wf() && 0 < t.num < t.den as int,
            None => true,
        }
    }

    /// Derives `num_bands` when none was given and a target similarity was:
    /// scans every band count `b` dividing `num_hashes` with
    /// `b * b < num_hashes` and keeps the first one minimizing the S-curve
    /// separation error at the target (`spec_best_bands`). An explicit band
    /// count, or a missing target, leaves the configuration unchanged.
    #[verifier::loop_isolation(false)]
    pub fn calculate_bands(&mut self)
        requires
            old(self).wf(),
        ensures
            final(self).num_hashes == old(self).num_hashes,
            final(self).target_jaccard_similarity == old(self).target_jaccard_similarity,
            final(self).wf(),
            match (old(self).num_bands, old(self).target_jaccard_similarity) {
                (None, Some(t)) => {
                    &&& (final(self).num_bands is Some <==> spec_best_bands(
                        old(self).num_hashes as int,
                        spec_target_fp(t),
                    ) is Some)
                    &&& (final(self).num_bands is Some ==> final(self).num_bands.unwrap() as int
                        == spec_best_bands(old(self).num_hashes as int, spec_target_fp(t)).unwrap())
                },
                _ => final(self).num_bands == old(self).num_bands,
            },
            final(self).num_bands is Some && old(self).num_bands is None ==> {
                let nb = final(self).num_bands.unwrap() as int;
                1 <= nb && nb * nb < old(self).num_hashes && old(self).num_hashes as int % nb == 0
            },
    {
        if self.num_bands.is_some() {
            return ;
        }
        let t = match self.target_jaccard_similarity {
            Some(t) => t,
            None => {
                return ;
            },
        };
        let n: i32 = self.num_hashes;
        let s_fp: u64 = target_fp(t);
        let mut found: bool = false;
        let mut best_b: i32 = 1;
        let mut best_e: i64 = 0;
        let mut b: i32 = 1;
        while b < n
            invariant
                1 <= b <= n,
                match spec_best_upto(n as int, s_fp as int, b - 1) {
                    Some(p) => found && best_b as int == p.0 && best_e as int == p.1,
                    None => !found,
                },
            decreases n - b,
        {
            proof {
                assert(b as int * b as int <= i64::MAX) by (nonlinear_arith)
                    requires 1 <= b <= i32::MAX;
            }
            if (b as i64) * (b as i64) < (n as i64) && n % b == 0 {
                let rows: u32 = (n / b) as u32;
                let e1: u64 = integrate_minhash_fn(rows, b as u32, 0, s_fp);
                let e2: u64 = integrate_minhash_fn(rows, b as u32, s_fp, FP_ONE);
                let e: i64 = (e1 as i64) - (e2 as i64);
                assert(e as int == spec_band_error(n as int, b as int, s_fp as int));
                if !found || e < best_e {
                    best_b = b;
                    best_e = e;
                    found = true;
                } else {
                    found = true;
                }
            }
            b += 1;
        }
        proof {
            lemma_best_upto_props(n as int, s_fp as int, n - 1);
        }
        if found {
            self.num_bands = Some(best_b);
        }
    }
}

/// The default configuration: 100 hash rounds, no explicit band count, and a
/// target similarity of 7/10.
pub open spec fn spec_default_options() -> MinhashOptions {
    MinhashOptions {
        num_hashes: 100,
        num_bands: None,
        target_jaccard_similarity: Some(Ratio { num: 7, den: 10 }),
    }
}

impl Default for MinhashOptions {
    /// The default configuration: 100 hash rounds, no explicit band count,
    /// and a target similarity of 7/10.
    fn default() -> (r: Self)
        ensures
            r == spec_default_options(),
            r.wf(),
    {
        MinhashOptions {
            num_hashes: 100,
            num_bands: None,
            target_jaccard_similarity: Some(Ratio { num: 7, den: 10 }),
        }
    }
}

} // verus!
