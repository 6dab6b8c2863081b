//! Trusted boundary around the wyhash crate: the fixed-seed fold hash used
//! for persisted bucket keys, and the per-element deterministic pseudo-random
//! streams that drive MinHash sampling.

use rand_core::{RngCore, SeedableRng};
use std::hash::{Hash, Hasher};
use vstd::prelude::*;
use wyhash::{WyHash, WyRng};

verus! {

/// The fixed seed of the fold hash. It is part of the persisted index format,
/// so it can never change.
pub const WYHASH_SEED: u64 = 1145141919810;

/// The value at position `i` (counting from 0) of the deterministic stream
/// of 32-bit values drawn from `wyhash::WyRng::seed_from_u64(seed)`.
pub uninterp spec fn wy_stream(seed: u64, i: int) -> u32;

/// Relies on wyhash::WyRng (rand_core::SeedableRng and RngCore):
/// `seed_from_u64` makes the whole generator state exactly the seed, and each
/// `next_u32` is a pure function of the current state, so the first `n` draws
/// are a function of the seed alone. The body only repeats that one stateful
/// call `n` times and collects the draws in order.
#[verifier::external_body]
pub fn stream_prefix(seed: u64, n: usize) -> (r: Vec<u32>)
    ensures
        r@.len() == n,
        forall|i: int| 0 <= i < n ==> r@[i] == wy_stream(seed, i),
{
    let mut rng = WyRng::seed_from_u64(seed);
    let mut out = Vec::with_capacity(n);
    for _ in 0..n {
        out.push(rng.next_u32());
    }
    out
}

/// The 32-bit fold of a sequence of 32-bit values under the wyhash hasher
/// seeded with `seed`: a pure function of the seed and the values.
pub uninterp spec fn fold_hash_of(seed: u64, v: Seq<i32>) -> i32;

/// Relies on wyhash::WyHash (through std::hash::Hasher): the digest is a
/// pure function of the byte stream the slice's Hash impl feeds it, which
/// the seed and the elements fix for this build target; truncating it to
/// 32 bits keeps that.
#[verifier::external_body]
fn wy_fold(seed: u64, v: &[i32]) -> (r: i32)
    ensures
        r == fold_hash_of(seed, v@),
{
    let mut hasher = WyHash::with_seed(seed);
    v.hash(&mut hasher);
    hasher.finish() as i32
}

/// The 32-bit fold of a string under the wyhash hasher seeded with `seed`:
/// a pure function of the seed and the characters.
pub uninterp spec fn line_hash_of(seed: u64, s: Seq<char>) -> i32;

/// Relies on wyhash::WyHash (through std::hash::Hasher): the digest is a
/// pure function of the string's UTF-8 bytes and the seed; truncating it to
/// 32 bits keeps that.
#[verifier::external_body]
fn wy_fold_str(seed: u64, s: &str) -> (r: i32)
    ensures
        r == line_hash_of(seed, s@),
{
    let mut hasher = WyHash::with_seed(seed);
    s.hash(&mut hasher);
    hasher.finish() as i32
}

/// Folds a slice of 32-bit values into one persisted bucket key, under the
/// index's fixed seed. Stable across process runs.
pub fn calculate_hash(v: &[i32]) -> (r: i32)
    ensures
        r == fold_hash_of(WYHASH_SEED, v@),
{
    wy_fold(WYHASH_SEED, v)
}

/// Hashes one line of text into one 32-bit token, under the index's fixed
/// seed. Stable across process runs.
pub fn calculate_hash_str(s: &str) -> (r: i32)
    ensures
        r == line_hash_of(WYHASH_SEED, s@),
{
    wy_fold_str(WYHASH_SEED, s)
}

} // verus!
