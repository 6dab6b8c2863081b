//! An approximate-similarity index over sets of 32-bit integer tokens.
//!
//! The crate implements a MinHash / locality-sensitive-hashing engine:
//! signature computation, banding-parameter optimization by numerical
//! integration of the LSH S-curve, an inverted band-bucket index, and an
//! approximate-nearest-neighbor query pipeline with exact Jaccard re-scoring.
//! Similarities are handled as exact rationals and the S-curve integration in
//! fixed-point arithmetic, so every result is pinned by a specification.

pub mod fixed;
pub mod hash;
pub mod index;
pub mod models;
pub mod options;
pub mod pvgql_models;
pub mod sim;

use vstd::prelude::*;

verus! {

} // verus!
