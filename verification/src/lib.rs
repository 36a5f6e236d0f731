//! Verified building blocks of multilinear polynomial commitment schemes
//! (Deepfold, Virgo, Basefold/FRI-style folding, Zeromorph scalars) over the
//! Mersenne prime field 2^61 - 1, together with the matrix containers that the
//! benchmarks exchange with the outside world.
use vstd::prelude::*;

pub mod mersenne_61_mont;
pub mod hash;
pub mod util;
pub mod merkle;
pub mod fold;
pub mod domain;
pub mod zeromorph_fri_v4;
pub mod zeromorph_fri_v4_pcs;
pub mod p3_fri;
pub mod zeromorph_fri;
pub mod zeromorph_fri_v2;
pub mod deepfold;
pub mod merkle_tree;
pub mod interpolation;
pub mod coset;
pub mod multilinear;
pub mod virgo;
pub mod matrix;
pub mod poly_loader;
pub mod mmcs;
pub mod basefold;
pub mod deepfold_protocol;
pub mod bench_cli;
pub mod batched_fri;
pub mod batched_fri_pcs;

verus! {

} // verus!
