//! A small verified numeric-algebra toolkit for lattice-based cryptography
//! experiments: prime-field scalars, fixed-shape matrices over a generic
//! element type, and number-theoretic-transform (NTT) evaluators in naive,
//! recursive, and in-place iterative form, together with the bit-reversal
//! permutation that relates the iterative output order to the natural one.

pub mod common;
pub mod ff;
pub mod matrix;
pub mod ntt;
pub mod primes;
pub mod utils;

pub use common::Raisable;
pub use common::Zero;
pub use ff::PrimeField;
pub use matrix::Matrix;
pub use utils::round_frac2int;
