//! Arithmetic-circuit evaluation and a sum-check prover over the scalar
//! field of the BLS12-381 curve.
//!
//! The crate has two halves. The first is a sparse multivariate polynomial
//! representation together with a round-by-round sum-check prover: the prover
//! owns an immutable polynomial, announces the sum of the polynomial over the
//! boolean hypercube, and then, one externally supplied challenge per round,
//! produces the univariate polynomial that summarises the next unbound
//! variable. The second is a layered, feed-forward arithmetic circuit whose
//! gates add or multiply two values of the immediately preceding layer;
//! layers are stored output-first and evaluated one layer at a time so that
//! shared fan-in is never recomputed.
//!
//! Field arithmetic itself is delegated to the `ark-ff` / `ark-bls12-381`
//! crates; every other computation is verified against a model of the field
//! as the integers modulo the field order.

pub mod circuit;
pub mod errors;
pub mod field;
pub mod poly;
pub mod prover;
pub mod utils;
