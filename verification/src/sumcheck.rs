//! The sum-check protocol for sums of products of multilinear extensions.
//!
//! The polynomial to be summed is given by a list of tables over one
//! hypercube and a list of terms, each a list of tables to be multiplied. Its
//! value at a point is the sum over the terms of the product of the
//! extensions of the term's tables. The prover binds one variable per round,
//! lowest-order first, and keeps the tables folded by the challenges so far.

pub mod polynomial;
pub mod product_sum;
pub mod checker;
pub mod prover;
pub mod interactive;
pub mod non_interactive;
