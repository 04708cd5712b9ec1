//! Interactive proofs for layered arithmetic circuits over the BLS12-381 base
//! field: multilinear extensions, the sum-check protocol and the GKR
//! layer-by-layer reduction built on it.

pub mod encoding;
pub mod field;
pub mod summation;
pub mod mle;
pub mod poly;
pub mod sumcheck;
pub mod transcript;
pub mod line;
pub mod gkr;
