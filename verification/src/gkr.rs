//! The GKR protocol: a claim about the outputs of a layered circuit is
//! reduced, layer by layer, to a claim about its inputs.
//!
//! A claim says that the multilinear extension `W_i` of the values of layer
//! `i` takes a given value at a given point `z`. Since every gate of layer `i`
//! reads two wires of layer `i + 1`,
//! `W_i(z) = sum over (b, c) of add_i(z, b, c) (W_{i+1}(b) + W_{i+1}(c))
//!                            + mult_i(z, b, c) W_{i+1}(b) W_{i+1}(c)`,
//! a sum over the hypercube that the sum-check protocol reduces to the values
//! of `W_{i+1}` at two points `b*` and `c*`. The restriction of `W_{i+1}` to
//! the line through them turns the two into one claim about layer `i + 1`.

pub mod circuit;
pub mod layer;
pub mod claim;
pub mod prover;
pub mod interactive;
pub mod non_interactive;
