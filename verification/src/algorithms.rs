//! Capability contracts the core consumes from the surrounding algebra
//! layer: a collision-resistant hash and a pseudorandom function. Their
//! concrete constructions live outside the evaluator and are reached only
//! through these interfaces.
use vstd::prelude::*;
use crate::errors::{CRHError, PRFError};

verus! {

/// A collision-resistant hash with a fixed input size.
pub trait CRH: Sized + Clone {
    type Output;

    type Parameters;

    /// The fixed number of input bits an instance accepts.
    fn input_size_bits() -> usize;

    /// Sets up an instance from setup randomness.
    fn setup(randomness: &Vec<u8>) -> Self;

    /// Hashes the input, failing with a typed error on malformed input.
    fn hash(&self, input: &Vec<u8>) -> Result<Self::Output, CRHError>;

    /// The parameters the instance was set up with.
    fn parameters(&self) -> &Self::Parameters;
}

/// A pseudorandom function: a deterministic map from a seed and an input to
/// an output.
pub trait PRF {
    type Input;

    type Output;

    type Seed;

    /// Evaluates the function, failing with a typed error on a malformed
    /// seed or input.
    fn evaluate(seed: &Self::Seed, input: &Self::Input) -> Result<Self::Output, PRFError>;
}

} // verus!
