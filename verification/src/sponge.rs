//! The algebraic sponge the proving subsystem uses to derive its challenges
//! from the circuit's public transcript, in its plaintext form and in its
//! in-circuit form over the evaluator's constraint system.
use vstd::prelude::*;
use crate::cs::ConstraintSystem;
use crate::errors::ValueError;
use crate::value::FieldElement;

verus! {

/// An algebraic sponge over field elements.
pub trait AlgebraicSponge<CF>: Sized + Clone {
    /// Initializes an empty sponge.
    fn new() -> Self;

    /// Takes field elements in.
    fn absorb(&mut self, elems: &Vec<CF>);

    /// Takes the requested number of field elements out.
    fn squeeze(&mut self, num: usize) -> Vec<CF>;
}

/// An algebraic sponge evaluated inside the constraint system.
pub trait AlgebraicSpongeVar<CF, PS: AlgebraicSponge<CF>>: Sized + Clone {
    /// Creates the sponge over the constraint system.
    fn new(cs: &mut ConstraintSystem) -> Self;

    /// Instantiates the circuit sponge from a plaintext sponge.
    fn constant(cs: &mut ConstraintSystem, ps: &PS) -> Self;

    /// Takes field elements in.
    fn absorb(&mut self, cs: &mut ConstraintSystem, elems: &Vec<FieldElement>) -> Result<
        (),
        ValueError,
    >;

    /// Takes the requested number of field elements out.
    fn squeeze(&mut self, cs: &mut ConstraintSystem, num: usize) -> Result<
        Vec<FieldElement>,
        ValueError,
    >;
}

} // verus!
