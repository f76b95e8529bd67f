//! Division of variables of a circuit.
use crate::fields::field::Field;
use crate::gadgets::r1cs::ConstraintSystem;
use vstd::prelude::*;

verus! {

/// Returns division of `self` / `other` in the constraint system.
pub trait Div<F: Field>: Sized {
    type ErrorType;

    fn div(&self, cs: &mut ConstraintSystem<F>, other: &Self) -> Result<Self, Self::ErrorType>;
}

} // verus!
