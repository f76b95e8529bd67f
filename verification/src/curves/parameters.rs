//! The constants that fix a curve `y^2 = x^3 + a x + b` in short
//! Weierstrass form.
use crate::fields::field::{fdbl, Field, PrimeField};
use vstd::prelude::*;

verus! {

/// The parameter set of one curve.
pub trait Parameters: Sized + Copy {
    /// The field of the coordinates.
    type BaseField: Field;

    /// The field of the scalars: the residues of the order of the
    /// prime-order subgroup.
    type ScalarField: PrimeField;

    /// The coefficient `a`.
    spec fn coeff_a_spec() -> Self::BaseField;

    /// The coefficient `b`.
    spec fn coeff_b_spec() -> Self::BaseField;

    /// The limbs of the cofactor, least significant first.
    spec fn cofactor_spec() -> Seq<u64>;

    /// The inverse of the cofactor among the scalars.
    spec fn cofactor_inv_spec() -> Self::ScalarField;

    /// The affine coordinates of the generator of the prime-order subgroup.
    spec fn generator_spec() -> (Self::BaseField, Self::BaseField);

    fn coeff_a() -> (r: Self::BaseField)
        ensures
            r == Self::coeff_a_spec(),
    ;

    fn coeff_b() -> (r: Self::BaseField)
        ensures
            r == Self::coeff_b_spec(),
    ;

    fn cofactor() -> (r: Vec<u64>)
        ensures
            r@ == Self::cofactor_spec(),
    ;

    fn cofactor_inv() -> (r: Self::ScalarField)
        ensures
            r == Self::cofactor_inv_spec(),
    ;

    fn affine_generator_coeffs() -> (r: (Self::BaseField, Self::BaseField))
        ensures
            r == Self::generator_spec(),
    ;

    /// `a * elem`.
    fn mul_by_a(elem: &Self::BaseField) -> (r: Self::BaseField)
        requires
            elem.wf(),
            Self::coeff_a_spec().wf(),
        ensures
            r == Self::coeff_a_spec().mul_spec(*elem),
            r.wf(),
    {
        let a = Self::coeff_a();
        a.mul(elem)
    }

    /// `elem + b`.
    fn add_b(elem: &Self::BaseField) -> (r: Self::BaseField)
        requires
            elem.wf(),
            Self::coeff_b_spec().wf(),
        ensures
            r == elem.add_spec(Self::coeff_b_spec()),
            r.wf(),
    {
        let b = Self::coeff_b();
        elem.add(&b)
    }
}

/// The parameter set describes a curve: both fields are fields, the base
/// field is not of characteristic two, and the constants are elements.
pub open spec fn valid<P: Parameters>() -> bool {
    &&& P::BaseField::is_field()
    &&& P::ScalarField::is_field()
    &&& fdbl(P::BaseField::one_spec()) != P::BaseField::zero_spec()
    &&& P::coeff_a_spec().wf()
    &&& P::coeff_b_spec().wf()
    &&& P::generator_spec().0.wf()
    &&& P::generator_spec().1.wf()
    &&& P::cofactor_inv_spec().wf()
    &&& 64 * P::cofactor_spec().len() <= usize::MAX
}

/// `x^3 + a x + b`, the right-hand side of the curve equation.
pub open spec fn curve_rhs<P: Parameters>(x: P::BaseField) -> P::BaseField {
    x.mul_spec(x).mul_spec(x).add_spec(P::coeff_a_spec().mul_spec(x)).add_spec(P::coeff_b_spec())
}

} // verus!
