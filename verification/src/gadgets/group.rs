//! Group elements of a circuit: what the Pedersen hash in a circuit needs
//! of them.
use crate::algorithms::pedersen::{masked_msm_spec, msm_spec, symmetric_msm_spec};
use crate::algorithms::pedersen_parameters::{rows_view, rows_wf};
use crate::curves::group::{Group, ProjectiveCurve};
use crate::fields::field::Field;
use crate::gadgets::boolean::Boolean;
use crate::gadgets::r1cs::{ConstraintSystem, SynthesisError};
use crate::gadgets::uint8::{all_hold_in, values_of};
use vstd::prelude::*;

verus! {

/// A variable for an element of the group `G` in a circuit over the field
/// `F`.  The value of a variable stands for the element it holds.
pub trait GroupGadget<G: Group, F: Field>: Sized {
    /// A value of the group that stands for the element of the variable.
    spec fn value(&self) -> G;

    /// The wires of the variable hold in `cs`.
    spec fn holds_in(&self, cs: &ConstraintSystem<F>) -> bool;

    /// The implementation fails on no variables and bits that hold in their
    /// system.
    spec fn never_fails() -> bool;

    /// A variable that holds in a system holds in every extension of it.
    proof fn lemma_holds_later(&self, cs: &ConstraintSystem<F>, later: &ConstraintSystem<F>)
        requires
            self.holds_in(cs),
            cs.wf(),
            later.wf(),
            cs.extended_by(later),
        ensures
            self.holds_in(later),
    ;

    /// The sum of two variables.  This and the sums below fail only where
    /// the implementation may fail.
    fn add(&self, cs: &mut ConstraintSystem<F>, other: &Self) -> (r: Result<Self, SynthesisError>)
        requires
            old(cs).wf(),
            self.holds_in(old(cs)),
            other.holds_in(old(cs)),
        ensures
            final(cs).wf(),
            old(cs).extended_by(final(cs)),
            final(cs).satisfied_spec() == old(cs).satisfied_spec(),
            Self::never_fails() ==> r is Ok,
            r is Ok ==> r->Ok_0.holds_in(final(cs)) && r->Ok_0.value().eq_spec(
                self.value().add_spec(other.value()),
            ),
    ;

    /// The sum of the bases at the set bits, the bits taken in windows of
    /// `window_size`.
    fn multi_scalar_multiplication(
        cs: &mut ConstraintSystem<F>,
        bases: &Vec<Vec<G>>,
        bits: &Vec<Boolean>,
        window_size: usize,
    ) -> (r: Result<Self, SynthesisError>)
        requires
            old(cs).wf(),
            G::is_group(),
            rows_wf(rows_view(bases@)),
            all_hold_in(bits@, old(cs)),
            window_size >= 1,
        ensures
            final(cs).wf(),
            old(cs).extended_by(final(cs)),
            final(cs).satisfied_spec() == old(cs).satisfied_spec(),
            Self::never_fails() ==> r is Ok,
            r is Ok ==> r->Ok_0.holds_in(final(cs)) && r->Ok_0.value().eq_spec(
                msm_spec(rows_view(bases@), values_of(bits@), window_size as int),
            ),
    ;

    /// The sum over all bits of the base, or of its inverse where the bit
    /// is set.
    fn symmetric_multi_scalar_multiplication(
        cs: &mut ConstraintSystem<F>,
        bases: &Vec<Vec<G>>,
        bits: &Vec<Boolean>,
        window_size: usize,
    ) -> (r: Result<Self, SynthesisError>)
        requires
            old(cs).wf(),
            G::is_group(),
            rows_wf(rows_view(bases@)),
            all_hold_in(bits@, old(cs)),
            window_size >= 1,
        ensures
            final(cs).wf(),
            old(cs).extended_by(final(cs)),
            final(cs).satisfied_spec() == old(cs).satisfied_spec(),
            Self::never_fails() ==> r is Ok,
            r is Ok ==> r->Ok_0.holds_in(final(cs)) && r->Ok_0.value().eq_spec(
                symmetric_msm_spec(rows_view(bases@), values_of(bits@), window_size as int),
            ),
    ;

    /// The masked sum over all bits.
    fn masked_multi_scalar_multiplication(
        cs: &mut ConstraintSystem<F>,
        bases: &Vec<Vec<G>>,
        bits: &Vec<Boolean>,
        mask_bases: &Vec<Vec<G>>,
        mask_bits: &Vec<Boolean>,
        window_size: usize,
    ) -> (r: Result<Self, SynthesisError>)
        requires
            old(cs).wf(),
            G::is_group(),
            rows_wf(rows_view(bases@)),
            rows_wf(rows_view(mask_bases@)),
            all_hold_in(bits@, old(cs)),
            all_hold_in(mask_bits@, old(cs)),
            window_size >= 1,
        ensures
            final(cs).wf(),
            old(cs).extended_by(final(cs)),
            final(cs).satisfied_spec() == old(cs).satisfied_spec(),
            Self::never_fails() ==> r is Ok,
            r is Ok ==> r->Ok_0.holds_in(final(cs)) && r->Ok_0.value().eq_spec(
                masked_msm_spec(
                    rows_view(bases@),
                    rows_view(mask_bases@),
                    values_of(bits@),
                    values_of(mask_bits@),
                    window_size as int,
                ),
            ),
    ;
}

/// A variable for a point of a curve, of which the x-coordinate can be
/// taken.
pub trait CompressedGroupGadget<G: ProjectiveCurve, F: Field>: GroupGadget<G, F> {
    /// The variable of a coordinate.
    type BaseFieldGadget;

    /// The value of the variable of a coordinate.
    spec fn coordinate_value(x: &Self::BaseFieldGadget) -> G::BaseField;

    /// The x-coordinate of the affine form of the point.
    fn to_x_coordinate(&self) -> (x: Self::BaseFieldGadget)
        ensures
            Self::coordinate_value(&x) == self.value().affine_x_spec(),
    ;
}

} // verus!
