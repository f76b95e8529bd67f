//! Algebraic sponges: what the Fiat-Shamir transform needs of a sponge,
//! natively and in a circuit.
use crate::fields::field::PrimeField;
use crate::gadgets::fp::{all_fp_hold_in, fp_values, FpGadget};
use crate::gadgets::r1cs::{ConstraintSystem, SynthesisError};
use vstd::prelude::*;

verus! {

/// All elements of the sequence are field elements.
pub open spec fn all_wf<CF: PrimeField>(s: Seq<CF>) -> bool {
    forall|i: int| 0 <= i < s.len() ==> (#[trigger] s[i]).wf()
}

/// A sponge over the field `CF`.  The model of a sponge is all that its
/// further behaviour depends on.
pub trait AlgebraicSponge<CF: PrimeField>: Sized {
    /// What a sponge is, as a mathematical value.
    type Model;

    /// The sponge is in a state that its operations keep.
    spec fn wf(&self) -> bool;

    /// The value of the sponge.
    spec fn model(&self) -> Self::Model;

    /// The sponge that has absorbed nothing.
    spec fn new_spec() -> Self::Model;

    /// The sponge after absorbing `elems`.
    spec fn absorb_spec(m: Self::Model, elems: Seq<CF>) -> Self::Model;

    /// The sponge after squeezing `n` elements, and those elements.
    spec fn squeeze_spec(m: Self::Model, n: nat) -> (Self::Model, Seq<CF>);

    /// Squeezing gives as many elements as were asked for.
    proof fn lemma_squeeze_len(m: Self::Model, n: nat)
        ensures
            Self::squeeze_spec(m, n).1.len() == n,
    ;

    fn new() -> (s: Self)
        requires
            CF::is_field(),
        ensures
            s.wf(),
            s.model() == Self::new_spec(),
    ;

    fn absorb(&mut self, elems: &Vec<CF>)
        requires
            old(self).wf(),
            all_wf(elems@),
        ensures
            final(self).wf(),
            final(self).model() == Self::absorb_spec(old(self).model(), elems@),
    ;

    fn squeeze(&mut self, num: usize) -> (r: Vec<CF>)
        requires
            old(self).wf(),
        ensures
            final(self).wf(),
            final(self).model() == Self::squeeze_spec(old(self).model(), num as nat).0,
            r@ == Self::squeeze_spec(old(self).model(), num as nat).1,
            all_wf(r@),
    ;
}

/// A sponge in a circuit that does what the native sponge `PS` does.
pub trait AlgebraicSpongeVar<CF: PrimeField, PS: AlgebraicSponge<CF>>: Sized {
    /// The variables of the sponge hold in `cs`.
    spec fn wf(&self, cs: &ConstraintSystem<CF>) -> bool;

    /// The native sponge that the values of the variables make up.
    spec fn model(&self) -> PS::Model;

    /// The implementation fails on no sponge and no input that hold in
    /// their system.
    spec fn never_fails() -> bool;

    /// A sponge that holds in a system holds in every extension of it.
    proof fn lemma_wf_later(&self, cs: &ConstraintSystem<CF>, later: &ConstraintSystem<CF>)
        requires
            self.wf(cs),
            cs.wf(),
            later.wf(),
            cs.extended_by(later),
        ensures
            self.wf(later),
    ;

    fn new(cs: &mut ConstraintSystem<CF>) -> (s: Self)
        requires
            old(cs).wf(),
        ensures
            s.wf(final(cs)),
            s.model() == PS::new_spec(),
            final(cs).wf(),
            old(cs).extended_by(final(cs)),
            final(cs).satisfied_spec() == old(cs).satisfied_spec(),
    ;

    fn constant(cs: &mut ConstraintSystem<CF>, ps: &PS) -> (s: Self)
        requires
            old(cs).wf(),
            ps.wf(),
        ensures
            s.wf(final(cs)),
            s.model() == ps.model(),
            final(cs).wf(),
            old(cs).extended_by(final(cs)),
            final(cs).satisfied_spec() == old(cs).satisfied_spec(),
    ;

    /// Absorbs the values of the variables.  Fails only where the
    /// implementation may fail.
    fn absorb(&mut self, cs: &mut ConstraintSystem<CF>, elems: &Vec<FpGadget<CF>>) -> (r: Result<
        (),
        SynthesisError,
    >)
        requires
            old(cs).wf(),
            old(self).wf(old(cs)),
            all_fp_hold_in(elems@, old(cs)),
        ensures
            final(cs).wf(),
            old(cs).extended_by(final(cs)),
            final(cs).satisfied_spec() == old(cs).satisfied_spec(),
            Self::never_fails() ==> r is Ok,
            r is Ok ==> {
                &&& final(self).wf(final(cs))
                &&& final(self).model() == PS::absorb_spec(old(self).model(), fp_values(elems@))
            },
    ;

    /// Squeezes `num` variables.  Fails only where the implementation may
    /// fail.
    fn squeeze(&mut self, cs: &mut ConstraintSystem<CF>, num: usize) -> (r: Result<
        Vec<FpGadget<CF>>,
        SynthesisError,
    >)
        requires
            old(cs).wf(),
            old(self).wf(old(cs)),
        ensures
            final(cs).wf(),
            old(cs).extended_by(final(cs)),
            final(cs).satisfied_spec() == old(cs).satisfied_spec(),
            Self::never_fails() ==> r is Ok,
            r is Ok ==> {
                &&& final(self).wf(final(cs))
                &&& final(self).model() == PS::squeeze_spec(old(self).model(), num as nat).0
                &&& fp_values(r->Ok_0@) == PS::squeeze_spec(old(self).model(), num as nat).1
                &&& r->Ok_0@.len() == num
                &&& all_fp_hold_in(r->Ok_0@, final(cs))
            },
    ;
}

} // verus!
