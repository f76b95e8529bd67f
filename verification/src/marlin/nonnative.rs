//! Elements of a field that is not the native one, as limbs over the
//! native field: the limbs, most significant first, are the digits of the
//! integer lift in the base `2^bits_per_limb`.
use crate::bits::limb_bit;
use crate::fields::closure::group_field_closed;
use crate::fields::field::{Field, PrimeField};
use crate::fields::pack::{lemma_pack_push, pack_le, powers_of_two, two_pow};
use crate::gadgets::fp::{all_fp_hold_in, fp_values, FpGadget};
use crate::gadgets::r1cs::{ConstraintSystem, SynthesisError};
use crate::marlin::params::{get_params, the_params, NonNativeFieldParams, OptimizationType};
use vstd::prelude::*;

verus! {

broadcast use group_field_closed;

/// Bit `i` of a multi-limb integer, and unset beyond its limbs.
pub open spec fn repr_bit(limbs: Seq<u64>, i: int) -> bool {
    0 <= i < 64 * limbs.len() && limb_bit(limbs, i)
}

/// The bits of limb `m` of an integer, lowest first; limb 0 is the lowest.
pub open spec fn limb_bits_spec(limbs: Seq<u64>, m: int, bits_per_limb: int) -> Seq<bool> {
    Seq::new(bits_per_limb as nat, |j: int| repr_bit(limbs, m * bits_per_limb + j))
}

/// The limbs of an integer, most significant first, as elements of `CF`.
pub open spec fn limbs_spec<CF: Field>(limbs: Seq<u64>, p: NonNativeFieldParams) -> Seq<CF> {
    Seq::new(
        p.num_limbs as nat,
        |k: int| pack_le::<CF>(limb_bits_spec(limbs, p.num_limbs - 1 - k, p.bits_per_limb as int)),
    )
}

/// The shape of the limbs of elements of `F` over `CF`.
pub open spec fn field_params<F: PrimeField, CF: PrimeField>(ty: OptimizationType) -> NonNativeFieldParams {
    the_params(F::size_in_bits_spec() as int, CF::size_in_bits_spec() as int, ty)
}

/// The limbs of an element of `F` over `CF`.
pub open spec fn limbs_of<F: PrimeField, CF: PrimeField>(elem: F, ty: OptimizationType) -> Seq<CF> {
    limbs_spec::<CF>(elem.repr_spec(), field_params::<F, CF>(ty))
}

/// The two fields have sizes for which limbs can be found.
pub open spec fn fields_fit<F: PrimeField, CF: PrimeField>() -> bool {
    &&& F::is_field()
    &&& CF::is_field()
    &&& 16 <= CF::size_in_bits_spec() <= 4096
    &&& F::size_in_bits_spec() <= 4096
}

/// The limbs of the integer with the limbs `repr`.
pub fn limbs_representations<CF: PrimeField>(repr: &Vec<u64>, params: NonNativeFieldParams) -> (r: Vec<CF>)
    requires
        CF::is_field(),
        params.num_limbs <= 4096,
        params.bits_per_limb <= 4096,
        64 * repr@.len() <= u32::MAX,
    ensures
        r@ == limbs_spec::<CF>(repr@, params),
        forall|k: int| 0 <= k < r@.len() ==> (#[trigger] r@[k]).wf(),
{
    proof {
        CF::lemma_constants();
    }
    let bpl = params.bits_per_limb;
    let powers = powers_of_two::<CF>(bpl);
    let total = 64 * repr.len();
    let mut limbs: Vec<CF> = Vec::new();
    let mut k: usize = 0;
    while k < params.num_limbs
        invariant
            k <= params.num_limbs,
            params.num_limbs <= 4096,
            bpl == params.bits_per_limb,
            bpl <= 4096,
            total == 64 * repr@.len(),
            total <= u32::MAX,
            CF::is_field(),
            powers@.len() == bpl,
            forall|j: int| 0 <= j < bpl ==> (#[trigger] powers@[j]) == two_pow::<CF>(j as nat),
            forall|j: int| 0 <= j < bpl ==> (#[trigger] powers@[j]).wf(),
            limbs@.len() == k,
            forall|i: int| 0 <= i < k ==> (#[trigger] limbs@[i]) == limbs_spec::<CF>(repr@, params)[i],
            forall|i: int| 0 <= i < k ==> (#[trigger] limbs@[i]).wf(),
        decreases params.num_limbs - k,
    {
        let m = params.num_limbs - 1 - k;
        assert(m * bpl <= 4096 * 4096) by (nonlinear_arith)
            requires
                m <= 4096,
                bpl <= 4096,
        ;
        let base_index = m * bpl;
        let ghost bits = limb_bits_spec(repr@, m as int, bpl as int);
        let mut acc = CF::zero();
        let mut j: usize = 0;
        proof {
            CF::lemma_constants();
            assert(bits.subrange(0, 0) =~= Seq::<bool>::empty());
        }
        while j < bpl
            invariant
                j <= bpl,
                bpl <= 4096,
                base_index == m * bpl,
                base_index <= 4096 * 4096,
                total == 64 * repr@.len(),
                total <= u32::MAX,
                CF::is_field(),
                powers@.len() == bpl,
                forall|i: int| 0 <= i < bpl ==> (#[trigger] powers@[i]) == two_pow::<CF>(i as nat),
                forall|i: int| 0 <= i < bpl ==> (#[trigger] powers@[i]).wf(),
                bits == limb_bits_spec(repr@, m as int, bpl as int),
                acc == pack_le::<CF>(bits.subrange(0, j as int)),
                acc.wf(),
            decreases bpl - j,
        {
            let idx = base_index + j;
            let bit = idx < total && (repr[idx / 64] >> ((idx % 64) as u64)) & 1 == 1;
            proof {
                CF::lemma_constants();
                assert(bit == bits[j as int]);
                assert(bits.subrange(0, j + 1) =~= bits.subrange(0, j as int).push(bit));
                lemma_pack_push::<CF>(bits.subrange(0, j as int), bit);
                CF::lemma_add_zero(acc);
            }
            if bit {
                acc = acc.add(&powers[j]);
            }
            j += 1;
        }
        assert(bits.subrange(0, bpl as int) =~= bits);
        limbs.push(acc);
        k += 1;
    }
    assert(limbs@ =~= limbs_spec::<CF>(repr@, params));
    limbs
}

/// The limbs of an element of `F` over `CF`, most significant first.
pub fn get_limbs_representations<F: PrimeField, CF: PrimeField>(elem: &F, ty: OptimizationType) -> (r:
    Result<Vec<CF>, SynthesisError>)
    requires
        elem.wf(),
        fields_fit::<F, CF>(),
    ensures
        r is Ok,
        r->Ok_0@ == limbs_of::<F, CF>(*elem, ty),
        r->Ok_0@.len() == field_params::<F, CF>(ty).num_limbs,
        forall|k: int| 0 <= k < r->Ok_0@.len() ==> (#[trigger] r->Ok_0@[k]).wf(),
{
    proof {
        F::lemma_size_in_bits();
        F::lemma_limbs(*elem);
    }
    let params = get_params(F::size_in_bits(), CF::size_in_bits(), ty);
    let repr = elem.into_repr();
    Ok(limbs_representations::<CF>(&repr, params))
}

/// An element of `F` as limb variables over `CF`.
pub struct AllocatedNonNativeFieldVar<F: PrimeField, CF: PrimeField> {
    /// The limbs, most significant first.
    pub limbs: Vec<FpGadget<CF>>,
    /// How many additions have been made since the limbs were reduced.
    pub num_of_additions_over_normal_form: CF,
    /// Whether the limbs are reduced.
    pub is_in_the_normal_form: bool,
    pub target_phantom: core::marker::PhantomData<F>,
}

/// An element of `F` in a circuit over `CF`.
pub enum NonNativeFieldVar<F: PrimeField, CF: PrimeField> {
    /// A constant.
    Constant(F),
    /// Limb variables.
    Var(AllocatedNonNativeFieldVar<F, CF>),
}

impl<F: PrimeField, CF: PrimeField> AllocatedNonNativeFieldVar<F, CF> {
    /// The limbs hold in `cs`, and the count of additions is an element.
    pub open spec fn holds_in(&self, cs: &ConstraintSystem<CF>) -> bool {
        all_fp_hold_in(self.limbs@, cs) && self.num_of_additions_over_normal_form.wf()
    }

    /// The values of the limbs.
    pub open spec fn limb_values(&self) -> Seq<CF> {
        fp_values(self.limbs@)
    }

    /// The constant `value`, with constant limbs.
    pub fn alloc_constant(cs: &ConstraintSystem<CF>, value: &F, ty: OptimizationType) -> (r: Result<
        Self,
        SynthesisError,
    >)
        requires
            cs.wf(),
            value.wf(),
            fields_fit::<F, CF>(),
        ensures
            r is Ok,
            r->Ok_0.holds_in(cs),
            r->Ok_0.limb_values() == limbs_of::<F, CF>(*value, ty),
            r->Ok_0.num_of_additions_over_normal_form == CF::zero_spec(),
            r->Ok_0.is_in_the_normal_form,
    {
        proof {
            CF::lemma_constants();
        }
        let values = match get_limbs_representations::<F, CF>(value, ty) {
            Ok(v) => v,
            Err(e) => {
                return Err(e);
            },
        };
        let mut limbs: Vec<FpGadget<CF>> = Vec::new();
        let mut k: usize = 0;
        while k < values.len()
            invariant
                k <= values@.len(),
                cs.wf(),
                forall|i: int| 0 <= i < values@.len() ==> (#[trigger] values@[i]).wf(),
                limbs@.len() == k,
                all_fp_hold_in(limbs@, cs),
                forall|i: int| 0 <= i < k ==> (#[trigger] limbs@[i]).value == Some(values@[i]),
            decreases values@.len() - k,
        {
            limbs.push(FpGadget::constant(cs, values[k]));
            k += 1;
        }
        assert(fp_values(limbs@) =~= values@);
        Ok(
            AllocatedNonNativeFieldVar {
                limbs,
                num_of_additions_over_normal_form: CF::zero(),
                is_in_the_normal_form: true,
                target_phantom: core::marker::PhantomData,
            },
        )
    }
}

impl<F: PrimeField, CF: PrimeField> NonNativeFieldVar<F, CF> {
    /// A constant is an element; the limbs of a variable hold in `cs`.
    pub open spec fn holds_in(&self, cs: &ConstraintSystem<CF>) -> bool {
        match self {
            NonNativeFieldVar::Constant(c) => c.wf(),
            NonNativeFieldVar::Var(v) => v.holds_in(cs),
        }
    }
}

} // verus!
