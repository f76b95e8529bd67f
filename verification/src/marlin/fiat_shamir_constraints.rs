//! The Fiat-Shamir generator in a circuit: the variables it absorbs and
//! squeezes have the values that the native generator absorbs and
//! squeezes.
use crate::fields::closure::group_field_closed;
use crate::fields::field::{Field, PrimeField};
use crate::fields::laws::lemma_mul_neg;
use crate::fields::pack::{lemma_pack_push, pack_le, powers_of_two, two_pow};
use crate::gadgets::boolean::{lemma_eval_small, Boolean};
use crate::gadgets::fp::{all_fp_hold_in, fp_values, lemma_all_fp_hold_later, FpGadget};
use crate::gadgets::r1cs::{
    lemma_eval_concat, scaled, Constraint, ConstraintSystem, LinearCombination, SynthesisError,
    Variable,
};
use crate::gadgets::uint8::{all_hold_in, lemma_all_hold_later, values_of, UInt8};
use crate::marlin::fiat_shamir::{
    bits_per_nonnative, bytes_bits, chunk_of, compress_from, elem_bits, elems_bits, lemma_chunks,
    lemma_elems_bits_len, lemma_squeeze_covers, lemma_window_within, packed_chunks, squeeze_count,
    with_count_one, FiatShamirAlgebraicSpongeRng,
};
use crate::marlin::nonnative::{
    field_params, fields_fit, get_limbs_representations, limbs_of, AllocatedNonNativeFieldVar,
    NonNativeFieldVar,
};
use crate::marlin::params::{get_params, overhead, OptimizationType};
use crate::marlin::sponge::{AlgebraicSponge, AlgebraicSpongeVar};
use vstd::prelude::*;

verus! {

broadcast use group_field_closed;

/// The sum of the coefficients at the set ones of the first `n` bits.
pub open spec fn weighted_sum<CF: Field>(bits: Seq<bool>, coeffs: Seq<CF>, n: int) -> CF
    decreases n,
{
    if n <= 0 {
        CF::zero_spec()
    } else {
        weighted_sum(bits, coeffs, n - 1).add_spec(
            if bits[n - 1] {
                coeffs[n - 1]
            } else {
                CF::zero_spec()
            },
        )
    }
}

/// With the powers of two as coefficients the weighted sum is the number
/// that the bits spell, lowest first.
pub proof fn lemma_weighted_sum_is_pack<CF: Field>(bits: Seq<bool>, coeffs: Seq<CF>, n: int)
    requires
        0 <= n <= bits.len(),
        n <= coeffs.len(),
        forall|j: int| 0 <= j < n ==> (#[trigger] coeffs[j]) == two_pow::<CF>(j as nat),
    ensures
        weighted_sum(bits, coeffs, n) == pack_le::<CF>(bits.subrange(0, n)),
    decreases n,
{
    if n > 0 {
        lemma_weighted_sum_is_pack(bits, coeffs, n - 1);
        assert(bits.subrange(0, n) =~= bits.subrange(0, n - 1).push(bits[n - 1]));
        lemma_pack_push::<CF>(bits.subrange(0, n - 1), bits[n - 1]);
    } else {
        assert(bits.subrange(0, 0) =~= Seq::<bool>::empty());
    }
}

/// The values of the limbs, each with its count of additions.
pub open spec fn pairs_values<CF: PrimeField>(src: Seq<(FpGadget<CF>, CF)>) -> Seq<(CF, CF)> {
    Seq::new(src.len(), |i: int| (src[i].0.value->0, src[i].1))
}

/// The limbs of a variable of `F`, each with the count of additions of
/// the variable, and with the count one where that is zero.
pub open spec fn var_limbs<F: PrimeField, CF: PrimeField>(
    v: NonNativeFieldVar<F, CF>,
    ty: OptimizationType,
) -> Seq<(CF, CF)> {
    match v {
        NonNativeFieldVar::Constant(c) => with_count_one(limbs_of::<F, CF>(c, ty)),
        NonNativeFieldVar::Var(a) => Seq::new(
            a.limbs@.len(),
            |k: int|
                (
                    a.limbs@[k].value->0,
                    if a.num_of_additions_over_normal_form == CF::zero_spec() {
                        CF::one_spec()
                    } else {
                        a.num_of_additions_over_normal_form
                    },
                ),
        ),
    }
}

/// The limbs of the first `n` variables.
pub open spec fn vars_limbs<F: PrimeField, CF: PrimeField>(
    src: Seq<NonNativeFieldVar<F, CF>>,
    ty: OptimizationType,
    n: int,
) -> Seq<(CF, CF)>
    decreases n,
{
    if n <= 0 {
        Seq::empty()
    } else {
        vars_limbs(src, ty, n - 1) + var_limbs(src[n - 1], ty)
    }
}

/// Variables whose limbs are the limbs of native elements, with the count
/// of additions zero or one, are absorbed as those elements are: the
/// limbs that go into the sponge are the same.
pub proof fn lemma_limbs_agree<F: PrimeField, CF: PrimeField>(
    elems: Seq<F>,
    vars: Seq<NonNativeFieldVar<F, CF>>,
    ty: OptimizationType,
    n: int,
)
    requires
        0 <= n <= elems.len(),
        n <= vars.len(),
        forall|i: int|
            0 <= i < n ==> var_limbs(#[trigger] vars[i], ty) == with_count_one(
                limbs_of::<F, CF>(elems[i], ty),
            ),
    ensures
        vars_limbs(vars, ty, n) == crate::marlin::fiat_shamir::elems_limbs::<F, CF>(elems, ty, n),
    decreases n,
{
    if n > 0 {
        lemma_limbs_agree::<F, CF>(elems, vars, ty, n - 1);
        assert(var_limbs(vars[n - 1], ty) == with_count_one(limbs_of::<F, CF>(elems[n - 1], ty)));
    }
}

/// Limb `k` of `2^j` in `F`, over `CF`.
pub open spec fn table_column<F: PrimeField, CF: PrimeField>(k: int, n: int) -> Seq<CF> {
    Seq::new(
        n as nat,
        |j: int| limbs_of::<F, CF>(two_pow::<F>(j as nat), OptimizationType::Constraints)[k],
    )
}

/// The limbs of the element of `F` that the bits spell, lowest bit first:
/// limb by limb the sum of the limbs of the powers of two at the set bits.
pub open spec fn limbs_from_bits<F: PrimeField, CF: PrimeField>(bits_le: Seq<bool>) -> Seq<CF> {
    Seq::new(
        field_params::<F, CF>(OptimizationType::Constraints).num_limbs as nat,
        |k: int|
            weighted_sum(
                bits_le,
                table_column::<F, CF>(k, bits_le.len() as int),
                bits_le.len() as int,
            ),
    )
}

/// The values of the bytes.
pub open spec fn uint8_values(elems: Seq<UInt8>) -> Seq<u8> {
    Seq::new(elems.len(), |i: int| elems[i].value->0)
}

/// The sum of the first `n` bits, each times its coefficient, as a linear
/// combination.
pub open spec fn weighted_lc<CF: PrimeField>(bits: Seq<Boolean>, coeffs: Seq<CF>, n: int) -> Seq<
    (Variable, CF),
>
    decreases n,
{
    if n <= 0 {
        Seq::empty()
    } else {
        weighted_lc(bits, coeffs, n - 1) + bits[n - 1].lc_spec(
            ConstraintSystem::<CF>::one_spec(),
            coeffs[n - 1],
        )
    }
}

/// The combination `sum - g` of the constraint that binds the variable
/// `g` to the sum of the coefficients at the set bits.
pub open spec fn binding_lc<CF: PrimeField>(bits: Seq<Boolean>, coeffs: Seq<CF>, g: FpGadget<CF>) -> Seq<
    (Variable, CF),
> {
    weighted_lc(bits, coeffs, bits.len() as int) + scaled(g.lc@, CF::one_spec().neg_spec())
}

/// The constraint `0 * 0 = sum - g` binds the variable `g` to the sum of
/// the coefficients at the set bits.
pub open spec fn is_binding<CF: PrimeField>(
    c: Constraint<CF>,
    bits: Seq<Boolean>,
    coeffs: Seq<CF>,
    g: FpGadget<CF>,
) -> bool {
    &&& c.a@ == Seq::<(Variable, CF)>::empty()
    &&& c.b@ == Seq::<(Variable, CF)>::empty()
    &&& c.c@ == binding_lc(bits, coeffs, g)
}

/// A constraint of `cs` binds the variable `g` to the sum of the
/// coefficients at the set bits.
pub open spec fn bound_in<CF: PrimeField>(
    cs: &ConstraintSystem<CF>,
    bits: Seq<Boolean>,
    coeffs: Seq<CF>,
    g: FpGadget<CF>,
) -> bool {
    exists|j: int| 0 <= j < cs.constraints@.len() && is_binding(#[trigger] cs.constraints@[j], bits, coeffs, g)
}

/// Every limb of the variables is bound by a constraint of `cs` to the
/// sum of the limbs of the powers of two at the set bits.
pub open spec fn limbs_bound<F: PrimeField, CF: PrimeField>(
    cs: &ConstraintSystem<CF>,
    bits: Seq<Boolean>,
    limbs: Seq<FpGadget<CF>>,
) -> bool {
    forall|m: int|
        0 <= m < limbs.len() ==> bound_in(
            cs,
            bits,
            table_column::<F, CF>(m, bits.len() as int),
            #[trigger] limbs[m],
        )
}

/// What a system binds, every extension of it binds.
pub proof fn lemma_bound_later<CF: PrimeField>(
    cs: &ConstraintSystem<CF>,
    later: &ConstraintSystem<CF>,
    bits: Seq<Boolean>,
    coeffs: Seq<CF>,
    g: FpGadget<CF>,
)
    requires
        bound_in(cs, bits, coeffs, g),
        cs.extended_by(later),
    ensures
        bound_in(later, bits, coeffs, g),
{
    let j = choose|j: int| 0 <= j < cs.constraints@.len() && is_binding(#[trigger] cs.constraints@[j], bits, coeffs, g);
    assert(later.constraints@[j] == cs.constraints@[j]);
}

/// The limbs that a system binds, every extension of it binds.
pub proof fn lemma_limbs_bound_later<F: PrimeField, CF: PrimeField>(
    cs: &ConstraintSystem<CF>,
    later: &ConstraintSystem<CF>,
    bits: Seq<Boolean>,
    limbs: Seq<FpGadget<CF>>,
)
    requires
        limbs_bound::<F, CF>(cs, bits, limbs),
        cs.extended_by(later),
    ensures
        limbs_bound::<F, CF>(later, bits, limbs),
{
    assert forall|m: int| 0 <= m < limbs.len() implies bound_in(
        later,
        bits,
        table_column::<F, CF>(m, bits.len() as int),
        #[trigger] limbs[m],
    ) by {
        lemma_bound_later(cs, later, bits, table_column::<F, CF>(m, bits.len() as int), limbs[m]);
    }
}

/// A new public input whose value is the sum of the coefficients at the
/// set bits, with the one constraint that it is that sum:
/// `0 * 0 = sum - input`.
pub fn constrained_input<CF: PrimeField>(
    cs: &mut ConstraintSystem<CF>,
    bits: &Vec<Boolean>,
    coeffs: &Vec<CF>,
) -> (g: FpGadget<CF>)
    requires
        old(cs).wf(),
        all_hold_in(bits@, old(cs)),
        bits@.len() <= coeffs@.len(),
        forall|j: int| 0 <= j < coeffs@.len() ==> (#[trigger] coeffs@[j]).wf(),
    ensures
        g.holds_in(final(cs)),
        g.value == Some(weighted_sum(values_of(bits@), coeffs@, bits@.len() as int)),
        final(cs).wf(),
        old(cs).extended_by(final(cs)),
        final(cs).aux@ == old(cs).aux@,
        final(cs).inputs@.len() == old(cs).inputs@.len() + 1,
        g.lc@ == seq![(Variable { is_input: true, index: old(cs).inputs.len() }, CF::one_spec())],
        old(cs).with_constraint(final(cs), Seq::empty(), Seq::empty(), binding_lc(bits@, coeffs@, g)),
        bound_in(final(cs), bits@, coeffs@, g),
        final(cs).satisfied_spec() == old(cs).satisfied_spec(),
{
    proof {
        CF::lemma_constants();
    }
    let one_var = ConstraintSystem::<CF>::one();
    let mut elem = CF::zero();
    let mut lc = LinearCombination::<CF>::zero();
    let ghost vals = values_of(bits@);
    let mut j: usize = 0;
    proof {
        let t = (one_var, CF::one_spec());
        lemma_eval_small(t, t, t, cs.inputs@, cs.aux@);
    }
    while j < bits.len()
        invariant
            j <= bits@.len(),
            cs.wf(),
            *cs == *old(cs),
            all_hold_in(bits@, cs),
            bits@.len() <= coeffs@.len(),
            forall|i: int| 0 <= i < coeffs@.len() ==> (#[trigger] coeffs@[i]).wf(),
            vals == values_of(bits@),
            one_var == ConstraintSystem::<CF>::one_spec(),
            elem == weighted_sum(vals, coeffs@, j as int),
            elem.wf(),
            cs.lc_ok(lc@),
            cs.value_of(lc@) == elem,
            lc@ == weighted_lc(bits@, coeffs@, j as int),
        decreases bits@.len() - j,
    {
        let bit = bits[j];
        let coeff = coeffs[j];
        assert(bits@[j as int].holds_in(cs));
        assert(coeffs@[j as int].wf());
        proof {
            CF::lemma_constants();
            bit.lemma_lc_value(cs, coeff);
            crate::gadgets::boolean::lemma_gates::<CF>(bit.value_spec(), bit.value_spec());
            CF::lemma_mul_one(coeff);
            crate::fields::laws::lemma_mul_zero(coeff);
            CF::lemma_add_zero(elem);
            let term = bit.lc_spec(one_var, coeff);
            lemma_eval_concat(lc@, term, cs.inputs@, cs.aux@, term.len() as int);
        }
        if bit.get_value().unwrap() {
            elem = elem.add(&coeff);
        }
        let term = bit.lc(one_var, coeff);
        lc.append(&term);
        j += 1;
    }
    let ghost before = *cs;
    let gadget = match FpGadget::allocate_input(cs, Some(elem)) {
        Ok(g) => g,
        Err(_) => {
            assert(false);
            FpGadget { value: None, lc: LinearCombination::zero() }
        },
    };
    proof {
        before.lemma_extension_general(cs);
        assert(cs.value_of(lc@) == elem);
        // lc - gadget = 0
        let minus_one = CF::one_spec().neg_spec();
        let neg_terms = scaled(gadget.lc@, minus_one);
        crate::gadgets::r1cs::lemma_eval_scaled(
            gadget.lc@,
            minus_one,
            cs.inputs@,
            cs.aux@,
            gadget.lc@.len() as int,
        );
        lemma_eval_concat(lc@, neg_terms, cs.inputs@, cs.aux@, neg_terms.len() as int);
        lemma_mul_neg(CF::one_spec(), elem);
        crate::fields::laws::lemma_one_mul(elem);
        CF::lemma_add_neg(elem);
        crate::fields::laws::lemma_mul_zero(CF::zero_spec());
        let t = (one_var, CF::one_spec());
        lemma_eval_small(t, t, t, cs.inputs@, cs.aux@);
        assert forall|k: int| 0 <= k < gadget.lc@.len() implies (#[trigger] gadget.lc@[k]).1.wf() by {
            assert(crate::gadgets::r1cs::var_ok(
                gadget.lc@[k].0,
                cs.inputs@.len() as int,
                cs.aux@.len() as int,
            ));
        }
    }
    let minus = gadget.lc.scale(&CF::one().neg());
    lc.append(&minus);
    let ghost mid = *cs;
    cs.enforce(LinearCombination::zero(), LinearCombination::zero(), lc);
    proof {
        old(cs).lemma_extended_twice(&mid, cs);
        gadget.lemma_holds_later(&mid, cs);
        assert(is_binding(cs.constraints@[cs.constraints@.len() - 1], bits@, coeffs@, gadget));
    }
    gadget
}

/// The booleans in the opposite order.
pub fn reversed(bits: &Vec<Boolean>, start: usize, end: usize) -> (r: Vec<Boolean>)
    requires
        start <= end <= bits@.len(),
    ensures
        r@ == bits@.subrange(start as int, end as int).reverse(),
{
    let mut r: Vec<Boolean> = Vec::new();
    let mut t: usize = 0;
    let len = end - start;
    while t < len
        invariant
            t <= len,
            len == end - start,
            start <= end <= bits@.len(),
            r@.len() == t,
            forall|i: int| 0 <= i < t ==> (#[trigger] r@[i]) == bits@[end - 1 - i],
        decreases len - t,
    {
        r.push(bits[end - 1 - t]);
        t += 1;
    }
    assert(r@ =~= bits@.subrange(start as int, end as int).reverse());
    r
}

/// The bits of the bytes, each byte most significant bit first.
pub fn booleans_of_bytes(elems: &Vec<UInt8>) -> (r: Vec<Boolean>)
    requires
        forall|i: int| 0 <= i < elems@.len() ==> (#[trigger] elems@[i]).wf(),
    ensures
        r@.len() == 8 * elems@.len(),
        values_of(r@) == bytes_bits(uint8_values(elems@)),
        forall|t: int| 0 <= t < r@.len() ==> (#[trigger] r@[t]) == elems@[t / 8].bits@[7 - t % 8],
{
    let mut bits: Vec<Boolean> = Vec::new();
    let mut i: usize = 0;
    while i < elems.len()
        invariant
            i <= elems@.len(),
            forall|k: int| 0 <= k < elems@.len() ==> (#[trigger] elems@[k]).wf(),
            bits@.len() == 8 * i,
            forall|t: int| 0 <= t < 8 * i ==> (#[trigger] bits@[t]) == elems@[t / 8].bits@[7 - t % 8],
        decreases elems@.len() - i,
    {
        assert(elems@[i as int].wf());
        // the bits of a byte come lowest first
        let bits_le = elems[i].to_bits_le();
        let mut j: usize = 0;
        while j < 8
            invariant
                j <= 8,
                i < elems@.len(),
                bits_le@ == elems@[i as int].bits@,
                bits_le@.len() == 8,
                bits@.len() == 8 * i + j,
                forall|t: int|
                    0 <= t < 8 * i + j ==> (#[trigger] bits@[t]) == elems@[t / 8].bits@[7 - t % 8],
            decreases 8 - j,
        {
            bits.push(bits_le[7 - j]);
            j += 1;
        }
        i += 1;
    }
    proof {
        assert forall|t: int| 0 <= t < bits@.len() implies values_of(bits@)[t] == bytes_bits(
            uint8_values(elems@),
        )[t] by {
            assert(elems@[t / 8].wf());
            assert(bits@[t] == elems@[t / 8].bits@[7 - t % 8]);
        }
        assert(values_of(bits@) =~= bytes_bits(uint8_values(elems@)));
    }
    bits
}

/// The bits of the bytes as booleans, each byte most significant bit
/// first.
pub open spec fn bytes_booleans(elems: Seq<UInt8>) -> Seq<Boolean> {
    Seq::new(8 * elems.len(), |t: int| elems[t / 8].bits@[7 - t % 8])
}

/// Chunk `c` of the booleans: `cap` of them, or what is left.
pub open spec fn boolean_chunk(bits: Seq<Boolean>, cap: int, c: int) -> Seq<Boolean> {
    bits.subrange(
        c * cap,
        if (c + 1) * cap <= bits.len() {
            (c + 1) * cap
        } else {
            bits.len() as int
        },
    )
}

/// The first `n` powers of two.
pub open spec fn powers<CF: PrimeField>(n: int) -> Seq<CF> {
    Seq::new(n as nat, |i: int| two_pow::<CF>(i as nat))
}

/// The bits of the bytes in chunks of one bit less than the characteristic
/// has, each chunk packed into a new public input, which a constraint
/// binds to the number that the bits of the chunk spell.
pub fn pack_bytes<CF: PrimeField>(cs: &mut ConstraintSystem<CF>, elems: &Vec<UInt8>) -> (r: Vec<
    FpGadget<CF>,
>)
    requires
        old(cs).wf(),
        CF::size_in_bits_spec() >= 2,
        forall|i: int| 0 <= i < elems@.len() ==> (#[trigger] elems@[i]).wf() && elems@[i].holds_in(old(cs)),
    ensures
        fp_values(r@) == packed_chunks::<CF>(
            bytes_bits(uint8_values(elems@)),
            CF::size_in_bits_spec() - 1,
        ),
        all_fp_hold_in(r@, final(cs)),
        final(cs).wf(),
        old(cs).extended_by(final(cs)),
        final(cs).aux@ == old(cs).aux@,
        forall|c: int|
            0 <= c < r@.len() ==> bound_in(
                final(cs),
                boolean_chunk(bytes_booleans(elems@), CF::size_in_bits_spec() - 1, c).reverse(),
                powers::<CF>(CF::size_in_bits_spec() - 1),
                #[trigger] r@[c],
            ),
        final(cs).satisfied_spec() == old(cs).satisfied_spec(),
{
    proof {
        CF::lemma_size_in_bits();
    }
    let capacity = CF::size_in_bits() - 1;
    let bits = booleans_of_bytes(elems);
    proof {
        assert forall|t: int| 0 <= t < bits@.len() implies (#[trigger] bits@[t]).holds_in(cs) by {
            assert(elems@[t / 8].wf() && elems@[t / 8].holds_in(cs));
            assert(elems@[t / 8].bits@[7 - t % 8].holds_in(cs));
        }
    }
    let adjustment_factors = powers_of_two::<CF>(capacity);
    assert(bits@ =~= bytes_booleans(elems@));
    assert(adjustment_factors@ =~= powers::<CF>(capacity as int));
    let mut gadgets: Vec<FpGadget<CF>> = Vec::new();
    let ghost vals = values_of(bits@);
    let ghost cap = capacity as int;
    let total = bits.len();
    let mut start: usize = 0;
    proof {
        lemma_chunks(total as int, cap, 0);
    }
    while start < total
        invariant
            start <= total,
            total == bits@.len(),
            1 <= capacity,
            cap == capacity as int,
            vals == values_of(bits@),
            cs.wf(),
            old(cs).wf(),
            old(cs).extended_by(cs),
            cs.aux@ == old(cs).aux@,
            cs.satisfied_spec() == old(cs).satisfied_spec(),
            all_hold_in(bits@, cs),
            adjustment_factors@.len() == capacity,
            forall|i: int|
                0 <= i < capacity ==> (#[trigger] adjustment_factors@[i]) == two_pow::<CF>(i as nat),
            forall|i: int| 0 <= i < capacity ==> (#[trigger] adjustment_factors@[i]).wf(),
            start < total ==> start == gadgets@.len() * cap,
            start >= total ==> gadgets@.len() == crate::marlin::fiat_shamir::chunk_count(
                total as int,
                cap,
            ),
            gadgets@.len() <= crate::marlin::fiat_shamir::chunk_count(total as int, cap),
            forall|i: int|
                0 <= i < gadgets@.len() ==> (#[trigger] gadgets@[i]).value->0 == packed_chunks::<CF>(
                    vals,
                    cap,
                )[i],
            all_fp_hold_in(gadgets@, cs),
            forall|i: int|
                0 <= i < gadgets@.len() ==> bound_in(
                    cs,
                    boolean_chunk(bits@, cap, i).reverse(),
                    adjustment_factors@,
                    #[trigger] gadgets@[i],
                ),
        decreases total - start,
    {
        let ghost c = gadgets@.len() as int;
        let end = if total - start >= capacity {
            start + capacity
        } else {
            total
        };
        proof {
            lemma_chunks(total as int, cap, c);
            lemma_chunks(total as int, cap, c + 1);
        }
        let elem_bits_le = reversed(&bits, start, end);
        let ghost before = *cs;
        let ghost prev = gadgets@;
        assert(all_hold_in(elem_bits_le@, cs));
        let gadget = constrained_input(cs, &elem_bits_le, &adjustment_factors);
        proof {
            lemma_all_hold_later(bits@, &before, cs);
            lemma_all_fp_hold_later(prev, &before, cs);
            old(cs).lemma_extended_twice(&before, cs);
            let le = values_of(elem_bits_le@);
            lemma_weighted_sum_is_pack::<CF>(le, adjustment_factors@, le.len() as int);
            assert(le.subrange(0, le.len() as int) =~= le);
            assert(le =~= chunk_of(vals, cap, c).reverse());
            assert(elem_bits_le@ =~= boolean_chunk(bits@, cap, c).reverse());
            assert forall|i: int| 0 <= i < prev.len() implies bound_in(
                cs,
                boolean_chunk(bits@, cap, i).reverse(),
                adjustment_factors@,
                #[trigger] prev[i],
            ) by {
                lemma_bound_later(
                    &before,
                    cs,
                    boolean_chunk(bits@, cap, i).reverse(),
                    adjustment_factors@,
                    prev[i],
                );
            }
        }
        gadgets.push(gadget);
        start = end;
    }
    proof {
        if total == 0 {
            assert(crate::marlin::fiat_shamir::chunk_count(0, cap) == 0) by (nonlinear_arith)
                requires
                    1 <= cap,
            ;
        }
        assert(fp_values(gadgets@) =~= packed_chunks::<CF>(vals, cap));
    }
    gadgets
}

/// Building the Fiat-Shamir sponge's gadget from any algebraic sponge's gadget.
pub struct FiatShamirAlgebraicSpongeRngVar<
    F: PrimeField,
    CF: PrimeField,
    PS: AlgebraicSponge<CF>,
    S: AlgebraicSpongeVar<CF, PS>,
> {
    /// Algebraic sponge gadget.
    pub s: S,
    pub f_phantom: core::marker::PhantomData<F>,
    pub cf_phantom: core::marker::PhantomData<CF>,
    pub ps_phantom: core::marker::PhantomData<PS>,
}

impl<
    F: PrimeField,
    CF: PrimeField,
    PS: AlgebraicSponge<CF>,
    S: AlgebraicSpongeVar<CF, PS>,
> FiatShamirAlgebraicSpongeRngVar<F, CF, PS, S> {
    /// Compress every two elements if possible. Provides a vector of
    /// (limb, num_of_additions), both of which are CF.
    pub fn compress_gadgets(
        cs: &ConstraintSystem<CF>,
        src_limbs: &Vec<(FpGadget<CF>, CF)>,
        ty: OptimizationType,
    ) -> (r: Result<Vec<FpGadget<CF>>, SynthesisError>)
        requires
            cs.wf(),
            fields_fit::<F, CF>(),
            forall|i: int|
                0 <= i < src_limbs@.len() ==> (#[trigger] src_limbs@[i]).0.holds_in(cs)
                    && src_limbs@[i].1.wf(),
        ensures
            r is Ok,
            fp_values(r->Ok_0@) == compress_from(
                pairs_values(src_limbs@),
                0,
                field_params::<F, CF>(ty),
            ),
            all_fp_hold_in(r->Ok_0@, cs),
    {
        proof {
            F::lemma_size_in_bits();
            CF::lemma_size_in_bits();
            CF::lemma_constants();
        }
        let capacity = CF::size_in_bits() - 1;
        let mut dest_limbs: Vec<FpGadget<CF>> = Vec::new();
        let params = get_params(F::size_in_bits(), CF::size_in_bits(), ty);
        let adjustment_factor_lookup_table = powers_of_two::<CF>(capacity);
        let ghost vals = pairs_values(src_limbs@);
        let mut i: usize = 0;
        let src_len = src_limbs.len();
        assert(fp_values(dest_limbs@) =~= Seq::<CF>::empty());
        while i < src_len
            invariant
                i <= src_len,
                src_len == src_limbs@.len(),
                cs.wf(),
                fields_fit::<F, CF>(),
                params == field_params::<F, CF>(ty),
                params.bits_per_limb >= 1,
                params.bits_per_limb <= 4096,
                capacity == CF::size_in_bits_spec() - 1,
                vals == pairs_values(src_limbs@),
                forall|k: int|
                    0 <= k < src_limbs@.len() ==> (#[trigger] src_limbs@[k]).0.holds_in(cs)
                        && src_limbs@[k].1.wf(),
                adjustment_factor_lookup_table@.len() == capacity,
                forall|k: int|
                    0 <= k < capacity ==> (#[trigger] adjustment_factor_lookup_table@[k]) == two_pow::<
                        CF,
                    >(k as nat),
                forall|k: int| 0 <= k < capacity ==> (#[trigger] adjustment_factor_lookup_table@[k]).wf(),
                fp_values(dest_limbs@) + compress_from(vals, i as int, params) == compress_from(
                    vals,
                    0,
                    params,
                ),
                all_fp_hold_in(dest_limbs@, cs),
            decreases src_len - i,
        {
            proof {
                CF::lemma_constants();
                CF::lemma_limbs(src_limbs@[i as int].1);
            }
            let ghost before = fp_values(dest_limbs@);
            let first = &src_limbs[i];
            assert(src_limbs@[i as int].0.holds_in(cs));
            assert(vals[i as int] == (first.0.value->0, first.1));
            let first_max_bits_per_limb = params.bits_per_limb + overhead(
                &first.1.add(&CF::one()),
            );
            if i + 1 < src_len {
                let second = &src_limbs[i + 1];
                assert(src_limbs@[i + 1].0.holds_in(cs));
                assert(vals[i + 1] == (second.0.value->0, second.1));
                let second_max_bits_per_limb = params.bits_per_limb + overhead(
                    &second.1.add(&CF::one()),
                );
                if first_max_bits_per_limb + second_max_bits_per_limb <= capacity {
                    let adjustment_factor = adjustment_factor_lookup_table[second_max_bits_per_limb];
                    let value = first.0.mul_by_constant(cs, &adjustment_factor).add(cs, &second.0);
                    dest_limbs.push(value);
                    assert(fp_values(dest_limbs@) =~= before.push(value.value->0));
                    assert(fp_values(dest_limbs@) + compress_from(vals, i + 2, params) =~= before
                        + compress_from(vals, i as int, params));
                    i += 2;
                } else {
                    let value = first.0.duplicate();
                    dest_limbs.push(value);
                    assert(value.holds_in(cs));
                    assert(fp_values(dest_limbs@) =~= before.push(value.value->0));
                    assert(fp_values(dest_limbs@) + compress_from(vals, i + 1, params) =~= before
                        + compress_from(vals, i as int, params));
                    i += 1;
                }
            } else {
                let value = first.0.duplicate();
                dest_limbs.push(value);
                assert(value.holds_in(cs));
                assert(fp_values(dest_limbs@) =~= before.push(value.value->0));
                assert(fp_values(dest_limbs@) + compress_from(vals, i + 1, params) =~= before
                    + compress_from(vals, i as int, params));
                i += 1;
            }
        }
        assert(fp_values(dest_limbs@) =~= fp_values(dest_limbs@) + compress_from(
            vals,
            i as int,
            params,
        ));
        Ok(dest_limbs)
    }

    /// The limbs of the variables, each with its count of additions.
    pub fn limbs_of_gadgets(
        cs: &ConstraintSystem<CF>,
        src: &Vec<NonNativeFieldVar<F, CF>>,
        ty: OptimizationType,
    ) -> (r: Vec<(FpGadget<CF>, CF)>)
        requires
            cs.wf(),
            fields_fit::<F, CF>(),
            forall|i: int| 0 <= i < src@.len() ==> (#[trigger] src@[i]).holds_in(cs),
        ensures
            pairs_values(r@) == vars_limbs(src@, ty, src@.len() as int),
            forall|i: int| 0 <= i < r@.len() ==> (#[trigger] r@[i]).0.holds_in(cs) && r@[i].1.wf(),
    {
        proof {
            CF::lemma_constants();
        }
        let mut src_limbs: Vec<(FpGadget<CF>, CF)> = Vec::new();
        let mut i: usize = 0;
        assert(pairs_values(src_limbs@) =~= Seq::<(CF, CF)>::empty());
        while i < src.len()
            invariant
                i <= src@.len(),
                cs.wf(),
                fields_fit::<F, CF>(),
                forall|k: int| 0 <= k < src@.len() ==> (#[trigger] src@[k]).holds_in(cs),
                pairs_values(src_limbs@) == vars_limbs(src@, ty, i as int),
                forall|k: int|
                    0 <= k < src_limbs@.len() ==> (#[trigger] src_limbs@[k]).0.holds_in(cs)
                        && src_limbs@[k].1.wf(),
            decreases src@.len() - i,
        {
            assert(src@[i as int].holds_in(cs));
            let ghost before = pairs_values(src_limbs@);
            let ghost target = var_limbs(src@[i as int], ty);
            match &src[i] {
                NonNativeFieldVar::Constant(c) => {
                    let v = match AllocatedNonNativeFieldVar::<F, CF>::alloc_constant(cs, c, ty) {
                        Ok(v) => v,
                        Err(_) => {
                            assert(false);
                            AllocatedNonNativeFieldVar {
                                limbs: Vec::new(),
                                num_of_additions_over_normal_form: CF::zero(),
                                is_in_the_normal_form: true,
                                target_phantom: core::marker::PhantomData,
                            }
                        },
                    };
                    assert(target =~= Seq::new(
                        v.limbs@.len(),
                        |k: int| (v.limbs@[k].value->0, CF::one_spec()),
                    ));
                    Self::push_limbs(cs, &mut src_limbs, &v, Ghost(target));
                },
                NonNativeFieldVar::Var(v) => {
                    Self::push_limbs(cs, &mut src_limbs, v, Ghost(target));
                },
            }
            i += 1;
        }
        src_limbs
    }

    /// Appends the limbs of one variable, each with its count of additions,
    /// and with the count one where that is zero.
    fn push_limbs(
        cs: &ConstraintSystem<CF>,
        src_limbs: &mut Vec<(FpGadget<CF>, CF)>,
        v: &AllocatedNonNativeFieldVar<F, CF>,
        Ghost(target): Ghost<Seq<(CF, CF)>>,
    )
        requires
            cs.wf(),
            v.holds_in(cs),
            target == Seq::new(
                v.limbs@.len(),
                |k: int|
                    (
                        v.limbs@[k].value->0,
                        if v.num_of_additions_over_normal_form == CF::zero_spec() {
                            CF::one_spec()
                        } else {
                            v.num_of_additions_over_normal_form
                        },
                    ),
            ),
            forall|k: int|
                0 <= k < old(src_limbs)@.len() ==> (#[trigger] old(src_limbs)@[k]).0.holds_in(cs) && old(
                    src_limbs,
                )@[k].1.wf(),
        ensures
            pairs_values(final(src_limbs)@) == pairs_values(old(src_limbs)@) + target,
            forall|k: int|
                0 <= k < final(src_limbs)@.len() ==> (#[trigger] final(src_limbs)@[k]).0.holds_in(cs)
                    && final(src_limbs)@[k].1.wf(),
    {
        proof {
            CF::lemma_constants();
        }
        let num_of_additions_over_normal_form = if v.num_of_additions_over_normal_form.is_zero() {
            CF::one()
        } else {
            v.num_of_additions_over_normal_form
        };
        let mut k: usize = 0;
        assert(pairs_values(src_limbs@) =~= pairs_values(old(src_limbs)@) + target.subrange(0, 0));
        while k < v.limbs.len()
            invariant
                k <= v.limbs@.len(),
                cs.wf(),
                v.holds_in(cs),
                num_of_additions_over_normal_form.wf(),
                target.len() == v.limbs@.len(),
                forall|j: int|
                    0 <= j < target.len() ==> (#[trigger] target[j]) == (
                        v.limbs@[j].value->0,
                        num_of_additions_over_normal_form,
                    ),
                pairs_values(src_limbs@) == pairs_values(old(src_limbs)@) + target.subrange(0, k as int),
                forall|j: int|
                    0 <= j < src_limbs@.len() ==> (#[trigger] src_limbs@[j]).0.holds_in(cs)
                        && src_limbs@[j].1.wf(),
            decreases v.limbs@.len() - k,
        {
            let ghost prev = pairs_values(src_limbs@);
            assert(v.limbs@[k as int].holds_in(cs));
            let limb = v.limbs[k].duplicate();
            src_limbs.push((limb, num_of_additions_over_normal_form));
            assert(pairs_values(src_limbs@) =~= prev.push(target[k as int]));
            assert(target.subrange(0, k + 1) =~= target.subrange(0, k as int).push(target[k as int]));
            assert(pairs_values(src_limbs@) =~= pairs_values(old(src_limbs)@) + target.subrange(
                0,
                k + 1,
            ));
            k += 1;
        }
        assert(target.subrange(0, target.len() as int) =~= target);
    }

    /// Push gadgets to sponge.
    pub fn push_gadgets_to_sponge(
        cs: &mut ConstraintSystem<CF>,
        sponge: &mut S,
        src: &Vec<NonNativeFieldVar<F, CF>>,
        ty: OptimizationType,
    ) -> (r: Result<(), SynthesisError>)
        requires
            old(cs).wf(),
            old(sponge).wf(old(cs)),
            fields_fit::<F, CF>(),
            forall|i: int| 0 <= i < src@.len() ==> (#[trigger] src@[i]).holds_in(old(cs)),
        ensures
            final(cs).wf(),
            old(cs).extended_by(final(cs)),
            final(cs).satisfied_spec() == old(cs).satisfied_spec(),
            S::never_fails() ==> r is Ok,
            r is Ok ==> {
                &&& final(sponge).wf(final(cs))
                &&& final(sponge).model() == PS::absorb_spec(
                    old(sponge).model(),
                    compress_from(
                        vars_limbs(src@, ty, src@.len() as int),
                        0,
                        field_params::<F, CF>(ty),
                    ),
                )
            },
    {
        let src_limbs = Self::limbs_of_gadgets(cs, src, ty);
        let dest_limbs = match Self::compress_gadgets(cs, &src_limbs, ty) {
            Ok(d) => d,
            Err(e) => {
                return Err(e);
            },
        };
        sponge.absorb(cs, &dest_limbs)
    }

    /// The bits of squeezed elements: of each its bits, most significant
    /// first, without the highest.
    pub fn booleans_of_elements(cs: &mut ConstraintSystem<CF>, src_elements: &Vec<FpGadget<CF>>) -> (r:
        Vec<Boolean>)
        requires
            old(cs).wf(),
            all_fp_hold_in(src_elements@, old(cs)),
        ensures
            values_of(r@) == elems_bits(fp_values(src_elements@), src_elements@.len() as int),
            all_hold_in(r@, final(cs)),
            final(cs).wf(),
            old(cs).extended_by(final(cs)),
            final(cs).inputs@ == old(cs).inputs@,
            final(cs).satisfied_spec() == old(cs).satisfied_spec(),
    {
        let mut dest_bits: Vec<Boolean> = Vec::new();
        let ghost vals = fp_values(src_elements@);
        let mut i: usize = 0;
        assert(values_of(dest_bits@) =~= Seq::<bool>::empty());
        while i < src_elements.len()
            invariant
                i <= src_elements@.len(),
                cs.wf(),
                old(cs).wf(),
                old(cs).extended_by(cs),
                cs.inputs@ == old(cs).inputs@,
                cs.satisfied_spec() == old(cs).satisfied_spec(),
                all_fp_hold_in(src_elements@, cs),
                vals == fp_values(src_elements@),
                values_of(dest_bits@) == elems_bits(vals, i as int),
                all_hold_in(dest_bits@, cs),
            decreases src_elements@.len() - i,
        {
            let ghost before = *cs;
            let ghost prev = dest_bits@;
            assert(src_elements@[i as int].holds_in(cs));
            proof {
                CF::lemma_size_in_bits();
            }
            let high_first = match src_elements[i].to_bits_be(cs) {
                Ok(b) => b,
                Err(_) => {
                    assert(false);
                    Vec::new()
                },
            };
            proof {
                lemma_all_fp_hold_later(src_elements@, &before, cs);
                lemma_all_hold_later(prev, &before, cs);
                old(cs).lemma_extended_twice(&before, cs);
            }
            // discard the highest bit
            let mut k: usize = 1;
            let ghost tail = high_first@.subrange(1, high_first@.len() as int);
            assert(dest_bits@ =~= prev + tail.subrange(0, 0));
            while k < high_first.len()
                invariant
                    1 <= k <= high_first@.len(),
                    tail == high_first@.subrange(1, high_first@.len() as int),
                    dest_bits@ == prev + tail.subrange(0, k - 1),
                decreases high_first@.len() - k,
            {
                dest_bits.push(high_first[k]);
                assert(dest_bits@ =~= prev + tail.subrange(0, k as int));
                k += 1;
            }
            proof {
                assert(tail.subrange(0, tail.len() as int) =~= tail);
                assert(values_of(tail) =~= elem_bits::<CF>(vals[i as int]));
                assert(values_of(dest_bits@) =~= values_of(prev) + values_of(tail));
                assert(all_hold_in(dest_bits@, cs)) by {
                    assert forall|t: int| 0 <= t < dest_bits@.len() implies (
                    #[trigger] dest_bits@[t]).holds_in(cs) by {
                        if t < prev.len() {
                            assert(prev[t].holds_in(cs));
                        } else {
                            assert(high_first@[t - prev.len() + 1].holds_in(cs));
                        }
                    }
                }
            }
            i += 1;
        }
        dest_bits
    }

    /// Obtain random bits from hashchain gadget. (Not guaranteed to be
    /// uniformly distributed, should only be used in certain situations.)
    pub fn get_booleans_from_sponge(cs: &mut ConstraintSystem<CF>, sponge: &mut S, num_bits: usize) -> (r:
        Result<Vec<Boolean>, SynthesisError>)
        requires
            old(cs).wf(),
            old(sponge).wf(old(cs)),
            CF::size_in_bits_spec() >= 2,
            num_bits + CF::size_in_bits_spec() <= usize::MAX,
        ensures
            final(cs).wf(),
            old(cs).extended_by(final(cs)),
            final(cs).satisfied_spec() == old(cs).satisfied_spec(),
            S::never_fails() ==> r is Ok,
            r is Ok ==> ({
                let n = squeeze_count::<CF>(num_bits as int) as nat;
                &&& final(sponge).wf(final(cs))
                &&& final(sponge).model() == PS::squeeze_spec(old(sponge).model(), n).0
                &&& values_of(r->Ok_0@) == elems_bits(
                    PS::squeeze_spec(old(sponge).model(), n).1,
                    n as int,
                )
                &&& all_hold_in(r->Ok_0@, final(cs))
            }),
    {
        proof {
            CF::lemma_size_in_bits();
        }
        let bits_per_element = CF::size_in_bits() - 1;
        let num_elements = (num_bits + bits_per_element - 1) / bits_per_element;
        let src_elements = match sponge.squeeze(cs, num_elements) {
            Ok(v) => v,
            Err(e) => {
                return Err(e);
            },
        };
        let ghost mid = *cs;
        let dest_bits = Self::booleans_of_elements(cs, &src_elements);
        proof {
            sponge.lemma_wf_later(&mid, cs);
            old(cs).lemma_extended_twice(&mid, cs);
        }
        Ok(dest_bits)
    }

    /// The first `num_elements` variables of `F` that the bits make,
    /// `num_bits_per_nonnative` bits each, and for each variable its bits,
    /// lowest first; the bits behind them are left over.  Every limb is a
    /// new public input, constrained to be the sum of the limbs of the
    /// powers of two at the set bits.
    pub fn gadgets_from_booleans(
        cs: &mut ConstraintSystem<CF>,
        bits: &Vec<Boolean>,
        num_bits_per_nonnative: usize,
        num_elements: usize,
    ) -> (r: (Vec<NonNativeFieldVar<F, CF>>, Vec<Vec<Boolean>>))
        requires
            old(cs).wf(),
            all_hold_in(bits@, old(cs)),
            fields_fit::<F, CF>(),
            1 <= num_bits_per_nonnative,
            num_elements * num_bits_per_nonnative <= bits@.len(),
        ensures
            final(cs).wf(),
            old(cs).extended_by(final(cs)),
            final(cs).aux@ == old(cs).aux@,
            final(cs).satisfied_spec() == old(cs).satisfied_spec(),
            r.0@.len() == num_elements,
            r.1@.len() == num_elements,
            forall|i: int|
                0 <= i < r.1@.len() ==> (#[trigger] r.1@[i])@ == bits@.subrange(
                    i * num_bits_per_nonnative,
                    (i + 1) * num_bits_per_nonnative,
                ).reverse(),
            forall|i: int|
                0 <= i < r.0@.len() ==> match #[trigger] r.0@[i] {
                    NonNativeFieldVar::Constant(_) => false,
                    NonNativeFieldVar::Var(v) => {
                        &&& v.holds_in(final(cs))
                        &&& v.limb_values() == limbs_from_bits::<F, CF>(values_of(r.1@[i]@))
                        &&& limbs_bound::<F, CF>(final(cs), r.1@[i]@, v.limbs@)
                        &&& v.num_of_additions_over_normal_form == CF::zero_spec()
                        &&& v.is_in_the_normal_form
                    },
                },
    {
        let optimization_type = OptimizationType::Constraints;
        proof {
            F::lemma_size_in_bits();
            CF::lemma_size_in_bits();
            CF::lemma_constants();
            F::lemma_constants();
        }
        let params = get_params(F::size_in_bits(), CF::size_in_bits(), optimization_type);
        let nb = num_bits_per_nonnative;
        // the limbs of the powers of two
        let mut lookup_table: Vec<Vec<CF>> = Vec::new();
        let mut cur = F::one();
        let mut j: usize = 0;
        while j < nb
            invariant
                j <= nb,
                fields_fit::<F, CF>(),
                cur == two_pow::<F>(j as nat),
                cur.wf(),
                lookup_table@.len() == j,
                params == field_params::<F, CF>(optimization_type),
                forall|t: int|
                    0 <= t < j ==> (#[trigger] lookup_table@[t])@ == limbs_of::<F, CF>(
                        two_pow::<F>(t as nat),
                        optimization_type,
                    ),
                forall|t: int| 0 <= t < j ==> (#[trigger] lookup_table@[t])@.len() == params.num_limbs,
                forall|t: int, k: int|
                    0 <= t < j && 0 <= k < params.num_limbs ==> (#[trigger] lookup_table@[t]@[k]).wf(),
            decreases nb - j,
        {
            let repr = match get_limbs_representations::<F, CF>(&cur, optimization_type) {
                Ok(l) => l,
                Err(_) => {
                    assert(false);
                    Vec::new()
                },
            };
            lookup_table.push(repr);
            cur = cur.double();
            j += 1;
        }
        let mut dest_gadgets: Vec<NonNativeFieldVar<F, CF>> = Vec::new();
        let mut dest_bits: Vec<Vec<Boolean>> = Vec::new();
        let total = bits.len();
        let mut start: usize = 0;
        while dest_gadgets.len() < num_elements
            invariant
                num_elements * nb <= total,
                total == bits@.len(),
                1 <= nb,
                nb == num_bits_per_nonnative,
                fields_fit::<F, CF>(),
                params == field_params::<F, CF>(optimization_type),
                optimization_type == OptimizationType::Constraints,
                cs.wf(),
                old(cs).wf(),
                old(cs).extended_by(cs),
                cs.aux@ == old(cs).aux@,
                cs.satisfied_spec() == old(cs).satisfied_spec(),
                all_hold_in(bits@, cs),
                lookup_table@.len() == nb,
                forall|t: int|
                    0 <= t < nb ==> (#[trigger] lookup_table@[t])@ == limbs_of::<F, CF>(
                        two_pow::<F>(t as nat),
                        optimization_type,
                    ),
                forall|t: int| 0 <= t < nb ==> (#[trigger] lookup_table@[t])@.len() == params.num_limbs,
                forall|t: int, k: int|
                    0 <= t < nb && 0 <= k < params.num_limbs ==> (#[trigger] lookup_table@[t]@[k]).wf(),
                start == dest_gadgets@.len() * nb,
                dest_gadgets@.len() <= num_elements,
                dest_bits@.len() == dest_gadgets@.len(),
                forall|i: int|
                    0 <= i < dest_bits@.len() ==> (#[trigger] dest_bits@[i])@ == bits@.subrange(
                        i * nb,
                        (i + 1) * nb,
                    ).reverse(),
                forall|i: int|
                    0 <= i < dest_gadgets@.len() ==> match #[trigger] dest_gadgets@[i] {
                        NonNativeFieldVar::Constant(_) => false,
                        NonNativeFieldVar::Var(v) => {
                            &&& v.holds_in(cs)
                            &&& v.limb_values() == limbs_from_bits::<F, CF>(values_of(dest_bits@[i]@))
                        &&& limbs_bound::<F, CF>(cs, dest_bits@[i]@, v.limbs@)
                            &&& limbs_bound::<F, CF>(cs, dest_bits@[i]@, v.limbs@)
                            &&& v.num_of_additions_over_normal_form == CF::zero_spec()
                            &&& v.is_in_the_normal_form
                        },
                    },
            decreases num_elements - dest_gadgets@.len(),
        {
            let ghost idx = dest_gadgets@.len() as int;
            proof {
                lemma_window_within(idx, num_elements as int, nb as int, total as int);
            }
            let per_nonnative_bits_le = reversed(bits, start, start + nb);
            let ghost vals = values_of(per_nonnative_bits_le@);
            let ghost loop_cs = *cs;
            let ghost prev_gadgets = dest_gadgets@;
            let ghost prev_bits = dest_bits@;
            let mut limbs: Vec<FpGadget<CF>> = Vec::new();
            let mut k: usize = 0;
            assert(all_hold_in(per_nonnative_bits_le@, cs));
            while k < params.num_limbs
                invariant
                    k <= params.num_limbs,
                    nb == per_nonnative_bits_le@.len(),
                    vals == values_of(per_nonnative_bits_le@),
                    fields_fit::<F, CF>(),
                    params == field_params::<F, CF>(optimization_type),
                    optimization_type == OptimizationType::Constraints,
                    cs.wf(),
                    loop_cs.wf(),
                    loop_cs.extended_by(cs),
                    cs.aux@ == loop_cs.aux@,
                    cs.satisfied_spec() == loop_cs.satisfied_spec(),
                    all_hold_in(per_nonnative_bits_le@, cs),
                    lookup_table@.len() == nb,
                    forall|t: int|
                        0 <= t < nb ==> (#[trigger] lookup_table@[t])@ == limbs_of::<F, CF>(
                            two_pow::<F>(t as nat),
                            optimization_type,
                        ),
                    forall|t: int| 0 <= t < nb ==> (#[trigger] lookup_table@[t])@.len() == params.num_limbs,
                    forall|t: int, m: int|
                        0 <= t < nb && 0 <= m < params.num_limbs ==> (#[trigger] lookup_table@[t]@[m]).wf(),
                    limbs@.len() == k,
                    all_fp_hold_in(limbs@, cs),
                    limbs_bound::<F, CF>(cs, per_nonnative_bits_le@, limbs@),
                    forall|m: int|
                        0 <= m < k ==> (#[trigger] limbs@[m]).value->0 == limbs_from_bits::<F, CF>(
                            vals,
                        )[m],
                decreases params.num_limbs - k,
            {
                // column k of the lookup table
                let mut coeffs: Vec<CF> = Vec::new();
                let mut t: usize = 0;
                while t < nb
                    invariant
                        t <= nb,
                        k < params.num_limbs,
                        lookup_table@.len() == nb,
                        forall|a: int|
                            0 <= a < nb ==> (#[trigger] lookup_table@[a])@ == limbs_of::<F, CF>(
                                two_pow::<F>(a as nat),
                                OptimizationType::Constraints,
                            ),
                        forall|a: int|
                            0 <= a < nb ==> (#[trigger] lookup_table@[a])@.len() == params.num_limbs,
                        forall|a: int, m: int|
                            0 <= a < nb && 0 <= m < params.num_limbs ==> (
                            #[trigger] lookup_table@[a]@[m]).wf(),
                        coeffs@.len() == t,
                        forall|a: int|
                            0 <= a < t ==> (#[trigger] coeffs@[a]) == table_column::<F, CF>(
                                k as int,
                                nb as int,
                            )[a],
                        forall|a: int| 0 <= a < t ==> (#[trigger] coeffs@[a]).wf(),
                    decreases nb - t,
                {
                    assert(lookup_table@[t as int]@.len() == params.num_limbs);
                    assert(lookup_table@[t as int]@[k as int].wf());
                    coeffs.push(lookup_table[t][k]);
                    t += 1;
                }
                assert(coeffs@ =~= table_column::<F, CF>(k as int, nb as int));
                let ghost before = *cs;
                let ghost prev = limbs@;
                let gadget = constrained_input(cs, &per_nonnative_bits_le, &coeffs);
                proof {
                    lemma_all_hold_later(per_nonnative_bits_le@, &before, cs);
                    lemma_all_fp_hold_later(prev, &before, cs);
                    loop_cs.lemma_extended_twice(&before, cs);
                    lemma_limbs_bound_later::<F, CF>(&before, cs, per_nonnative_bits_le@, prev);
                }
                limbs.push(gadget);
                k += 1;
            }
            proof {
                lemma_all_hold_later(bits@, &loop_cs, cs);
                old(cs).lemma_extended_twice(&loop_cs, cs);
                assert(fp_values(limbs@) =~= limbs_from_bits::<F, CF>(vals));
                assert forall|i: int| 0 <= i < prev_gadgets.len() implies match #[trigger] prev_gadgets[i] {
                    NonNativeFieldVar::Constant(_) => false,
                    NonNativeFieldVar::Var(v) => v.holds_in(cs) && limbs_bound::<F, CF>(
                        cs,
                        prev_bits[i]@,
                        v.limbs@,
                    ),
                } by {
                    match prev_gadgets[i] {
                        NonNativeFieldVar::Constant(_) => {},
                        NonNativeFieldVar::Var(v) => {
                            lemma_all_fp_hold_later(v.limbs@, &loop_cs, cs);
                            lemma_limbs_bound_later::<F, CF>(&loop_cs, cs, prev_bits[i]@, v.limbs@);
                        },
                    }
                }
            }
            dest_bits.push(per_nonnative_bits_le);
            dest_gadgets.push(
                NonNativeFieldVar::Var(
                    AllocatedNonNativeFieldVar {
                        limbs,
                        num_of_additions_over_normal_form: CF::zero(),
                        is_in_the_normal_form: true,
                        target_phantom: core::marker::PhantomData,
                    },
                ),
            );
            start = start + nb;
            proof {
                CF::lemma_constants();
                assert forall|i: int| 0 <= i < dest_gadgets@.len() implies match #[trigger] dest_gadgets@[i] {
                    NonNativeFieldVar::Constant(_) => false,
                    NonNativeFieldVar::Var(v) => {
                        &&& v.holds_in(cs)
                        &&& v.limb_values() == limbs_from_bits::<F, CF>(values_of(dest_bits@[i]@))
                        &&& limbs_bound::<F, CF>(cs, dest_bits@[i]@, v.limbs@)
                        &&& v.num_of_additions_over_normal_form == CF::zero_spec()
                        &&& v.is_in_the_normal_form
                    },
                } by {
                    if i < prev_gadgets.len() {
                        assert(dest_gadgets@[i] == prev_gadgets[i]);
                        assert(dest_bits@[i] == prev_bits[i]);
                    } else {
                        assert(dest_bits@[i]@ == per_nonnative_bits_le@);
                    }
                }
            }
        }
        (dest_gadgets, dest_bits)
    }

    /// Obtain random elements, and the corresponding bits, from hashchain
    /// gadget: as many native elements are squeezed as hold the bits of
    /// `num_elements` elements, the bits behind those are dropped, and
    /// each limb of each element is bound to its bits by a constraint.
    /// (Not guaranteed to be uniformly distributed, should only be used in
    /// certain situations.)
    pub fn get_gadgets_and_bits_from_sponge(
        cs: &mut ConstraintSystem<CF>,
        sponge: &mut S,
        num_elements: usize,
        outputs_short_elements: bool,
    ) -> (r: Result<(Vec<NonNativeFieldVar<F, CF>>, Vec<Vec<Boolean>>), SynthesisError>)
        requires
            old(cs).wf(),
            old(sponge).wf(old(cs)),
            fields_fit::<F, CF>(),
            F::size_in_bits_spec() >= 2,
            bits_per_nonnative::<F>(outputs_short_elements) * num_elements + CF::size_in_bits_spec()
                <= usize::MAX,
        ensures
            final(cs).wf(),
            old(cs).extended_by(final(cs)),
            final(cs).satisfied_spec() == old(cs).satisfied_spec(),
            S::never_fails() ==> r is Ok,
            r is Ok ==> ({
                let k = bits_per_nonnative::<F>(outputs_short_elements);
                let n = squeeze_count::<CF>(k * num_elements) as nat;
                let all_bits = elems_bits(PS::squeeze_spec(old(sponge).model(), n).1, n as int);
                let (gadgets, bits) = r->Ok_0;
                &&& final(sponge).wf(final(cs))
                &&& final(sponge).model() == PS::squeeze_spec(old(sponge).model(), n).0
                &&& gadgets@.len() == num_elements
                &&& bits@.len() == gadgets@.len()
                &&& forall|i: int|
                    0 <= i < bits@.len() ==> values_of((#[trigger] bits@[i])@) == all_bits.subrange(
                        i * k,
                        (i + 1) * k,
                    ).reverse()
                &&& forall|i: int|
                    0 <= i < gadgets@.len() ==> match #[trigger] gadgets@[i] {
                        NonNativeFieldVar::Constant(_) => false,
                        NonNativeFieldVar::Var(v) => {
                            &&& v.holds_in(final(cs))
                            &&& v.limb_values() == limbs_from_bits::<F, CF>(values_of(bits@[i]@))
                            &&& limbs_bound::<F, CF>(final(cs), bits@[i]@, v.limbs@)
                            &&& v.num_of_additions_over_normal_form == CF::zero_spec()
                            &&& v.is_in_the_normal_form
                        },
                    }
            }),
    {
        proof {
            F::lemma_size_in_bits();
        }
        let num_bits_per_nonnative = if outputs_short_elements {
            128
        } else {
            F::size_in_bits() - 1  // also omit the highest bit
        };
        assert(num_bits_per_nonnative * num_elements == bits_per_nonnative::<F>(
            outputs_short_elements,
        ) * num_elements);
        let bits = match Self::get_booleans_from_sponge(
            cs,
            sponge,
            num_bits_per_nonnative * num_elements,
        ) {
            Ok(b) => b,
            Err(e) => {
                return Err(e);
            },
        };
        let ghost mid = *cs;
        proof {
            let w = CF::size_in_bits_spec() - 1;
            let asked = num_bits_per_nonnative * num_elements;
            let n = squeeze_count::<CF>(asked as int);
            CF::lemma_size_in_bits();
            lemma_squeeze_covers(asked as int, w);
            lemma_elems_bits_len(PS::squeeze_spec(old(sponge).model(), n as nat).1, n);
            assert(num_elements * num_bits_per_nonnative == asked) by (nonlinear_arith)
                requires
                    asked == num_bits_per_nonnative * num_elements,
            ;
            assert(values_of(bits@).len() == n * w);
        }
        let out = Self::gadgets_from_booleans(cs, &bits, num_bits_per_nonnative, num_elements);
        proof {
            sponge.lemma_wf_later(&mid, cs);
            old(cs).lemma_extended_twice(&mid, cs);
            let k = num_bits_per_nonnative as int;
            assert forall|i: int| 0 <= i < out.1@.len() implies values_of((#[trigger] out.1@[i])@)
                == values_of(bits@).subrange(i * k, (i + 1) * k).reverse() by {
                lemma_window_within(i, num_elements as int, k, bits@.len() as int);
                assert(values_of(out.1@[i]@) =~= values_of(bits@).subrange(
                    i * k,
                    (i + 1) * k,
                ).reverse());
            }
        }
        Ok(out)
    }

    /// Obtain random elements from hashchain gadget. (Not guaranteed to be
    /// uniformly distributed, should only be used in certain situations.)
    pub fn get_gadgets_from_sponge(
        cs: &mut ConstraintSystem<CF>,
        sponge: &mut S,
        num_elements: usize,
        outputs_short_elements: bool,
    ) -> (r: Result<Vec<NonNativeFieldVar<F, CF>>, SynthesisError>)
        requires
            old(cs).wf(),
            old(sponge).wf(old(cs)),
            fields_fit::<F, CF>(),
            F::size_in_bits_spec() >= 2,
            bits_per_nonnative::<F>(outputs_short_elements) * num_elements + CF::size_in_bits_spec()
                <= usize::MAX,
        ensures
            final(cs).wf(),
            old(cs).extended_by(final(cs)),
            final(cs).satisfied_spec() == old(cs).satisfied_spec(),
            S::never_fails() ==> r is Ok,
            r is Ok ==> ({
                let k = bits_per_nonnative::<F>(outputs_short_elements);
                let n = squeeze_count::<CF>(k * num_elements) as nat;
                let all_bits = elems_bits(PS::squeeze_spec(old(sponge).model(), n).1, n as int);
                let gadgets = r->Ok_0;
                &&& final(sponge).wf(final(cs))
                &&& final(sponge).model() == PS::squeeze_spec(old(sponge).model(), n).0
                &&& gadgets@.len() == num_elements
                &&& forall|i: int|
                    0 <= i < gadgets@.len() ==> match #[trigger] gadgets@[i] {
                        NonNativeFieldVar::Constant(_) => false,
                        NonNativeFieldVar::Var(v) => {
                            &&& v.holds_in(final(cs))
                            &&& v.limb_values() == limbs_from_bits::<F, CF>(
                                all_bits.subrange(i * k, (i + 1) * k).reverse(),
                            )
                            &&& v.num_of_additions_over_normal_form == CF::zero_spec()
                            &&& v.is_in_the_normal_form
                        },
                    }
            }),
    {
        match Self::get_gadgets_and_bits_from_sponge(cs, sponge, num_elements, outputs_short_elements) {
            Ok((dest_gadgets, _)) => Ok(dest_gadgets),
            Err(e) => Err(e),
        }
    }
    /// A generator that has absorbed nothing.
    pub fn new(cs: &mut ConstraintSystem<CF>) -> (r: Self)
        requires
            old(cs).wf(),
        ensures
            r.s.wf(final(cs)),
            r.s.model() == PS::new_spec(),
            final(cs).wf(),
            old(cs).extended_by(final(cs)),
            final(cs).satisfied_spec() == old(cs).satisfied_spec(),
    {
        Self {
            s: S::new(cs),
            f_phantom: core::marker::PhantomData,
            cf_phantom: core::marker::PhantomData,
            ps_phantom: core::marker::PhantomData,
        }
    }

    /// A generator in the state of the native generator `pfs`.
    pub fn constant(cs: &mut ConstraintSystem<CF>, pfs: &FiatShamirAlgebraicSpongeRng<F, CF, PS>) -> (r:
        Self)
        requires
            old(cs).wf(),
            pfs.s.wf(),
        ensures
            r.s.wf(final(cs)),
            r.s.model() == pfs.s.model(),
            final(cs).wf(),
            old(cs).extended_by(final(cs)),
            final(cs).satisfied_spec() == old(cs).satisfied_spec(),
    {
        Self {
            s: S::constant(cs, &pfs.s),
            f_phantom: core::marker::PhantomData,
            cf_phantom: core::marker::PhantomData,
            ps_phantom: core::marker::PhantomData,
        }
    }

    /// Absorbs variables of `F`, limb by limb.
    pub fn absorb_nonnative_field_elements(
        &mut self,
        cs: &mut ConstraintSystem<CF>,
        elems: &Vec<NonNativeFieldVar<F, CF>>,
        ty: OptimizationType,
    ) -> (r: Result<(), SynthesisError>)
        requires
            old(cs).wf(),
            old(self).s.wf(old(cs)),
            fields_fit::<F, CF>(),
            forall|i: int| 0 <= i < elems@.len() ==> (#[trigger] elems@[i]).holds_in(old(cs)),
        ensures
            final(cs).wf(),
            old(cs).extended_by(final(cs)),
            final(cs).satisfied_spec() == old(cs).satisfied_spec(),
            S::never_fails() ==> r is Ok,
            r is Ok ==> {
                &&& final(self).s.wf(final(cs))
                &&& final(self).s.model() == PS::absorb_spec(
                    old(self).s.model(),
                    compress_from(
                        vars_limbs(elems@, ty, elems@.len() as int),
                        0,
                        field_params::<F, CF>(ty),
                    ),
                )
            },
    {
        Self::push_gadgets_to_sponge(cs, &mut self.s, elems, ty)
    }

    /// Absorbs variables of the native field.
    pub fn absorb_native_field_elements(&mut self, cs: &mut ConstraintSystem<CF>, elems: &Vec<FpGadget<CF>>) -> (r:
        Result<(), SynthesisError>)
        requires
            old(cs).wf(),
            old(self).s.wf(old(cs)),
            all_fp_hold_in(elems@, old(cs)),
        ensures
            final(cs).wf(),
            old(cs).extended_by(final(cs)),
            final(cs).satisfied_spec() == old(cs).satisfied_spec(),
            S::never_fails() ==> r is Ok,
            r is Ok ==> {
                &&& final(self).s.wf(final(cs))
                &&& final(self).s.model() == PS::absorb_spec(old(self).s.model(), fp_values(elems@))
            },
    {
        self.s.absorb(cs, elems)
    }

    /// Absorbs bytes: their bits, each byte most significant bit first, in
    /// chunks of one bit less than the characteristic has, each chunk
    /// packed into a variable.
    pub fn absorb_bytes(&mut self, cs: &mut ConstraintSystem<CF>, elems: &Vec<UInt8>) -> (r: Result<
        (),
        SynthesisError,
    >)
        requires
            old(cs).wf(),
            old(self).s.wf(old(cs)),
            CF::size_in_bits_spec() >= 2,
            forall|i: int|
                0 <= i < elems@.len() ==> (#[trigger] elems@[i]).wf() && elems@[i].holds_in(old(cs)),
        ensures
            final(cs).wf(),
            old(cs).extended_by(final(cs)),
            final(cs).satisfied_spec() == old(cs).satisfied_spec(),
            S::never_fails() ==> r is Ok,
            r is Ok ==> {
                &&& final(self).s.wf(final(cs))
                &&& final(self).s.model() == PS::absorb_spec(
                    old(self).s.model(),
                    packed_chunks::<CF>(
                        bytes_bits(uint8_values(elems@)),
                        CF::size_in_bits_spec() - 1,
                    ),
                )
            },
    {
        let gadgets = pack_bytes::<CF>(cs, elems);
        let ghost mid = *cs;
        proof {
            self.s.lemma_wf_later(old(cs), cs);
        }
        let r = self.s.absorb(cs, &gadgets);
        proof {
            old(cs).lemma_extended_twice(&mid, cs);
        }
        r
    }

    /// Squeezes variables of the native field.
    pub fn squeeze_native_field_elements(&mut self, cs: &mut ConstraintSystem<CF>, num: usize) -> (r:
        Result<Vec<FpGadget<CF>>, SynthesisError>)
        requires
            old(cs).wf(),
            old(self).s.wf(old(cs)),
        ensures
            final(cs).wf(),
            old(cs).extended_by(final(cs)),
            final(cs).satisfied_spec() == old(cs).satisfied_spec(),
            S::never_fails() ==> r is Ok,
            r is Ok ==> {
                &&& final(self).s.wf(final(cs))
                &&& final(self).s.model() == PS::squeeze_spec(old(self).s.model(), num as nat).0
                &&& fp_values(r->Ok_0@) == PS::squeeze_spec(old(self).s.model(), num as nat).1
                &&& all_fp_hold_in(r->Ok_0@, final(cs))
            },
    {
        self.s.squeeze(cs, num)
    }

    /// Squeezes variables of `F`.
    pub fn squeeze_field_elements(&mut self, cs: &mut ConstraintSystem<CF>, num: usize) -> (r: Result<
        Vec<NonNativeFieldVar<F, CF>>,
        SynthesisError,
    >)
        requires
            old(cs).wf(),
            old(self).s.wf(old(cs)),
            fields_fit::<F, CF>(),
            F::size_in_bits_spec() >= 2,
            bits_per_nonnative::<F>(false) * num + CF::size_in_bits_spec() <= usize::MAX,
        ensures
            final(cs).wf(),
            old(cs).extended_by(final(cs)),
            final(cs).satisfied_spec() == old(cs).satisfied_spec(),
            S::never_fails() ==> r is Ok,
            r is Ok ==> ({
                let k = bits_per_nonnative::<F>(false);
                let n = squeeze_count::<CF>(k * num) as nat;
                let all_bits = elems_bits(PS::squeeze_spec(old(self).s.model(), n).1, n as int);
                &&& final(self).s.wf(final(cs))
                &&& final(self).s.model() == PS::squeeze_spec(old(self).s.model(), n).0
                &&& r->Ok_0@.len() == num
                &&& forall|i: int|
                    0 <= i < r->Ok_0@.len() ==> match #[trigger] r->Ok_0@[i] {
                        NonNativeFieldVar::Constant(_) => false,
                        NonNativeFieldVar::Var(v) => {
                            &&& v.holds_in(final(cs))
                            &&& v.limb_values() == limbs_from_bits::<F, CF>(
                                all_bits.subrange(i * k, (i + 1) * k).reverse(),
                            )
                            &&& v.num_of_additions_over_normal_form == CF::zero_spec()
                            &&& v.is_in_the_normal_form
                        },
                    }
            }),
    {
        Self::get_gadgets_from_sponge(cs, &mut self.s, num, false)
    }

    /// Squeezes variables of `F`, and the bits of each, lowest first.
    pub fn squeeze_field_elements_and_bits(&mut self, cs: &mut ConstraintSystem<CF>, num: usize) -> (r:
        Result<(Vec<NonNativeFieldVar<F, CF>>, Vec<Vec<Boolean>>), SynthesisError>)
        requires
            old(cs).wf(),
            old(self).s.wf(old(cs)),
            fields_fit::<F, CF>(),
            F::size_in_bits_spec() >= 2,
            bits_per_nonnative::<F>(false) * num + CF::size_in_bits_spec() <= usize::MAX,
        ensures
            final(cs).wf(),
            old(cs).extended_by(final(cs)),
            final(cs).satisfied_spec() == old(cs).satisfied_spec(),
            S::never_fails() ==> r is Ok,
            r is Ok ==> ({
                let k = bits_per_nonnative::<F>(false);
                let n = squeeze_count::<CF>(k * num) as nat;
                let all_bits = elems_bits(PS::squeeze_spec(old(self).s.model(), n).1, n as int);
                let (gadgets, bits) = r->Ok_0;
                &&& final(self).s.wf(final(cs))
                &&& final(self).s.model() == PS::squeeze_spec(old(self).s.model(), n).0
                &&& gadgets@.len() == num
                &&& bits@.len() == gadgets@.len()
                &&& forall|i: int|
                    0 <= i < bits@.len() ==> values_of((#[trigger] bits@[i])@) == all_bits.subrange(
                        i * k,
                        (i + 1) * k,
                    ).reverse()
                &&& forall|i: int|
                    0 <= i < gadgets@.len() ==> match #[trigger] gadgets@[i] {
                        NonNativeFieldVar::Constant(_) => false,
                        NonNativeFieldVar::Var(v) => {
                            &&& v.holds_in(final(cs))
                            &&& v.limb_values() == limbs_from_bits::<F, CF>(values_of(bits@[i]@))
                            &&& limbs_bound::<F, CF>(final(cs), bits@[i]@, v.limbs@)
                            &&& v.num_of_additions_over_normal_form == CF::zero_spec()
                            &&& v.is_in_the_normal_form
                        },
                    }
            }),
    {
        Self::get_gadgets_and_bits_from_sponge(cs, &mut self.s, num, false)
    }

    /// Squeezes variables of `F` of 128 bits.
    pub fn squeeze_128_bits_field_elements(&mut self, cs: &mut ConstraintSystem<CF>, num: usize) -> (r:
        Result<Vec<NonNativeFieldVar<F, CF>>, SynthesisError>)
        requires
            old(cs).wf(),
            old(self).s.wf(old(cs)),
            fields_fit::<F, CF>(),
            F::size_in_bits_spec() >= 2,
            bits_per_nonnative::<F>(true) * num + CF::size_in_bits_spec() <= usize::MAX,
        ensures
            final(cs).wf(),
            old(cs).extended_by(final(cs)),
            final(cs).satisfied_spec() == old(cs).satisfied_spec(),
            S::never_fails() ==> r is Ok,
            r is Ok ==> ({
                let k = bits_per_nonnative::<F>(true);
                let n = squeeze_count::<CF>(k * num) as nat;
                let all_bits = elems_bits(PS::squeeze_spec(old(self).s.model(), n).1, n as int);
                &&& final(self).s.wf(final(cs))
                &&& final(self).s.model() == PS::squeeze_spec(old(self).s.model(), n).0
                &&& r->Ok_0@.len() == num
                &&& forall|i: int|
                    0 <= i < r->Ok_0@.len() ==> match #[trigger] r->Ok_0@[i] {
                        NonNativeFieldVar::Constant(_) => false,
                        NonNativeFieldVar::Var(v) => {
                            &&& v.holds_in(final(cs))
                            &&& v.limb_values() == limbs_from_bits::<F, CF>(
                                all_bits.subrange(i * k, (i + 1) * k).reverse(),
                            )
                            &&& v.num_of_additions_over_normal_form == CF::zero_spec()
                            &&& v.is_in_the_normal_form
                        },
                    }
            }),
    {
        Self::get_gadgets_from_sponge(cs, &mut self.s, num, true)
    }

    /// Squeezes variables of `F` of 128 bits, and the bits of each, lowest
    /// first.
    pub fn squeeze_128_bits_field_elements_and_bits(&mut self, cs: &mut ConstraintSystem<CF>, num: usize) -> (r:
        Result<(Vec<NonNativeFieldVar<F, CF>>, Vec<Vec<Boolean>>), SynthesisError>)
        requires
            old(cs).wf(),
            old(self).s.wf(old(cs)),
            fields_fit::<F, CF>(),
            F::size_in_bits_spec() >= 2,
            bits_per_nonnative::<F>(true) * num + CF::size_in_bits_spec() <= usize::MAX,
        ensures
            final(cs).wf(),
            old(cs).extended_by(final(cs)),
            final(cs).satisfied_spec() == old(cs).satisfied_spec(),
            S::never_fails() ==> r is Ok,
            r is Ok ==> ({
                let k = bits_per_nonnative::<F>(true);
                let n = squeeze_count::<CF>(k * num) as nat;
                let all_bits = elems_bits(PS::squeeze_spec(old(self).s.model(), n).1, n as int);
                let (gadgets, bits) = r->Ok_0;
                &&& final(self).s.wf(final(cs))
                &&& final(self).s.model() == PS::squeeze_spec(old(self).s.model(), n).0
                &&& gadgets@.len() == num
                &&& bits@.len() == gadgets@.len()
                &&& forall|i: int|
                    0 <= i < bits@.len() ==> values_of((#[trigger] bits@[i])@) == all_bits.subrange(
                        i * k,
                        (i + 1) * k,
                    ).reverse()
                &&& forall|i: int|
                    0 <= i < gadgets@.len() ==> match #[trigger] gadgets@[i] {
                        NonNativeFieldVar::Constant(_) => false,
                        NonNativeFieldVar::Var(v) => {
                            &&& v.holds_in(final(cs))
                            &&& v.limb_values() == limbs_from_bits::<F, CF>(values_of(bits@[i]@))
                            &&& limbs_bound::<F, CF>(final(cs), bits@[i]@, v.limbs@)
                            &&& v.num_of_additions_over_normal_form == CF::zero_spec()
                            &&& v.is_in_the_normal_form
                        },
                    }
            }),
    {
        Self::get_gadgets_and_bits_from_sponge(cs, &mut self.s, num, true)
    }
}

} // verus!
