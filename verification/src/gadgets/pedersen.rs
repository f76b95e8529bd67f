//! The Pedersen hash in a circuit.  The parameters are constants of the
//! circuit; the input is a sequence of byte variables.
use crate::algorithms::pedersen::{
    byte_of_bits, extended_byte_bit, hash_spec, input_bits, is_extension, masked_msm_spec, msm_spec,
    padded_len, symmetric_msm_spec,
};
use crate::algorithms::pedersen_parameters::{rows_view, PedersenCRHParameters, PedersenSize};
use crate::curves::group::{Group, ProjectiveCurve};
use crate::fields::field::Field;
use crate::gadgets::boolean::Boolean;
use crate::gadgets::group::{CompressedGroupGadget, GroupGadget};
use crate::gadgets::r1cs::{ConstraintSystem, SynthesisError};
use crate::gadgets::uint8::{byte_bit, lemma_all_hold_later, values_of, UInt8};
use crate::marlin::fiat_shamir_constraints::uint8_values;
use vstd::prelude::*;

verus! {

/// The parameters of the Pedersen hash as constants of a circuit.
pub struct PedersenCRHParametersGadget<G: Group, S: PedersenSize, F: Field, GG: GroupGadget<G, F>> {
    pub parameters: PedersenCRHParameters<G, S>,
    pub group_phantom: core::marker::PhantomData<GG>,
    pub engine_phantom: core::marker::PhantomData<F>,
}

/// The Pedersen hash in a circuit.
pub struct PedersenCRHGadget<G: Group, F: Field, GG: GroupGadget<G, F>> {
    pub group_phantom: core::marker::PhantomData<G>,
    pub group_gadget_phantom: core::marker::PhantomData<GG>,
    pub engine_phantom: core::marker::PhantomData<F>,
}

/// The Pedersen hash in a circuit, of which only the x-coordinate is kept.
pub struct PedersenCompressedCRHGadget<G: ProjectiveCurve, F: Field, GG: CompressedGroupGadget<G, F>> {
    pub group_phantom: core::marker::PhantomData<G>,
    pub group_gadget_phantom: core::marker::PhantomData<GG>,
    pub engine_phantom: core::marker::PhantomData<F>,
}

/// A copy of the rows.
pub fn copy_rows<G: Group>(bases: &Vec<Vec<G>>) -> (r: Vec<Vec<G>>)
    ensures
        rows_view(r@) == rows_view(bases@),
{
    let mut out: Vec<Vec<G>> = Vec::new();
    let mut i: usize = 0;
    while i < bases.len()
        invariant
            i <= bases@.len(),
            out@.len() == i,
            forall|k: int| 0 <= k < i ==> (#[trigger] out@[k])@ == bases@[k]@,
        decreases bases@.len() - i,
    {
        let mut row: Vec<G> = Vec::new();
        let mut j: usize = 0;
        while j < bases[i].len()
            invariant
                i < bases@.len(),
                j <= bases@[i as int]@.len(),
                row@ == bases@[i as int]@.subrange(0, j as int),
            decreases bases@[i as int]@.len() - j,
        {
            row.push(bases[i][j]);
            assert(row@ =~= bases@[i as int]@.subrange(0, j + 1));
            j += 1;
        }
        assert(row@ =~= bases@[i as int]@);
        out.push(row);
        i += 1;
    }
    assert(rows_view(out@) =~= rows_view(bases@));
    out
}

impl<G: Group, S: PedersenSize, F: Field, GG: GroupGadget<G, F>> PedersenCRHParametersGadget<G, S, F, GG> {
    /// The parameters as constants of the circuit: a copy of them, which
    /// takes no wires.  Fails with the error that came in place of the
    /// parameters.
    pub fn allocate(value: Result<&PedersenCRHParameters<G, S>, SynthesisError>) -> (r: Result<
        Self,
        SynthesisError,
    >)
        ensures
            match value {
                Ok(p) => r is Ok && r->Ok_0.parameters.rows() == p.rows(),
                Err(e) => r is Err && r->Err_0 == e,
            },
    {
        match value {
            Err(e) => Err(e),
            Ok(p) => Ok(
                PedersenCRHParametersGadget {
                    parameters: PedersenCRHParameters::from(copy_rows(&p.bases)),
                    group_phantom: core::marker::PhantomData,
                    engine_phantom: core::marker::PhantomData,
                },
            ),
        }
    }

    /// The parameters as constants of the circuit; as inputs they take no
    /// wires either.
    pub fn allocate_input(value: Result<&PedersenCRHParameters<G, S>, SynthesisError>) -> (r: Result<
        Self,
        SynthesisError,
    >)
        ensures
            match value {
                Ok(p) => r is Ok && r->Ok_0.parameters.rows() == p.rows(),
                Err(e) => r is Err && r->Err_0 == e,
            },
    {
        Self::allocate(value)
    }
}

/// The bits of the input, padded with zero bytes to the bytes that the
/// windows take, each byte least significant bit first.
pub fn pad_input_and_bitify<S: PedersenSize>(input: &Vec<UInt8>) -> (r: Vec<Boolean>)
    requires
        S::WINDOW_SIZE * S::NUM_WINDOWS <= usize::MAX,
        input@.len() <= padded_len::<S>(),
        forall|i: int| 0 <= i < input@.len() ==> (#[trigger] input@[i]).wf(),
    ensures
        r@.len() == 8 * padded_len::<S>(),
        values_of(r@) == input_bits::<S>(uint8_values(input@)),
        forall|k: int|
            0 <= k < r@.len() ==> (#[trigger] r@[k]) == (if k / 8 < input@.len() {
                input@[k / 8].bits@[k % 8]
            } else {
                Boolean::Constant(false)
            }),
{
    let padded = S::WINDOW_SIZE * S::NUM_WINDOWS / 8;
    let total = 8 * padded;
    let mut bits: Vec<Boolean> = Vec::new();
    let mut k: usize = 0;
    while k < total
        invariant
            k <= total,
            total == 8 * padded_len::<S>(),
            forall|i: int| 0 <= i < input@.len() ==> (#[trigger] input@[i]).wf(),
            bits@.len() == k,
            forall|t: int|
                0 <= t < k ==> (#[trigger] bits@[t]) == (if t / 8 < input@.len() {
                    input@[t / 8].bits@[t % 8]
                } else {
                    Boolean::Constant(false)
                }),
        decreases total - k,
    {
        let byte = k / 8;
        if byte < input.len() {
            assert(input@[byte as int].wf());
            bits.push(input[byte].bits[k % 8]);
        } else {
            bits.push(Boolean::constant(false));
        }
        k += 1;
    }
    proof {
        let vals = uint8_values(input@);
        assert forall|t: int| 0 <= t < bits@.len() implies values_of(bits@)[t] == input_bits::<S>(
            vals,
        )[t] by {
            if t / 8 < input@.len() {
                assert(input@[t / 8].wf());
            }
        }
        assert(values_of(bits@) =~= input_bits::<S>(vals));
    }
    bits
}

/// The extension of the mask in a circuit: every bit `p` is made the two
/// bits `p, not p`, which takes no constraint.
pub fn extend_mask_gadget(mask: &Vec<UInt8>) -> (ext: Vec<UInt8>)
    requires
        forall|i: int| 0 <= i < mask@.len() ==> (#[trigger] mask@[i]).wf(),
    ensures
        is_extension(uint8_values(mask@), uint8_values(ext@)),
        forall|i: int| 0 <= i < ext@.len() ==> (#[trigger] ext@[i]).wf(),
        forall|i: int, t: int|
            0 <= i < ext@.len() && 0 <= t < 8 ==> (#[trigger] ext@[i].bits@[t]) == (if t % 2 == 0 {
                mask@[i / 2].bits@[(i % 2) * 4 + t / 2]
            } else {
                mask@[i / 2].bits@[(i % 2) * 4 + t / 2].not_spec()
            }),
{
    let mut ext: Vec<UInt8> = Vec::new();
    let mut i: usize = 0;
    while i < mask.len()
        invariant
            i <= mask@.len(),
            forall|k: int| 0 <= k < mask@.len() ==> (#[trigger] mask@[k]).wf(),
            ext@.len() == 2 * i,
            forall|k: int| 0 <= k < ext@.len() ==> (#[trigger] ext@[k]).wf(),
            forall|k: int, t: int|
                0 <= k < 2 * i && 0 <= t < 8 ==> #[trigger] byte_bit(ext@[k].value->0, t)
                    == extended_byte_bit(uint8_values(mask@), k, t),
            forall|k: int, t: int|
                0 <= k < ext@.len() && 0 <= t < 8 ==> (#[trigger] ext@[k].bits@[t]) == (if t % 2 == 0 {
                    mask@[k / 2].bits@[(k % 2) * 4 + t / 2]
                } else {
                    mask@[k / 2].bits@[(k % 2) * 4 + t / 2].not_spec()
                }),
        decreases mask@.len() - i,
    {
        assert(mask@[i as int].wf());
        let m = &mask[i];
        let mut half: usize = 0;
        while half < 2
            invariant
                half <= 2,
                i < mask@.len(),
                m == mask@[i as int],
                m.wf(),
                forall|k: int| 0 <= k < mask@.len() ==> (#[trigger] mask@[k]).wf(),
                ext@.len() == 2 * i + half,
                forall|k: int| 0 <= k < ext@.len() ==> (#[trigger] ext@[k]).wf(),
                forall|k: int, t: int|
                    0 <= k < 2 * i + half && 0 <= t < 8 ==> #[trigger] byte_bit(ext@[k].value->0, t)
                        == extended_byte_bit(uint8_values(mask@), k, t),
                forall|k: int, t: int|
                    0 <= k < ext@.len() && 0 <= t < 8 ==> (#[trigger] ext@[k].bits@[t]) == (if t % 2
                        == 0 {
                        mask@[k / 2].bits@[(k % 2) * 4 + t / 2]
                    } else {
                        mask@[k / 2].bits@[(k % 2) * 4 + t / 2].not_spec()
                    }),
            decreases 2 - half,
        {
            let b0 = m.bits[half * 4];
            let b1 = m.bits[half * 4 + 1];
            let b2 = m.bits[half * 4 + 2];
            let b3 = m.bits[half * 4 + 3];
            let v = m.value.unwrap();
            let bit0 = (v >> ((half * 4) as u8)) & 1 == 1;
            let bit1 = (v >> ((half * 4 + 1) as u8)) & 1 == 1;
            let bit2 = (v >> ((half * 4 + 2) as u8)) & 1 == 1;
            let bit3 = (v >> ((half * 4 + 3) as u8)) & 1 == 1;
            let value = byte_of_bits(bit0, !bit0, bit1, !bit1, bit2, !bit2, bit3, !bit3);
            let mut bits: Vec<Boolean> = Vec::new();
            bits.push(b0);
            bits.push(b0.not());
            bits.push(b1);
            bits.push(b1.not());
            bits.push(b2);
            bits.push(b2.not());
            bits.push(b3);
            bits.push(b3.not());
            let byte = UInt8 { bits, value: Some(value) };
            assert(byte.wf());
            ext.push(byte);
            half += 1;
        }
        i += 1;
    }
    proof {
        assert forall|k: int, t: int| 0 <= k < ext@.len() && 0 <= t < 8 implies #[trigger] byte_bit(
            uint8_values(ext@)[k],
            t,
        ) == extended_byte_bit(uint8_values(mask@), k, t) by {
            assert(byte_bit(ext@[k].value->0, t) == extended_byte_bit(uint8_values(mask@), k, t));
        }
    }
    ext
}

/// `out` is put together as the masked hash is: `m` stands for the masked
/// sum of the input under the extension `ext` of the mask, `h` for the
/// hash of the extended mask, `y` for its symmetric sum over the mask
/// bases, `t` for `m + h`, and `out` for `t + y`.
pub open spec fn masked_parts<G: Group, S: PedersenSize>(
    rows: Seq<Seq<G>>,
    mask_rows: Seq<Seq<G>>,
    input: Seq<u8>,
    mask: Seq<u8>,
    out: G,
    ext: Seq<u8>,
    m: G,
    h: G,
    y: G,
    t: G,
) -> bool {
    let w = S::WINDOW_SIZE as int;
    let bits = input_bits::<S>(input);
    let mask_bits = input_bits::<S>(ext);
    &&& is_extension(mask, ext)
    &&& m.eq_spec(masked_msm_spec(rows, mask_rows, bits, mask_bits, w))
    &&& h.eq_spec(msm_spec(rows, mask_bits, w))
    &&& y.eq_spec(symmetric_msm_spec(mask_rows, mask_bits, w))
    &&& t.eq_spec(m.add_spec(h))
    &&& out.eq_spec(t.add_spec(y))
}

/// `out` stands for the masked hash of the input under the mask.
pub open spec fn is_masked_hash<G: Group, S: PedersenSize>(
    rows: Seq<Seq<G>>,
    mask_rows: Seq<Seq<G>>,
    input: Seq<u8>,
    mask: Seq<u8>,
    out: G,
) -> bool {
    exists|ext: Seq<u8>, m: G, h: G, y: G, t: G| #[trigger]
        masked_parts::<G, S>(rows, mask_rows, input, mask, out, ext, m, h, y, t)
}

impl<G: Group, F: Field, GG: GroupGadget<G, F>> PedersenCRHGadget<G, F, GG> {
    /// The hash of the input in the circuit: a variable that stands for
    /// the element that the native hash gives on the values of the input.
    /// Fails with `Unsatisfiable` where the input has more bits than the
    /// windows take, and else only where the group variables may fail.
    pub fn check_evaluation_gadget<S: PedersenSize>(
        cs: &mut ConstraintSystem<F>,
        parameters: &PedersenCRHParametersGadget<G, S, F, GG>,
        input: &Vec<UInt8>,
    ) -> (r: Result<GG, SynthesisError>)
        requires
            old(cs).wf(),
            G::is_group(),
            parameters.parameters.wf(),
            parameters.parameters.rows().len() == S::NUM_WINDOWS,
            S::WINDOW_SIZE >= 1,
            S::WINDOW_SIZE * S::NUM_WINDOWS <= usize::MAX,
            (S::WINDOW_SIZE * S::NUM_WINDOWS) % 8 == 0,
            forall|i: int| 0 <= i < input@.len() ==> (#[trigger] input@[i]).wf() && input@[i].holds_in(old(cs)),
        ensures
            final(cs).wf(),
            old(cs).extended_by(final(cs)),
            final(cs).satisfied_spec() == old(cs).satisfied_spec(),
            input@.len() * 8 > S::WINDOW_SIZE * S::NUM_WINDOWS ==> r == Err::<GG, SynthesisError>(
                SynthesisError::Unsatisfiable,
            ) && *final(cs) == *old(cs),
            GG::never_fails() && input@.len() * 8 <= S::WINDOW_SIZE * S::NUM_WINDOWS ==> r is Ok,
            r is Ok ==> r->Ok_0.holds_in(final(cs)) && r->Ok_0.value().eq_spec(
                hash_spec::<G, S>(parameters.parameters.rows(), uint8_values(input@)),
            ),
    {
        if input.len() > S::WINDOW_SIZE * S::NUM_WINDOWS / 8 {
            return Err(SynthesisError::Unsatisfiable);
        }
        // Pad the input if it is not the correct length.
        let input_in_bits = pad_input_and_bitify::<S>(input);
        proof {
            assert forall|k: int| 0 <= k < input_in_bits@.len() implies (#[trigger] input_in_bits@[k]).holds_in(
                cs,
            ) by {
                if k / 8 < input@.len() {
                    assert(input@[k / 8].wf() && input@[k / 8].holds_in(cs));
                    assert(input@[k / 8].bits@[k % 8].holds_in(cs));
                }
            }
        }
        GG::multi_scalar_multiplication(cs, &parameters.parameters.bases, &input_in_bits, S::WINDOW_SIZE)
    }

    /// Evaluates a masked Pedersen hash on the given `input` using the
    /// given `mask`.  The mask is extended to ensure constant hardness: for
    /// each bit, 0 => 01, 1 => 10.  The masked sum of the input is
    /// computed, and the hash of the extended mask and its symmetric sum
    /// over the mask bases are added to it.  Fails with `Unsatisfiable`
    /// where the input has more bits than the windows take or is not twice
    /// as long as the mask.
    pub fn check_evaluation_gadget_masked<S: PedersenSize>(
        cs: &mut ConstraintSystem<F>,
        parameters: &PedersenCRHParametersGadget<G, S, F, GG>,
        input: &Vec<UInt8>,
        mask_parameters: &PedersenCRHParametersGadget<G, S, F, GG>,
        mask: &Vec<UInt8>,
    ) -> (r: Result<GG, SynthesisError>)
        requires
            old(cs).wf(),
            G::is_group(),
            parameters.parameters.wf(),
            mask_parameters.parameters.wf(),
            parameters.parameters.rows().len() == S::NUM_WINDOWS,
            S::WINDOW_SIZE >= 1,
            S::WINDOW_SIZE * S::NUM_WINDOWS <= usize::MAX,
            (S::WINDOW_SIZE * S::NUM_WINDOWS) % 8 == 0,
            mask@.len() * 2 <= usize::MAX,
            forall|i: int| 0 <= i < input@.len() ==> (#[trigger] input@[i]).wf() && input@[i].holds_in(old(cs)),
            forall|i: int| 0 <= i < mask@.len() ==> (#[trigger] mask@[i]).wf() && mask@[i].holds_in(old(cs)),
        ensures
            final(cs).wf(),
            old(cs).extended_by(final(cs)),
            final(cs).satisfied_spec() == old(cs).satisfied_spec(),
            input@.len() * 8 > S::WINDOW_SIZE * S::NUM_WINDOWS || input@.len() != 2 * mask@.len() ==> r
                == Err::<GG, SynthesisError>(SynthesisError::Unsatisfiable) && *final(cs) == *old(cs),
            GG::never_fails() && input@.len() * 8 <= S::WINDOW_SIZE * S::NUM_WINDOWS && input@.len() == 2
                * mask@.len() ==> r is Ok,
            r is Ok ==> {
                &&& r->Ok_0.holds_in(final(cs))
                &&& is_masked_hash::<G, S>(
                    parameters.parameters.rows(),
                    mask_parameters.parameters.rows(),
                    uint8_values(input@),
                    uint8_values(mask@),
                    r->Ok_0.value(),
                )
            },
    {
        // The mask will be extended to ensure constant hardness. This
        // condition ensures the input and the mask sizes match.
        if input.len() > S::WINDOW_SIZE * S::NUM_WINDOWS / 8 || input.len() != mask.len() * 2 {
            return Err(SynthesisError::Unsatisfiable);
        }
        let extended = extend_mask_gadget(mask);
        let ghost ext = uint8_values(extended@);
        proof {
            assert forall|i: int| 0 <= i < extended@.len() implies (#[trigger] extended@[i]).holds_in(cs) by {
                assert forall|t: int| 0 <= t < extended@[i].bits@.len() implies (
                #[trigger] extended@[i].bits@[t]).holds_in(cs) by {
                    assert(extended@[i].wf());
                    let src = mask@[i / 2];
                    assert(src.wf() && src.holds_in(cs));
                    assert(src.bits@[(i % 2) * 4 + t / 2].holds_in(cs));
                }
            }
        }
        let ghost cs0 = *cs;
        // H(p) = sum of g_i^{p_i} for all i.
        let mask_hash = match Self::check_evaluation_gadget(cs, parameters, &extended) {
            Ok(v) => v,
            Err(e) => {
                return Err(e);
            },
        };
        let ghost cs1 = *cs;
        // H_2(p) = sum of h_i^{1-2*p_i} for all i.
        let mask_input_in_bits = pad_input_and_bitify::<S>(&extended);
        proof {
            assert forall|k: int| 0 <= k < mask_input_in_bits@.len() implies (
            #[trigger] mask_input_in_bits@[k]).holds_in(&cs0) by {
                if k / 8 < extended@.len() {
                    assert(extended@[k / 8].wf() && extended@[k / 8].holds_in(&cs0));
                    assert(extended@[k / 8].bits@[k % 8].holds_in(&cs0));
                }
            }
            lemma_all_hold_later(mask_input_in_bits@, &cs0, cs);
        }
        let mask_symmetric_hash = match GG::symmetric_multi_scalar_multiplication(
            cs,
            &mask_parameters.parameters.bases,
            &mask_input_in_bits,
            S::WINDOW_SIZE,
        ) {
            Ok(v) => v,
            Err(e) => {
                proof {
                    cs0.lemma_extended_twice(&cs1, cs);
                }
                return Err(e);
            },
        };
        let ghost cs2 = *cs;
        proof {
            cs0.lemma_extended_twice(&cs1, cs);
        }
        // Pad the input if it is not the correct length.
        let input_in_bits = pad_input_and_bitify::<S>(input);
        proof {
            assert forall|k: int| 0 <= k < input_in_bits@.len() implies (#[trigger] input_in_bits@[k]).holds_in(
                &cs0,
            ) by {
                if k / 8 < input@.len() {
                    assert(input@[k / 8].wf() && input@[k / 8].holds_in(&cs0));
                    assert(input@[k / 8].bits@[k % 8].holds_in(&cs0));
                }
            }
            lemma_all_hold_later(input_in_bits@, &cs0, cs);
            lemma_all_hold_later(mask_input_in_bits@, &cs1, cs);
        }
        let masked_output = match GG::masked_multi_scalar_multiplication(
            cs,
            &parameters.parameters.bases,
            &input_in_bits,
            &mask_parameters.parameters.bases,
            &mask_input_in_bits,
            S::WINDOW_SIZE,
        ) {
            Ok(v) => v,
            Err(e) => {
                proof {
                    cs0.lemma_extended_twice(&cs2, cs);
                }
                return Err(e);
            },
        };
        let ghost cs3 = *cs;
        proof {
            cs0.lemma_extended_twice(&cs2, cs);
            cs1.lemma_extended_twice(&cs2, cs);
            mask_hash.lemma_holds_later(&cs1, cs);
            mask_symmetric_hash.lemma_holds_later(&cs2, cs);
        }
        let partial = match masked_output.add(cs, &mask_hash) {
            Ok(v) => v,
            Err(e) => {
                proof {
                    cs0.lemma_extended_twice(&cs3, cs);
                }
                return Err(e);
            },
        };
        let ghost cs4 = *cs;
        proof {
            cs0.lemma_extended_twice(&cs3, cs);
            cs2.lemma_extended_twice(&cs3, cs);
            mask_symmetric_hash.lemma_holds_later(&cs2, cs);
        }
        let out = match partial.add(cs, &mask_symmetric_hash) {
            Ok(v) => v,
            Err(e) => {
                proof {
                    cs0.lemma_extended_twice(&cs4, cs);
                }
                return Err(e);
            },
        };
        proof {
            cs0.lemma_extended_twice(&cs4, cs);
            assert(masked_parts::<G, S>(
                parameters.parameters.rows(),
                mask_parameters.parameters.rows(),
                uint8_values(input@),
                uint8_values(mask@),
                out.value(),
                ext,
                masked_output.value(),
                mask_hash.value(),
                mask_symmetric_hash.value(),
                partial.value(),
            ));
        }
        Ok(out)
    }
}

impl<G: ProjectiveCurve, F: Field, GG: CompressedGroupGadget<G, F>> PedersenCompressedCRHGadget<G, F, GG> {
    /// The x-coordinate of the hash of the input in the circuit.  Fails
    /// with `Unsatisfiable` where the input has more bits than the windows
    /// take, and else only where the group variables may fail.
    pub fn check_evaluation_gadget<S: PedersenSize>(
        cs: &mut ConstraintSystem<F>,
        parameters: &PedersenCRHParametersGadget<G, S, F, GG>,
        input: &Vec<UInt8>,
    ) -> (r: Result<GG::BaseFieldGadget, SynthesisError>)
        requires
            old(cs).wf(),
            G::is_group(),
            parameters.parameters.wf(),
            parameters.parameters.rows().len() == S::NUM_WINDOWS,
            S::WINDOW_SIZE >= 1,
            S::WINDOW_SIZE * S::NUM_WINDOWS <= usize::MAX,
            (S::WINDOW_SIZE * S::NUM_WINDOWS) % 8 == 0,
            forall|i: int| 0 <= i < input@.len() ==> (#[trigger] input@[i]).wf() && input@[i].holds_in(old(cs)),
        ensures
            final(cs).wf(),
            old(cs).extended_by(final(cs)),
            final(cs).satisfied_spec() == old(cs).satisfied_spec(),
            input@.len() * 8 > S::WINDOW_SIZE * S::NUM_WINDOWS ==> r is Err && r->Err_0
                == SynthesisError::Unsatisfiable && *final(cs) == *old(cs),
            GG::never_fails() && input@.len() * 8 <= S::WINDOW_SIZE * S::NUM_WINDOWS ==> r is Ok,
            r is Ok ==> exists|g: G|
                (#[trigger] g.eq_spec(
                    hash_spec::<G, S>(parameters.parameters.rows(), uint8_values(input@)),
                )) && GG::coordinate_value(&r->Ok_0) == g.affine_x_spec(),
    {
        match PedersenCRHGadget::<G, F, GG>::check_evaluation_gadget(cs, parameters, input) {
            Err(e) => Err(e),
            Ok(output) => {
                let x = output.to_x_coordinate();
                assert(output.value().eq_spec(
                    hash_spec::<G, S>(parameters.parameters.rows(), uint8_values(input@)),
                ) && GG::coordinate_value(&x) == output.value().affine_x_spec());
                Ok(x)
            },
        }
    }

    /// The x-coordinate of the masked hash of the input in the circuit.
    /// Fails as the masked hash does.
    pub fn check_evaluation_gadget_masked<S: PedersenSize>(
        cs: &mut ConstraintSystem<F>,
        parameters: &PedersenCRHParametersGadget<G, S, F, GG>,
        input: &Vec<UInt8>,
        mask_parameters: &PedersenCRHParametersGadget<G, S, F, GG>,
        mask: &Vec<UInt8>,
    ) -> (r: Result<GG::BaseFieldGadget, SynthesisError>)
        requires
            old(cs).wf(),
            G::is_group(),
            parameters.parameters.wf(),
            mask_parameters.parameters.wf(),
            parameters.parameters.rows().len() == S::NUM_WINDOWS,
            S::WINDOW_SIZE >= 1,
            S::WINDOW_SIZE * S::NUM_WINDOWS <= usize::MAX,
            (S::WINDOW_SIZE * S::NUM_WINDOWS) % 8 == 0,
            mask@.len() * 2 <= usize::MAX,
            forall|i: int| 0 <= i < input@.len() ==> (#[trigger] input@[i]).wf() && input@[i].holds_in(old(cs)),
            forall|i: int| 0 <= i < mask@.len() ==> (#[trigger] mask@[i]).wf() && mask@[i].holds_in(old(cs)),
        ensures
            final(cs).wf(),
            old(cs).extended_by(final(cs)),
            final(cs).satisfied_spec() == old(cs).satisfied_spec(),
            input@.len() * 8 > S::WINDOW_SIZE * S::NUM_WINDOWS || input@.len() != 2 * mask@.len() ==> r
                is Err && r->Err_0 == SynthesisError::Unsatisfiable && *final(cs) == *old(cs),
            GG::never_fails() && input@.len() * 8 <= S::WINDOW_SIZE * S::NUM_WINDOWS && input@.len() == 2
                * mask@.len() ==> r is Ok,
            r is Ok ==> exists|g: G| #[trigger]
                is_masked_hash::<G, S>(
                    parameters.parameters.rows(),
                    mask_parameters.parameters.rows(),
                    uint8_values(input@),
                    uint8_values(mask@),
                    g,
                ) && GG::coordinate_value(&r->Ok_0) == g.affine_x_spec(),
    {
        match PedersenCRHGadget::<G, F, GG>::check_evaluation_gadget_masked(
            cs,
            parameters,
            input,
            mask_parameters,
            mask,
        ) {
            Err(e) => Err(e),
            Ok(output) => {
                let x = output.to_x_coordinate();
                assert(is_masked_hash::<G, S>(
                    parameters.parameters.rows(),
                    mask_parameters.parameters.rows(),
                    uint8_values(input@),
                    uint8_values(mask@),
                    output.value(),
                ) && GG::coordinate_value(&x) == output.value().affine_x_spec());
                Ok(x)
            },
        }
    }
}

} // verus!
