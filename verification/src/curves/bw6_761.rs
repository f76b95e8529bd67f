//! The prime fields of the curve BW6-761.  Its scalar field is the base
//! field of BLS12-377.
use crate::curves::bls12_377::FqParameters as Bls12377FqParameters;
use crate::fields::fp_wide::{Fp384, FpParameters, FpWide};
use vstd::prelude::*;

verus! {

/// The parameters of the base field, of 761 bits.
#[derive(Clone, Copy, Debug, PartialEq, Eq)]
pub struct FqParameters {}

/// The scalar field, of 377 bits.
pub type Fr = Fp384<Bls12377FqParameters>;

/// The base field.
pub type Fq = FpWide<FqParameters, 12>;

impl FpParameters<12> for FqParameters {
    open spec fn modulus_spec() -> [u64; 12] {
        [
            0xf49d_0000_0000_008bu64,
            0xe691_3e68_7000_0082u64,
            0x160c_f8ae_eaf0_a437u64,
            0x98a1_16c2_5667_a8f8u64,
            0x71dc_d3dc_73eb_ff2eu64,
            0x8689_c8ed_12f9_fd90u64,
            0x03ce_baff_25b4_2304u64,
            0x707b_a638_e584_e919u64,
            0x5282_75ef_8087_be41u64,
            0xb926_186a_81d1_4688u64,
            0xd187_c940_04fa_ff3eu64,
            0x0122_e824_fb83_ce0au64,
        ]
    }

    open spec fn two_adicity_spec() -> nat {
        1
    }

    /// Minus one.
    open spec fn root_of_unity_spec() -> [u64; 12] {
        [
            0xf49d_0000_0000_008au64,
            0xe691_3e68_7000_0082u64,
            0x160c_f8ae_eaf0_a437u64,
            0x98a1_16c2_5667_a8f8u64,
            0x71dc_d3dc_73eb_ff2eu64,
            0x8689_c8ed_12f9_fd90u64,
            0x03ce_baff_25b4_2304u64,
            0x707b_a638_e584_e919u64,
            0x5282_75ef_8087_be41u64,
            0xb926_186a_81d1_4688u64,
            0xd187_c940_04fa_ff3eu64,
            0x0122_e824_fb83_ce0au64,
        ]
    }

    fn modulus() -> (r: [u64; 12]) {
        [
            0xf49d_0000_0000_008bu64,
            0xe691_3e68_7000_0082u64,
            0x160c_f8ae_eaf0_a437u64,
            0x98a1_16c2_5667_a8f8u64,
            0x71dc_d3dc_73eb_ff2eu64,
            0x8689_c8ed_12f9_fd90u64,
            0x03ce_baff_25b4_2304u64,
            0x707b_a638_e584_e919u64,
            0x5282_75ef_8087_be41u64,
            0xb926_186a_81d1_4688u64,
            0xd187_c940_04fa_ff3eu64,
            0x0122_e824_fb83_ce0au64,
        ]
    }

    fn two_adicity() -> (r: u32) {
        1
    }

    fn root_of_unity() -> (r: [u64; 12]) {
        [
            0xf49d_0000_0000_008au64,
            0xe691_3e68_7000_0082u64,
            0x160c_f8ae_eaf0_a437u64,
            0x98a1_16c2_5667_a8f8u64,
            0x71dc_d3dc_73eb_ff2eu64,
            0x8689_c8ed_12f9_fd90u64,
            0x03ce_baff_25b4_2304u64,
            0x707b_a638_e584_e919u64,
            0x5282_75ef_8087_be41u64,
            0xb926_186a_81d1_4688u64,
            0xd187_c940_04fa_ff3eu64,
            0x0122_e824_fb83_ce0au64,
        ]
    }
}

} // verus!
