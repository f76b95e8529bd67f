//! The curve BLS12-377: its two prime fields and the parameters of its
//! first group, `y^2 = x^3 + 1`.
use crate::curves::parameters::Parameters;
use crate::fields::field::Field;
use crate::fields::fp_wide::{Fp256, Fp384, FpParameters, FpWide};
use core::marker::PhantomData;
use vstd::prelude::*;

verus! {

/// The parameters of the scalar field, of 253 bits.
#[derive(Clone, Copy, Debug, PartialEq, Eq)]
pub struct FrParameters {}

/// The parameters of the base field, of 377 bits.
#[derive(Clone, Copy, Debug, PartialEq, Eq)]
pub struct FqParameters {}

/// The scalar field.
pub type Fr = Fp256<FrParameters>;

/// The base field.
pub type Fq = Fp384<FqParameters>;

impl FpParameters<4> for FrParameters {
    open spec fn modulus_spec() -> [u64; 4] {
        [0x0a11_8000_0000_0001u64, 0x59aa_76fe_d000_0001u64, 0x60b4_4d1e_5c37_b001u64, 0x12ab_655e_9a2c_a556u64]
    }

    open spec fn two_adicity_spec() -> nat {
        47
    }

    open spec fn root_of_unity_spec() -> [u64; 4] {
        [0x476e_f4a4_ec2a_895eu64, 0x9b50_6ee3_63e3_f04au64, 0x60c6_9477_d1a8_a12fu64, 0x11d4_b7f6_0cb9_2cc1u64]
    }

    fn modulus() -> (r: [u64; 4]) {
        [0x0a11_8000_0000_0001u64, 0x59aa_76fe_d000_0001u64, 0x60b4_4d1e_5c37_b001u64, 0x12ab_655e_9a2c_a556u64]
    }

    fn two_adicity() -> (r: u32) {
        47
    }

    fn root_of_unity() -> (r: [u64; 4]) {
        [0x476e_f4a4_ec2a_895eu64, 0x9b50_6ee3_63e3_f04au64, 0x60c6_9477_d1a8_a12fu64, 0x11d4_b7f6_0cb9_2cc1u64]
    }
}

impl FpParameters<6> for FqParameters {
    open spec fn modulus_spec() -> [u64; 6] {
        [
            0x8508_c000_0000_0001u64,
            0x170b_5d44_3000_0000u64,
            0x1ef3_622f_ba09_4800u64,
            0x1a22_d9f3_00f5_138fu64,
            0xc63b_05c0_6ca1_493bu64,
            0x01ae_3a46_17c5_10eau64,
        ]
    }

    open spec fn two_adicity_spec() -> nat {
        46
    }

    open spec fn root_of_unity_spec() -> [u64; 6] {
        [
            0x7eca_603c_c563_b9a1u64,
            0x06df_0a43_06fe_0bc3u64,
            0xb44d_994a_0ddf_f8c6u64,
            0x40fb_e05b_4512_a3d4u64,
            0x30f1_5248_8aef_fc9bu64,
            0x0036_a92e_0519_8a80u64,
        ]
    }

    fn modulus() -> (r: [u64; 6]) {
        [
            0x8508_c000_0000_0001u64,
            0x170b_5d44_3000_0000u64,
            0x1ef3_622f_ba09_4800u64,
            0x1a22_d9f3_00f5_138fu64,
            0xc63b_05c0_6ca1_493bu64,
            0x01ae_3a46_17c5_10eau64,
        ]
    }

    fn two_adicity() -> (r: u32) {
        46
    }

    fn root_of_unity() -> (r: [u64; 6]) {
        [
            0x7eca_603c_c563_b9a1u64,
            0x06df_0a43_06fe_0bc3u64,
            0xb44d_994a_0ddf_f8c6u64,
            0x40fb_e05b_4512_a3d4u64,
            0x30f1_5248_8aef_fc9bu64,
            0x0036_a92e_0519_8a80u64,
        ]
    }
}

/// The parameters of the first group of the curve.
#[derive(Clone, Copy, Debug, PartialEq, Eq)]
pub struct Bls12377G1Parameters {}

/// The first coordinate of the generator.
pub open spec fn generator_x() -> Fq {
    FpWide {
        limbs: [
            0xeab9_b16e_b21b_e9efu64,
            0xd548_1512_ffcd_394eu64,
            0x1882_82c8_bd37_cb5cu64,
            0x8595_1e2c_aa9d_41bbu64,
            0xc8fc_6225_bf87_ff54u64,
            0x0088_48de_fe74_0a67u64,
        ],
        parameters: PhantomData,
    }
}

/// The second coordinate of the generator.
pub open spec fn generator_y() -> Fq {
    FpWide {
        limbs: [
            0xfd82_de55_559c_8ea6u64,
            0xc2fe_3d36_34a9_591au64,
            0x6d18_2ad4_4fb8_2305u64,
            0xbd7f_b348_ca3e_52d9u64,
            0x1f67_4f5d_30af_eec4u64,
            0x0191_4a69_c510_2effu64,
        ],
        parameters: PhantomData,
    }
}

/// The inverse of the cofactor modulo the order of the subgroup.
pub open spec fn cofactor_inverse() -> Fr {
    FpWide {
        limbs: [0x5a9d_7fff_ffff_fffdu64, 0xabcb_f3c7_d000_0009u64, 0xd78e_73ad_8a53_8805u64, 0u64],
        parameters: PhantomData,
    }
}

impl Parameters for Bls12377G1Parameters {
    type BaseField = Fq;

    type ScalarField = Fr;

    open spec fn coeff_a_spec() -> Fq {
        Fq::zero_spec()
    }

    open spec fn coeff_b_spec() -> Fq {
        Fq::one_spec()
    }

    open spec fn cofactor_spec() -> Seq<u64> {
        seq![0u64, 0x170b_5d44_3000_0000u64]
    }

    open spec fn cofactor_inv_spec() -> Fr {
        cofactor_inverse()
    }

    open spec fn generator_spec() -> (Fq, Fq) {
        (generator_x(), generator_y())
    }

    fn coeff_a() -> (r: Fq) {
        Fq::zero()
    }

    fn coeff_b() -> (r: Fq) {
        Fq::one()
    }

    fn cofactor() -> (r: Vec<u64>) {
        let mut r: Vec<u64> = Vec::new();
        r.push(0u64);
        r.push(0x170b_5d44_3000_0000u64);
        assert(r@ =~= seq![0u64, 0x170b_5d44_3000_0000u64]);
        r
    }

    fn cofactor_inv() -> (r: Fr) {
        FpWide {
            limbs: [0x5a9d_7fff_ffff_fffdu64, 0xabcb_f3c7_d000_0009u64, 0xd78e_73ad_8a53_8805u64, 0u64],
            parameters: PhantomData,
        }
    }

    fn affine_generator_coeffs() -> (r: (Fq, Fq)) {
        (
            FpWide {
                limbs: [
                    0xeab9_b16e_b21b_e9efu64,
                    0xd548_1512_ffcd_394eu64,
                    0x1882_82c8_bd37_cb5cu64,
                    0x8595_1e2c_aa9d_41bbu64,
                    0xc8fc_6225_bf87_ff54u64,
                    0x0088_48de_fe74_0a67u64,
                ],
                parameters: PhantomData,
            },
            FpWide {
                limbs: [
                    0xfd82_de55_559c_8ea6u64,
                    0xc2fe_3d36_34a9_591au64,
                    0x6d18_2ad4_4fb8_2305u64,
                    0xbd7f_b348_ca3e_52d9u64,
                    0x1f67_4f5d_30af_eec4u64,
                    0x0191_4a69_c510_2effu64,
                ],
                parameters: PhantomData,
            },
        )
    }
}

} // verus!
