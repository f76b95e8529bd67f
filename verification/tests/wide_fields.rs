use snarkvm_core::bytes::ByteError;
use snarkvm_core::curves::bls12_377::{Fq, FqParameters, Fr, FrParameters};
use snarkvm_core::fields::bigint::{
    add_carry, add_mod, halve, is_odd, limbs_equal, limbs_less, mul_mod, mul_small_mod,
    pow_limbs_mod, pow_small_mod, shift_limb_mod, small_limbs, sub_borrow, sub_mod, zero_limbs,
};
use snarkvm_core::fields::field::{Field, PrimeField};
use snarkvm_core::fields::fp_wide::{limbs_vec, FpParameters};
use snarkvm_core::fields::limbs::{limbs_bit_length, read_limbs, write_limbs};
use snarkvm_core::fields::pow::{pow, pow_u64};

const R: [u64; 4] = [0x0a11800000000001, 0x59aa76fed0000001, 0x60b44d1e5c37b001, 0x12ab655e9a2ca556];
const Q: [u64; 6] = [
    0x8508c00000000001,
    0x170b5d4430000000,
    0x1ef3622fba094800,
    0x1a22d9f300f5138f,
    0xc63b05c06ca1493b,
    0x01ae3a4617c510ea,
];
const A: [u64; 4] = [0x8899aabbccddeeff, 0x0011223344556677, 0xfedcba9876543210, 0x123456789abcdef0];
const B: [u64; 4] = [0x0123456789abcdef, 0x99aabbccddeeff00, 0x1122334455667788, 0x0fedcba987654321];

fn fr(limbs: [u64; 4]) -> Fr {
    Fr::from_limbs(limbs).unwrap()
}

fn fq(limbs: [u64; 6]) -> Fq {
    Fq::from_limbs(limbs).unwrap()
}

#[test]
fn limb_addition_carries_across_limbs() {
    let a = [u64::MAX, u64::MAX, 0, 0];
    let b = [1u64, 0, 0, 0];
    assert_eq!(add_carry(&a, &b), ([0, 0, 1, 0], false));
    let top = [u64::MAX; 4];
    assert_eq!(add_carry(&top, &b), ([0, 0, 0, 0], true));
    assert_eq!(add_carry(&top, &top), ([u64::MAX - 1, u64::MAX, u64::MAX, u64::MAX], true));
}

#[test]
fn limb_subtraction_borrows_across_limbs() {
    let a = [0u64, 0, 1, 0];
    let b = [1u64, 0, 0, 0];
    assert_eq!(sub_borrow(&a, &b), ([u64::MAX, u64::MAX, 0, 0], false));
    assert_eq!(sub_borrow(&b, &a), ([1, 0, u64::MAX, u64::MAX], true));
    assert_eq!(sub_borrow(&a, &a), ([0, 0, 0, 0], false));
}

#[test]
fn limb_comparison_and_parity() {
    assert!(limbs_less(&A, &R));
    assert!(!limbs_less(&R, &A));
    assert!(!limbs_less(&R, &R));
    assert!(limbs_less(&[5u64, 0], &[0u64, 1]));
    assert!(limbs_equal(&A, &A));
    assert!(!limbs_equal(&A, &B));
    assert!(is_odd(&R));
    assert!(!is_odd(&[2u64, 1]));
    assert_eq!(small_limbs::<3>(7), [7, 0, 0]);
    assert_eq!(zero_limbs::<3>(), [0, 0, 0]);
}

#[test]
fn limb_halving_moves_bits_down() {
    assert_eq!(halve(&[0u64, 1, 0]), [0x8000_0000_0000_0000, 0, 0]);
    assert_eq!(halve(&[3u64, 3, 1]), [0x8000_0000_0000_0001, 0x8000_0000_0000_0001, 0]);
    assert_eq!(halve(&[1u64]), [0]);
}

#[test]
fn modular_sum_difference_and_product_of_limbs() {
    assert_eq!(
        add_mod(&A, &B, &R),
        [0x7fab70235689bced, 0x4011670152446576, 0xaf4aa0be6f82f997, 0x0f76bcc387f57cbb]
    );
    assert_eq!(
        sub_mod(&A, &B, &R),
        [0x8776655443322110, 0x6666666666666777, 0xedba875420edba87, 0x02468acf13579bcf]
    );
    assert_eq!(sub_mod(&B, &A, &R), sub_mod(&[0; 4], &sub_mod(&A, &B, &R), &R));
    assert_eq!(
        mul_mod(&A, &B, &R),
        [0x095f7768a7f85f5a, 0x9908de920d5a45cd, 0x835593c951568d1a, 0x10cc0f0ac22e569b]
    );
    assert_eq!(mul_mod(&A, &B, &R), mul_mod(&B, &A, &R));
    assert_eq!(mul_small_mod(&A, 1, &R), A);
    assert_eq!(mul_small_mod(&A, 2, &R), add_mod(&A, &A, &R));
    assert_eq!(shift_limb_mod(&[1, 0, 0, 0], &R), [0, 1, 0, 0]);
    assert_eq!(shift_limb_mod(&A, &R), mul_mod(&A, &[0, 1, 0, 0], &R));
}

#[test]
fn modular_powers_of_limbs() {
    // 2^300 modulo the scalar modulus
    let two = small_limbs::<4>(2);
    assert_eq!(
        pow_limbs_mod(&two, &[300u64], &R),
        [0xacfd249adb84efd4, 0xdd94cb2e28ae22c8, 0xc4191d45b61eae0e, 0x0d042f98bac8f7c4]
    );
    assert_eq!(pow_small_mod(&two, 300, &R), pow_limbs_mod(&two, &[300u64], &R));
    assert_eq!(pow_small_mod(&two, 0, &R), [1, 0, 0, 0]);
    assert_eq!(pow_small_mod(&two, 10, &R), [1024, 0, 0, 0]);
    // 5^(2^70 + 3) modulo the base modulus
    let five = small_limbs::<6>(5);
    assert_eq!(
        pow_limbs_mod(&five, &[3u64, 64], &Q),
        [
            0x33c8c5fffe2bee3e,
            0x15c5047212a3eef1,
            0x7d0503841de9ed4c,
            0x483a4ff5e8f225df,
            0xf2a0c5bd21b579fd,
            0x0113131d9b23f426
        ]
    );
}

#[test]
fn limbs_bytes_round_trip() {
    let mut out = vec![7u8];
    write_limbs(&[0x0102030405060708u64, 0xff], &mut out);
    assert_eq!(out, vec![7, 8, 7, 6, 5, 4, 3, 2, 1, 0xff, 0, 0, 0, 0, 0, 0, 0]);
    assert_eq!(read_limbs::<2>(&out, 1), Ok(([0x0102030405060708u64, 0xff], 17)));
    assert_eq!(read_limbs::<2>(&out, 2), Err(ByteError::UnexpectedEof));
    assert_eq!(read_limbs::<2>(&out, 40), Err(ByteError::UnexpectedEof));
    assert_eq!(limbs_bit_length(&[0u64, 0]), 0);
    assert_eq!(limbs_bit_length(&[1u64, 0]), 1);
    assert_eq!(limbs_bit_length(&[0u64, 1]), 65);
    assert_eq!(limbs_bit_length(&[u64::MAX, u64::MAX]), 128);
    assert_eq!(limbs_vec(&[4u64, 5, 6]), vec![4, 5, 6]);
}

#[test]
fn moduli_and_sizes() {
    assert_eq!(FrParameters::modulus(), R);
    assert_eq!(FqParameters::modulus(), Q);
    assert_eq!(Fr::size_in_bits(), 253);
    assert_eq!(Fq::size_in_bits(), 377);
    assert_eq!(Fr::byte_size(), 32);
    assert_eq!(Fq::byte_size(), 48);
    assert_eq!(Fr::characteristic(), R.to_vec());
    assert_eq!(Fq::characteristic(), Q.to_vec());
    assert_eq!(fr(A).into_repr(), A.to_vec());
    assert_eq!(fr(A).to_limbs(), A);
    assert!(Fr::from_limbs(R).is_none());
    assert!(Fr::from_limbs([u64::MAX; 4]).is_none());
    assert!(Fq::from_limbs(Q).is_none());
}

#[test]
fn three_is_written_as_one_byte_and_zeros() {
    let a = Fr::from_u64(3);
    let mut out = Vec::new();
    a.write(&mut out);
    assert_eq!(out.len(), 32);
    assert_eq!(out[0], 3);
    assert!(out[1..].iter().all(|b| *b == 0));
    assert_eq!(Fr::read(&out, 0), Ok((a, 32)));
    let b = fq([1, 2, 3, 4, 5, 6]);
    let mut out = vec![0xaau8];
    b.write(&mut out);
    assert_eq!(out.len(), 49);
    assert_eq!(Fq::read(&out, 1), Ok((b, 49)));
}

#[test]
fn wide_read_rejects_what_is_no_residue() {
    let mut bytes = Vec::new();
    write_limbs(&R, &mut bytes);
    assert_eq!(Fr::read(&bytes, 0), Err(ByteError::InvalidData));
    assert_eq!(Fr::read(&vec![0xffu8; 32], 0), Err(ByteError::InvalidData));
    let mut below = R;
    below[0] -= 1;
    let mut bytes = Vec::new();
    write_limbs(&below, &mut bytes);
    assert_eq!(Fr::read(&bytes, 0), Ok((fr(below), 32)));
    assert_eq!(Fr::read(&bytes[..31], 0), Err(ByteError::UnexpectedEof));
    assert_eq!(Fr::read(&bytes, 1), Err(ByteError::UnexpectedEof));
    assert_eq!(Fq::read(&vec![0u8; 47], 0), Err(ByteError::UnexpectedEof));
}

#[test]
fn wide_field_laws_on_samples() {
    let (a, b, c) = (fr(A), fr(B), Fr::from_u64(0xdead_beef));
    let (zero, one) = (Fr::zero(), Fr::one());
    assert_eq!(a.add(&b), b.add(&a));
    assert_eq!(a.add(&b).add(&c), a.add(&b.add(&c)));
    assert_eq!(a.add(&zero), a);
    assert_eq!(a.add(&a.neg()), zero);
    assert_eq!(a.mul(&b), b.mul(&a));
    assert_eq!(a.mul(&b).mul(&c), a.mul(&b.mul(&c)));
    assert_eq!(a.mul(&one), a);
    assert_eq!(a.mul(&b.add(&c)), a.mul(&b).add(&a.mul(&c)));
    assert_eq!(a.mul(&a.inverse().unwrap()), one);
    assert_eq!(a.sub(&b).add(&b), a);
    assert_eq!(a.double(), a.add(&a));
    assert_eq!(a.square(), a.mul(&a));
    assert_eq!(a.neg().neg(), a);
    assert_eq!(zero.neg(), zero);
    assert_eq!(a.frobenius_map(3), a);
    assert!(zero.is_zero() && one.is_one() && !one.is_zero());
    assert!(zero.inverse().is_none());
}

#[test]
fn wide_field_exact_values() {
    let top = fr([0x0a11800000000000, 0x59aa76fed0000001, 0x60b44d1e5c37b001, 0x12ab655e9a2ca556]);
    assert_eq!(top.add(&Fr::from_u64(2)), Fr::one());
    assert_eq!(top.mul(&top), Fr::one());
    assert_eq!(Fr::one().neg(), top);
    assert_eq!(
        Fr::from_u64(3).inverse().unwrap().to_limbs(),
        [0xb161000000000001, 0xe671a4a9e0000000, 0x95cd88bee8252000, 0x0c72439466c86e39]
    );
    assert_eq!(
        Fq::from_u64(7).inverse().unwrap().to_limbs(),
        [
            0x7207800000000001,
            0x13c09915e0000000,
            0x1a8778bb31bed000,
            0x841ddf62931b3556,
            0x855729805d1c87e9,
            0x0170c43c145fc55b
        ]
    );
    assert_eq!(
        fr(A).mul(&fr(B)).to_limbs(),
        [0x095f7768a7f85f5a, 0x9908de920d5a45cd, 0x835593c951568d1a, 0x10cc0f0ac22e569b]
    );
    assert!(Fr::from_u64(5).is_less_than(&top));
    assert!(!top.is_less_than(&top));
}

#[test]
fn wide_field_square_roots() {
    // both moduli are 1 modulo 4: the search is Tonelli and Shanks'
    for x in [2u64, 3, 4, 9, 1 << 40] {
        let a = Fr::from_u64(x);
        let root = a.square().sqrt().unwrap();
        assert_eq!(root.square(), a.square());
        assert!(!root.neg().is_less_than(&root));
        assert!(root == a || root == a.neg());
    }
    let a = Fq::from_u64(12345);
    let root = a.square().sqrt().unwrap();
    assert!(root == a || root == a.neg());
    // 11 is the square of no scalar, 5 of no base element
    assert!(Fr::from_u64(11).sqrt().is_none());
    assert!(Fq::from_u64(5).sqrt().is_none());
    assert_eq!(Fr::zero().sqrt(), Some(Fr::zero()));
}

#[test]
fn fermat_in_the_wide_fields() {
    let mut e = R.to_vec();
    e[0] -= 1;
    assert_eq!(pow(&Fr::from_u64(2), &e), Fr::one());
    assert_eq!(pow(&fr(A), &e), Fr::one());
    assert_eq!(pow_u64(&Fr::from_u64(2), 10), Fr::from_u64(1024));
    let mut e = Q.to_vec();
    e[0] -= 1;
    assert_eq!(pow(&Fq::from_u64(3), &e), Fq::one());
}

#[test]
fn roots_of_unity_have_their_order() {
    // the root, squared one time less than the two-adicity, is minus one
    let mut x = fr(FrParameters::root_of_unity());
    for _ in 0..FrParameters::two_adicity() - 1 {
        x = x.square();
    }
    assert_eq!(x, Fr::one().neg());
    assert_eq!(x.square(), Fr::one());
    let mut x = fq(FqParameters::root_of_unity());
    for _ in 0..FqParameters::two_adicity() - 1 {
        x = x.square();
    }
    assert_eq!(x, Fq::one().neg());
    // the modulus less one is an odd number times two to the two-adicity
    assert_eq!((R[0] - 1).trailing_zeros(), FrParameters::two_adicity());
    assert_eq!((Q[0] - 1).trailing_zeros(), FqParameters::two_adicity());
}

#[test]
fn every_small_square_has_a_root() {
    for x in 0u64..200 {
        let a = Fr::from_u64(x).square();
        let root = a.sqrt().unwrap();
        assert_eq!(root.square(), a);
    }
    // by Euler's criterion 42 of the numbers from 1 to 59 are squares of the base field
    let squares = (1u64..60).filter(|x| Fq::from_u64(*x).sqrt().is_some()).count();
    assert_eq!(squares, 42);
}
