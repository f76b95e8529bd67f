use rand::rngs::StdRng;
use rand::{Rng, SeedableRng};
use snarkvm_core::bytes::ByteError;
use snarkvm_core::curves::bw6_761::{Fq, FqParameters, Fr};
use snarkvm_core::fields::field::{Field, PrimeField};
use snarkvm_core::fields::fp_wide::{FpParameters, FpWide};
use snarkvm_core::fields::pow::pow;

fn random<P: FpParameters<N>, const N: usize>(rng: &mut StdRng) -> FpWide<P, N> {
    let modulus = P::modulus();
    loop {
        let mut limbs = [0u64; N];
        for limb in limbs.iter_mut() {
            *limb = rng.gen();
        }
        limbs[N - 1] >>= modulus[N - 1].leading_zeros();
        if let Some(e) = FpWide::<P, N>::from_limbs(limbs) {
            return e;
        }
    }
}

fn field_test<F: Field + PartialEq + std::fmt::Debug>(a: F, b: F) {
    let zero = F::zero();
    let one = F::one();
    assert!(zero.is_zero() && !one.is_zero() && one.is_one());
    assert_eq!(a.add(&zero), a);
    assert_eq!(a.mul(&one), a);
    assert_eq!(a.mul(&zero), zero);
    assert_eq!(a.add(&b), b.add(&a));
    assert_eq!(a.mul(&b), b.mul(&a));
    assert_eq!(a.add(&b).add(&a), a.add(&b.add(&a)));
    assert_eq!(a.mul(&b).mul(&a), a.mul(&b.mul(&a)));
    assert_eq!(a.add(&b).mul(&a), a.mul(&a).add(&b.mul(&a)));
    assert_eq!(a.sub(&b).add(&b), a);
    assert_eq!(a.add(&a.neg()), zero);
    assert_eq!(a.double(), a.add(&a));
    assert_eq!(a.square(), a.mul(&a));
    // (a + b)^2 = a^2 + 2ab + b^2
    assert_eq!(a.add(&b).square(), a.square().add(&a.mul(&b).double()).add(&b.square()));
    if !a.is_zero() {
        let inv = a.inverse().unwrap();
        assert_eq!(a.mul(&inv), one);
        assert_eq!(inv.inverse().unwrap(), a);
    }
    assert!(zero.inverse().is_none());
    assert_eq!(a.frobenius_map(1), a);
}

fn sqrt_field_test<F: Field + PartialEq + std::fmt::Debug>(a: F) {
    let square = a.square();
    let root = square.sqrt().unwrap();
    assert!(root == a || root == a.neg());
    if let Some(r) = a.sqrt() {
        assert_eq!(r.square(), a);
    }
}

fn primefield_test<F: PrimeField + PartialEq + std::fmt::Debug>() {
    let one = F::one();
    let repr = one.into_repr();
    assert_eq!(repr[0], 1);
    assert!(repr[1..].iter().all(|l| *l == 0));
    assert!(F::zero().into_repr().iter().all(|l| *l == 0));
    assert_eq!(F::characteristic().len(), repr.len());
    // Fermat: 3^(p - 1) = 1
    let mut e = F::characteristic();
    e[0] -= 1;
    let three = one.double().add(&one);
    assert_eq!(pow(&three, &e), one);
}

fn field_serialization_test<F: Field + PartialEq + std::fmt::Debug>(a: F) {
    let mut bytes = vec![0x55u8];
    a.write(&mut bytes);
    assert_eq!(bytes.len(), 1 + F::byte_size());
    assert_eq!(F::read(&bytes, 1), Ok((a, bytes.len())));
    assert_eq!(F::read(&bytes[..bytes.len() - 1], 1), Err(ByteError::UnexpectedEof));
    for b in bytes.iter_mut() {
        *b = 0xff;
    }
    assert_eq!(F::read(&bytes, 1), Err(ByteError::InvalidData));
}

#[test]
fn test_bw6_761_fr() {
    let mut rng = StdRng::seed_from_u64(761);
    let a: Fr = random(&mut rng);
    let b: Fr = random(&mut rng);
    field_test(a, b);
    sqrt_field_test(a);
    primefield_test::<Fr>();
}

#[test]
fn test_bw6_761_fq() {
    let mut rng = StdRng::seed_from_u64(7610);
    let a: Fq = random(&mut rng);
    let b: Fq = random(&mut rng);
    field_test(a, b);
    primefield_test::<Fq>();
    sqrt_field_test(a);
    field_serialization_test::<Fq>(a);
}

#[test]
fn the_base_field_of_bw6_761() {
    assert_eq!(Fq::size_in_bits(), 761);
    assert_eq!(Fq::byte_size(), 96);
    assert_eq!(Fr::size_in_bits(), 377);
    assert_eq!(FqParameters::two_adicity(), 1);
    let minus_one = Fq::from_limbs(FqParameters::root_of_unity()).unwrap();
    assert_eq!(minus_one, Fq::one().neg());
    assert_eq!(
        Fq::from_u64(5).inverse().unwrap().to_limbs(),
        [
            0xfdb900000000001c,
            0x61503fae7ccccce6,
            0x6acf64efc896873e,
            0xb82037c077ae54fe,
            0xb05f5d927d95996f,
            0x4e1b8e95d09865e9,
            0x00c2f233078a6d67,
            0xe34bee0b611a9505,
            0xaa1a17964ce7f2d9,
            0x583ad1aee6c37481,
            0x5d1b284000feffd9,
            0x003a2e6dcbe72935
        ]
    );
}
