use rand::rngs::StdRng;
use rand::{Rng, SeedableRng};
use snarkvm_core::bits::BitIteratorBE;
use snarkvm_core::bytes::ByteError;
use snarkvm_core::curves::bls12_377::{Bls12377G1Parameters, Fq, Fr, FrParameters};
use snarkvm_core::curves::parameters::Parameters;
use snarkvm_core::curves::short_weierstrass_jacobian::{GroupAffine, GroupProjective};
use snarkvm_core::fields::field::Field;
use snarkvm_core::fields::fp_wide::FpParameters;

type G1Affine = GroupAffine<Bls12377G1Parameters>;
type G1Projective = GroupProjective<Bls12377G1Parameters>;

const TWO_G: ([u64; 6], [u64; 6]) = (
    [
        0x857aed6d6a416390,
        0x880661656781dc90,
        0xe90e97c9a2301955,
        0x7e61f7f3dd2a4b7e,
        0x056edb5a4b5452ed,
        0x00ed453141939e91,
    ],
    [
        0xe2dd5e8727d7c7ed,
        0xd6a23f5675ed5ca7,
        0xe80b12f135c64479,
        0xad99cdae42c561ca,
        0xae04601813171337,
        0x00cfb0b9717bc8e5,
    ],
);
const THREE_G: ([u64; 6], [u64; 6]) = (
    [
        0x15abc604dcf6ec2e,
        0x63d817bd8d96cef7,
        0x712e11f66a5d216e,
        0x1a46543890a20ca9,
        0xdb36291b433a1f91,
        0x01252b781171f507,
    ],
    [
        0xfd1330d1f6e6d802,
        0xfe5cd981533df419,
        0xc54ce572a61f0ea1,
        0x2c823a19955ae692,
        0x987cc438b51bbe01,
        0x014a00fa77c727e8,
    ],
);
// (2^64 + 5) G
const WIDE_G: ([u64; 6], [u64; 6]) = (
    [
        0xb8479803966e1e03,
        0x4a0d504eec7b09f5,
        0xd2f157fbc3bd2463,
        0x179aba401534671e,
        0x409cef6df267b119,
        0x00a1978dfe5ae4a4,
    ],
    [
        0xd1bb027d8839217c,
        0xc58ffca5cee4fa1d,
        0xbba584cbaa27efa9,
        0x6db0cdcb7714b903,
        0x328ce9dec2061a02,
        0x016c2f274936f024,
    ],
);

fn coordinates(p: &G1Affine) -> ([u64; 6], [u64; 6]) {
    (p.x.to_limbs(), p.y.to_limbs())
}

#[test]
fn the_generator_is_on_the_curve_and_in_the_subgroup() {
    let g = G1Affine::prime_subgroup_generator();
    assert!(!g.infinity);
    assert!(g.is_on_curve());
    assert!(g.is_in_correct_subgroup_assuming_on_curve());
    assert_eq!(Bls12377G1Parameters::coeff_a(), Fq::zero());
    assert_eq!(Bls12377G1Parameters::coeff_b(), Fq::one());
}

#[test]
fn the_cofactor_and_its_inverse_cancel() {
    let h = Fr::from_limbs([0, 0x170b5d4430000000, 0, 0]).unwrap();
    assert_eq!(h.mul(&Bls12377G1Parameters::cofactor_inv()), Fr::one());
    assert_eq!(Bls12377G1Parameters::cofactor(), vec![0u64, 0x170b5d4430000000]);
}

#[test]
fn small_multiples_of_the_generator() {
    let g = G1Affine::prime_subgroup_generator();
    let gp = g.into_projective();
    let two = gp.double();
    assert_eq!(coordinates(&two.into_affine()), TWO_G);
    assert!(gp.add(&gp).eq(&two));
    let three = two.add(&gp);
    assert_eq!(coordinates(&three.into_affine()), THREE_G);
    let mut mixed = two;
    mixed.add_assign_mixed(&g);
    assert!(mixed.eq(&three));
    assert!(gp.mul(&Fr::from_u64(3)).eq(&three));
    assert!(three.sub(&gp).eq(&two));
    assert!(gp.add(&gp.neg()).is_zero());
    assert!(two.into_affine().is_on_curve());
}

#[test]
fn a_scalar_of_two_limbs() {
    let g = G1Affine::prime_subgroup_generator();
    let k = Fr::from_limbs([5, 1, 0, 0]).unwrap();
    let p = g.into_projective().mul(&k).into_affine();
    assert_eq!(coordinates(&p), WIDE_G);
    let by_bits = g.mul_bits(BitIteratorBE::new(vec![5u64, 1])).into_affine();
    assert_eq!(coordinates(&by_bits), WIDE_G);
}

#[test]
fn the_order_of_the_subgroup_annihilates_the_generator() {
    let g = G1Affine::prime_subgroup_generator();
    let order = vec![0x0a11800000000001u64, 0x59aa76fed0000001, 0x60b44d1e5c37b001, 0x12ab655e9a2ca556];
    assert!(g.mul_bits(BitIteratorBE::new(order)).is_zero());
}

#[test]
fn the_generator_survives_encoding() {
    let g = G1Affine::prime_subgroup_generator();
    let mut bytes = Vec::new();
    g.write(&mut bytes);
    assert_eq!(bytes.len(), 97);
    assert_eq!(bytes[0], 0xef);
    assert_eq!(bytes[96], 0);
    let (back, next) = G1Affine::read(&bytes, 0).unwrap();
    assert_eq!(next, 97);
    assert_eq!(coordinates(&back), coordinates(&g));
    assert!(!back.infinity);

    let gp = g.into_projective().double();
    let mut bytes = Vec::new();
    gp.write(&mut bytes);
    assert_eq!(bytes.len(), 144);
    let (back, next) = G1Projective::read(&bytes, 0).unwrap();
    assert_eq!(next, 144);
    assert!(back.eq(&gp));
}

#[test]
fn an_infinity_flag_on_other_coordinates_is_rejected() {
    let g = G1Affine::prime_subgroup_generator();
    let mut bytes = Vec::new();
    g.write(&mut bytes);
    bytes[96] = 1;
    assert_eq!(G1Affine::read(&bytes, 0).err(), Some(ByteError::InvalidData));
    bytes[96] = 2;
    assert_eq!(G1Affine::read(&bytes, 0).err(), Some(ByteError::InvalidData));
    // a point off the curve
    bytes[96] = 0;
    bytes[0] ^= 1;
    assert_eq!(G1Affine::read(&bytes, 0).err(), Some(ByteError::InvalidData));
    assert_eq!(G1Affine::read(&bytes[..96], 0).err(), Some(ByteError::UnexpectedEof));
    // the point at infinity itself
    let zero = G1Affine::zero();
    let mut bytes = Vec::new();
    zero.write(&mut bytes);
    assert_eq!(bytes[48], 1);
    assert_eq!(bytes[96], 1);
    let (back, _) = G1Affine::read(&bytes, 0).unwrap();
    assert!(back.infinity);
}

#[test]
fn the_generator_from_its_first_coordinate() {
    let g = G1Affine::prime_subgroup_generator();
    // the second coordinate of the generator is the greater of the two
    let great = G1Affine::from_x_coordinate(g.x, true).unwrap();
    let small = G1Affine::from_x_coordinate(g.x, false).unwrap();
    assert_eq!(coordinates(&great), coordinates(&g));
    assert_eq!(coordinates(&small), coordinates(&g.neg()));
    assert!(small.y.is_less_than(&great.y));
}

const ITERATIONS: usize = 2;

fn random_scalar(rng: &mut StdRng) -> Fr {
    let modulus = FrParameters::modulus();
    loop {
        let mut limbs = [0u64; 4];
        for limb in limbs.iter_mut() {
            *limb = rng.gen();
        }
        limbs[3] >>= modulus[3].leading_zeros();
        if let Some(e) = Fr::from_limbs(limbs) {
            return e;
        }
    }
}

fn random_point(rng: &mut StdRng) -> G1Projective {
    G1Projective::prime_subgroup_generator().mul(&random_scalar(rng))
}

fn same_affine(a: &G1Affine, b: &G1Affine) -> bool {
    a.infinity == b.infinity && (a.infinity || (a.x == b.x && a.y == b.y))
}

fn random_addition_test() {
    let mut rng = StdRng::seed_from_u64(11);
    for _ in 0..ITERATIONS {
        let a = random_point(&mut rng);
        let b = random_point(&mut rng);
        let c = random_point(&mut rng);
        let a_affine = a.into_affine();
        let b_affine = b.into_affine();
        let c_affine = c.into_affine();

        assert!(a.add(&a).eq(&a.double()));
        let zero = G1Projective::zero();
        assert!(a.add(&zero).eq(&a));
        assert!(zero.add(&a).eq(&a));
        assert!(a.sub(&a).is_zero());
        assert!(a.add(&a.neg()).is_zero());
        assert!(a.add(&b).eq(&b.add(&a)));

        // (a + b) + c in every order and in mixed form
        let t0 = a.add(&b).add(&c);
        let t1 = a.add(&b.add(&c));
        let t2 = a.add(&c).add(&b);
        let mut t3 = a;
        t3.add_assign_mixed(&b_affine);
        t3.add_assign_mixed(&c_affine);
        let mut t4 = b;
        t4.add_assign_mixed(&c_affine);
        t4.add_assign_mixed(&a_affine);
        assert!(t0.eq(&t1));
        assert!(t0.eq(&t2));
        assert!(t0.eq(&t3));
        assert!(t0.eq(&t4));

        let affine = a_affine.add(&b_affine).add(&c_affine);
        assert!(affine.is_on_curve());
        assert!(t0.eq(&affine.into_projective()));
    }
}

fn random_multiplication_test() {
    let mut rng = StdRng::seed_from_u64(12);
    for _ in 0..ITERATIONS {
        let a = random_point(&mut rng);
        let b = random_point(&mut rng);
        let s = random_scalar(&mut rng);
        let t = random_scalar(&mut rng);

        // s (a + b) = s a + s b
        assert!(a.add(&b).mul(&s).eq(&a.mul(&s).add(&b.mul(&s))));
        // s (t a) = (s t) a
        assert!(a.mul(&t).mul(&s).eq(&a.mul(&s.mul(&t))));
        // (s + t) a = s a + t a
        assert!(a.mul(&s.add(&t)).eq(&a.mul(&s).add(&a.mul(&t))));
        // the same multiple from the affine form
        let affine = a.into_affine();
        assert!(affine.mul(&s).into_projective().eq(&a.mul(&s)));
        let mut m = a;
        m.mul_assign(&s);
        assert!(m.eq(&a.mul(&s)));
    }
}

fn random_doubling_test() {
    let mut rng = StdRng::seed_from_u64(13);
    for _ in 0..ITERATIONS {
        let a = random_point(&mut rng);
        let b = random_point(&mut rng);
        // 2 (a + b) = 2a + 2b
        assert!(a.add(&b).double().eq(&a.double().add(&b.double())));
        let mut d = a;
        d.double_in_place();
        assert!(d.eq(&a.add(&a)));
        assert!(d.into_affine().is_on_curve());
        assert!(a.mul(&Fr::from_u64(2)).eq(&a.double()));
        assert!(a.into_affine().double().into_projective().eq(&a.double()));
    }
}

fn random_negation_test() {
    let mut rng = StdRng::seed_from_u64(14);
    for _ in 0..ITERATIONS {
        let r = random_point(&mut rng);
        let s = random_scalar(&mut rng);
        let sneg = s.neg();
        assert!(s.add(&sneg).is_zero());
        let t1 = r.mul(&s);
        let t2 = r.mul(&sneg);
        assert!(t1.add(&t2).is_zero());
        assert!(t1.neg().eq(&t2));
        assert!(!t1.is_zero());
    }
}

fn random_transformation_test() {
    let mut rng = StdRng::seed_from_u64(15);
    for _ in 0..ITERATIONS {
        let g = random_point(&mut rng);
        assert!(g.eq(&g.into_affine().into_projective()));
    }
    // batch normalization
    let mut v: Vec<G1Projective> = (0..8).map(|_| random_point(&mut rng).double()).collect();
    v[2] = G1Projective::zero();
    v[5] = v[5].into_affine().into_projective();
    let expected: Vec<G1Projective> = v.iter().map(|p| p.into_affine().into_projective()).collect();
    G1Projective::batch_normalization(&mut v);
    for (a, b) in v.iter().zip(expected.iter()) {
        assert!(a.is_normalized());
        assert!(a.eq(b));
        assert!(same_affine(&a.into_affine(), &b.into_affine()));
        if !a.is_zero() {
            assert!(a.z.is_one());
            assert_eq!(a.x, b.x);
            assert_eq!(a.y, b.y);
        }
    }
}

fn curve_tests() {
    // negation and doubling edge cases with zero
    assert!(G1Projective::zero().neg().is_zero());
    let mut z = G1Projective::zero();
    z.double_in_place();
    assert!(z.is_zero());
    // addition edge cases with zero
    let mut r = random_point(&mut StdRng::seed_from_u64(16));
    let rcopy = r;
    r.add_assign(&G1Projective::zero());
    assert!(r.eq(&rcopy));
    r.add_assign_mixed(&G1Affine::zero());
    assert!(r.eq(&rcopy));
    let mut z = G1Projective::zero();
    z.add_assign(&G1Projective::zero());
    assert!(z.is_zero());
    z.add_assign_mixed(&G1Affine::zero());
    assert!(z.is_zero());
    let mut z2 = z;
    z2.add_assign(&r);
    z.add_assign_mixed(&r.into_affine());
    assert!(z.eq(&z2));
    assert!(z.eq(&r));
    // transformations
    let a = G1Projective::zero();
    let b = a.into_affine().into_projective();
    let c = a.into_affine().into_projective().into_affine().into_projective();
    assert!(a.eq(&b));
    assert!(b.eq(&c));

    random_addition_test();
    random_multiplication_test();
    random_doubling_test();
    random_negation_test();
    random_transformation_test();
}

fn sw_tests() {
    let mut rng = StdRng::seed_from_u64(17);
    // serialization of random points, in both coordinate systems
    for _ in 0..ITERATIONS {
        let a = random_point(&mut rng);
        let a_affine = a.into_affine();
        let mut bytes = Vec::new();
        a_affine.write(&mut bytes);
        assert_eq!(bytes.len(), 97);
        let (b, next) = G1Affine::read(&bytes, 0).unwrap();
        assert_eq!(next, 97);
        assert!(same_affine(&a_affine, &b));

        let mut bytes = Vec::new();
        a.write(&mut bytes);
        assert_eq!(bytes.len(), 144);
        let (c, next) = G1Projective::read(&bytes, 0).unwrap();
        assert_eq!(next, 144);
        assert_eq!((c.x, c.y, c.z), (a.x, a.y, a.z));
    }
    // points from x-coordinates are on the curve, and the flag picks the root
    let mut found = 0;
    for x in 0..12u64 {
        let x = Fq::from_u64(x);
        let small = G1Affine::from_x_coordinate(x, false);
        let great = G1Affine::from_x_coordinate(x, true);
        assert_eq!(small.is_some(), great.is_some());
        if let (Some(s), Some(g)) = (small, great) {
            found += 1;
            assert!(s.is_on_curve());
            assert!(g.is_on_curve());
            assert_eq!(s.x, x);
            assert_eq!(g.x, x);
            assert_eq!(s.y, g.y.neg());
            assert!(!g.y.is_less_than(&s.y));
            // scaled by the cofactor, the point is in the subgroup
            let p = s.scale_by_cofactor().into_affine();
            assert!(p.is_on_curve());
            assert!(p.is_in_correct_subgroup_assuming_on_curve());
            let q = G1Affine::sample_attempt(x, false).unwrap();
            assert!(same_affine(&p, &q));
        } else {
            assert!(G1Affine::sample_attempt(x, true).is_none());
        }
    }
    assert!(found >= 3);
}

#[test]
fn test_g1_projective_curve() {
    curve_tests();

    sw_tests();
}

#[test]
fn test_g1_projective_group() {
    let mut rng = StdRng::seed_from_u64(21);
    let a = random_point(&mut rng);
    let b = random_point(&mut rng);
    let zero = G1Projective::zero();
    let fr_zero = Fr::zero();
    let fr_one = Fr::one();
    let fr_two = fr_one.add(&fr_one);
    assert!(zero.is_zero());
    assert!(a.mul(&fr_one).eq(&a));
    assert!(a.mul(&fr_two).eq(&a.add(&a)));
    assert!(a.mul(&fr_zero).is_zero());
    assert!(a.mul(&fr_zero).sub(&a).eq(&a.neg()));
    assert!(a.mul(&fr_one).sub(&a).is_zero());
    assert!(a.mul(&fr_two).sub(&a).eq(&a));
    // a + 0 = a, a - 0 = a, 0 - a = -a, a - b = -(b - a)
    assert!(a.add(&zero).eq(&a));
    assert!(a.sub(&zero).eq(&a));
    assert!(zero.sub(&a).eq(&a.neg()));
    assert!(a.sub(&b).eq(&b.sub(&a).neg()));
    // associativity and commutativity
    assert!(a.add(&b).eq(&b.add(&a)));
    assert!(a.add(&b).add(&a).eq(&a.add(&b.add(&a))));
    assert!(a.double().eq(&a.add(&a)));
    assert!(b.double().eq(&b.add(&b)));
    // distributivity of scalars
    let fr_rand1 = random_scalar(&mut rng);
    let fr_rand2 = random_scalar(&mut rng);
    let a_rand1 = a.mul(&fr_rand1);
    let a_rand2 = a.mul(&fr_rand2);
    let fr_three = fr_two.add(&fr_rand1);
    let a_two = a.mul(&fr_two);
    assert!(a_two.eq(&a.double()));
    assert!(a_rand1.add(&a_rand2).eq(&a.mul(&fr_rand1.add(&fr_rand2))));
    assert!(a_two.add(&a_rand1).eq(&a.mul(&fr_three)));
    assert!(a.add(&b).mul(&fr_rand1).eq(&a_rand1.add(&b.mul(&fr_rand1))));
}

#[test]
fn test_g1_generator() {
    let generator = G1Affine::prime_subgroup_generator();
    assert!(generator.is_on_curve());
    assert!(generator.is_in_correct_subgroup_assuming_on_curve());
}
