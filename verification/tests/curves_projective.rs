use rand::distributions::{Distribution, Uniform};
use rand::rngs::StdRng;
use rand::{Rng, SeedableRng};
use snarkvm_core::bits::BitIteratorBE;
use snarkvm_core::curves::parameters::Parameters;
use snarkvm_core::curves::short_weierstrass_projective::{GroupAffine, GroupProjective};
use snarkvm_core::curves::small::SmallCurve;
use snarkvm_core::fields::field::Field;
use snarkvm_core::fields::fp::Fp;

// y^2 = x^3 + 3 over the integers modulo 10009: 10173 = 3 * 3391 points
type G1Parameters = SmallCurve<10009, 3391, 0, 3, 350, 1676, 3, 2261>;
// y^2 = x^3 + x + 9 over the integers modulo 10007: 9987 = 3 * 3329 points
type G2Parameters = SmallCurve<10007, 3329, 1, 9, 6700, 3970, 3, 1110>;

const ITERATIONS: usize = 40;

fn random_scalar<P: Parameters<ScalarField = Fp<R>>, const R: u64>(rng: &mut StdRng) -> Fp<R> {
    Fp::<R>::from_u64(rng.gen::<u64>())
}

fn random_point<P: Parameters<ScalarField = Fp<R>>, const R: u64>(
    rng: &mut StdRng,
) -> GroupProjective<P> {
    GroupProjective::<P>::prime_subgroup_generator().mul(&random_scalar::<P, R>(rng))
}

fn same_affine<P: Parameters<BaseField = Fp<Q>>, const Q: u64>(
    a: &GroupAffine<P>,
    b: &GroupAffine<P>,
) -> bool {
    a.infinity == b.infinity && (a.infinity || (a.x == b.x && a.y == b.y))
}

fn random_addition_test<P: Parameters<ScalarField = Fp<R>>, const R: u64>() {
    let mut rng = StdRng::seed_from_u64(11);
    for _ in 0..ITERATIONS {
        let a = random_point::<P, R>(&mut rng);
        let b = random_point::<P, R>(&mut rng);
        let c = random_point::<P, R>(&mut rng);
        let a_affine = a.into_affine();
        let b_affine = b.into_affine();
        let c_affine = c.into_affine();

        // a + a is the double of a
        assert!(a.add(&a).eq(&a.double()));
        // a + 0 = a, 0 + a = a
        let zero = GroupProjective::<P>::zero();
        assert!(a.add(&zero).eq(&a));
        assert!(zero.add(&a).eq(&a));
        // a - a = 0
        assert!(a.sub(&a).is_zero());
        assert!(a.add(&a.neg()).is_zero());
        // a + b = b + a
        assert!(a.add(&b).eq(&b.add(&a)));

        // (a + b) + c in every order and in mixed form
        let t0 = a.add(&b).add(&c);
        let t1 = a.add(&b.add(&c));
        let t2 = a.add(&c).add(&b);
        let mut t3 = a;
        t3.add_assign_mixed(&b_affine);
        t3.add_assign_mixed(&c_affine);
        let mut t4 = b;
        t4.add_assign_mixed(&c_affine);
        t4.add_assign_mixed(&a_affine);
        assert!(t0.eq(&t1));
        assert!(t0.eq(&t2));
        assert!(t0.eq(&t3));
        assert!(t0.eq(&t4));

        let affine = a_affine.add(&b_affine).add(&c_affine);
        assert!(affine.is_on_curve());
        assert!(t0.eq(&affine.into_projective()));
    }
}

fn random_multiplication_test<P: Parameters<ScalarField = Fp<R>>, const R: u64>() {
    let mut rng = StdRng::seed_from_u64(12);
    for _ in 0..ITERATIONS {
        let a = random_point::<P, R>(&mut rng);
        let b = random_point::<P, R>(&mut rng);
        let s = random_scalar::<P, R>(&mut rng);
        let t = random_scalar::<P, R>(&mut rng);

        // s (a + b) = s a + s b
        assert!(a.add(&b).mul(&s).eq(&a.mul(&s).add(&b.mul(&s))));
        // s (t a) = (s t) a
        assert!(a.mul(&t).mul(&s).eq(&a.mul(&s.mul(&t))));
        // (s + t) a = s a + t a
        assert!(a.mul(&s.add(&t)).eq(&a.mul(&s).add(&a.mul(&t))));
        // the same multiple from the affine form
        let affine = a.into_affine();
        assert!(affine.mul(&s).into_projective().eq(&a.mul(&s)));
        let mut m = a;
        m.mul_assign(&s);
        assert!(m.eq(&a.mul(&s)));
    }
}

fn random_doubling_test<P: Parameters<ScalarField = Fp<R>>, const R: u64>() {
    let mut rng = StdRng::seed_from_u64(13);
    for _ in 0..ITERATIONS {
        let a = random_point::<P, R>(&mut rng);
        let b = random_point::<P, R>(&mut rng);
        // 2 (a + b) = 2a + 2b
        let t0 = a.add(&b).double();
        let t1 = a.double().add(&b.double());
        assert!(t0.eq(&t1));
        let mut d = a;
        d.double_in_place();
        assert!(d.eq(&a.add(&a)));
        // 2 a as a multiple
        assert!(a.mul(&Fp::<R>::from_u64(2)).eq(&a.double()));
        // affine doubling
        let aa = a.into_affine();
        assert!(aa.double().into_projective().eq(&a.double()));
    }
}

fn random_negation_test<P: Parameters<ScalarField = Fp<R>>, const R: u64>() {
    let mut rng = StdRng::seed_from_u64(14);
    for _ in 0..ITERATIONS {
        let r = random_point::<P, R>(&mut rng);
        let s = random_scalar::<P, R>(&mut rng);
        let sneg = s.neg();
        assert!(s.add(&sneg).is_zero());
        let t1 = r.mul(&s);
        let t2 = r.mul(&sneg);
        assert!(t1.add(&t2).is_zero());
        assert!(t1.neg().eq(&t2));
        assert!(t1.neg().neg().eq(&t1));
        let a = t1.into_affine();
        assert!(a.add(&a.neg()).infinity);
        assert!(a.sub(&a).infinity);
    }
}

fn random_transformation_test<P: Parameters<ScalarField = Fp<R>, BaseField = Fp<Q>>, const R: u64, const Q: u64>() {
    let mut rng = StdRng::seed_from_u64(15);
    for _ in 0..ITERATIONS {
        let g = random_point::<P, R>(&mut rng);
        let g_affine = g.into_affine();
        let g_projective = g_affine.into_projective();
        assert!(g.eq(&g_projective));
    }
    // batch normalization
    for _ in 0..10 {
        let mut v: Vec<GroupProjective<P>> = (0..60).map(|_| random_point::<P, R>(&mut rng).double()).collect();
        let between = Uniform::from(0..60);
        // sprinkle in some normalized points
        for _ in 0..5 {
            v[between.sample(&mut rng)] = GroupProjective::<P>::zero();
        }
        for _ in 0..5 {
            let s = between.sample(&mut rng);
            v[s] = v[s].into_affine().into_projective();
        }
        let expected_v: Vec<GroupProjective<P>> =
            v.iter().map(|v| v.into_affine().into_projective()).collect();
        GroupProjective::<P>::batch_normalization(&mut v);
        for i in &v {
            assert!(i.is_normalized());
        }
        for (a, b) in v.iter().zip(expected_v.iter()) {
            assert!(a.eq(b));
            assert!(same_affine(&a.into_affine(), &b.into_affine()));
            if !a.is_zero() {
                assert!(a.z.is_one());
                assert_eq!(a.x, b.x);
                assert_eq!(a.y, b.y);
            }
        }
    }
}

fn curve_tests<P: Parameters<ScalarField = Fp<R>, BaseField = Fp<Q>>, const R: u64, const Q: u64>() {
    // negation edge case with zero
    let z = GroupProjective::<P>::zero().neg();
    assert!(z.is_zero());
    // doubling edge case with zero
    let mut z = GroupProjective::<P>::zero();
    z.double_in_place();
    assert!(z.is_zero());
    // addition edge cases with zero
    let mut r = random_point::<P, R>(&mut StdRng::seed_from_u64(16));
    let rcopy = r;
    r.add_assign(&GroupProjective::<P>::zero());
    assert!(r.eq(&rcopy));
    r.add_assign_mixed(&GroupAffine::<P>::zero());
    assert!(r.eq(&rcopy));
    let mut z = GroupProjective::<P>::zero();
    z.add_assign(&GroupProjective::<P>::zero());
    assert!(z.is_zero());
    z.add_assign_mixed(&GroupAffine::<P>::zero());
    assert!(z.is_zero());
    let mut z2 = z;
    z2.add_assign(&r);
    z.add_assign_mixed(&r.into_affine());
    assert!(z.eq(&z2));
    assert!(z.eq(&r));
    // transformations
    let a = GroupProjective::<P>::zero();
    let b = a.into_affine().into_projective();
    let c = a.into_affine().into_projective().into_affine().into_projective();
    assert!(a.eq(&b));
    assert!(b.eq(&c));

    random_addition_test::<P, R>();
    random_multiplication_test::<P, R>();
    random_doubling_test::<P, R>();
    random_negation_test::<P, R>();
    random_transformation_test::<P, R, Q>();
}

fn sw_tests<P: Parameters<ScalarField = Fp<R>, BaseField = Fp<Q>>, const R: u64, const Q: u64>() {
    let mut rng = StdRng::seed_from_u64(17);
    // serialization of random points, in both coordinate systems
    for _ in 0..ITERATIONS {
        let a = random_point::<P, R>(&mut rng);
        let a_affine = a.into_affine();
        let mut bytes = Vec::new();
        a_affine.write(&mut bytes);
        assert_eq!(bytes.len(), 17);
        let (b, next) = GroupAffine::<P>::read(&bytes, 0).unwrap();
        assert_eq!(next, 17);
        assert!(same_affine(&a_affine, &b));

        let mut bytes = Vec::new();
        a.write(&mut bytes);
        assert_eq!(bytes.len(), 24);
        let (c, next) = GroupProjective::<P>::read(&bytes, 0).unwrap();
        assert_eq!(next, 24);
        assert_eq!((c.x, c.y, c.z), (a.x, a.y, a.z));
    }
    // the point at infinity
    let zero = GroupAffine::<P>::zero();
    let mut bytes = Vec::new();
    zero.write(&mut bytes);
    let (b, _) = GroupAffine::<P>::read(&bytes, 0).unwrap();
    assert!(b.is_zero());
    // points from x-coordinates are on the curve, and the flag picks the root
    let mut found = 0;
    for x in 0..200u64 {
        let x = Fp::<Q>::from_u64(x);
        let small = GroupAffine::<P>::from_x_coordinate(x, false);
        let great = GroupAffine::<P>::from_x_coordinate(x, true);
        assert_eq!(small.is_some(), great.is_some());
        if let (Some(s), Some(g)) = (small, great) {
            found += 1;
            assert!(s.is_on_curve());
            assert!(g.is_on_curve());
            assert_eq!(s.x, x);
            assert_eq!(g.x, x);
            assert_eq!(s.y, g.y.neg());
            assert!(s.y.value() <= g.y.value());
            // scaled by the cofactor, the point is in the subgroup
            let p = s.scale_by_cofactor().into_affine();
            assert!(p.is_on_curve());
            assert!(p.is_in_correct_subgroup_assuming_on_curve());
            let q = GroupAffine::<P>::sample_attempt(x, false).unwrap();
            assert!(same_affine(&p, &q));
        } else {
            assert!(GroupAffine::<P>::sample_attempt(x, true).is_none());
        }
    }
    assert!(found > 50);
}

#[test]
fn test_g1_projective_curve_in_projective_coordinates() {
    curve_tests::<G1Parameters, 3391, 10009>();

    sw_tests::<G1Parameters, 3391, 10009>();
}

#[test]
fn test_g2_projective_curve_in_projective_coordinates() {
    curve_tests::<G2Parameters, 3329, 10007>();

    sw_tests::<G2Parameters, 3329, 10007>();
}

#[test]
fn test_g1_projective_group_in_projective_coordinates() {
    let mut rng = StdRng::seed_from_u64(21);
    let a = random_point::<G1Parameters, 3391>(&mut rng);
    let b = random_point::<G1Parameters, 3391>(&mut rng);
    group_test(a, b);
}

#[test]
fn test_g2_projective_group_in_projective_coordinates() {
    let mut rng = StdRng::seed_from_u64(22);
    let a = random_point::<G2Parameters, 3329>(&mut rng);
    let b = random_point::<G2Parameters, 3329>(&mut rng);
    group_test(a, b);
}

fn group_test<P: Parameters<ScalarField = Fp<R>>, const R: u64>(
    a: GroupProjective<P>,
    b: GroupProjective<P>,
) {
    let zero = GroupProjective::<P>::zero();
    let mut rng = StdRng::seed_from_u64(23);
    let fr_zero = Fp::<R>::zero();
    let fr_one = Fp::<R>::one();
    let fr_two = fr_one.add(&fr_one);
    assert!(zero.is_zero());
    assert!(a.mul(&fr_one).eq(&a));
    assert!(a.mul(&fr_two).eq(&a.add(&a)));
    assert!(a.mul(&fr_zero).is_zero());
    assert!(a.mul(&fr_zero).sub(&a).eq(&a.neg()));
    assert!(a.mul(&fr_one).sub(&a).is_zero());
    assert!(a.mul(&fr_two).sub(&a).eq(&a));
    // a + 0 = a, a - 0 = a, 0 - a = -a, a - b = -(b - a)
    assert!(a.add(&zero).eq(&a));
    assert!(a.sub(&zero).eq(&a));
    assert!(zero.sub(&a).eq(&a.neg()));
    assert!(a.sub(&b).eq(&b.sub(&a).neg()));
    // associativity and commutativity
    assert!(a.add(&b).eq(&b.add(&a)));
    assert!(a.add(&b).add(&a).eq(&a.add(&b.add(&a))));
    assert!(a.double().eq(&a.add(&a)));
    assert!(b.double().eq(&b.add(&b)));
    // distributivity of scalars
    let fr_rand1 = random_scalar::<P, R>(&mut rng);
    let fr_rand2 = random_scalar::<P, R>(&mut rng);
    let a_rand1 = a.mul(&fr_rand1);
    let a_rand2 = a.mul(&fr_rand2);
    let fr_three = fr_two.add(&fr_rand1);
    let a_two = a.mul(&fr_two);
    assert!(a_two.eq(&a.double()));
    assert!(a_rand1.add(&a_rand2).eq(&a.mul(&fr_rand1.add(&fr_rand2))));
    assert!(a_two.add(&a_rand1).eq(&a.mul(&fr_three)));
    assert!(a.add(&b).mul(&fr_rand1).eq(&a_rand1.add(&b.mul(&fr_rand1))));
}

#[test]
fn test_g1_generator_in_projective_coordinates() {
    let generator = GroupAffine::<G1Parameters>::prime_subgroup_generator();
    assert!(generator.is_on_curve());
    assert!(generator.is_in_correct_subgroup_assuming_on_curve());
}

#[test]
fn test_g2_generator_in_projective_coordinates() {
    let generator = GroupAffine::<G2Parameters>::prime_subgroup_generator();
    assert!(generator.is_on_curve());
    assert!(generator.is_in_correct_subgroup_assuming_on_curve());
}

#[test]
fn cofactor_times_inverse_is_identity_on_the_subgroup_in_projective_coordinates() {
    let g = GroupAffine::<G1Parameters>::prime_subgroup_generator();
    let scaled = g.scale_by_cofactor().into_affine();
    let back = scaled.mul_by_cofactor_inv();
    assert_eq!((back.x, back.y, back.infinity), (g.x, g.y, false));
    let h = g.mul_by_cofactor_to_projective();
    assert!(h.eq(&g.into_projective().mul(&Fp::<3391>::from_u64(3))));
}

#[test]
fn mul_bits_exact_values_in_projective_coordinates() {
    let g = GroupAffine::<G2Parameters>::prime_subgroup_generator();
    // multiples of the generator of y^2 = x^3 + x + 9 modulo 10007
    let two = g.mul_bits(BitIteratorBE::new(vec![2u64])).into_affine();
    let doubled = g.into_projective().double().into_affine();
    assert_eq!((two.x, two.y), (doubled.x, doubled.y));
    let order = g.mul_bits(BitIteratorBE::new(vec![3329u64]));
    assert!(order.is_zero());
    let zero = g.mul_bits(BitIteratorBE::new(vec![0u64]));
    assert!(zero.is_zero());
    let one = g.mul_bits(BitIteratorBE::new(vec![1u64, 0u64])).into_affine();
    assert_eq!((one.x.value(), one.y.value(), one.infinity), (6700, 3970, false));
}

#[test]
fn point_of_order_two_doubles_to_infinity_in_projective_coordinates() {
    // y^2 = x^3 + x + 8 modulo 1009 has 1004 = 4 * 251 points
    type P = SmallCurve<1009, 251, 1, 8, 506, 72, 4, 63>;
    let mut seen = false;
    for x in 0..1009u64 {
        let x = Fp::<1009>::from_u64(x);
        if let Some(p) = GroupAffine::<P>::from_x_coordinate(x, false) {
            if p.y.is_zero() {
                seen = true;
                assert!(p.into_projective().double().is_zero());
                assert!(p.add(&p).infinity);
                assert!(p.add(&p.neg()).infinity);
            }
        }
    }
    assert!(seen);
}

