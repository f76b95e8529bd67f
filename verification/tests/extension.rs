use rand::rngs::StdRng;
use rand::{Rng, SeedableRng};
use snarkvm_core::algorithms::pedersen::PedersenCRH;
use snarkvm_core::algorithms::pedersen_parameters::{PedersenCRHParameters, PedersenSize};
use snarkvm_core::bytes::ByteError;
use snarkvm_core::curves::group::Group;
use snarkvm_core::curves::lawful::AdditiveGroup;
use snarkvm_core::fields::field::Field;
use snarkvm_core::fields::fp::Fp;
use snarkvm_core::fields::fp2::{Fp2, Fp2Parameters, QuadraticExtension};
use snarkvm_core::fields::laws::round_trip;

// minus one is no square modulo 10007
type Ext = QuadraticExtension<10007, 10006>;
type F = Fp<10007>;
type F2 = Fp2<Ext>;

fn el(a: u64, b: u64) -> F2 {
    F2::new(F::from_u64(a), F::from_u64(b))
}

fn same(a: &F2, b: &F2) -> bool {
    a.c0 == b.c0 && a.c1 == b.c1
}

fn random(rng: &mut StdRng) -> F2 {
    el(rng.gen(), rng.gen())
}

fn power(a: &F2, e: u64) -> F2 {
    let mut acc = F2::one();
    for i in (0..64).rev() {
        acc = acc.mul(&acc);
        if (e >> i) & 1 == 1 {
            acc = acc.mul(a);
        }
    }
    acc
}

#[test]
fn non_residue_is_no_square() {
    for x in 0..10007u64 {
        assert_ne!(x * x % 10007, 10006);
    }
    assert_eq!(Ext::nonresidue().value(), 10006);
    assert_eq!(Ext::frobenius_coeff_fp2_c1(0).value(), 1);
    assert_eq!(Ext::frobenius_coeff_fp2_c1(1).value(), 10006);
}

#[test]
fn extension_exact_values() {
    // (2 + 3u)(5 + 7u) = 10 - 21 + (14 + 15) u
    assert!(same(&el(2, 3).mul(&el(5, 7)), &el(9996, 29)));
    assert!(same(&el(2, 3).add(&el(10006, 10005)), &el(1, 1)));
    assert!(same(&el(2, 3).neg(), &el(10005, 10004)));
    assert!(same(&el(2, 3).sub(&el(5, 1)), &el(10004, 2)));
    assert!(same(&el(2, 3).square(), &el(10002, 12)));
    assert!(same(&el(2, 3).double(), &el(4, 6)));
    assert_eq!(el(2, 3).norm().value(), 13);
    assert!(same(&el(2, 3).conjugate(), &el(2, 10004)));
    assert!(same(&F2::zero(), &el(0, 0)));
    assert!(same(&F2::one(), &el(1, 0)));
    assert!(el(0, 0).is_zero() && el(1, 0).is_one() && !el(0, 1).is_zero());
}

#[test]
fn extension_field_laws_on_samples() {
    let mut rng = StdRng::seed_from_u64(1);
    for _ in 0..200 {
        let (a, b, c) = (random(&mut rng), random(&mut rng), random(&mut rng));
        assert!(same(&a.add(&b), &b.add(&a)));
        assert!(same(&a.mul(&b), &b.mul(&a)));
        assert!(same(&a.add(&b).add(&c), &a.add(&b.add(&c))));
        assert!(same(&a.mul(&b).mul(&c), &a.mul(&b.mul(&c))));
        assert!(same(&a.mul(&b.add(&c)), &a.mul(&b).add(&a.mul(&c))));
        assert!(same(&a.square(), &a.mul(&a)));
        assert!(a.add(&a.neg()).is_zero());
        if !a.is_zero() {
            assert!(a.mul(&a.inverse().unwrap()).is_one());
        }
    }
    assert!(F2::zero().inverse().is_none());
    assert!(same(&el(0, 1).inverse().unwrap().mul(&el(0, 1)), &F2::one()));
}

#[test]
fn extension_square_roots() {
    let mut rng = StdRng::seed_from_u64(2);
    for _ in 0..200 {
        let a = random(&mut rng);
        let sq = a.square();
        let root = sq.sqrt().unwrap();
        assert!(same(&root.square(), &sq));
        assert!(same(&root, &a) || same(&root, &a.neg()));
        assert!(!root.neg().is_less_than(&root));
    }
    // the adjoined root itself, and elements of the base field
    assert!(same(&el(10006, 0).sqrt().unwrap().square(), &el(10006, 0)));
    assert!(same(&el(5, 0).sqrt().unwrap().square(), &el(5, 0)));
    assert!(same(&el(4, 0).sqrt().unwrap().square(), &el(4, 0)));
    assert!(same(&el(0, 0).sqrt().unwrap(), &el(0, 0)));
    let mut found = 0;
    for _ in 0..200 {
        let a = random(&mut rng);
        match a.sqrt() {
            Some(r) => {
                found += 1;
                assert!(same(&r.square(), &a));
            }
            None => {}
        }
    }
    assert!(found > 60 && found < 140);
}

#[test]
fn frobenius_is_the_power_of_the_characteristic() {
    let mut rng = StdRng::seed_from_u64(3);
    for _ in 0..30 {
        let a = random(&mut rng);
        assert!(same(&a.frobenius_map(0), &a));
        assert!(same(&a.frobenius_map(1), &power(&a, 10007)));
        assert!(same(&a.frobenius_map(1), &a.conjugate()));
        assert!(same(&a.frobenius_map(2), &a));
        assert!(same(&a.frobenius_map(2), &power(&power(&a, 10007), 10007)));
        assert!(same(&a.frobenius_map(13), &a.frobenius_map(1)));
        // and in the base field the power of the characteristic is the identity
        let mut b = F::one();
        for _ in 0..10007 {
            b = b.mul(&a.c0);
        }
        assert_eq!(b, a.c0);
    }
}

#[test]
fn extension_order_and_bytes() {
    assert!(el(9, 1).is_less_than(&el(0, 2)));
    assert!(el(1, 2).is_less_than(&el(2, 2)));
    assert!(!el(2, 2).is_less_than(&el(2, 2)));
    assert!(el(2, 2).is_equal(&el(10009, 2)));
    let a = el(258, 3);
    let mut out = vec![7u8];
    a.write(&mut out);
    assert_eq!(out, vec![7, 2, 1, 0, 0, 0, 0, 0, 0, 3, 0, 0, 0, 0, 0, 0, 0]);
    let (b, end) = F2::read(&out, 1).unwrap();
    assert!(same(&a, &b));
    assert_eq!(end, 17);
    assert_eq!(F2::read(&out, 2).err(), Some(ByteError::UnexpectedEof));
    out[9] = 0x17;
    out[10] = 0x27;
    assert_eq!(F2::read(&out, 1).err(), Some(ByteError::InvalidData));
    let (c, n) = round_trip(&a).unwrap();
    assert!(same(&a, &c));
    assert_eq!(n, 16);
    assert_eq!(round_trip(&F::from_u64(3)), Ok((F::from_u64(3), 8)));
}

#[derive(Clone, Debug, PartialEq, Eq)]
struct Size;

impl PedersenSize for Size {
    const NUM_WINDOWS: usize = 4;
    const WINDOW_SIZE: usize = 16;
}

type A = AdditiveGroup<F>;

#[test]
fn masked_hash_in_the_additive_group_is_the_hash() {
    let mut rng = StdRng::seed_from_u64(4);
    let gens: Vec<A> = (0..4).map(|_| AdditiveGroup(F::from_u64(rng.gen()))).collect();
    let mask_gens: Vec<A> = (0..4).map(|_| AdditiveGroup(F::from_u64(rng.gen()))).collect();
    let crh = PedersenCRH::from(PedersenCRHParameters::<A, Size>::setup(&gens));
    let mask_parameters = PedersenCRHParameters::<A, Size>::setup(&mask_gens);
    // the row of a generator g is g, 2g, 4g, ...
    assert_eq!(crh.parameters.bases[0][3].0, gens[0].0.mul(&F::from_u64(8)));
    for len in [0usize, 1, 2, 4] {
        let mask: Vec<u8> = (0..len).map(|_| rng.gen()).collect();
        let input: Vec<u8> = (0..2 * len).map(|_| rng.gen()).collect();
        let masked = crh.hash_masked(&input, &mask_parameters, &mask).unwrap();
        let plain = crh.hash(&input).unwrap();
        assert_eq!(masked.0, plain.0);
        // the hash is the sum of the windows, read as numbers, times the generators
        let mut expected = F::zero();
        for (i, g) in gens.iter().enumerate() {
            let lo = *input.get(2 * i).unwrap_or(&0) as u64;
            let hi = *input.get(2 * i + 1).unwrap_or(&0) as u64;
            expected = expected.add(&g.0.mul(&F::from_u64(lo + 256 * hi)));
        }
        assert_eq!(plain.0, expected);
    }
    let mut out = Vec::new();
    gens[0].write(&mut out);
    assert_eq!(A::read(&out, 0).unwrap().0 .0, gens[0].0);
    assert!(A::zero().eq(&gens[0].add(&gens[0].neg())));
}

#[test]
fn every_square_of_a_small_extension_has_a_root() {
    // 103 is 3 modulo 4 and minus one is no square; 13 is 1 modulo 4 and 2 is no square
    fn all_squares<const P: u64, const NR: u64>() -> usize {
        let mut squares = std::collections::HashSet::new();
        for a in 0..P {
            for b in 0..P {
                let x = Fp2::<QuadraticExtension<P, NR>>::new(Fp::<P>::from_u64(a), Fp::<P>::from_u64(b));
                let sq = x.square();
                let candidate = sq.sqrt_candidate();
                assert!(candidate.square().c0 == sq.c0 && candidate.square().c1 == sq.c1);
                let root = sq.sqrt().unwrap();
                assert!(root.square().c0 == sq.c0 && root.square().c1 == sq.c1);
                assert!((root.c0 == x.c0 && root.c1 == x.c1) || (root.c0 == x.neg().c0 && root.c1 == x.neg().c1));
                squares.insert((sq.c0.value(), sq.c1.value()));
            }
        }
        // what is no square has no root
        let mut roots = 0;
        for a in 0..P {
            for b in 0..P {
                let x = Fp2::<QuadraticExtension<P, NR>>::new(Fp::<P>::from_u64(a), Fp::<P>::from_u64(b));
                if x.sqrt().is_some() {
                    assert!(squares.contains(&(a, b)));
                    roots += 1;
                }
            }
        }
        assert_eq!(roots, squares.len());
        roots
    }
    assert_eq!(all_squares::<103, 102>(), (103 * 103 + 1) / 2);
    assert_eq!(all_squares::<13, 2>(), (13 * 13 + 1) / 2);
}
