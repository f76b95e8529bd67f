use snarkvm_core::curves::short_weierstrass_jacobian::{GroupAffine, GroupProjective};
use snarkvm_core::curves::small::SmallCurve;
use snarkvm_core::fields::arith::is_prime_u64;
use snarkvm_core::fields::field::{Field, PrimeField};
use snarkvm_core::fields::fp::Fp;
use snarkvm_core::gadgets::boolean::{AllocatedBit, Boolean};
use snarkvm_core::gadgets::fp::FpGadget;
use snarkvm_core::gadgets::r1cs::{ConstraintSystem, Variable};
use snarkvm_core::gadgets::uint8::UInt8;
use snarkvm_core::marlin::fiat_shamir_constraints::{constrained_input, pack_bytes};

type F = Fp<10007>;

fn f(v: u64) -> F {
    F::from_u64(v)
}

fn aux(index: usize) -> Variable {
    Variable { is_input: false, index }
}

fn input(index: usize) -> Variable {
    Variable { is_input: true, index }
}

#[test]
fn primes_by_trial_division() {
    let primes: Vec<u64> = (0..60).filter(|n| is_prime_u64(*n)).collect();
    assert_eq!(primes, vec![2, 3, 5, 7, 11, 13, 17, 19, 23, 29, 31, 37, 41, 43, 47, 53, 59]);
    for p in [10007u64, 10009, 3329, 3391, 4294967291] {
        assert!(is_prime_u64(p));
    }
    // squares of primes, and products of two primes near each other
    for n in [49u64, 10007 * 10007, 10007 * 10009, 4294967291 * 3, 1 << 40] {
        assert!(!is_prime_u64(n));
    }
}

#[test]
fn curve_constants_are_checked() {
    assert!(SmallCurve::<10009, 3391, 0, 3, 350, 1676, 3, 2261>::is_valid());
    assert!(SmallCurve::<10007, 3329, 1, 9, 6700, 3970, 3, 1110>::is_valid());
    // a modulus that is no prime, the modulus two, a coefficient or an inverse out of range
    assert!(!SmallCurve::<10005, 3391, 0, 3, 350, 1676, 3, 2261>::is_valid());
    assert!(!SmallCurve::<10009, 3393, 0, 3, 350, 1676, 3, 2261>::is_valid());
    assert!(!SmallCurve::<2, 3, 0, 1, 0, 1, 1, 1>::is_valid());
    assert!(!SmallCurve::<10009, 3391, 10009, 3, 350, 1676, 3, 2261>::is_valid());
    assert!(!SmallCurve::<10009, 3391, 0, 3, 350, 10010, 3, 2261>::is_valid());
    assert!(!SmallCurve::<10009, 3391, 0, 3, 350, 1676, 3, 3391>::is_valid());
}

#[test]
fn defaults_are_the_empty_values() {
    type P = SmallCurve<10009, 3391, 0, 3, 350, 1676, 3, 2261>;
    let a = GroupAffine::<P>::default();
    assert!(a.infinity && a.x.is_zero() && a.y.is_one());
    let p = GroupProjective::<P>::default();
    assert!(p.is_zero() && p.x.is_zero() && p.y.is_one() && p.z.is_zero());
}

#[test]
fn a_bit_takes_the_constraint_that_it_is_a_bit() {
    let mut cs = ConstraintSystem::<F>::new();
    let bit = AllocatedBit::allocate(&mut cs, Some(true)).unwrap();
    assert_eq!(bit.variable, aux(0));
    assert_eq!(cs.num_constraints(), 1);
    let c = &cs.constraints[0];
    assert_eq!(c.a.terms, vec![(input(0), f(1)), (aux(0), f(10006))]);
    assert_eq!(c.b.terms, vec![(aux(0), f(1))]);
    assert!(c.c.terms.is_empty());
}

#[test]
fn a_product_takes_the_constraint_of_its_factors() {
    let mut cs = ConstraintSystem::<F>::new();
    let a = FpGadget::allocate(&mut cs, Some(f(6))).unwrap();
    let b = FpGadget::allocate(&mut cs, Some(f(7))).unwrap();
    let sum = a.add(&cs, &b);
    let product = sum.mul(&mut cs, &b);
    assert_eq!(product.get_value(), Some(f(91)));
    assert_eq!(product.lc.terms, vec![(aux(2), f(1))]);
    assert_eq!(cs.num_constraints(), 1);
    let c = &cs.constraints[0];
    assert_eq!(c.a.terms, sum.lc.terms);
    assert_eq!(c.a.terms, vec![(aux(0), f(1)), (aux(1), f(1))]);
    assert_eq!(c.b.terms, vec![(aux(1), f(1))]);
    assert_eq!(c.c.terms, vec![(aux(2), f(1))]);
    assert!(cs.is_satisfied());
}

#[test]
fn gates_take_their_constraints() {
    let mut cs = ConstraintSystem::<F>::new();
    let a = Boolean::allocate(&mut cs, Some(true)).unwrap();
    let b = Boolean::allocate(&mut cs, Some(false)).unwrap();
    let before = cs.num_constraints();
    // constants take nothing
    Boolean::and(&mut cs, &a, &Boolean::constant(true)).unwrap();
    Boolean::xor(&mut cs, &Boolean::constant(false), &b).unwrap();
    assert_eq!(cs.num_constraints(), before);
    // a and b: a * b = c
    Boolean::and(&mut cs, &a, &b).unwrap();
    let c = cs.constraints.last().unwrap();
    assert_eq!(c.a.terms, vec![(aux(0), f(1))]);
    assert_eq!(c.b.terms, vec![(aux(1), f(1))]);
    assert_eq!(c.c.terms, vec![(aux(2), f(1))]);
    // a and not b: a * (1 - b) = c
    Boolean::and(&mut cs, &a, &b.not()).unwrap();
    let c = cs.constraints.last().unwrap();
    assert_eq!(c.a.terms, vec![(aux(0), f(1))]);
    assert_eq!(c.b.terms, vec![(input(0), f(1)), (aux(1), f(10006))]);
    assert_eq!(c.c.terms, vec![(aux(3), f(1))]);
    // a or b: (1 - a) * (1 - b) = c, and the result is its negation
    let or = Boolean::or(&mut cs, &a, &b).unwrap();
    let c = cs.constraints.last().unwrap();
    assert_eq!(c.a.terms, vec![(input(0), f(1)), (aux(0), f(10006))]);
    assert_eq!(c.b.terms, vec![(input(0), f(1)), (aux(1), f(10006))]);
    assert_eq!(c.c.terms, vec![(aux(4), f(1))]);
    assert_eq!(or.get_value(), Some(true));
    // a xor b: (a + a) * b = a + b - c
    Boolean::xor(&mut cs, &a, &b).unwrap();
    let c = cs.constraints.last().unwrap();
    assert_eq!(c.a.terms, vec![(aux(0), f(1)), (aux(0), f(1))]);
    assert_eq!(c.b.terms, vec![(aux(1), f(1))]);
    assert_eq!(c.c.terms, vec![(aux(0), f(1)), (aux(1), f(1)), (aux(5), f(10006))]);
    assert!(cs.is_satisfied());
}

#[test]
fn the_bits_of_a_variable_are_bound_to_it() {
    let mut cs = ConstraintSystem::<F>::new();
    let g = FpGadget::allocate(&mut cs, Some(f(5))).unwrap();
    let bits = g.to_bits_be(&mut cs).unwrap();
    let n = F::size_in_bits();
    assert_eq!(n, 14);
    assert_eq!(bits.len(), n);
    // a constraint for each bit, and the one that packs them
    assert_eq!(cs.num_constraints(), n + 1);
    for k in 0..n {
        let c = &cs.constraints[k];
        assert_eq!(c.a.terms, vec![(input(0), f(1)), (aux(1 + k), f(10006))]);
        assert_eq!(c.b.terms, vec![(aux(1 + k), f(1))]);
        assert!(c.c.terms.is_empty());
    }
    let packing = cs.constraints.last().unwrap();
    let expected: Vec<(Variable, F)> = (0..n).map(|k| (aux(1 + k), f(1 << k))).collect();
    assert_eq!(packing.a.terms, expected);
    assert_eq!(packing.b.terms, vec![(input(0), f(1))]);
    assert_eq!(packing.c.terms, g.lc.terms);
    assert!(cs.is_satisfied());
}

#[test]
fn a_constrained_input_is_bound_to_its_bits() {
    let mut cs = ConstraintSystem::<F>::new();
    let bits = vec![
        Boolean::allocate(&mut cs, Some(true)).unwrap(),
        Boolean::allocate(&mut cs, Some(false)).unwrap().not(),
        Boolean::constant(true),
        Boolean::constant(false),
    ];
    let coeffs = vec![f(3), f(5), f(7), f(11)];
    let before = cs.num_constraints();
    let g = constrained_input(&mut cs, &bits, &coeffs);
    assert_eq!(g.get_value(), Some(f(15)));
    assert_eq!(g.lc.terms, vec![(input(1), f(1))]);
    assert_eq!(cs.num_constraints(), before + 1);
    let c = cs.constraints.last().unwrap();
    assert!(c.a.terms.is_empty());
    assert!(c.b.terms.is_empty());
    assert_eq!(
        c.c.terms,
        vec![
            (aux(0), f(3)),
            (input(0), f(5)),
            (aux(1), f(10002)),
            (input(0), f(7)),
            (input(1), f(10006)),
        ]
    );
    assert!(cs.is_satisfied());
}

#[test]
fn packed_bytes_take_a_constraint_for_each_chunk() {
    let mut cs = ConstraintSystem::<F>::new();
    let bytes: Vec<UInt8> = [0xa5u8, 0x0f, 0x80].iter().map(|b| UInt8::allocate(&mut cs, *b)).collect();
    let before = cs.num_constraints();
    let packed = pack_bytes(&mut cs, &bytes);
    // 24 bits in chunks of 13: two chunks
    assert_eq!(packed.len(), 2);
    assert_eq!(cs.num_constraints(), before + 2);
    for (i, g) in packed.iter().enumerate() {
        let c = &cs.constraints[before + i];
        assert!(c.a.terms.is_empty() && c.b.terms.is_empty());
        assert_eq!(c.c.terms.last(), Some(&(g.lc.terms[0].0, f(10006))));
    }
    assert_eq!(cs.constraints[before].c.terms.len(), 13 + 1);
    assert_eq!(cs.constraints[before + 1].c.terms.len(), 11 + 1);
    assert!(cs.is_satisfied());
}
