use rand::rngs::StdRng;
use rand::{Rng, SeedableRng};
use snarkvm_core::algorithms::pedersen::{
    masked_multi_scalar_multiplication, multi_scalar_multiplication, symmetric_multi_scalar_multiplication,
    PedersenCRH,
};
use snarkvm_core::algorithms::pedersen_parameters::{PedersenCRHParameters, PedersenSize};
use snarkvm_core::curves::lawful::AdditiveGroup;
use snarkvm_core::fields::field::Field;
use snarkvm_core::fields::fp::Fp;
use snarkvm_core::gadgets::additive::{select, AdditiveGroupGadget};
use snarkvm_core::gadgets::boolean::Boolean;
use snarkvm_core::gadgets::fp::FpGadget;
use snarkvm_core::gadgets::group::GroupGadget;
use snarkvm_core::gadgets::pedersen::{PedersenCRHGadget, PedersenCRHParametersGadget};
use snarkvm_core::gadgets::r1cs::ConstraintSystem;
use snarkvm_core::gadgets::uint8::UInt8;

type F = Fp<10007>;
type G = AdditiveGroup<F>;
type GG = AdditiveGroupGadget<F>;

#[derive(Clone, Debug, PartialEq, Eq)]
struct Size;

impl PedersenSize for Size {
    const NUM_WINDOWS: usize = 4;
    const WINDOW_SIZE: usize = 16;
}

type ParamsVar = PedersenCRHParametersGadget<G, Size, F, GG>;

fn bases(seed: u64, rows: usize, len: usize) -> Vec<Vec<G>> {
    let mut rng = StdRng::seed_from_u64(seed);
    (0..rows).map(|_| (0..len).map(|_| AdditiveGroup(F::from_u64(rng.gen()))).collect()).collect()
}

fn allocate_bits(cs: &mut ConstraintSystem<F>, bits: &[bool]) -> Vec<Boolean> {
    bits.iter()
        .enumerate()
        .map(|(i, b)| match i % 3 {
            0 => Boolean::allocate(cs, Some(*b)).unwrap(),
            1 => Boolean::allocate(cs, Some(!*b)).unwrap().not(),
            _ => Boolean::constant(*b),
        })
        .collect()
}

#[test]
fn a_bit_selects_one_of_two_constants() {
    let mut cs = ConstraintSystem::<F>::new();
    let bits = allocate_bits(&mut cs, &[true, false, true, false, true, false]);
    for bit in bits.iter() {
        let r = select(&cs, bit, &F::from_u64(70), &F::from_u64(9));
        let expected = if bit.get_value().unwrap() { 70 } else { 9 };
        assert_eq!(r.get_value(), Some(F::from_u64(expected)));
        assert_eq!(cs.evaluate(&r.lc), F::from_u64(expected));
    }
}

#[test]
fn sums_in_the_circuit_equal_the_native_sums() {
    let mut rng = StdRng::seed_from_u64(21);
    for (rows, len, count, window) in [(4usize, 16usize, 64usize, 16usize), (3, 5, 40, 8), (2, 8, 3, 8), (5, 4, 0, 4)] {
        let table = bases(rng.gen(), rows, len);
        let mask_table = bases(rng.gen(), rows + 1, len + 2);
        let bits: Vec<bool> = (0..count).map(|_| rng.gen()).collect();
        let mask_bits: Vec<bool> = (0..count + 3).map(|_| rng.gen()).collect();
        let mut cs = ConstraintSystem::<F>::new();
        let bit_vars = allocate_bits(&mut cs, &bits);
        let mask_vars = allocate_bits(&mut cs, &mask_bits);
        let before = cs.num_constraints();

        let sum = GG::multi_scalar_multiplication(&mut cs, &table, &bit_vars, window).unwrap();
        let native = multi_scalar_multiplication(&table, &bits, window);
        assert_eq!(sum.element.get_value(), Some(native.0));
        assert_eq!(cs.evaluate(&sum.element.lc), native.0);

        let sum = GG::symmetric_multi_scalar_multiplication(&mut cs, &table, &bit_vars, window).unwrap();
        let native = symmetric_multi_scalar_multiplication(&table, &bits, window);
        assert_eq!(sum.element.get_value(), Some(native.0));
        assert_eq!(cs.evaluate(&sum.element.lc), native.0);

        let sum =
            GG::masked_multi_scalar_multiplication(&mut cs, &table, &bit_vars, &mask_table, &mask_vars, window)
                .unwrap();
        let native = masked_multi_scalar_multiplication(&table, &bits, &mask_table, &mask_bits, window);
        assert_eq!(sum.element.get_value(), Some(native.0));
        assert_eq!(cs.evaluate(&sum.element.lc), native.0);

        // sums of constant bases are linear in the bits
        assert_eq!(cs.num_constraints(), before);
        assert!(cs.is_satisfied());
    }
}

#[test]
fn the_sum_of_two_variables() {
    let mut cs = ConstraintSystem::<F>::new();
    let a = GG { element: FpGadget::allocate(&mut cs, Some(F::from_u64(10000))).unwrap() };
    let b = GG { element: FpGadget::allocate(&mut cs, Some(F::from_u64(9))).unwrap() };
    let c = a.add(&mut cs, &b).unwrap();
    assert_eq!(c.element.get_value(), Some(F::from_u64(2)));
    assert_eq!(cs.evaluate(&c.element.lc), F::from_u64(2));
}

#[test]
fn the_hash_in_the_circuit_over_the_additive_group() {
    let gens: Vec<G> = (1..=4).map(|i| AdditiveGroup(F::from_u64(1000 + i))).collect();
    let params = PedersenCRHParameters::<G, Size>::setup(&gens);
    let mask_gens: Vec<G> = (1..=4).map(|i| AdditiveGroup(F::from_u64(2000 + 7 * i))).collect();
    let mask_params = PedersenCRHParameters::<G, Size>::setup(&mask_gens);
    let crh = PedersenCRH::from(PedersenCRHParameters::<G, Size>::from(params.bases.clone()));
    let var = ParamsVar::allocate(Ok(&params)).unwrap();
    let mask_var = ParamsVar::allocate(Ok(&mask_params)).unwrap();
    let mut rng = StdRng::seed_from_u64(8);
    for len in [0usize, 1, 4, 8] {
        let input: Vec<u8> = (0..len).map(|_| rng.gen()).collect();
        let mut cs = ConstraintSystem::<F>::new();
        let input_var: Vec<UInt8> = input.iter().map(|b| UInt8::allocate(&mut cs, *b)).collect();
        let out = PedersenCRHGadget::<G, F, GG>::check_evaluation_gadget(&mut cs, &var, &input_var).unwrap();
        let native = crh.hash(&input).unwrap();
        assert_eq!(out.element.get_value(), Some(native.0));
        assert_eq!(cs.evaluate(&out.element.lc), native.0);
        assert!(cs.is_satisfied());
    }
    // the masked hash is the hash
    for len in [0usize, 1, 4] {
        let mask: Vec<u8> = (0..len).map(|_| rng.gen()).collect();
        let input: Vec<u8> = (0..2 * len).map(|_| rng.gen()).collect();
        let mut cs = ConstraintSystem::<F>::new();
        let input_var: Vec<UInt8> = input.iter().map(|b| UInt8::allocate(&mut cs, *b)).collect();
        let mask_bytes: Vec<UInt8> = mask.iter().map(|b| UInt8::allocate(&mut cs, *b)).collect();
        let out = PedersenCRHGadget::<G, F, GG>::check_evaluation_gadget_masked(
            &mut cs, &var, &input_var, &mask_var, &mask_bytes,
        )
        .unwrap();
        let native = crh.hash(&input).unwrap();
        assert_eq!(out.element.get_value(), Some(native.0));
        assert_eq!(cs.evaluate(&out.element.lc), native.0);
        assert_eq!(crh.hash_masked(&input, &mask_params, &mask).unwrap().0, native.0);
        assert!(cs.is_satisfied());
    }
}

#[test]
fn sums_over_the_additive_group_never_fail() {
    // no bits, no bases, bits beyond the bases, bases beyond the bits
    let mut cs = ConstraintSystem::<F>::new();
    let none: Vec<Boolean> = Vec::new();
    let empty: Vec<Vec<G>> = Vec::new();
    let table = bases(3, 2, 4);
    let bits = allocate_bits(&mut cs, &[true; 20]);
    for (t, b) in [(&empty, &none), (&empty, &bits), (&table, &none), (&table, &bits)] {
        for window in [1usize, 3, 4, 64] {
            assert!(GG::multi_scalar_multiplication(&mut cs, t, b, window).is_ok());
            assert!(GG::symmetric_multi_scalar_multiplication(&mut cs, t, b, window).is_ok());
            assert!(GG::masked_multi_scalar_multiplication(&mut cs, t, b, &table, &bits, window).is_ok());
        }
    }
    let zero = GG::multi_scalar_multiplication(&mut cs, &empty, &bits, 4).unwrap();
    assert_eq!(zero.element.get_value(), Some(F::zero()));
}
