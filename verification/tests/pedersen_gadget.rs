use rand::rngs::StdRng;
use rand::{Rng, SeedableRng};
use snarkvm_core::algorithms::pedersen::{
    masked_multi_scalar_multiplication, multi_scalar_multiplication, symmetric_multi_scalar_multiplication,
    PedersenCRH, PedersenCompressedCRH,
};
use snarkvm_core::algorithms::pedersen_parameters::{PedersenCRHParameters, PedersenSize};
use snarkvm_core::curves::short_weierstrass_jacobian::GroupProjective;
use snarkvm_core::curves::small::SmallCurve;
use snarkvm_core::fields::fp::Fp;
use snarkvm_core::gadgets::boolean::Boolean;
use snarkvm_core::gadgets::group::{CompressedGroupGadget, GroupGadget};
use snarkvm_core::gadgets::pedersen::{
    extend_mask_gadget, pad_input_and_bitify, PedersenCRHGadget, PedersenCRHParametersGadget,
    PedersenCompressedCRHGadget,
};
use snarkvm_core::gadgets::r1cs::{ConstraintSystem, SynthesisError};
use snarkvm_core::gadgets::uint8::UInt8;

type P = SmallCurve<10009, 3391, 0, 3, 350, 1676, 3, 2261>;
type G = GroupProjective<P>;
type Fr = Fp<3391>;
type F = Fp<10009>;

#[derive(Clone, Debug, PartialEq, Eq)]
struct Size;

impl PedersenSize for Size {
    const NUM_WINDOWS: usize = 8;
    const WINDOW_SIZE: usize = 32;
}

/// A variable that carries its point as a constant of the circuit.
struct PointVar(G);

fn bools(bits: &Vec<Boolean>) -> Vec<bool> {
    bits.iter().map(|b| b.get_value().unwrap()).collect()
}

impl GroupGadget<G, F> for PointVar {
    fn value(&self) -> G {
        unreachable!()
    }

    fn holds_in(&self, _: &ConstraintSystem<F>) -> bool {
        unreachable!()
    }

    fn never_fails() -> bool {
        unreachable!()
    }

    fn lemma_holds_later(&self, _: &ConstraintSystem<F>, _: &ConstraintSystem<F>) {}

    fn add(&self, _: &mut ConstraintSystem<F>, other: &Self) -> Result<Self, SynthesisError> {
        Ok(PointVar(self.0.add(&other.0)))
    }

    fn multi_scalar_multiplication(
        _: &mut ConstraintSystem<F>,
        bases: &Vec<Vec<G>>,
        bits: &Vec<Boolean>,
        window_size: usize,
    ) -> Result<Self, SynthesisError> {
        Ok(PointVar(multi_scalar_multiplication(bases, &bools(bits), window_size)))
    }

    fn symmetric_multi_scalar_multiplication(
        _: &mut ConstraintSystem<F>,
        bases: &Vec<Vec<G>>,
        bits: &Vec<Boolean>,
        window_size: usize,
    ) -> Result<Self, SynthesisError> {
        Ok(PointVar(symmetric_multi_scalar_multiplication(bases, &bools(bits), window_size)))
    }

    fn masked_multi_scalar_multiplication(
        _: &mut ConstraintSystem<F>,
        bases: &Vec<Vec<G>>,
        bits: &Vec<Boolean>,
        mask_bases: &Vec<Vec<G>>,
        mask_bits: &Vec<Boolean>,
        window_size: usize,
    ) -> Result<Self, SynthesisError> {
        Ok(PointVar(masked_multi_scalar_multiplication(
            bases,
            &bools(bits),
            mask_bases,
            &bools(mask_bits),
            window_size,
        )))
    }
}

impl CompressedGroupGadget<G, F> for PointVar {
    type BaseFieldGadget = F;

    fn coordinate_value(_: &F) -> F {
        unreachable!()
    }

    fn to_x_coordinate(&self) -> F {
        self.0.into_affine().x
    }
}

type ParamsVar = PedersenCRHParametersGadget<G, Size, F, PointVar>;

fn setup(seed: u64) -> PedersenCRHParameters<G, Size> {
    let mut rng = StdRng::seed_from_u64(seed);
    let gens: Vec<G> = (0..8)
        .map(|_| G::prime_subgroup_generator().mul(&Fr::from_u64(1 + rng.gen::<u64>() % 3390)))
        .collect();
    PedersenCRHParameters::<G, Size>::setup(&gens)
}

fn allocate_bytes(cs: &mut ConstraintSystem<F>, bytes: &[u8]) -> Vec<UInt8> {
    bytes.iter().map(|b| UInt8::allocate(cs, *b)).collect()
}

#[test]
fn parameters_in_the_circuit_are_a_copy() {
    let params = setup(1);
    let var = ParamsVar::allocate(Ok(&params)).unwrap();
    assert_eq!(var.parameters.bases.len(), 8);
    assert_eq!(var.parameters.bases[3][5].x, params.bases[3][5].x);
    let var = ParamsVar::allocate_input(Ok(&params)).unwrap();
    assert_eq!(var.parameters.bases[7][31].y, params.bases[7][31].y);
    assert_eq!(ParamsVar::allocate(Err(SynthesisError::AssignmentMissing)).err(), Some(SynthesisError::AssignmentMissing));
    assert_eq!(ParamsVar::allocate_input(Err(SynthesisError::Unsatisfiable)).err(), Some(SynthesisError::Unsatisfiable));
}

#[test]
fn input_is_padded_to_the_windows() {
    let mut cs = ConstraintSystem::<F>::new();
    let input = allocate_bytes(&mut cs, &[0b0000_0101, 0xff]);
    let bits = pad_input_and_bitify::<Size>(&input);
    assert_eq!(bits.len(), 256);
    let values = bools(&bits);
    assert_eq!(&values[..8], &[true, false, true, false, false, false, false, false]);
    assert!(values[8..16].iter().all(|b| *b));
    assert!(values[16..].iter().all(|b| !*b));
    let full = allocate_bytes(&mut cs, &[0xff; 32]);
    assert!(bools(&pad_input_and_bitify::<Size>(&full)).iter().all(|b| *b));
}

#[test]
fn hash_in_the_circuit_equals_the_native_hash() {
    let params = setup(2);
    let crh = PedersenCRH::from(PedersenCRHParameters::<G, Size>::from(params.bases.clone()));
    let var = ParamsVar::allocate(Ok(&params)).unwrap();
    let mut rng = StdRng::seed_from_u64(3);
    for len in [0usize, 1, 7, 32] {
        let input: Vec<u8> = (0..len).map(|_| rng.gen()).collect();
        let mut cs = ConstraintSystem::<F>::new();
        let input_var = allocate_bytes(&mut cs, &input);
        let out = PedersenCRHGadget::<G, F, PointVar>::check_evaluation_gadget(&mut cs, &var, &input_var).unwrap();
        assert!(out.0.eq(&crh.hash(&input).unwrap()));
        assert!(cs.is_satisfied());
    }
}

#[test]
fn compressed_hash_in_the_circuit_equals_the_native_one() {
    let params = setup(4);
    let crh = PedersenCompressedCRH::from(PedersenCRHParameters::<G, Size>::from(params.bases.clone()));
    let var = ParamsVar::allocate(Ok(&params)).unwrap();
    let input = [1u8, 2, 3, 4, 5];
    let mut cs = ConstraintSystem::<F>::new();
    let input_var = allocate_bytes(&mut cs, &input);
    let x = PedersenCompressedCRHGadget::<G, F, PointVar>::check_evaluation_gadget(&mut cs, &var, &input_var).unwrap();
    assert_eq!(x, crh.hash(&input).unwrap());
}

#[test]
fn mask_is_extended_bit_by_bit() {
    let mut cs = ConstraintSystem::<F>::new();
    let mask = allocate_bytes(&mut cs, &[0b0000_0001, 0xff]);
    let before = cs.num_constraints();
    let ext = extend_mask_gadget(&mask);
    assert_eq!(cs.num_constraints(), before);
    let values: Vec<u8> = ext.iter().map(|b| b.value.unwrap()).collect();
    assert_eq!(values, vec![0b1010_1001, 0b1010_1010, 0b0101_0101, 0b0101_0101]);
    for byte in ext.iter() {
        let bits = bools(&byte.to_bits_le());
        for (i, b) in bits.iter().enumerate() {
            assert_eq!(*b, (byte.value.unwrap() >> i) & 1 == 1);
        }
    }
}

#[test]
fn masked_hash_in_the_circuit_equals_the_hash() {
    let params = setup(5);
    let mask_params = setup(6);
    let crh = PedersenCRH::from(PedersenCRHParameters::<G, Size>::from(params.bases.clone()));
    let compressed = PedersenCompressedCRH::from(PedersenCRHParameters::<G, Size>::from(params.bases.clone()));
    let var = ParamsVar::allocate(Ok(&params)).unwrap();
    let mask_var = ParamsVar::allocate(Ok(&mask_params)).unwrap();
    let mut rng = StdRng::seed_from_u64(7);
    for len in [0usize, 1, 5, 16] {
        let mask: Vec<u8> = (0..len).map(|_| rng.gen()).collect();
        let input: Vec<u8> = (0..2 * len).map(|_| rng.gen()).collect();
        let mut cs = ConstraintSystem::<F>::new();
        let input_var = allocate_bytes(&mut cs, &input);
        let mask_bytes = allocate_bytes(&mut cs, &mask);
        let out = PedersenCRHGadget::<G, F, PointVar>::check_evaluation_gadget_masked(
            &mut cs, &var, &input_var, &mask_var, &mask_bytes,
        )
        .unwrap();
        assert!(out.0.eq(&crh.hash(&input).unwrap()));
        assert!(out.0.eq(&crh.hash_masked(&input, &mask_params, &mask).unwrap()));
        let x = PedersenCompressedCRHGadget::<G, F, PointVar>::check_evaluation_gadget_masked(
            &mut cs, &var, &input_var, &mask_var, &mask_bytes,
        )
        .unwrap();
        assert_eq!(x, compressed.hash(&input).unwrap());
        assert!(cs.is_satisfied());
    }
}

#[test]
fn masked_hash_in_the_circuit_rejects_lengths_that_do_not_match() {
    let params = setup(8);
    let var = ParamsVar::allocate(Ok(&params)).unwrap();
    let mut cs = ConstraintSystem::<F>::new();
    let input = allocate_bytes(&mut cs, &[1, 2, 3]);
    let mask = allocate_bytes(&mut cs, &[1]);
    let r = PedersenCRHGadget::<G, F, PointVar>::check_evaluation_gadget_masked(&mut cs, &var, &input, &var, &mask);
    assert_eq!(r.err(), Some(SynthesisError::Unsatisfiable));
    let r = PedersenCompressedCRHGadget::<G, F, PointVar>::check_evaluation_gadget_masked(
        &mut cs, &var, &input, &var, &mask,
    );
    assert_eq!(r.err(), Some(SynthesisError::Unsatisfiable));
}

#[test]
fn hash_in_the_circuit_rejects_an_input_that_is_too_long() {
    let params = setup(9);
    let crh = PedersenCRH::from(PedersenCRHParameters::<G, Size>::from(params.bases.clone()));
    let var = ParamsVar::allocate(Ok(&params)).unwrap();
    let mut cs = ConstraintSystem::<F>::new();
    // 33 bytes are more than 8 windows of 32 bits take
    let long = allocate_bytes(&mut cs, &[7u8; 33]);
    let mask = allocate_bytes(&mut cs, &[1u8; 17]);
    let long_even = allocate_bytes(&mut cs, &[7u8; 34]);
    let before = cs.num_constraints();
    assert!(crh.hash(&[7u8; 33]).is_err());
    let r = PedersenCRHGadget::<G, F, PointVar>::check_evaluation_gadget(&mut cs, &var, &long);
    assert_eq!(r.err(), Some(SynthesisError::Unsatisfiable));
    let r = PedersenCompressedCRHGadget::<G, F, PointVar>::check_evaluation_gadget(&mut cs, &var, &long);
    assert_eq!(r.err(), Some(SynthesisError::Unsatisfiable));
    let r = PedersenCRHGadget::<G, F, PointVar>::check_evaluation_gadget_masked(&mut cs, &var, &long_even, &var, &mask);
    assert_eq!(r.err(), Some(SynthesisError::Unsatisfiable));
    let r = PedersenCompressedCRHGadget::<G, F, PointVar>::check_evaluation_gadget_masked(
        &mut cs, &var, &long_even, &var, &mask,
    );
    assert_eq!(r.err(), Some(SynthesisError::Unsatisfiable));
    assert_eq!(cs.num_constraints(), before);
    // 32 bytes fit
    let fits = allocate_bytes(&mut cs, &[7u8; 32]);
    let out = PedersenCRHGadget::<G, F, PointVar>::check_evaluation_gadget(&mut cs, &var, &fits).unwrap();
    assert!(out.0.eq(&crh.hash(&[7u8; 32]).unwrap()));
}
