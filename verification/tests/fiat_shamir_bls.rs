use rand::rngs::StdRng;
use rand::{Rng, SeedableRng};
use snarkvm_core::curves::bls12_377::{Fr, FrParameters};
use snarkvm_core::fields::field::Field;
use snarkvm_core::fields::fp_wide::FpParameters;
use snarkvm_core::gadgets::boolean::Boolean;
use snarkvm_core::gadgets::fp::FpGadget;
use snarkvm_core::gadgets::r1cs::ConstraintSystem;
use snarkvm_core::gadgets::uint8::UInt8;
use snarkvm_core::marlin::duplex::{DuplexSponge, DuplexSpongeVar};
use snarkvm_core::marlin::fiat_shamir::FiatShamirAlgebraicSpongeRng;
use snarkvm_core::marlin::fiat_shamir_constraints::FiatShamirAlgebraicSpongeRngVar;
use snarkvm_core::marlin::nonnative::{get_limbs_representations, NonNativeFieldVar};
use snarkvm_core::marlin::params::OptimizationType;
use snarkvm_core::marlin::poseidon::{CountingParameters, Poseidon, PoseidonVar};

// the scalar field of BLS12-377, of 253 bits, for the protocol and for the transcript
type PS = DuplexSponge<Fr, Poseidon<Fr, CountingParameters>>;
type PSGadget = DuplexSpongeVar<Fr, Poseidon<Fr, CountingParameters>, PoseidonVar<Fr, CountingParameters>>;
type FS = FiatShamirAlgebraicSpongeRng<Fr, Fr, PS>;
type FSGadget = FiatShamirAlgebraicSpongeRngVar<Fr, Fr, PS, PSGadget>;

const MAX_ELEMENT_SIZE: usize = 100;
const ITERATIONS: usize = 100;

fn random_element(rng: &mut StdRng) -> Fr {
    let modulus = FrParameters::modulus();
    loop {
        let mut limbs = [0u64; 4];
        for limb in limbs.iter_mut() {
            *limb = rng.gen();
        }
        limbs[3] >>= modulus[3].leading_zeros();
        if let Some(e) = Fr::from_limbs(limbs) {
            return e;
        }
    }
}

fn values(gadgets: &[FpGadget<Fr>]) -> Vec<Fr> {
    gadgets.iter().map(|g| g.get_value().unwrap()).collect()
}

#[test]
fn test_fiat_shamir_algebraic_sponge_rng_constant() {
    let mut rng = StdRng::seed_from_u64(123456789u64);

    for _ in 0..ITERATIONS {
        let mut cs = ConstraintSystem::<Fr>::new();

        // Generate random elements to absorb.
        let num_bytes: usize = rng.gen_range(0..MAX_ELEMENT_SIZE);
        let element: Vec<u8> = (0..num_bytes).map(|_| rng.gen()).collect();

        // Create a new FS rng.
        let mut fs_rng = FS::new();
        fs_rng.absorb_bytes(&element);

        // Allocate a new fs_rng gadget from the existing `fs_rng`.
        let mut fs_rng_gadget = FSGadget::constant(&mut cs, &fs_rng);

        // Get bits from the `fs_rng` and `fs_rng_gadget`.
        let num_bits = num_bytes * 8;
        let bits = FS::get_bits_from_sponge(&mut fs_rng.s, num_bits);
        let bit_gadgets = FSGadget::get_booleans_from_sponge(&mut cs, &mut fs_rng_gadget.s, num_bits).unwrap();

        // Check that the bit results are equivalent.
        assert_eq!(bits.len(), bit_gadgets.len());
        assert_eq!(bits.len(), (num_bits + 251) / 252 * 252);
        for (bit_gadget, bit) in bit_gadgets.iter().zip(bits) {
            // Allocate a boolean from the native bit.
            let alloc_boolean = Boolean::allocate(&mut cs, Some(bit)).unwrap();
            assert_eq!(bit_gadget.get_value(), alloc_boolean.get_value());
        }
        assert!(cs.is_satisfied());
    }
}

fn compress_gadgets_test(ty: OptimizationType) {
    let mut rng = StdRng::seed_from_u64(123456789u64);

    for _ in 0..ITERATIONS {
        let mut cs = ConstraintSystem::<Fr>::new();

        // Generate random elements.
        let num_elements: usize = rng.gen_range(0..MAX_ELEMENT_SIZE);
        let elements: Vec<Fr> = (0..num_elements).map(|_| random_element(&mut rng)).collect();

        // Construct elements limb representations
        let mut element_limbs = Vec::<(Fr, Fr)>::new();
        let mut element_limb_gadgets = Vec::<(FpGadget<Fr>, Fr)>::new();

        for elem in elements.iter() {
            let limbs = get_limbs_representations::<Fr, Fr>(elem, ty).unwrap();
            for limb in limbs.iter() {
                let allocated_limb = FpGadget::allocate(&mut cs, Some(*limb)).unwrap();
                element_limbs.push((*limb, Fr::one()));
                element_limb_gadgets.push((allocated_limb, Fr::one()));
            }
        }

        // Compress the elements.
        let compressed_elements = FS::compress_elements(&element_limbs, ty);
        let compressed_element_gadgets = FSGadget::compress_gadgets(&cs, &element_limb_gadgets, ty).unwrap();

        // Check that the compressed results are equivalent.
        assert_eq!(values(&compressed_element_gadgets), compressed_elements);
        for gadget in compressed_element_gadgets.iter() {
            assert_eq!(cs.evaluate(&gadget.lc), gadget.get_value().unwrap());
        }
    }
}

#[test]
fn test_compress_gadgets_weight_optimized() {
    compress_gadgets_test(OptimizationType::Weight);
}

#[test]
fn test_compress_gadgets_constraint_optimized() {
    compress_gadgets_test(OptimizationType::Constraints);
}

#[test]
fn one_element_is_squeezed_for_one_asked() {
    // bytes absorbed natively and as variables; one element asked for
    let bytes = vec![0x01u8, 0x02, 0x03];
    let mut fs = FS::new();
    fs.absorb_bytes(&bytes);
    let natives = fs.squeeze_nonnative_field_elements(1);
    assert_eq!(natives.len(), 1);

    let mut cs = ConstraintSystem::<Fr>::new();
    let byte_vars: Vec<UInt8> = bytes.iter().map(|b| UInt8::allocate(&mut cs, *b)).collect();
    let mut fs_gadget = FSGadget::new(&mut cs);
    fs_gadget.absorb_bytes(&mut cs, &byte_vars).unwrap();
    let (vars, bits) = fs_gadget.squeeze_field_elements_and_bits(&mut cs, 1).unwrap();
    assert_eq!(vars.len(), 1);
    assert_eq!(bits.len(), 1);
    assert_eq!(bits[0].len(), 252);
    assert!(cs.is_satisfied());
    // the bits spell the native element, lowest first
    let mut acc = Fr::zero();
    let mut power = Fr::one();
    for b in bits[0].iter() {
        if b.get_value().unwrap() {
            acc = acc.add(&power);
        }
        power = power.double();
    }
    assert_eq!(acc, natives[0]);
    // the limbs are those of the native element, and the variable is in the normal form
    match &vars[0] {
        NonNativeFieldVar::Var(v) => {
            let limbs = get_limbs_representations::<Fr, Fr>(&natives[0], OptimizationType::Constraints).unwrap();
            assert_eq!(values(&v.limbs), limbs);
            assert!(v.is_in_the_normal_form);
            assert!(v.num_of_additions_over_normal_form.is_zero());
        }
        NonNativeFieldVar::Constant(_) => panic!("a squeezed element is a variable"),
    }
    // short elements: two asked give two, of 128 bits each
    let short = fs.squeeze_128_bits_nonnative_field_elements(2);
    let (short_vars, short_bits) = fs_gadget.squeeze_128_bits_field_elements_and_bits(&mut cs, 2).unwrap();
    assert_eq!(short.len(), 2);
    assert_eq!(short_vars.len(), 2);
    assert_eq!(short_bits.len(), 2);
    assert!(short_bits.iter().all(|b| b.len() == 128));
    assert!(cs.is_satisfied());
}
