use rand::rngs::StdRng;
use rand::{Rng, SeedableRng};
use snarkvm_core::fields::field::Field;
use snarkvm_core::fields::fp::Fp;
use snarkvm_core::gadgets::boolean::Boolean;
use snarkvm_core::gadgets::fp::FpGadget;
use snarkvm_core::gadgets::r1cs::{ConstraintSystem, SynthesisError};
use snarkvm_core::gadgets::uint8::UInt8;
use snarkvm_core::marlin::duplex::{DuplexSponge, DuplexSpongeVar, Permutation, PermutationVar};
use snarkvm_core::marlin::fiat_shamir::{bits_of_bytes, pack_bits, FiatShamirAlgebraicSpongeRng};
use snarkvm_core::marlin::fiat_shamir_constraints::FiatShamirAlgebraicSpongeRngVar;
use snarkvm_core::marlin::nonnative::{get_limbs_representations, AllocatedNonNativeFieldVar, NonNativeFieldVar};
use snarkvm_core::marlin::params::{find_parameters, get_params, overhead, NonNativeFieldParams, OptimizationType};
use snarkvm_core::marlin::sponge::{AlgebraicSponge, AlgebraicSpongeVar};

// 2^61 - 1 and 2^32 - 5 are primes
type CF = Fp<2305843009213693951>;
type Fr = Fp<4294967291>;

const ITERATIONS: usize = 30;
const MAX_ELEMENT_SIZE: usize = 40;

/// A permutation of states of three elements with a rate of two:
/// `s[i] <- 3 s[i] + s[i + 1] + i + 1`.
struct Mix;

fn mix(state: &[CF]) -> Vec<CF> {
    (0..3)
        .map(|i| state[i].mul(&CF::from_u64(3)).add(&state[(i + 1) % 3]).add(&CF::from_u64(i as u64 + 1)))
        .collect()
}

impl Permutation<CF> for Mix {
    fn width_spec() -> vstd::prelude::nat {
        unreachable!()
    }

    fn rate_spec() -> vstd::prelude::nat {
        unreachable!()
    }

    fn permute_spec(_: vstd::seq::Seq<CF>) -> vstd::seq::Seq<CF> {
        unreachable!()
    }

    fn lemma_shape(_: vstd::seq::Seq<CF>) {}

    fn width() -> usize {
        3
    }

    fn rate() -> usize {
        2
    }

    fn permute(state: &mut Vec<CF>) {
        *state = mix(state);
    }
}

impl PermutationVar<CF, Mix> for Mix {
    fn never_fails() -> bool {
        unreachable!()
    }

    fn permute(cs: &mut ConstraintSystem<CF>, state: &mut Vec<FpGadget<CF>>) -> Result<(), SynthesisError> {
        let mut next = Vec::new();
        for i in 0..3 {
            let c = FpGadget::constant(cs, CF::from_u64(i as u64 + 1));
            next.push(state[i].mul_by_constant(cs, &CF::from_u64(3)).add(cs, &state[(i + 1) % 3]).add(cs, &c));
        }
        *state = next;
        Ok(())
    }
}

type PS = DuplexSponge<CF, Mix>;
type PSGadget = DuplexSpongeVar<CF, Mix, Mix>;
type FS = FiatShamirAlgebraicSpongeRng<Fr, CF, PS>;
type FSGadget = FiatShamirAlgebraicSpongeRngVar<Fr, CF, PS, PSGadget>;

fn values(gadgets: &[FpGadget<CF>]) -> Vec<CF> {
    gadgets.iter().map(|g| g.get_value().unwrap()).collect()
}

fn bools(bits: &[Boolean]) -> Vec<bool> {
    bits.iter().map(|b| b.get_value().unwrap()).collect()
}

#[test]
fn bits_agree_natively_and_in_circuit_over_small_fields() {
    let mut rng = StdRng::seed_from_u64(123456789u64);

    for _ in 0..ITERATIONS {
        let mut cs = ConstraintSystem::<CF>::new();

        // Generate random elements to absorb.
        let num_bytes: usize = rng.gen_range(0..MAX_ELEMENT_SIZE);
        let element: Vec<u8> = (0..num_bytes).map(|_| rng.gen()).collect();

        // Create a new FS rng.
        let mut fs_rng = FS::new();
        fs_rng.absorb_bytes(&element);

        // Allocate a new fs_rng gadget from the existing `fs_rng`.
        let mut fs_rng_gadget = FSGadget::constant(&mut cs, &fs_rng);

        // Get bits from the `fs_rng` and `fs_rng_gadget`.
        let num_bits = num_bytes * 8;
        let bits = FS::get_bits_from_sponge(&mut fs_rng.s, num_bits);
        let bit_gadgets = FSGadget::get_booleans_from_sponge(&mut cs, &mut fs_rng_gadget.s, num_bits).unwrap();

        // Check that the bit results are equivalent.
        assert_eq!(bits.len(), bit_gadgets.len());
        assert_eq!(bits.len(), (num_bits + 59) / 60 * 60);
        for (bit_gadget, bit) in bit_gadgets.iter().zip(bits) {
            // Allocate a boolean from the native bit.
            let alloc_boolean = Boolean::allocate(&mut cs, Some(bit)).unwrap();
            assert_eq!(bit_gadget.get_value(), alloc_boolean.get_value());
        }
        assert!(cs.is_satisfied());
    }
}

fn compress_gadgets_test(ty: OptimizationType) {
    let mut rng = StdRng::seed_from_u64(123456789u64);

    for _ in 0..ITERATIONS {
        let mut cs = ConstraintSystem::<CF>::new();

        // Generate random elements.
        let num_elements: usize = rng.gen_range(0..MAX_ELEMENT_SIZE);
        let elements: Vec<Fr> = (0..num_elements).map(|_| Fr::from_u64(rng.gen())).collect();

        // Construct elements limb representations
        let mut element_limbs = Vec::<(CF, CF)>::new();
        let mut element_limb_gadgets = Vec::<(FpGadget<CF>, CF)>::new();

        for elem in elements.iter() {
            let limbs = get_limbs_representations::<Fr, CF>(elem, ty).unwrap();
            for limb in limbs.iter() {
                let allocated_limb = FpGadget::allocate(&mut cs, Some(*limb)).unwrap();
                element_limbs.push((*limb, CF::one()));
                element_limb_gadgets.push((allocated_limb, CF::one()));
            }
        }

        // Compress the elements.
        let compressed_elements = FS::compress_elements(&element_limbs, ty);
        let compressed_element_gadgets = FSGadget::compress_gadgets(&cs, &element_limb_gadgets, ty).unwrap();

        // Check that the compressed results are equivalent.
        assert_eq!(values(&compressed_element_gadgets), compressed_elements);
        for gadget in compressed_element_gadgets.iter() {
            assert_eq!(cs.evaluate(&gadget.lc), gadget.get_value().unwrap());
        }
        assert!(cs.is_satisfied());
    }
}

#[test]
fn compressed_limbs_agree_weight_optimized_over_small_fields() {
    compress_gadgets_test(OptimizationType::Weight);
}

#[test]
fn compressed_limbs_agree_constraint_optimized_over_small_fields() {
    compress_gadgets_test(OptimizationType::Constraints);
}

#[test]
fn test_push_gadgets_to_sponge() {}

#[test]
fn test_get_gadgets_from_sponge() {}

#[test]
fn test_get_booleans_from_sponge() {}

#[test]
fn test_squeeze_native_field_elements() {}

#[test]
fn test_squeeze_field_elements() {}

#[test]
fn test_squeeze_field_elements_and_bits() {}

#[test]
fn test_squeeze_128_bits_field_elements() {}

#[test]
fn test_squeeze_128_bits_field_elements_and_bits() {}

#[test]
fn limb_shapes_have_the_least_cost() {
    assert_eq!(get_params(32, 61, OptimizationType::Constraints), NonNativeFieldParams { num_limbs: 4, bits_per_limb: 8 });
    assert_eq!(get_params(32, 61, OptimizationType::Weight), NonNativeFieldParams { num_limbs: 2, bits_per_limb: 16 });
    assert_eq!(find_parameters(253, 253, OptimizationType::Constraints), (17, 15));
    assert_eq!(find_parameters(253, 377, OptimizationType::Weight), (5, 76));
    assert_eq!(find_parameters(16, 32, OptimizationType::Constraints), (32, 1));
    assert_eq!(find_parameters(14, 32, OptimizationType::Weight), (0, 0));
}

#[test]
fn overhead_counts_the_bits_of_additions() {
    let expected = [(0u64, 0usize), (1, 1), (2, 2), (3, 3), (4, 3), (5, 4), (7, 4), (8, 4), (9, 5), (1 << 20, 21)];
    for (v, bits) in expected {
        assert_eq!(overhead(&CF::from_u64(v)), bits, "overhead of {}", v);
    }
}

#[test]
fn limbs_are_the_digits_most_significant_first() {
    let limbs = get_limbs_representations::<Fr, CF>(&Fr::from_u64(0x1234_5678), OptimizationType::Constraints).unwrap();
    assert_eq!(limbs.iter().map(|l| l.value()).collect::<Vec<_>>(), vec![0x12, 0x34, 0x56, 0x78]);
    let limbs = get_limbs_representations::<Fr, CF>(&Fr::from_u64(0x1234_5678), OptimizationType::Weight).unwrap();
    assert_eq!(limbs.iter().map(|l| l.value()).collect::<Vec<_>>(), vec![0x1234, 0x5678]);
}

#[test]
fn compress_packs_limbs_that_fit() {
    // with the count one a limb of 8 bits may take 10 bits, so that two
    // fit the 60 bits below the characteristic: a * 2^10 + b
    let one = CF::one();
    let src = vec![(CF::from_u64(3), one), (CF::from_u64(5), one), (CF::from_u64(7), one)];
    let out = FS::compress_elements(&src, OptimizationType::Constraints);
    assert_eq!(out.iter().map(|e| e.value()).collect::<Vec<_>>(), vec![3 * 1024 + 5, 7]);
    // a large count of additions leaves no room
    let big = CF::from_u64((1u64 << 50) - 1);
    let src = vec![(CF::from_u64(3), big), (CF::from_u64(5), one)];
    let out = FS::compress_elements(&src, OptimizationType::Constraints);
    assert_eq!(out.iter().map(|e| e.value()).collect::<Vec<_>>(), vec![3, 5]);
    assert_eq!(FS::compress_elements(&vec![], OptimizationType::Weight).len(), 0);
}

#[test]
fn bytes_are_packed_sixty_bits_at_a_time() {
    let bits = bits_of_bytes(&vec![0x01, 0x02, 0x03]);
    assert_eq!(bits.len(), 24);
    assert_eq!(bits.iter().filter(|b| **b).count(), 4);
    assert!(bits[7] && bits[14] && bits[22] && bits[23]);
    let packed = pack_bits::<CF>(&bits, 60);
    assert_eq!(packed.iter().map(|e| e.value()).collect::<Vec<_>>(), vec![0x010203]);
    // nine bytes make 72 bits: one chunk of 60 and one of 12
    let bytes = vec![0xff, 0, 0, 0, 0, 0, 0, 0x0a, 0xbc];
    let packed = pack_bits::<CF>(&bits_of_bytes(&bytes), 60);
    assert_eq!(packed.iter().map(|e| e.value()).collect::<Vec<_>>(), vec![0xff00_0000_0000_000, 0xabc]);
    assert_eq!(pack_bits::<CF>(&vec![], 60).len(), 0);
}

#[test]
fn sponge_state_machine() {
    let z = CF::zero();
    let mut sponge = PS::new();
    assert_eq!(sponge.state, vec![z, z, z]);
    assert!(!sponge.squeezing);
    // one element: no permutation yet
    sponge.absorb(&vec![CF::from_u64(10)]);
    assert_eq!(sponge.state, vec![CF::from_u64(10), z, z]);
    assert_eq!(sponge.pos, 1);
    // the second fills the rate: one permutation
    sponge.absorb(&vec![CF::from_u64(20)]);
    let expected = mix(&[CF::from_u64(10), CF::from_u64(20), z]);
    assert_eq!(sponge.state, expected);
    assert_eq!(sponge.pos, 0);
    // the first squeeze after an absorb permutes, then reads
    let out = sponge.squeeze(1);
    let expected = mix(&expected);
    assert_eq!(out, vec![expected[0]]);
    assert!(sponge.squeezing);
    assert_eq!((sponge.state.clone(), sponge.pos), (expected.clone(), 1));
    // squeeze, then absorb: exactly one permutation, then the element is added
    sponge.absorb(&vec![CF::from_u64(5)]);
    let mut after = mix(&expected);
    after[0] = after[0].add(&CF::from_u64(5));
    assert_eq!(sponge.state, after);
    assert!(!sponge.squeezing);
    assert_eq!(sponge.pos, 1);
    // squeezing two empties the rate and permutes once more
    let out = sponge.squeeze(2);
    let s1 = mix(&after);
    assert_eq!(out, vec![s1[0], s1[1]]);
    assert_eq!(sponge.state, mix(&s1));
    assert_eq!(sponge.squeeze(0), vec![]);
}

#[test]
fn sponge_in_circuit_mirrors_the_native_sponge() {
    let mut rng = StdRng::seed_from_u64(7);
    let mut cs = ConstraintSystem::<CF>::new();
    let mut native = PS::new();
    let mut gadget = PSGadget::new(&mut cs);
    for round in 0..6 {
        let n = rng.gen_range(0..4);
        let elems: Vec<CF> = (0..n).map(|_| CF::from_u64(rng.gen())).collect();
        let vars: Vec<FpGadget<CF>> = elems.iter().map(|e| FpGadget::allocate(&mut cs, Some(*e)).unwrap()).collect();
        native.absorb(&elems);
        gadget.absorb(&mut cs, &vars).unwrap();
        assert_eq!(values(&gadget.state), native.state);
        let k = round % 4;
        let out = native.squeeze(k);
        let out_vars = gadget.squeeze(&mut cs, k).unwrap();
        assert_eq!(values(&out_vars), out);
        assert_eq!((gadget.squeezing, gadget.pos), (native.squeezing, native.pos));
        for v in out_vars.iter() {
            assert_eq!(cs.evaluate(&v.lc), v.get_value().unwrap());
        }
    }
    assert!(cs.is_satisfied());
}

#[test]
fn absorb_bytes_and_squeeze_agree_natively_and_in_circuit() {
    let bytes = vec![0x01u8, 0x02, 0x03];
    let mut fs = FS::new();
    fs.absorb_bytes(&bytes);
    let natives = fs.squeeze_nonnative_field_elements(1);

    let mut cs = ConstraintSystem::<CF>::new();
    let byte_vars: Vec<UInt8> = bytes.iter().map(|b| UInt8::allocate(&mut cs, *b)).collect();
    let mut fs_gadget = FSGadget::new(&mut cs);
    fs_gadget.absorb_bytes(&mut cs, &byte_vars).unwrap();
    assert_eq!(values(&fs_gadget.s.state), fs_before_squeeze(&bytes));
    let (vars, bits) = fs_gadget.squeeze_field_elements_and_bits(&mut cs, 1).unwrap();
    assert!(cs.is_satisfied());
    assert_eq!(values(&fs_gadget.s.state), fs.s.state);

    // 31 bits each: one squeezed element of 60 bits gives one element
    assert_eq!(natives.len(), 1);
    assert_eq!(vars.len(), 1);
    assert_eq!(bits[0].len(), 31);
    // the bits spell the native element, lowest first
    let spelled: u64 = bools(&bits[0]).iter().enumerate().map(|(j, b)| (*b as u64) << j).sum();
    assert_eq!(spelled % 4294967291, natives[0].value());
    // the limbs stand for the native element
    match &vars[0] {
        NonNativeFieldVar::Var(v) => {
            let params = get_params(32, 61, OptimizationType::Constraints);
            assert_eq!(v.limbs.len(), params.num_limbs);
            let mut total: u128 = 0;
            for limb in values(&v.limbs) {
                total = (total << params.bits_per_limb) + limb.value() as u128;
            }
            assert_eq!((total % 4294967291) as u64, natives[0].value());
            assert!(v.is_in_the_normal_form);
            assert!(v.num_of_additions_over_normal_form.is_zero());
        }
        NonNativeFieldVar::Constant(_) => panic!("a squeezed element is a variable"),
    }
}

fn fs_before_squeeze(bytes: &Vec<u8>) -> Vec<CF> {
    let mut fs = FS::new();
    fs.absorb_bytes(bytes);
    fs.s.state
}

#[test]
fn squeezes_agree_natively_and_in_circuit() {
    let mut rng = StdRng::seed_from_u64(99);
    for round in 0..10 {
        let mut fs = FS::new();
        let mut cs = ConstraintSystem::<CF>::new();
        let mut fs_gadget = FSGadget::new(&mut cs);
        let natives: Vec<CF> = (0..round).map(|_| CF::from_u64(rng.gen())).collect();
        let vars: Vec<FpGadget<CF>> = natives.iter().map(|e| FpGadget::allocate(&mut cs, Some(*e)).unwrap()).collect();
        fs.absorb_native_field_elements(&natives);
        fs_gadget.absorb_native_field_elements(&mut cs, &vars).unwrap();

        let a = fs.squeeze_native_field_elements(3);
        let b = fs_gadget.squeeze_native_field_elements(&mut cs, 3).unwrap();
        assert_eq!(values(&b), a);

        let short = fs.squeeze_128_bits_nonnative_field_elements(2);
        let (short_vars, short_bits) = fs_gadget.squeeze_128_bits_field_elements_and_bits(&mut cs, 2).unwrap();
        // 256 bits take five squeezed elements of 60 bits, which make two
        // elements of 128 bits
        assert_eq!(short.len(), 2);
        assert_eq!(short_vars.len(), 2);
        for (bits, native) in short_bits.iter().zip(short.iter()) {
            assert_eq!(bits.len(), 128);
            let mut acc = Fr::zero();
            let mut power = Fr::one();
            for b in bools(bits) {
                if b {
                    acc = acc.add(&power);
                }
                power = power.double();
            }
            assert_eq!(acc, *native);
        }
        let full = fs.squeeze_nonnative_field_elements(4);
        let full_vars = fs_gadget.squeeze_field_elements(&mut cs, 4).unwrap();
        assert_eq!(full.len(), full_vars.len());
        let short_again = fs_gadget.squeeze_128_bits_field_elements(&mut cs, 1).unwrap();
        assert_eq!(short_again.len(), fs.squeeze_128_bits_nonnative_field_elements(1).len());
        assert_eq!(values(&fs_gadget.s.state), fs.s.state);
        assert!(cs.is_satisfied());
    }
}

#[test]
fn nonnative_absorbs_agree_under_both_optimization_types() {
    let mut rng = StdRng::seed_from_u64(5);
    for ty in [OptimizationType::Constraints, OptimizationType::Weight] {
        for n in 0..8 {
            let elems: Vec<Fr> = (0..n).map(|_| Fr::from_u64(rng.gen())).collect();
            let mut fs = FS::new();
            fs.absorb_nonnative_field_elements(&elems, ty);

            let mut cs = ConstraintSystem::<CF>::new();
            let mut fs_gadget = FSGadget::new(&mut cs);
            let vars: Vec<NonNativeFieldVar<Fr, CF>> = elems
                .iter()
                .enumerate()
                .map(|(i, e)| {
                    if i % 2 == 0 {
                        NonNativeFieldVar::Constant(*e)
                    } else {
                        let limbs = get_limbs_representations::<Fr, CF>(e, ty).unwrap();
                        NonNativeFieldVar::Var(AllocatedNonNativeFieldVar {
                            limbs: limbs.iter().map(|l| FpGadget::allocate(&mut cs, Some(*l)).unwrap()).collect(),
                            num_of_additions_over_normal_form: CF::zero(),
                            is_in_the_normal_form: true,
                            target_phantom: Default::default(),
                        })
                    }
                })
                .collect();
            fs_gadget.absorb_nonnative_field_elements(&mut cs, &vars, ty).unwrap();
            assert_eq!(values(&fs_gadget.s.state), fs.s.state);
            assert_eq!(
                values(&fs_gadget.squeeze_native_field_elements(&mut cs, 2).unwrap()),
                fs.squeeze_native_field_elements(2)
            );
            assert!(cs.is_satisfied());
        }
    }
}
