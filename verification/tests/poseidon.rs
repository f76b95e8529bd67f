use snarkvm_core::fields::field::Field;
use snarkvm_core::fields::fp::Fp;
use snarkvm_core::gadgets::fp::FpGadget;
use snarkvm_core::gadgets::r1cs::ConstraintSystem;
use snarkvm_core::gadgets::uint8::UInt8;
use snarkvm_core::marlin::duplex::{DuplexSponge, DuplexSpongeVar, Permutation, PermutationVar};
use snarkvm_core::marlin::fiat_shamir::FiatShamirAlgebraicSpongeRng;
use snarkvm_core::marlin::fiat_shamir_constraints::FiatShamirAlgebraicSpongeRngVar;
use snarkvm_core::marlin::nonnative::NonNativeFieldVar;
use snarkvm_core::marlin::params::OptimizationType;
use snarkvm_core::marlin::poseidon::{
    counted_element, fifth_power, full_round, round_of, CountingParameters, Poseidon, PoseidonParameters,
    PoseidonVar,
};
use snarkvm_core::marlin::sponge::{AlgebraicSponge, AlgebraicSpongeVar};

// 2^61 - 1 and 2^32 - 5 are primes
type CF = Fp<2305843009213693951>;
type Fr = Fp<4294967291>;
type P = Poseidon<CF, CountingParameters>;
type PVar = PoseidonVar<CF, CountingParameters>;
type PS = DuplexSponge<CF, P>;
type PSGadget = DuplexSpongeVar<CF, P, PVar>;
type FS = FiatShamirAlgebraicSpongeRng<Fr, CF, PS>;
type FSGadget = FiatShamirAlgebraicSpongeRngVar<Fr, CF, PS, PSGadget>;

const EXPECTED_123: [u64; 3] = [1347964351974369365, 677402457620916730, 1800115953710008599];
const EXPECTED_000: [u64; 3] = [1402338452961156335, 1633889427295367712, 1139121804612932406];

fn state_of(values: [u64; 3]) -> Vec<CF> {
    values.iter().map(|v| CF::from_u64(*v)).collect()
}

fn values(gadgets: &[FpGadget<CF>]) -> Vec<CF> {
    gadgets.iter().map(|g| g.get_value().unwrap()).collect()
}

#[test]
fn the_counting_parameters() {
    assert_eq!(<P as Permutation<CF>>::width(), 3);
    assert_eq!(<P as Permutation<CF>>::rate(), 2);
    assert_eq!(<CountingParameters as PoseidonParameters<CF>>::full_rounds(), 8);
    assert_eq!(<CountingParameters as PoseidonParameters<CF>>::partial_rounds(), 24);
    assert_eq!(<CountingParameters as PoseidonParameters<CF>>::ark(0, 0), CF::from_u64(1));
    assert_eq!(<CountingParameters as PoseidonParameters<CF>>::ark(5, 2), CF::from_u64(18));
    assert_eq!(<CountingParameters as PoseidonParameters<CF>>::mds(1, 1), CF::from_u64(2));
    assert_eq!(<CountingParameters as PoseidonParameters<CF>>::mds(1, 2), CF::from_u64(1));
    assert_eq!(counted_element::<CF>(0), CF::zero());
    assert_eq!(counted_element::<CF>(77), CF::from_u64(77));
    assert_eq!(fifth_power(&CF::from_u64(3)), CF::from_u64(243));
    // four full rounds, twenty-four partial ones, four full ones
    let full: Vec<usize> = (0..32).filter(|r| full_round::<CF, CountingParameters>(*r)).collect();
    assert_eq!(full, vec![0, 1, 2, 3, 28, 29, 30, 31]);
}

#[test]
fn one_round_by_hand() {
    // a partial round on (1, 2, 3): the constants of round 4 are 13, 14, 15
    let next = round_of::<CF, CountingParameters>(&state_of([1, 2, 3]), 4);
    let a = 14u64.pow(5);
    assert_eq!(next, state_of([2 * a + 16 + 18, a + 32 + 18, a + 16 + 36]));
    // a full round on (0, 0, 0): the constants of round 0 are 1, 2, 3
    let next = round_of::<CF, CountingParameters>(&state_of([0, 0, 0]), 0);
    assert_eq!(next, state_of([2 + 32 + 243, 1 + 64 + 243, 1 + 32 + 486]));
}

#[test]
fn the_permutation_on_given_states() {
    let mut state = state_of([1, 2, 3]);
    P::permute(&mut state);
    assert_eq!(state, state_of(EXPECTED_123));
    let mut state = state_of([0, 0, 0]);
    P::permute(&mut state);
    assert_eq!(state, state_of(EXPECTED_000));
}

#[test]
fn the_permutation_in_a_circuit_mirrors_the_native_one() {
    let mut cs = ConstraintSystem::<CF>::new();
    let mut vars: Vec<FpGadget<CF>> =
        [5u64, 7, 11].iter().map(|v| FpGadget::allocate(&mut cs, Some(CF::from_u64(*v))).unwrap()).collect();
    PVar::permute(&mut cs, &mut vars).unwrap();
    let mut state = state_of([5, 7, 11]);
    P::permute(&mut state);
    assert_eq!(values(&vars), state);
    assert!(cs.is_satisfied());
    // three constraints for a fifth power and one for each mixed element
    assert_eq!(cs.num_constraints(), 8 * (9 + 3) + 24 * (3 + 3));
    // every element of the new state is a wire of its own
    assert!(vars.iter().all(|v| v.lc.terms.len() == 1));
}

#[test]
fn the_sponge_over_the_permutation() {
    let mut sponge = PS::new();
    sponge.absorb(&vec![CF::from_u64(1), CF::from_u64(2)]);
    // the rate is full: one permutation of (1, 2, 0)
    let mut expected = state_of([1, 2, 0]);
    P::permute(&mut expected);
    assert_eq!(sponge.state, expected);
    let out = sponge.squeeze(1);
    P::permute(&mut expected);
    assert_eq!(out, vec![expected[0]]);
}

#[test]
fn bytes_absorbed_and_squeezed_over_the_permutation() {
    let bytes = vec![0x01u8, 0x02, 0x03];
    let mut fs = FS::new();
    fs.absorb_bytes(&bytes);
    fs.absorb_nonnative_field_elements(&vec![Fr::from_u64(77), Fr::from_u64(4294967290)], OptimizationType::Weight);
    let natives = fs.squeeze_nonnative_field_elements(2);
    let native_elems = fs.squeeze_native_field_elements(3);

    let mut cs = ConstraintSystem::<CF>::new();
    let byte_vars: Vec<UInt8> = bytes.iter().map(|b| UInt8::allocate(&mut cs, *b)).collect();
    let mut fs_gadget = FSGadget::new(&mut cs);
    fs_gadget.absorb_bytes(&mut cs, &byte_vars).unwrap();
    let elems = vec![
        NonNativeFieldVar::<Fr, CF>::Constant(Fr::from_u64(77)),
        NonNativeFieldVar::<Fr, CF>::Constant(Fr::from_u64(4294967290)),
    ];
    fs_gadget.absorb_nonnative_field_elements(&mut cs, &elems, OptimizationType::Weight).unwrap();
    let (vars, bits) = fs_gadget.squeeze_field_elements_and_bits(&mut cs, 2).unwrap();
    let native_vars = fs_gadget.squeeze_native_field_elements(&mut cs, 3).unwrap();
    assert!(cs.is_satisfied());
    assert_eq!(values(&fs_gadget.s.state), fs.s.state);
    assert_eq!(values(&native_vars), native_elems);
    // 62 bits take two squeezed elements of 60 bits; the bits behind the
    // two elements of 31 bits are dropped
    assert_eq!(natives.len(), 2);
    assert_eq!(vars.len(), 2);
    assert_eq!(bits.len(), 2);
    for k in 0..2 {
        let spelled: u64 =
            bits[k].iter().enumerate().map(|(j, b)| (b.get_value().unwrap() as u64) << j).sum();
        assert_eq!(spelled % 4294967291, natives[k].value());
    }
}
