use snarkvm_core::fields::field::{Field, PrimeField};
use snarkvm_core::fields::fp::Fp;
use snarkvm_core::gadgets::boolean::{AllocatedBit, Boolean};
use snarkvm_core::gadgets::fp::FpGadget;
use snarkvm_core::gadgets::r1cs::{ConstraintSystem, LinearCombination, SynthesisError, Variable};
use snarkvm_core::gadgets::rca::RippleCarryAdder;
use snarkvm_core::gadgets::uint8::UInt8;

type F = Fp<10007>;

fn value(b: &Boolean) -> bool {
    b.get_value().unwrap()
}

fn operand(cs: &mut ConstraintSystem<F>, kind: usize, v: bool) -> Boolean {
    match kind {
        0 => Boolean::constant(v),
        1 => Boolean::allocate(cs, Some(v)).unwrap(),
        _ => Boolean::allocate(cs, Some(!v)).unwrap().not(),
    }
}

#[test]
fn new_system_has_the_constant_one_only() {
    let cs = ConstraintSystem::<F>::new();
    assert_eq!(cs.inputs, vec![F::one()]);
    assert_eq!(cs.aux.len(), 0);
    assert_eq!(cs.num_constraints(), 0);
    assert!(cs.is_satisfied());
    assert_eq!(ConstraintSystem::<F>::one(), Variable { is_input: true, index: 0 });
}

#[test]
fn allocation_needs_a_value() {
    let mut cs = ConstraintSystem::<F>::new();
    assert_eq!(cs.allocate(None), Err(SynthesisError::AssignmentMissing));
    assert_eq!(cs.allocate_input(None), Err(SynthesisError::AssignmentMissing));
    assert_eq!(cs.allocate(Some(F::from_u64(5))), Ok(Variable { is_input: false, index: 0 }));
    assert_eq!(cs.allocate_input(Some(F::from_u64(6))), Ok(Variable { is_input: true, index: 1 }));
    assert!(Boolean::allocate(&mut cs, None).is_err());
    assert!(FpGadget::allocate(&mut cs, None).is_err());
    assert_eq!(cs.aux.len(), 1);
}

#[test]
fn enforce_checks_the_product() {
    let mut cs = ConstraintSystem::<F>::new();
    let a = cs.allocate(Some(F::from_u64(3))).unwrap();
    let b = cs.allocate(Some(F::from_u64(4))).unwrap();
    let c = cs.allocate(Some(F::from_u64(12))).unwrap();
    let d = cs.allocate(Some(F::from_u64(13))).unwrap();
    let one = F::one();
    cs.enforce(
        LinearCombination::from_term(a, one),
        LinearCombination::from_term(b, one),
        LinearCombination::from_term(c, one),
    );
    assert!(cs.is_satisfied());
    // 2a * (b + 1) = c + d + 5
    let mut rhs = LinearCombination::from_term(c, one);
    rhs.add_term(d, one);
    rhs.add_term(ConstraintSystem::<F>::one(), F::from_u64(5));
    let mut rb = LinearCombination::from_term(b, one);
    rb.add_term(ConstraintSystem::<F>::one(), one);
    assert_eq!(cs.evaluate(&rhs).value(), 30);
    cs.enforce(LinearCombination::from_term(a, F::from_u64(2)), rb, rhs);
    assert!(cs.is_satisfied());
    cs.enforce(
        LinearCombination::from_term(a, one),
        LinearCombination::from_term(b, one),
        LinearCombination::from_term(d, one),
    );
    assert!(!cs.is_satisfied());
    assert_eq!(cs.num_constraints(), 3);
}

#[test]
fn boolean_gates_truth_tables() {
    for ka in 0..3 {
        for kb in 0..3 {
            for a in [false, true] {
                for b in [false, true] {
                    let mut cs = ConstraintSystem::<F>::new();
                    let x = operand(&mut cs, ka, a);
                    let y = operand(&mut cs, kb, b);
                    assert_eq!(value(&x), a);
                    assert_eq!(value(&y), b);
                    let before = cs.num_constraints();
                    let r = Boolean::xor(&mut cs, &x, &y).unwrap();
                    assert_eq!(value(&r), a ^ b);
                    let r = Boolean::and(&mut cs, &x, &y).unwrap();
                    assert_eq!(value(&r), a && b);
                    let r = Boolean::or(&mut cs, &x, &y).unwrap();
                    assert_eq!(value(&r), a || b);
                    assert_eq!(value(&x.not()), !a);
                    assert!(cs.is_satisfied());
                    if ka == 0 || kb == 0 {
                        assert_eq!(cs.num_constraints(), before);
                    } else {
                        assert_eq!(cs.num_constraints(), before + 3);
                    }
                }
            }
        }
    }
}

#[test]
fn a_wrong_bit_breaks_the_system() {
    let mut cs = ConstraintSystem::<F>::new();
    let x = Boolean::allocate(&mut cs, Some(true)).unwrap();
    let y = Boolean::allocate(&mut cs, Some(true)).unwrap();
    let _ = Boolean::and(&mut cs, &x, &y).unwrap();
    assert!(cs.is_satisfied());
    // the conjunction is held by the third witness
    cs.aux[2] = F::zero();
    assert!(!cs.is_satisfied());
    cs.aux[2] = F::one();
    assert!(cs.is_satisfied());
    cs.aux[0] = F::from_u64(2);
    assert!(!cs.is_satisfied());
}

#[test]
fn boolean_linear_combinations() {
    let mut cs = ConstraintSystem::<F>::new();
    let one = ConstraintSystem::<F>::one();
    let c = F::from_u64(5);
    for v in [false, true] {
        let expected = if v { 5 } else { 0 };
        let is = Boolean::allocate(&mut cs, Some(v)).unwrap();
        assert_eq!(cs.evaluate(&is.lc(one, c)).value(), expected);
        let not = Boolean::allocate(&mut cs, Some(!v)).unwrap().not();
        assert_eq!(cs.evaluate(&not.lc(one, c)).value(), expected);
        assert_eq!(cs.evaluate(&Boolean::constant(v).lc(one, c)).value(), expected);
    }
    let bit = AllocatedBit::allocate(&mut cs, Some(true)).unwrap();
    assert_eq!(bit.get_value(), Some(true));
}

#[test]
fn full_adder_truth_table() {
    for a in [false, true] {
        for b in [false, true] {
            for c in [false, true] {
                let mut cs = ConstraintSystem::<F>::new();
                let x = Boolean::allocate(&mut cs, Some(a)).unwrap();
                let y = Boolean::allocate(&mut cs, Some(b)).unwrap();
                let z = Boolean::allocate(&mut cs, Some(c)).unwrap();
                let (sum, carry) = Boolean::add(&mut cs, &x, &y, &z).unwrap();
                let total = a as u8 + b as u8 + c as u8;
                assert_eq!(value(&sum), total % 2 == 1);
                assert_eq!(value(&carry), total >= 2);
                assert!(cs.is_satisfied());
            }
        }
    }
}

fn bits_of(cs: &mut ConstraintSystem<F>, v: u64, n: usize) -> Vec<Boolean> {
    (0..n).map(|i| Boolean::allocate(cs, Some((v >> i) & 1 == 1)).unwrap()).collect()
}

fn number_of(bits: &[Boolean]) -> u64 {
    bits.iter().enumerate().map(|(i, b)| (value(b) as u64) << i).sum()
}

#[test]
fn ripple_carry_adder_adds() {
    for (a, b, n) in [(0u64, 0u64, 4usize), (5, 9, 4), (15, 15, 4), (255, 1, 8), (200, 100, 8), (1, 0, 1), (1, 1, 1)] {
        let mut cs = ConstraintSystem::<F>::new();
        let x = bits_of(&mut cs, a, n);
        let y = bits_of(&mut cs, b, n);
        let sum = x.add_bits(&mut cs, &y).unwrap();
        assert_eq!(sum.len(), n + 1);
        assert_eq!(number_of(&sum), a + b);
        assert!(cs.is_satisfied());
    }
    // the shorter operand sets the width
    let mut cs = ConstraintSystem::<F>::new();
    let x = bits_of(&mut cs, 0b1111, 4);
    let y = bits_of(&mut cs, 0b01, 2);
    let sum = x.add_bits(&mut cs, &y).unwrap();
    assert_eq!(sum.len(), 3);
    assert_eq!(number_of(&sum), 0b11 + 0b01);
    let empty: Vec<Boolean> = Vec::new();
    let sum = empty.add_bits(&mut cs, &y).unwrap();
    assert_eq!(sum.len(), 1);
    assert!(!value(&sum[0]));
}

#[test]
fn bytes_have_their_bits_lowest_first() {
    let byte = UInt8::constant(0b1010_0110);
    assert_eq!(byte.value, Some(0b1010_0110));
    let bits: Vec<bool> = byte.to_bits_le().iter().map(value).collect();
    assert_eq!(bits, vec![false, true, true, false, false, true, false, true]);
    let mut cs = ConstraintSystem::<F>::new();
    let byte = UInt8::allocate(&mut cs, 0b0000_0011);
    assert_eq!(cs.aux.len(), 8);
    assert_eq!(cs.num_constraints(), 8);
    let bits: Vec<bool> = byte.to_bits_le().iter().map(value).collect();
    assert_eq!(bits, vec![true, true, false, false, false, false, false, false]);
    assert!(cs.is_satisfied());
}

#[test]
fn field_variables_add_and_scale_without_constraints() {
    let mut cs = ConstraintSystem::<F>::new();
    let a = FpGadget::allocate(&mut cs, Some(F::from_u64(10000))).unwrap();
    let b = FpGadget::allocate_input(&mut cs, Some(F::from_u64(9))).unwrap();
    let c = FpGadget::constant(&cs, F::from_u64(4));
    let sum = a.add(&cs, &b).add(&cs, &c);
    assert_eq!(sum.get_value().unwrap().value(), 6);
    assert_eq!(cs.evaluate(&sum.lc).value(), 6);
    let scaled = sum.mul_by_constant(&cs, &F::from_u64(5000));
    assert_eq!(scaled.get_value().unwrap().value(), 30000 % 10007);
    assert_eq!(cs.evaluate(&scaled.lc).value(), 30000 % 10007);
    assert_eq!(cs.num_constraints(), 0);
    let copy = scaled.duplicate();
    assert_eq!(copy.get_value(), scaled.get_value());
}

#[test]
fn field_variable_to_bits() {
    assert_eq!(F::size_in_bits(), 14);
    for v in [0u64, 1, 2, 5003, 8191, 8192, 10006] {
        let mut cs = ConstraintSystem::<F>::new();
        let a = FpGadget::allocate(&mut cs, Some(F::from_u64(v))).unwrap();
        let bits = a.to_bits_be(&mut cs).unwrap();
        assert_eq!(bits.len(), 14);
        let number: u64 = bits.iter().fold(0, |acc, b| 2 * acc + value(b) as u64);
        assert_eq!(number, v);
        assert!(cs.is_satisfied());
        assert_eq!(cs.num_constraints(), 15);
        // another value for the variable does not fit the bits
        cs.aux[0] = F::from_u64(v + 1);
        assert!(!cs.is_satisfied());
    }
}
