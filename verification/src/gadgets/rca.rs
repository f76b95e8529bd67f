//! The ripple-carry adder: the bitwise sum of two numbers of `n` bits,
//! with the carry as bit `n`.
use crate::fields::field::Field;
use crate::gadgets::boolean::Boolean;
use crate::gadgets::r1cs::{ConstraintSystem, SynthesisError};
use crate::gadgets::uint8::{all_hold_in, lemma_all_hold_later, values_of};
use vstd::arithmetic::power2::{lemma_pow2_unfold, pow2};
use vstd::prelude::*;

verus! {

/// The number whose bits are `bits`, least significant first.
pub open spec fn bits_value_le(bits: Seq<bool>) -> nat
    decreases bits.len(),
{
    if bits.len() == 0 {
        0
    } else {
        bits_value_le(bits.drop_last()) + if bits.last() {
            pow2((bits.len() - 1) as nat)
        } else {
            0
        }
    }
}

/// The number that a bit stands for.
pub open spec fn bit_nat(b: bool) -> nat {
    if b {
        1
    } else {
        0
    }
}

/// Returns the bitwise sum of a n-bit number with carry bit
pub trait RippleCarryAdder<F: Field>: Sized {
    /// The bits of the number, least significant first.
    spec fn bits_spec(&self) -> Seq<Boolean>;

    /// The sum of the two numbers, as far as both have bits: as many bits
    /// as the shorter has, and the carry above them.
    fn add_bits(&self, cs: &mut ConstraintSystem<F>, other: &Self) -> (r: Result<
        Vec<Boolean>,
        SynthesisError,
    >)
        requires
            old(cs).wf(),
            all_hold_in(self.bits_spec(), old(cs)),
            all_hold_in(other.bits_spec(), old(cs)),
        ensures
            r is Ok,
            ({
                let n = if self.bits_spec().len() <= other.bits_spec().len() {
                    self.bits_spec().len() as int
                } else {
                    other.bits_spec().len() as int
                };
                &&& r->Ok_0@.len() == n + 1
                &&& bits_value_le(values_of(r->Ok_0@)) == bits_value_le(
                    values_of(self.bits_spec().subrange(0, n)),
                ) + bits_value_le(values_of(other.bits_spec().subrange(0, n)))
            }),
            all_hold_in(r->Ok_0@, final(cs)),
            final(cs).wf(),
            old(cs).extended_by(final(cs)),
            final(cs).inputs@ == old(cs).inputs@,
            final(cs).satisfied_spec() == old(cs).satisfied_spec(),
    ;
}

/// The value of a sequence of bits with one more bit on top.
pub proof fn lemma_bits_value_push(bits: Seq<bool>, b: bool)
    ensures
        bits_value_le(bits.push(b)) == bits_value_le(bits) + bit_nat(b) * pow2(bits.len()),
{
    assert(bits.push(b).drop_last() =~= bits);
    assert(bit_nat(b) * pow2(bits.len()) == if b {
        pow2(bits.len())
    } else {
        0
    }) by (nonlinear_arith);
}

/// One step of the adder keeps the books: the sum bit in place `i` and
/// the carry into place `i + 1` are worth what the three bits are.
proof fn lemma_adder_step(a: bool, b: bool, c: bool, i: nat)
    ensures
        bit_nat(a ^ b ^ c) * pow2(i) + bit_nat((a && b) || (c && (a ^ b))) * pow2(i + 1) == (bit_nat(
            a,
        ) + bit_nat(b) + bit_nat(c)) * pow2(i),
{
    lemma_pow2_unfold(i + 1);
    let p = pow2(i);
    let s = bit_nat(a ^ b ^ c);
    let k = bit_nat((a && b) || (c && (a ^ b)));
    assert(s + 2 * k == bit_nat(a) + bit_nat(b) + bit_nat(c));
    assert(s * p + k * (2 * p) == (s + 2 * k) * p) by (nonlinear_arith);
}

impl<F: Field> RippleCarryAdder<F> for Vec<Boolean> {
    open spec fn bits_spec(&self) -> Seq<Boolean> {
        self@
    }

    fn add_bits(&self, cs: &mut ConstraintSystem<F>, other: &Self) -> (r: Result<
        Vec<Boolean>,
        SynthesisError,
    >) {
        let n = if self.len() <= other.len() {
            self.len()
        } else {
            other.len()
        };
        let mut result: Vec<Boolean> = Vec::new();
        let mut carry = Boolean::constant(false);
        let mut i: usize = 0;
        let ghost a = values_of(self@.subrange(0, n as int));
        let ghost b = values_of(other@.subrange(0, n as int));
        assert(a.subrange(0, 0) =~= Seq::<bool>::empty());
        assert(b.subrange(0, 0) =~= Seq::<bool>::empty());
        assert(values_of(result@) =~= Seq::<bool>::empty());
        while i < n
            invariant
                i <= n,
                n <= self@.len(),
                n <= other@.len(),
                a == values_of(self@.subrange(0, n as int)),
                b == values_of(other@.subrange(0, n as int)),
                result@.len() == i,
                cs.wf(),
                old(cs).extended_by(cs),
                cs.aux@.len() <= old(cs).aux@.len() + 5 * i,
                cs.inputs@ == old(cs).inputs@,
                cs.satisfied_spec() == old(cs).satisfied_spec(),
                all_hold_in(self@, cs),
                all_hold_in(other@, cs),
                all_hold_in(result@, cs),
                carry.holds_in(cs),
                bits_value_le(values_of(result@)) + bit_nat(carry.value_spec()) * pow2(i as nat)
                    == bits_value_le(a.subrange(0, i as int)) + bits_value_le(b.subrange(0, i as int)),
            decreases n - i,
        {
            let ghost before = *cs;
            let ghost prev = result@;
            let ghost old_carry = carry;
            match Boolean::add(cs, &self[i], &other[i], &carry) {
                Ok((sum, next)) => {
                    carry = next;
                    result.push(sum);
                    proof {
                        lemma_all_hold_later(self@, &before, cs);
                        lemma_all_hold_later(other@, &before, cs);
                        lemma_all_hold_later(prev, &before, cs);
                        old(cs).lemma_extended_twice(&before, cs);
                        let ai = self@[i as int].value_spec();
                        let bi = other@[i as int].value_spec();
                        assert(values_of(result@) =~= values_of(prev).push(sum.value_spec()));
                        lemma_bits_value_push(values_of(prev), sum.value_spec());
                        assert(a.subrange(0, i + 1) =~= a.subrange(0, i as int).push(ai));
                        assert(b.subrange(0, i + 1) =~= b.subrange(0, i as int).push(bi));
                        lemma_bits_value_push(a.subrange(0, i as int), ai);
                        lemma_bits_value_push(b.subrange(0, i as int), bi);
                        lemma_adder_step(ai, bi, old_carry.value_spec(), i as nat);
                        let p = pow2(i as nat);
                        assert((bit_nat(ai) + bit_nat(bi) + bit_nat(old_carry.value_spec())) * p
                            == bit_nat(ai) * p + bit_nat(bi) * p + bit_nat(old_carry.value_spec()) * p)
                            by (nonlinear_arith);
                    }
                },
                Err(e) => {
                    return Err(e);
                },
            }
            i += 1;
        }
        // append the carry bit to the end
        let ghost prev = result@;
        result.push(carry);
        proof {
            assert(values_of(result@) =~= values_of(prev).push(carry.value_spec()));
            lemma_bits_value_push(values_of(prev), carry.value_spec());
            assert(a.subrange(0, n as int) =~= a);
            assert(b.subrange(0, n as int) =~= b);
        }
        Ok(result)
    }
}

} // verus!
