//! Bytes of a circuit: eight booleans, least significant first.
use crate::gadgets::boolean::Boolean;
use crate::gadgets::r1cs::ConstraintSystem;
use crate::fields::field::Field;
use vstd::prelude::*;

verus! {

/// Bit `i` of a byte; bit 0 is the lowest.
pub open spec fn byte_bit(v: u8, i: int) -> bool {
    (v >> (i as u8)) & 1 == 1
}

/// The values of a sequence of booleans.
pub open spec fn values_of(bits: Seq<Boolean>) -> Seq<bool> {
    Seq::new(bits.len(), |i: int| bits[i].value_spec())
}

/// Every boolean of the sequence holds in `cs`.
pub open spec fn all_hold_in<F: Field>(bits: Seq<Boolean>, cs: &ConstraintSystem<F>) -> bool {
    forall|i: int| 0 <= i < bits.len() ==> (#[trigger] bits[i]).holds_in(cs)
}

/// Booleans that hold in a system hold in every extension of it.
pub proof fn lemma_all_hold_later<F: Field>(
    bits: Seq<Boolean>,
    cs: &ConstraintSystem<F>,
    later: &ConstraintSystem<F>,
)
    requires
        all_hold_in(bits, cs),
        cs.extended_by(later),
    ensures
        all_hold_in(bits, later),
{
    assert forall|i: int| 0 <= i < bits.len() implies (#[trigger] bits[i]).holds_in(later) by {
        bits[i].lemma_holds_later(cs, later);
    }
}

/// A byte of a circuit.
pub struct UInt8 {
    pub bits: Vec<Boolean>,
    pub value: Option<u8>,
}

impl UInt8 {
    /// The byte has eight bits, which are those of its value.
    pub open spec fn wf(&self) -> bool {
        &&& self.bits@.len() == 8
        &&& self.value is Some
        &&& forall|i: int| 0 <= i < 8 ==> (#[trigger] self.bits@[i]).value_spec() == byte_bit(self.value->0, i)
    }

    /// The bits of the byte hold in `cs`.
    pub open spec fn holds_in<F: Field>(&self, cs: &ConstraintSystem<F>) -> bool {
        all_hold_in(self.bits@, cs)
    }

    /// The constant byte `value`, which takes no wires.
    pub fn constant(value: u8) -> (r: Self)
        ensures
            r.wf(),
            r.value == Some(value),
            forall|i: int| 0 <= i < 8 ==> (#[trigger] r.bits@[i]) == Boolean::Constant(byte_bit(value, i)),
    {
        let mut bits: Vec<Boolean> = Vec::new();
        let mut i: u8 = 0;
        while i < 8
            invariant
                i <= 8,
                bits@.len() == i,
                forall|k: int| 0 <= k < i ==> (#[trigger] bits@[k]) == Boolean::Constant(byte_bit(value, k)),
            decreases 8 - i,
        {
            bits.push(Boolean::Constant((value >> i) & 1 == 1));
            i += 1;
        }
        UInt8 { bits, value: Some(value) }
    }

    /// New wires for the eight bits of `value`.
    pub fn allocate<F: Field>(cs: &mut ConstraintSystem<F>, value: u8) -> (r: Self)
        requires
            old(cs).wf(),
        ensures
            r.wf(),
            r.value == Some(value),
            r.holds_in(final(cs)),
            final(cs).wf(),
            old(cs).extended_by(final(cs)),
            final(cs).aux@.len() == old(cs).aux@.len() + 8,
            final(cs).inputs@ == old(cs).inputs@,
            final(cs).satisfied_spec() == old(cs).satisfied_spec(),
    {
        let mut bits: Vec<Boolean> = Vec::new();
        let mut i: u8 = 0;
        while i < 8
            invariant
                i <= 8,
                bits@.len() == i,
                cs.wf(),
                old(cs).extended_by(cs),
                cs.aux@.len() == old(cs).aux@.len() + i,
                cs.inputs@ == old(cs).inputs@,
                cs.satisfied_spec() == old(cs).satisfied_spec(),
                all_hold_in(bits@, cs),
                forall|k: int| 0 <= k < i ==> (#[trigger] bits@[k]).value_spec() == byte_bit(value, k),
            decreases 8 - i,
        {
            let ghost before = *cs;
            let ghost prev = bits@;
            let b = (value >> i) & 1 == 1;
            match Boolean::allocate(cs, Some(b)) {
                Ok(bit) => {
                    bits.push(bit);
                    proof {
                        lemma_all_hold_later(prev, &before, cs);
                        old(cs).lemma_extended_twice(&before, cs);
                    }
                },
                Err(_) => {
                    assert(false);
                },
            }
            i += 1;
        }
        UInt8 { bits, value: Some(value) }
    }

    /// The bits of the byte, least significant first.
    pub fn to_bits_le(&self) -> (r: Vec<Boolean>)
        ensures
            r@ == self.bits@,
    {
        let mut r: Vec<Boolean> = Vec::new();
        let mut i: usize = 0;
        while i < self.bits.len()
            invariant
                i <= self.bits@.len(),
                r@ == self.bits@.subrange(0, i as int),
            decreases self.bits@.len() - i,
        {
            r.push(self.bits[i]);
            assert(r@ =~= self.bits@.subrange(0, i + 1));
            i += 1;
        }
        assert(r@ =~= self.bits@);
        r
    }
}

} // verus!
