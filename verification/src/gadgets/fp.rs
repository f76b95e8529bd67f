//! Field variables of a circuit: a linear combination of wires together
//! with the value it has.
use crate::bits::limb_bit;
use crate::fields::closure::group_field_closed;
use crate::fields::field::{Field, PrimeField};
use crate::fields::laws::{lemma_mul_zero, lemma_one_mul};
use crate::fields::pack::{lemma_pack_push, low_bits, pack_le, powers_of_two, two_pow};
use crate::gadgets::boolean::{lemma_eval_small, lemma_gates, AllocatedBit, Boolean};
use crate::gadgets::r1cs::{
    lemma_eval_concat, lemma_eval_push, lemma_eval_scaled, var_ok, var_value, Constraint,
    ConstraintSystem, LinearCombination, SynthesisError, Variable,
};
use crate::gadgets::uint8::{all_hold_in, lemma_all_hold_later};
use vstd::prelude::*;

verus! {

broadcast use group_field_closed;

/// A field variable.
pub struct FpGadget<F: Field> {
    pub value: Option<F>,
    pub lc: LinearCombination<F>,
}

/// The values of a sequence of field variables.
pub open spec fn fp_values<F: Field>(v: Seq<FpGadget<F>>) -> Seq<F> {
    Seq::new(v.len(), |i: int| v[i].value->0)
}

/// Every field variable of the sequence holds in `cs`.
pub open spec fn all_fp_hold_in<F: Field>(v: Seq<FpGadget<F>>, cs: &ConstraintSystem<F>) -> bool {
    forall|i: int| 0 <= i < v.len() ==> (#[trigger] v[i]).holds_in(cs)
}

/// Field variables that hold in a system hold in every extension of it.
pub proof fn lemma_all_fp_hold_later<F: Field>(
    v: Seq<FpGadget<F>>,
    cs: &ConstraintSystem<F>,
    later: &ConstraintSystem<F>,
)
    requires
        all_fp_hold_in(v, cs),
        cs.wf(),
        later.wf(),
        cs.extended_by(later),
    ensures
        all_fp_hold_in(v, later),
{
    assert forall|i: int| 0 <= i < v.len() implies (#[trigger] v[i]).holds_in(later) by {
        v[i].lemma_holds_later(cs, later);
    }
}

impl<F: Field> FpGadget<F> {
    /// The combination speaks of wires of `cs`, and its value under the
    /// assignment of `cs` is the value of the variable.
    pub open spec fn holds_in(&self, cs: &ConstraintSystem<F>) -> bool {
        &&& cs.lc_ok(self.lc@)
        &&& self.value is Some
        &&& self.value->0.wf()
        &&& cs.value_of(self.lc@) == self.value->0
    }

    /// A variable that holds in a system holds in every extension of it.
    pub proof fn lemma_holds_later(&self, cs: &ConstraintSystem<F>, later: &ConstraintSystem<F>)
        requires
            self.holds_in(cs),
            cs.wf(),
            later.wf(),
            cs.extended_by(later),
        ensures
            self.holds_in(later),
    {
        crate::gadgets::r1cs::lemma_eval_stable(
            self.lc@,
            cs.inputs@,
            cs.aux@,
            later.inputs@,
            later.aux@,
            self.lc@.len() as int,
        );
        assert forall|k: int| 0 <= k < self.lc@.len() implies var_ok(
            (#[trigger] self.lc@[k]).0,
            later.inputs@.len() as int,
            later.aux@.len() as int,
        ) && self.lc@[k].1.wf() by {
            assert(var_ok(self.lc@[k].0, cs.inputs@.len() as int, cs.aux@.len() as int));
        }
    }

    /// The value of the variable.
    pub fn get_value(&self) -> (v: Option<F>)
        ensures
            v == self.value,
    {
        self.value
    }

    /// A copy of the variable.
    pub fn duplicate(&self) -> (r: Self)
        ensures
            r.value == self.value,
            r.lc@ == self.lc@,
    {
        FpGadget { value: self.value, lc: self.lc.duplicate() }
    }

    /// The variable of one wire.
    fn from_wire(cs: &ConstraintSystem<F>, var: Variable, value: F) -> (r: Self)
        requires
            cs.wf(),
            value.wf(),
            var_ok(var, cs.inputs@.len() as int, cs.aux@.len() as int),
            var_value(var, cs.inputs@, cs.aux@) == value,
        ensures
            r.holds_in(cs),
            r.value == Some(value),
            r.lc@ == seq![(var, F::one_spec())],
    {
        proof {
            F::lemma_constants();
            let t = (var, F::one_spec());
            lemma_eval_small(t, t, t, cs.inputs@, cs.aux@);
            lemma_one_mul(value);
        }
        FpGadget { value: Some(value), lc: LinearCombination::from_term(var, F::one()) }
    }

    /// A new witness wire with the given value.
    pub fn allocate(cs: &mut ConstraintSystem<F>, value: Option<F>) -> (r: Result<Self, SynthesisError>)
        requires
            old(cs).wf(),
            value is Some ==> value->0.wf(),
        ensures
            match r {
                Ok(g) => {
                    &&& value is Some
                    &&& g.value == value
                    &&& g.holds_in(final(cs))
                    &&& final(cs).wf()
                    &&& old(cs).extended_by(final(cs))
                    &&& final(cs).aux@.len() == old(cs).aux@.len() + 1
                    &&& g.lc@ == seq![
                        (Variable { is_input: false, index: old(cs).aux.len() }, F::one_spec()),
                    ]
                    &&& final(cs).inputs@ == old(cs).inputs@
                    &&& final(cs).constraints@ == old(cs).constraints@
                    &&& final(cs).satisfied_spec() == old(cs).satisfied_spec()
                },
                Err(e) => value is None && e == SynthesisError::AssignmentMissing && *final(cs) == *old(
                    cs,
                ),
            },
    {
        match cs.allocate(value) {
            Err(e) => Err(e),
            Ok(var) => Ok(Self::from_wire(cs, var, value.unwrap())),
        }
    }

    /// A new public input wire with the given value.
    pub fn allocate_input(cs: &mut ConstraintSystem<F>, value: Option<F>) -> (r: Result<
        Self,
        SynthesisError,
    >)
        requires
            old(cs).wf(),
            value is Some ==> value->0.wf(),
        ensures
            match r {
                Ok(g) => {
                    &&& value is Some
                    &&& g.value == value
                    &&& g.holds_in(final(cs))
                    &&& final(cs).wf()
                    &&& old(cs).extended_by(final(cs))
                    &&& final(cs).inputs@ == old(cs).inputs@.push(value->0)
                    &&& g.lc@ == seq![
                        (Variable { is_input: true, index: old(cs).inputs.len() }, F::one_spec()),
                    ]
                    &&& final(cs).aux@ == old(cs).aux@
                    &&& final(cs).constraints@ == old(cs).constraints@
                    &&& final(cs).satisfied_spec() == old(cs).satisfied_spec()
                },
                Err(e) => value is None && e == SynthesisError::AssignmentMissing && *final(cs) == *old(
                    cs,
                ),
            },
    {
        match cs.allocate_input(value) {
            Err(e) => Err(e),
            Ok(var) => Ok(Self::from_wire(cs, var, value.unwrap())),
        }
    }

    /// The constant `value`: that multiple of the constant wire.
    pub fn constant(cs: &ConstraintSystem<F>, value: F) -> (r: Self)
        requires
            cs.wf(),
            value.wf(),
        ensures
            r.holds_in(cs),
            r.value == Some(value),
    {
        proof {
            let t = (ConstraintSystem::<F>::one_spec(), value);
            lemma_eval_small(t, t, t, cs.inputs@, cs.aux@);
            F::lemma_mul_one(value);
        }
        FpGadget {
            value: Some(value),
            lc: LinearCombination::from_term(ConstraintSystem::<F>::one(), value),
        }
    }

    /// The sum of two variables, which takes no constraint.
    pub fn add(&self, cs: &ConstraintSystem<F>, other: &Self) -> (r: Self)
        requires
            cs.wf(),
            self.holds_in(cs),
            other.holds_in(cs),
        ensures
            r.holds_in(cs),
            r.value == Some(self.value->0.add_spec(other.value->0)),
    {
        let mut lc = self.lc.duplicate();
        lc.append(&other.lc);
        proof {
            lemma_eval_concat(self.lc@, other.lc@, cs.inputs@, cs.aux@, other.lc@.len() as int);
        }
        FpGadget { value: Some(self.value.unwrap().add(&other.value.unwrap())), lc }
    }

    /// The variable times a constant, which takes no constraint.
    pub fn mul_by_constant(&self, cs: &ConstraintSystem<F>, c: &F) -> (r: Self)
        requires
            cs.wf(),
            self.holds_in(cs),
            c.wf(),
        ensures
            r.holds_in(cs),
            r.value == Some(self.value->0.mul_spec(*c)),
    {
        proof {
            assert forall|k: int| 0 <= k < self.lc@.len() implies (#[trigger] self.lc@[k]).1.wf() by {
                assert(var_ok(self.lc@[k].0, cs.inputs@.len() as int, cs.aux@.len() as int));
            }
            lemma_eval_scaled(self.lc@, *c, cs.inputs@, cs.aux@, self.lc@.len() as int);
            F::lemma_mul_commutative(self.value->0, *c);
        }
        let lc = self.lc.scale(c);
        FpGadget { value: Some(self.value.unwrap().mul(c)), lc }
    }

    /// The product of two variables: a new wire `r`, and the one
    /// constraint that fixes it, `self * other = r`.
    pub fn mul(&self, cs: &mut ConstraintSystem<F>, other: &Self) -> (r: Self)
        requires
            old(cs).wf(),
            self.holds_in(old(cs)),
            other.holds_in(old(cs)),
        ensures
            r.holds_in(final(cs)),
            r.value == Some(self.value->0.mul_spec(other.value->0)),
            final(cs).wf(),
            old(cs).extended_by(final(cs)),
            final(cs).inputs@ == old(cs).inputs@,
            final(cs).aux@.len() == old(cs).aux@.len() + 1,
            r.lc@ == seq![(Variable { is_input: false, index: old(cs).aux.len() }, F::one_spec())],
            old(cs).with_constraint(final(cs), self.lc@, other.lc@, r.lc@),
            final(cs).satisfied_spec() == old(cs).satisfied_spec(),
    {
        let product = self.value.unwrap().mul(&other.value.unwrap());
        let var = match cs.allocate(Some(product)) {
            Ok(v) => v,
            Err(_) => vstd::pervasive::unreached(),
        };
        let ghost mid = *cs;
        let r = Self::from_wire(cs, var, product);
        proof {
            self.lemma_holds_later(old(cs), &mid);
            other.lemma_holds_later(old(cs), &mid);
        }
        cs.enforce(self.lc.duplicate(), other.lc.duplicate(), r.lc.duplicate());
        proof {
            r.lemma_holds_later(&mid, cs);
            old(cs).lemma_extended_twice(&mid, cs);
        }
        r
    }
}

/// The constraint `(1 - v) * v = 0`, which makes the wire `v` hold a bit.
pub open spec fn is_bit_constraint<F: Field>(c: Constraint<F>, v: Variable) -> bool {
    &&& c.a@ == seq![(ConstraintSystem::<F>::one_spec(), F::one_spec()), (v, F::one_spec().neg_spec())]
    &&& c.b@ == seq![(v, F::one_spec())]
    &&& c.c@ == Seq::<(Variable, F)>::empty()
}

/// The sum of the first `i` wires, wire `k` times `2^k`, as a linear
/// combination.
pub open spec fn packing_lc<F: Field>(wires: Seq<Variable>, i: int) -> Seq<(Variable, F)>
    decreases i,
{
    if i <= 0 {
        Seq::empty()
    } else {
        packing_lc::<F>(wires, i - 1).push((wires[i - 1], two_pow::<F>((i - 1) as nat)))
    }
}

/// The wires of bits that are each a wire, least significant first, for
/// bits that are given most significant first.
pub open spec fn wires_le(be: Seq<Boolean>) -> Seq<Variable> {
    Seq::new(be.len(), |k: int| be[be.len() - 1 - k]->Is_0.variable)
}

impl<F: PrimeField> FpGadget<F> {
    /// The bits of the integer lift of the variable, most significant
    /// first, as many as the characteristic has: a new wire for each bit
    /// with the constraint that it holds a bit, and behind those the one
    /// constraint that the bits add up to the variable,
    /// `(sum of 2^k bit_k) * 1 = self`.
    pub fn to_bits_be(&self, cs: &mut ConstraintSystem<F>) -> (r: Result<Vec<Boolean>, SynthesisError>)
        requires
            old(cs).wf(),
            self.holds_in(old(cs)),
        ensures
            r is Ok,
            r->Ok_0@.len() == F::size_in_bits_spec(),
            forall|k: int|
                0 <= k < F::size_in_bits_spec() ==> (#[trigger] r->Ok_0@[k]).value_spec() == limb_bit(
                    self.value->0.repr_spec(),
                    F::size_in_bits_spec() - 1 - k,
                ),
            all_hold_in(r->Ok_0@, final(cs)),
            final(cs).wf(),
            old(cs).extended_by(final(cs)),
            final(cs).aux@.len() == old(cs).aux@.len() + F::size_in_bits_spec(),
            final(cs).inputs@ == old(cs).inputs@,
            forall|k: int| 0 <= k < F::size_in_bits_spec() ==> (#[trigger] r->Ok_0@[k]) is Is,
            final(cs).constraints@.len() == old(cs).constraints@.len() + F::size_in_bits_spec() + 1,
            forall|k: int|
                0 <= k < F::size_in_bits_spec() ==> is_bit_constraint(
                    #[trigger] final(cs).constraints@[old(cs).constraints@.len() + k],
                    wires_le(r->Ok_0@)[k],
                ),
            final(cs).constraints@.last().a@ == packing_lc::<F>(
                wires_le(r->Ok_0@),
                F::size_in_bits_spec() as int,
            ),
            final(cs).constraints@.last().b@ == seq![(ConstraintSystem::<F>::one_spec(), F::one_spec())],
            final(cs).constraints@.last().c@ == self.lc@,
            final(cs).satisfied_spec() == old(cs).satisfied_spec(),
    {
        let value = self.value.unwrap();
        let n = F::size_in_bits();
        let repr = value.into_repr();
        proof {
            F::lemma_size_in_bits();
            F::lemma_limbs(value);
            F::lemma_constants();
        }
        let powers = powers_of_two::<F>(n);
        let mut le: Vec<Boolean> = Vec::new();
        let mut lc = LinearCombination::<F>::zero();
        let mut i: usize = 0;
        let ghost bits = low_bits(repr@, n as nat);
        proof {
            let t = (ConstraintSystem::<F>::one_spec(), F::one_spec());
            lemma_eval_small(t, t, t, cs.inputs@, cs.aux@);
            assert(bits.subrange(0, 0) =~= Seq::<bool>::empty());
        }
        while i < n
            invariant
                i <= n,
                n == F::size_in_bits_spec(),
                n <= 64 * repr@.len(),
                repr@ == value.repr_spec(),
                bits == low_bits(repr@, n as nat),
                powers@.len() == n,
                forall|k: int| 0 <= k < n ==> (#[trigger] powers@[k]) == two_pow::<F>(k as nat),
                forall|k: int| 0 <= k < n ==> (#[trigger] powers@[k]).wf(),
                le@.len() == i,
                forall|k: int| 0 <= k < i ==> (#[trigger] le@[k]).value_spec() == limb_bit(repr@, k),
                all_hold_in(le@, cs),
                cs.wf(),
                old(cs).wf(),
                old(cs).extended_by(cs),
                cs.aux@.len() == old(cs).aux@.len() + i,
                cs.inputs@ == old(cs).inputs@,
                cs.satisfied_spec() == old(cs).satisfied_spec(),
                cs.lc_ok(lc@),
                cs.value_of(lc@) == pack_le::<F>(bits.subrange(0, i as int)),
                forall|k: int| 0 <= k < i ==> (#[trigger] le@[k]) is Is,
                cs.constraints@.len() == old(cs).constraints@.len() + i,
                forall|k: int|
                    0 <= k < i ==> is_bit_constraint(
                        #[trigger] cs.constraints@[old(cs).constraints@.len() + k],
                        le@[k]->Is_0.variable,
                    ),
                lc@ == packing_lc::<F>(Seq::new(le@.len(), |k: int| le@[k]->Is_0.variable), i as int),
            decreases n - i,
        {
            let ghost before = *cs;
            let ghost prev = le@;
            let b = (repr[i / 64] >> ((i % 64) as u64)) & 1 == 1;
            let bit = new_bit(cs, b);
            {
                {
                    proof {
                        lemma_all_hold_later(prev, &before, cs);
                        old(cs).lemma_extended_twice(&before, cs);
                        before.lemma_extension_general(cs);
                        assert(before.lc_ok(lc@));
                        assert(cs.value_of(lc@) == before.value_of(lc@));
                        lemma_eval_push(lc@, (bit.variable, powers@[i as int]), cs.inputs@, cs.aux@);
                        lemma_gates::<F>(b, b);
                        F::lemma_mul_one(powers@[i as int]);
                        lemma_mul_zero(powers@[i as int]);
                        assert(bits.subrange(0, i + 1) =~= bits.subrange(0, i as int).push(b));
                        lemma_pack_push::<F>(bits.subrange(0, i as int), b);
                        assert forall|k: int| 0 <= k < i implies is_bit_constraint(
                            #[trigger] cs.constraints@[old(cs).constraints@.len() + k],
                            prev[k]->Is_0.variable,
                        ) by {
                            assert(cs.constraints@[old(cs).constraints@.len() + k]
                                == before.constraints@[old(cs).constraints@.len() + k]);
                        }
                    }
                    let ghost wires_before = Seq::new(prev.len(), |k: int| prev[k]->Is_0.variable);
                    lc.add_term(bit.variable, powers[i]);
                    le.push(Boolean::Is(bit));
                    proof {
                        let wires = Seq::new(le@.len(), |k: int| le@[k]->Is_0.variable);
                        lemma_packing_prefix::<F>(wires_before, wires, i as int);
                    }
                }
            }
            i += 1;
        }
        proof {
            assert(bits.subrange(0, n as int) =~= bits);
            F::lemma_pack_repr(value);
            let t = (ConstraintSystem::<F>::one_spec(), F::one_spec());
            lemma_eval_small(t, t, t, cs.inputs@, cs.aux@);
            F::lemma_mul_one(F::one_spec());
            F::lemma_mul_one(value);
            old(cs).lemma_extension_general(cs);
            self.lemma_holds_later(old(cs), cs);
        }
        // the bits add up to the variable: lc * 1 = self
        let one_lc = LinearCombination::<F>::from_term(ConstraintSystem::<F>::one(), F::one());
        let ghost mid = *cs;
        let ghost packed = lc@;
        cs.enforce(lc, one_lc, self.lc.duplicate());
        proof {
            lemma_all_hold_later(le@, &mid, cs);
            old(cs).lemma_extended_twice(&mid, cs);
            assert forall|k: int| 0 <= k < n implies is_bit_constraint(
                #[trigger] cs.constraints@[old(cs).constraints@.len() + k],
                le@[k]->Is_0.variable,
            ) by {
                assert(cs.constraints@[old(cs).constraints@.len() + k] == mid.constraints@[old(
                    cs,
                ).constraints@.len() + k]);
            }
        }
        // most significant first
        let mut be: Vec<Boolean> = Vec::new();
        let mut k: usize = 0;
        while k < n
            invariant
                k <= n,
                le@.len() == n,
                be@.len() == k,
                forall|j: int| 0 <= j < k ==> (#[trigger] be@[j]) == le@[n - 1 - j],
            decreases n - k,
        {
            be.push(le[n - 1 - k]);
            k += 1;
        }
        proof {
            assert(wires_le(be@) =~= Seq::new(le@.len(), |k: int| le@[k]->Is_0.variable));
        }
        Ok(be)
    }
}

/// The combination of the first `i` wires does not depend on the wires
/// behind them.
pub proof fn lemma_packing_prefix<F: Field>(a: Seq<Variable>, b: Seq<Variable>, i: int)
    requires
        i <= a.len(),
        i <= b.len(),
        forall|k: int| 0 <= k < i ==> a[k] == b[k],
    ensures
        packing_lc::<F>(a, i) == packing_lc::<F>(b, i),
    decreases i,
{
    if i > 0 {
        lemma_packing_prefix::<F>(a, b, i - 1);
    }
}

/// A new wire that holds the bit `b`.
fn new_bit<F: Field>(cs: &mut ConstraintSystem<F>, b: bool) -> (bit: AllocatedBit)
    requires
        old(cs).wf(),
    ensures
        bit.value == Some(b),
        bit.holds_in(final(cs)),
        bit.variable == (Variable { is_input: false, index: old(cs).aux.len() }),
        final(cs).wf(),
        old(cs).extended_by(final(cs)),
        final(cs).aux@.len() == old(cs).aux@.len() + 1,
        final(cs).inputs@ == old(cs).inputs@,
        final(cs).constraints@.len() == old(cs).constraints@.len() + 1,
        is_bit_constraint(final(cs).constraints@.last(), bit.variable),
        final(cs).satisfied_spec() == old(cs).satisfied_spec(),
{
    match AllocatedBit::allocate(cs, Some(b)) {
        Ok(bit) => bit,
        Err(_) => {
            assert(false);
            AllocatedBit {
                variable: Variable { is_input: false, index: 0 },
                value: None,
            }
        },
    }
}

} // verus!
