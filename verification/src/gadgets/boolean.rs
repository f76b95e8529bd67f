//! Boolean variables of a circuit: allocated bits, their negations, and
//! constants.
use crate::fields::closure::group_field_closed;
use crate::fields::field::Field;
use crate::fields::laws::{
    lemma_mul_neg, lemma_mul_zero, lemma_neg_zero, lemma_one_mul, lemma_zero_add,
};
use crate::gadgets::r1cs::{
    eval, eval_terms, var_ok, var_value, ConstraintSystem, LinearCombination, SynthesisError,
    Variable,
};
use vstd::prelude::*;

verus! {

broadcast use group_field_closed;

/// The field element that stands for a bit: one or zero.
pub open spec fn bit_elem<F: Field>(b: bool) -> F {
    if b {
        F::one_spec()
    } else {
        F::zero_spec()
    }
}

/// `1 - x`.
pub open spec fn fnot<F: Field>(x: F) -> F {
    F::one_spec().add_spec(x.neg_spec())
}

/// What the gates compute on the elements that stand for bits.
pub proof fn lemma_gates<F: Field>(a: bool, b: bool)
    requires
        F::is_field(),
    ensures
        bit_elem::<F>(a).wf(),
        fnot(bit_elem::<F>(a)) == bit_elem::<F>(!a),
        fnot(bit_elem::<F>(a)).mul_spec(bit_elem::<F>(a)) == F::zero_spec(),
        bit_elem::<F>(a).mul_spec(bit_elem::<F>(b)) == bit_elem::<F>(a && b),
        bit_elem::<F>(a).add_spec(bit_elem::<F>(a)).mul_spec(bit_elem::<F>(b)) == bit_elem::<F>(
            a,
        ).add_spec(bit_elem::<F>(b)).add_spec(bit_elem::<F>(a ^ b).neg_spec()),
{
    let zero = F::zero_spec();
    let one = F::one_spec();
    F::lemma_constants();
    lemma_neg_zero::<F>();
    F::lemma_add_zero(one);
    F::lemma_add_zero(zero);
    F::lemma_add_neg(one);
    lemma_mul_zero(one);
    lemma_mul_zero(zero);
    F::lemma_mul_one(one);
    lemma_zero_add(one);
    let two = one.add_spec(one);
    lemma_mul_zero(two);
    F::lemma_mul_one(two);
    // 1 + 1 - 0 = 1 + 1
    F::lemma_add_zero(two);
    // (1 + 0) - 1 = 0 and (0 + 1) - 1 = 0
}

/// The values of combinations of one, two and three terms.
pub proof fn lemma_eval_small<F: Field>(
    t0: (Variable, F),
    t1: (Variable, F),
    t2: (Variable, F),
    inputs: Seq<F>,
    aux: Seq<F>,
)
    requires
        t0.1.wf(),
        t1.1.wf(),
        t2.1.wf(),
        var_value(t0.0, inputs, aux).wf(),
        var_value(t1.0, inputs, aux).wf(),
        var_value(t2.0, inputs, aux).wf(),
    ensures
        eval(Seq::<(Variable, F)>::empty(), inputs, aux) == F::zero_spec(),
        eval(seq![t0], inputs, aux) == t0.1.mul_spec(var_value(t0.0, inputs, aux)),
        eval(seq![t0, t1], inputs, aux) == t0.1.mul_spec(var_value(t0.0, inputs, aux)).add_spec(
            t1.1.mul_spec(var_value(t1.0, inputs, aux)),
        ),
        eval(seq![t0, t1, t2], inputs, aux) == t0.1.mul_spec(var_value(t0.0, inputs, aux)).add_spec(
            t1.1.mul_spec(var_value(t1.0, inputs, aux)),
        ).add_spec(t2.1.mul_spec(var_value(t2.0, inputs, aux))),
{
    let first = t0.1.mul_spec(var_value(t0.0, inputs, aux));
    lemma_zero_add(first);
    let s1 = seq![t0];
    let s2 = seq![t0, t1];
    let s3 = seq![t0, t1, t2];
    assert(eval_terms(s1, inputs, aux, 0) == F::zero_spec());
    assert(eval_terms(s1, inputs, aux, 1) == first);
    assert(eval_terms(s2, inputs, aux, 0) == F::zero_spec());
    assert(eval_terms(s2, inputs, aux, 1) == first);
    assert(eval_terms(s2, inputs, aux, 2) == first.add_spec(t1.1.mul_spec(var_value(t1.0, inputs, aux))));
    assert(eval_terms(s3, inputs, aux, 0) == F::zero_spec());
    assert(eval_terms(s3, inputs, aux, 1) == first);
    assert(eval_terms(s3, inputs, aux, 2) == first.add_spec(t1.1.mul_spec(var_value(t1.0, inputs, aux))));
}

/// A wire that holds a bit.
#[derive(Clone, Copy, Debug)]
pub struct AllocatedBit {
    pub variable: Variable,
    pub value: Option<bool>,
}

/// A boolean of a circuit.
#[derive(Clone, Copy, Debug)]
pub enum Boolean {
    /// The bit of a wire.
    Is(AllocatedBit),
    /// The negation of the bit of a wire.
    Not(AllocatedBit),
    /// A constant, which takes no wire.
    Constant(bool),
}

impl AllocatedBit {
    /// The wire exists in `cs`, and its assigned value stands for the bit.
    pub open spec fn holds_in<F: Field>(self, cs: &ConstraintSystem<F>) -> bool {
        &&& var_ok(self.variable, cs.inputs@.len() as int, cs.aux@.len() as int)
        &&& self.value is Some
        &&& var_value(self.variable, cs.inputs@, cs.aux@) == bit_elem::<F>(self.value->0)
    }

    /// A bit that holds in a system holds in every extension of it.
    pub proof fn lemma_holds_later<F: Field>(self, cs: &ConstraintSystem<F>, later: &ConstraintSystem<F>)
        requires
            self.holds_in(cs),
            cs.extended_by(later),
        ensures
            self.holds_in(later),
    {
    }

    /// The bit itself, where the wire has a value.
    pub fn get_value(&self) -> (v: Option<bool>)
        ensures
            v == self.value,
    {
        self.value
    }

    /// A new wire for `value`, constrained to hold a bit:
    /// `(1 - a) * a = 0`.
    pub fn allocate<F: Field>(cs: &mut ConstraintSystem<F>, value: Option<bool>) -> (r: Result<
        Self,
        SynthesisError,
    >)
        requires
            old(cs).wf(),
        ensures
            match r {
                Ok(bit) => {
                    &&& value is Some
                    &&& bit.value == value
                    &&& bit.holds_in(final(cs))
                    &&& bit.variable == (Variable { is_input: false, index: old(cs).aux.len() })
                    &&& final(cs).wf()
                    &&& old(cs).extended_by(final(cs))
                    &&& final(cs).aux@.len() == old(cs).aux@.len() + 1
                    &&& final(cs).inputs@ == old(cs).inputs@
                    &&& old(cs).with_constraint(
                        final(cs),
                        seq![
                            (ConstraintSystem::<F>::one_spec(), F::one_spec()),
                            (bit.variable, F::one_spec().neg_spec()),
                        ],
                        seq![(bit.variable, F::one_spec())],
                        Seq::empty(),
                    )
                    &&& final(cs).satisfied_spec() == old(cs).satisfied_spec()
                },
                Err(e) => value is None && e == SynthesisError::AssignmentMissing && *final(cs) == *old(
                    cs,
                ),
            },
    {
        let b = match value {
            None => {
                return Err(SynthesisError::AssignmentMissing);
            },
            Some(b) => b,
        };
        proof {
            lemma_gates::<F>(b, b);
            F::lemma_constants();
        }
        let elem = if b {
            F::one()
        } else {
            F::zero()
        };
        let var = match cs.allocate(Some(elem)) {
            Ok(v) => v,
            Err(e) => {
                return Err(e);
            },
        };
        let one = F::one();
        let minus_one = one.neg();
        // (1 - a) * a = 0
        let mut a = LinearCombination::<F>::from_term(ConstraintSystem::<F>::one(), one);
        a.add_term(var, minus_one);
        let b_lc = LinearCombination::<F>::from_term(var, one);
        let c = LinearCombination::<F>::zero();
        proof {
            let t0 = (ConstraintSystem::<F>::one_spec(), one);
            let t1 = (var, minus_one);
            let t2 = (var, one);
            assert(a@ =~= seq![t0, t1]);
            lemma_eval_small(t0, t1, t2, cs.inputs@, cs.aux@);
            lemma_eval_small(t2, t1, t0, cs.inputs@, cs.aux@);
            F::lemma_mul_one(one);
            lemma_one_mul(elem);
            lemma_mul_neg(one, elem);
            assert(cs.value_of(a@) == fnot(elem));
            assert(cs.value_of(b_lc@) == elem);
            assert(cs.value_of(c@) == F::zero_spec());
        }
        cs.enforce(a, b_lc, c);
        Ok(AllocatedBit { variable: var, value: Some(b) })
    }

    /// A new wire for the result `c` of a gate on the bits `a` and `b`,
    /// with the one constraint that fixes it: for `kind` 0 the exclusive or,
    /// `(a + a) * b = a + b - c`; for 1 the conjunction, `a * b = c`;
    /// for 2 `a and not b`, `a * (1 - b) = c`; for any other the negated
    /// disjunction, `(1 - a) * (1 - b) = c`.
    fn gate<F: Field>(cs: &mut ConstraintSystem<F>, a: &Self, b: &Self, kind: u8) -> (r: Result<
        Self,
        SynthesisError,
    >)
        requires
            old(cs).wf(),
            a.holds_in(old(cs)),
            b.holds_in(old(cs)),
        ensures
            r is Ok,
            r->Ok_0.value == Some(
                if kind == 0 {
                    a.value->0 ^ b.value->0
                } else if kind == 1 {
                    a.value->0 && b.value->0
                } else if kind == 2 {
                    a.value->0 && !b.value->0
                } else {
                    !a.value->0 && !b.value->0
                },
            ),
            r->Ok_0.holds_in(final(cs)),
            final(cs).wf(),
            old(cs).extended_by(final(cs)),
            final(cs).aux@.len() == old(cs).aux@.len() + 1,
            final(cs).inputs@ == old(cs).inputs@,
            r->Ok_0.variable == (Variable { is_input: false, index: old(cs).aux.len() }),
            gate_added(old(cs), final(cs), Some((kind as int, a.variable, b.variable))),
            final(cs).satisfied_spec() == old(cs).satisfied_spec(),
    {
        let av = a.value.unwrap();
        let bv = b.value.unwrap();
        let cv = if kind == 0 {
            av != bv
        } else if kind == 1 {
            av && bv
        } else if kind == 2 {
            av && !bv
        } else {
            !av && !bv
        };
        proof {
            lemma_gates::<F>(av, bv);
            lemma_gates::<F>(bv, av);
            lemma_gates::<F>(cv, cv);
            lemma_gates::<F>(av, !bv);
            lemma_gates::<F>(!av, !bv);
            F::lemma_constants();
        }
        let elem = if cv {
            F::one()
        } else {
            F::zero()
        };
        let var = match cs.allocate(Some(elem)) {
            Ok(v) => v,
            Err(e) => {
                return Err(e);
            },
        };
        let one = F::one();
        let minus_one = one.neg();
        let one_var = ConstraintSystem::<F>::one();
        let ghost ea = bit_elem::<F>(av);
        let ghost eb = bit_elem::<F>(bv);
        let ghost ta = (a.variable, one);
        let ghost tb = (b.variable, one);
        let ghost tc = (var, one);
        let ghost t1 = (one_var, one);
        let ghost na = (a.variable, minus_one);
        let ghost nb = (b.variable, minus_one);
        let ghost nc = (var, minus_one);
        proof {
            assert(var_value(a.variable, cs.inputs@, cs.aux@) == ea);
            assert(var_value(b.variable, cs.inputs@, cs.aux@) == eb);
            assert(var_value(var, cs.inputs@, cs.aux@) == elem);
            F::lemma_mul_one(one);
            lemma_one_mul(ea);
            lemma_one_mul(eb);
            lemma_one_mul(elem);
            lemma_mul_neg(one, ea);
            lemma_mul_neg(one, eb);
            lemma_mul_neg(one, elem);
            lemma_eval_small(ta, ta, tc, cs.inputs@, cs.aux@);
            lemma_eval_small(tb, ta, tc, cs.inputs@, cs.aux@);
            lemma_eval_small(tc, ta, tc, cs.inputs@, cs.aux@);
            lemma_eval_small(ta, tb, nc, cs.inputs@, cs.aux@);
            lemma_eval_small(t1, na, tc, cs.inputs@, cs.aux@);
            lemma_eval_small(t1, nb, tc, cs.inputs@, cs.aux@);
        }
        if kind == 0 {
            let mut la = LinearCombination::<F>::from_term(a.variable, one);
            la.add_term(a.variable, one);
            let lb = LinearCombination::<F>::from_term(b.variable, one);
            let mut lc = LinearCombination::<F>::from_term(a.variable, one);
            lc.add_term(b.variable, one);
            lc.add_term(var, minus_one);
            proof {
                assert(la@ =~= seq![ta, ta]);
                assert(lc@ =~= seq![ta, tb, nc]);
            }
            cs.enforce(la, lb, lc);
        } else if kind == 1 {
            let la = LinearCombination::<F>::from_term(a.variable, one);
            let lb = LinearCombination::<F>::from_term(b.variable, one);
            let lc = LinearCombination::<F>::from_term(var, one);
            cs.enforce(la, lb, lc);
        } else if kind == 2 {
            let la = LinearCombination::<F>::from_term(a.variable, one);
            let mut lb = LinearCombination::<F>::from_term(one_var, one);
            lb.add_term(b.variable, minus_one);
            let lc = LinearCombination::<F>::from_term(var, one);
            proof {
                assert(lb@ =~= seq![t1, nb]);
            }
            cs.enforce(la, lb, lc);
        } else {
            let mut la = LinearCombination::<F>::from_term(one_var, one);
            la.add_term(a.variable, minus_one);
            let mut lb = LinearCombination::<F>::from_term(one_var, one);
            lb.add_term(b.variable, minus_one);
            let lc = LinearCombination::<F>::from_term(var, one);
            proof {
                assert(la@ =~= seq![t1, na]);
                assert(lb@ =~= seq![t1, nb]);
            }
            cs.enforce(la, lb, lc);
        }
        Ok(AllocatedBit { variable: var, value: Some(cv) })
    }
}

/// The three combinations of the constraint of a gate on the wires `a`
/// and `b` with the result `c`: for `kind` 0 the exclusive or,
/// `(a + a) * b = a + b - c`; for 1 the conjunction, `a * b = c`; for 2
/// `a and not b`, `a * (1 - b) = c`; for any other the negated
/// disjunction, `(1 - a) * (1 - b) = c`.
pub open spec fn gate_constraint<F: Field>(kind: int, a: Variable, b: Variable, c: Variable) -> (
    Seq<(Variable, F)>,
    Seq<(Variable, F)>,
    Seq<(Variable, F)>,
) {
    let one = F::one_spec();
    let minus_one = F::one_spec().neg_spec();
    let unit = ConstraintSystem::<F>::one_spec();
    if kind == 0 {
        (seq![(a, one), (a, one)], seq![(b, one)], seq![(a, one), (b, one), (c, minus_one)])
    } else if kind == 1 {
        (seq![(a, one)], seq![(b, one)], seq![(c, one)])
    } else if kind == 2 {
        (seq![(a, one)], seq![(unit, one), (b, minus_one)], seq![(c, one)])
    } else {
        (seq![(unit, one), (a, minus_one)], seq![(unit, one), (b, minus_one)], seq![(c, one)])
    }
}

/// What the exclusive or of two booleans takes: a kind of constraint and
/// its two wires, or nothing where one of them is a constant.
pub open spec fn xor_gate(a: Boolean, b: Boolean) -> Option<(int, Variable, Variable)> {
    match (a, b) {
        (Boolean::Constant(_), _) => None,
        (_, Boolean::Constant(_)) => None,
        (Boolean::Is(x), Boolean::Not(y)) => Some((0, x.variable, y.variable)),
        (Boolean::Not(x), Boolean::Is(y)) => Some((0, x.variable, y.variable)),
        (Boolean::Is(x), Boolean::Is(y)) => Some((0, x.variable, y.variable)),
        (Boolean::Not(x), Boolean::Not(y)) => Some((0, x.variable, y.variable)),
    }
}

/// What the conjunction of two booleans takes: a kind of constraint and
/// its two wires, or nothing where one of them is a constant.
pub open spec fn and_gate(a: Boolean, b: Boolean) -> Option<(int, Variable, Variable)> {
    match (a, b) {
        (Boolean::Constant(_), _) => None,
        (_, Boolean::Constant(_)) => None,
        (Boolean::Is(x), Boolean::Not(y)) => Some((2, x.variable, y.variable)),
        (Boolean::Not(x), Boolean::Is(y)) => Some((2, y.variable, x.variable)),
        (Boolean::Not(x), Boolean::Not(y)) => Some((3, x.variable, y.variable)),
        (Boolean::Is(x), Boolean::Is(y)) => Some((1, x.variable, y.variable)),
    }
}

/// `later` is `cs` with a new wire for the result and the constraint of
/// that kind on the two wires behind it; or it is `cs`, where nothing is
/// taken.
pub open spec fn gate_added<F: Field>(
    cs: &ConstraintSystem<F>,
    later: &ConstraintSystem<F>,
    gate: Option<(int, Variable, Variable)>,
) -> bool {
    match gate {
        None => *later == *cs,
        Some((kind, a, b)) => {
            let c = Variable { is_input: false, index: cs.aux.len() };
            &&& later.aux@.len() == cs.aux@.len() + 1
            &&& cs.with_constraint(
                later,
                gate_constraint::<F>(kind, a, b, c).0,
                gate_constraint::<F>(kind, a, b, c).1,
                gate_constraint::<F>(kind, a, b, c).2,
            )
        },
    }
}

impl Boolean {
    /// The boolean is a constant, or its wire holds in `cs`.
    pub open spec fn holds_in<F: Field>(self, cs: &ConstraintSystem<F>) -> bool {
        match self {
            Boolean::Is(a) => a.holds_in(cs),
            Boolean::Not(a) => a.holds_in(cs),
            Boolean::Constant(_) => true,
        }
    }

    /// The value of the boolean.
    pub open spec fn value_spec(self) -> bool {
        match self {
            Boolean::Is(a) => a.value->0,
            Boolean::Not(a) => !a.value->0,
            Boolean::Constant(c) => c,
        }
    }

    /// The boolean times `coeff` as a linear combination: `coeff * v` for
    /// the bit of a wire `v`, `coeff * 1 - coeff * v` for its negation,
    /// `coeff * 1` for the constant true and nothing for the constant false.
    pub open spec fn lc_spec<F: Field>(self, one: Variable, coeff: F) -> Seq<(Variable, F)> {
        match self {
            Boolean::Is(a) => seq![(a.variable, coeff)],
            Boolean::Not(a) => seq![(one, coeff), (a.variable, coeff.neg_spec())],
            Boolean::Constant(c) => if c {
                seq![(one, coeff)]
            } else {
                Seq::empty()
            },
        }
    }

    /// A boolean that holds in a system holds in every extension of it.
    pub proof fn lemma_holds_later<F: Field>(self, cs: &ConstraintSystem<F>, later: &ConstraintSystem<F>)
        requires
            self.holds_in(cs),
            cs.extended_by(later),
        ensures
            self.holds_in(later),
    {
    }

    /// The linear combination of a boolean has the value `coeff` where the
    /// boolean is true, and zero where it is false.
    pub proof fn lemma_lc_value<F: Field>(self, cs: &ConstraintSystem<F>, coeff: F)
        requires
            cs.wf(),
            self.holds_in(cs),
            coeff.wf(),
        ensures
            cs.lc_ok(self.lc_spec(ConstraintSystem::<F>::one_spec(), coeff)),
            cs.value_of(self.lc_spec(ConstraintSystem::<F>::one_spec(), coeff)) == coeff.mul_spec(
                bit_elem::<F>(self.value_spec()),
            ),
    {
        let one = ConstraintSystem::<F>::one_spec();
        let o = F::one_spec();
        let z = F::zero_spec();
        F::lemma_constants();
        F::lemma_mul_one(coeff);
        F::lemma_mul_one(coeff.neg_spec());
        lemma_mul_zero(coeff);
        lemma_mul_zero(coeff.neg_spec());
        F::lemma_add_neg(coeff);
        F::lemma_add_zero(coeff);
        let t = (one, coeff);
        match self {
            Boolean::Is(a) => {
                lemma_eval_small((a.variable, coeff), t, t, cs.inputs@, cs.aux@);
            },
            Boolean::Not(a) => {
                lemma_eval_small(t, (a.variable, coeff.neg_spec()), t, cs.inputs@, cs.aux@);
            },
            Boolean::Constant(c) => {
                lemma_eval_small(t, t, t, cs.inputs@, cs.aux@);
            },
        }
    }

    /// The constant boolean `b`.
    pub fn constant(b: bool) -> (r: Self)
        ensures
            r == Boolean::Constant(b),
    {
        Boolean::Constant(b)
    }

    /// A new wire for `value`, constrained to hold a bit.
    pub fn allocate<F: Field>(cs: &mut ConstraintSystem<F>, value: Option<bool>) -> (r: Result<
        Self,
        SynthesisError,
    >)
        requires
            old(cs).wf(),
        ensures
            match r {
                Ok(b) => {
                    &&& value is Some
                    &&& b is Is
                    &&& b.value_spec() == value->0
                    &&& b.holds_in(final(cs))
                    &&& final(cs).wf()
                    &&& old(cs).extended_by(final(cs))
                    &&& final(cs).aux@.len() == old(cs).aux@.len() + 1
                    &&& final(cs).inputs@ == old(cs).inputs@
                    &&& final(cs).satisfied_spec() == old(cs).satisfied_spec()
                },
                Err(e) => value is None && e == SynthesisError::AssignmentMissing && *final(cs) == *old(
                    cs,
                ),
            },
    {
        match AllocatedBit::allocate(cs, value) {
            Ok(bit) => Ok(Boolean::Is(bit)),
            Err(e) => Err(e),
        }
    }

    /// The value of the boolean, where its wire has one.
    pub fn get_value(&self) -> (v: Option<bool>)
        ensures
            self.holds_in_any() ==> v == Some(self.value_spec()),
    {
        match self {
            Boolean::Constant(c) => Some(*c),
            Boolean::Is(v) => v.get_value(),
            Boolean::Not(v) => match v.get_value() {
                Some(b) => Some(!b),
                None => None,
            },
        }
    }

    /// The wire of the boolean, if it has one, has a value.
    pub open spec fn holds_in_any(self) -> bool {
        match self {
            Boolean::Is(a) => a.value is Some,
            Boolean::Not(a) => a.value is Some,
            Boolean::Constant(_) => true,
        }
    }

    /// The boolean times `coeff` as a linear combination.
    pub fn lc<F: Field>(&self, one: Variable, coeff: F) -> (r: LinearCombination<F>)
        requires
            coeff.wf(),
        ensures
            r@ == self.lc_spec(one, coeff),
    {
        match self {
            Boolean::Constant(c) => {
                if *c {
                    LinearCombination::from_term(one, coeff)
                } else {
                    LinearCombination::zero()
                }
            },
            Boolean::Is(v) => LinearCombination::from_term(v.variable, coeff),
            Boolean::Not(v) => {
                let mut r = LinearCombination::from_term(one, coeff);
                r.add_term(v.variable, coeff.neg());
                assert(r@ =~= seq![(one, coeff), (v.variable, coeff.neg_spec())]);
                r
            },
        }
    }

    /// The negation as a value.
    pub open spec fn not_spec(self) -> Self {
        match self {
            Boolean::Constant(c) => Boolean::Constant(!c),
            Boolean::Is(v) => Boolean::Not(v),
            Boolean::Not(v) => Boolean::Is(v),
        }
    }

    /// The negation, which takes no constraint.
    pub fn not(&self) -> (r: Self)
        ensures
            r.value_spec() == !self.value_spec(),
            r == self.not_spec(),
    {
        match self {
            Boolean::Constant(c) => Boolean::Constant(!*c),
            Boolean::Is(v) => Boolean::Not(*v),
            Boolean::Not(v) => Boolean::Is(*v),
        }
    }

    /// The exclusive or of two booleans: a new wire with its constraint, or
    /// no wire at all where one of them is a constant.
    pub fn xor<F: Field>(cs: &mut ConstraintSystem<F>, a: &Self, b: &Self) -> (r: Result<
        Self,
        SynthesisError,
    >)
        requires
            old(cs).wf(),
            a.holds_in(old(cs)),
            b.holds_in(old(cs)),
        ensures
            r is Ok,
            r->Ok_0.value_spec() == (a.value_spec() ^ b.value_spec()),
            r->Ok_0.holds_in(final(cs)),
            final(cs).wf(),
            old(cs).extended_by(final(cs)),
            final(cs).aux@.len() <= old(cs).aux@.len() + 1,
            final(cs).inputs@ == old(cs).inputs@,
            gate_added(old(cs), final(cs), xor_gate(*a, *b)),
            final(cs).satisfied_spec() == old(cs).satisfied_spec(),
    {
        match (*a, *b) {
            (Boolean::Constant(false), x) => Ok(x),
            (x, Boolean::Constant(false)) => Ok(x),
            (Boolean::Constant(true), x) => Ok(x.not()),
            (x, Boolean::Constant(true)) => Ok(x.not()),
            (Boolean::Is(x), Boolean::Not(y)) => match AllocatedBit::gate(cs, &x, &y, 0) {
                Ok(c) => Ok(Boolean::Not(c)),
                Err(e) => Err(e),
            },
            (Boolean::Not(x), Boolean::Is(y)) => match AllocatedBit::gate(cs, &x, &y, 0) {
                Ok(c) => Ok(Boolean::Not(c)),
                Err(e) => Err(e),
            },
            (Boolean::Is(x), Boolean::Is(y)) => match AllocatedBit::gate(cs, &x, &y, 0) {
                Ok(c) => Ok(Boolean::Is(c)),
                Err(e) => Err(e),
            },
            (Boolean::Not(x), Boolean::Not(y)) => match AllocatedBit::gate(cs, &x, &y, 0) {
                Ok(c) => Ok(Boolean::Is(c)),
                Err(e) => Err(e),
            },
        }
    }

    /// The conjunction of two booleans: a new wire with its constraint, or
    /// no wire at all where one of them is a constant.
    pub fn and<F: Field>(cs: &mut ConstraintSystem<F>, a: &Self, b: &Self) -> (r: Result<
        Self,
        SynthesisError,
    >)
        requires
            old(cs).wf(),
            a.holds_in(old(cs)),
            b.holds_in(old(cs)),
        ensures
            r is Ok,
            r->Ok_0.value_spec() == (a.value_spec() && b.value_spec()),
            r->Ok_0.holds_in(final(cs)),
            final(cs).wf(),
            old(cs).extended_by(final(cs)),
            final(cs).aux@.len() <= old(cs).aux@.len() + 1,
            final(cs).inputs@ == old(cs).inputs@,
            gate_added(old(cs), final(cs), and_gate(*a, *b)),
            final(cs).satisfied_spec() == old(cs).satisfied_spec(),
    {
        match (*a, *b) {
            (Boolean::Constant(false), _) => Ok(Boolean::Constant(false)),
            (_, Boolean::Constant(false)) => Ok(Boolean::Constant(false)),
            (Boolean::Constant(true), x) => Ok(x),
            (x, Boolean::Constant(true)) => Ok(x),
            (Boolean::Is(x), Boolean::Not(y)) => match AllocatedBit::gate(cs, &x, &y, 2) {
                Ok(c) => Ok(Boolean::Is(c)),
                Err(e) => Err(e),
            },
            (Boolean::Not(x), Boolean::Is(y)) => match AllocatedBit::gate(cs, &y, &x, 2) {
                Ok(c) => Ok(Boolean::Is(c)),
                Err(e) => Err(e),
            },
            (Boolean::Not(x), Boolean::Not(y)) => match AllocatedBit::gate(cs, &x, &y, 3) {
                Ok(c) => Ok(Boolean::Is(c)),
                Err(e) => Err(e),
            },
            (Boolean::Is(x), Boolean::Is(y)) => match AllocatedBit::gate(cs, &x, &y, 1) {
                Ok(c) => Ok(Boolean::Is(c)),
                Err(e) => Err(e),
            },
        }
    }

    /// The disjunction of two booleans: the negation of the conjunction of
    /// their negations.
    pub fn or<F: Field>(cs: &mut ConstraintSystem<F>, a: &Self, b: &Self) -> (r: Result<
        Self,
        SynthesisError,
    >)
        requires
            old(cs).wf(),
            a.holds_in(old(cs)),
            b.holds_in(old(cs)),
        ensures
            r is Ok,
            r->Ok_0.value_spec() == (a.value_spec() || b.value_spec()),
            r->Ok_0.holds_in(final(cs)),
            final(cs).wf(),
            old(cs).extended_by(final(cs)),
            final(cs).aux@.len() <= old(cs).aux@.len() + 1,
            final(cs).inputs@ == old(cs).inputs@,
            gate_added(old(cs), final(cs), and_gate(a.not_spec(), b.not_spec())),
            final(cs).satisfied_spec() == old(cs).satisfied_spec(),
    {
        let na = a.not();
        let nb = b.not();
        match Self::and(cs, &na, &nb) {
            Ok(c) => Ok(c.not()),
            Err(e) => Err(e),
        }
    }

    /// The full adder: the sum bit and the carry of `a + b + carry`.
    pub fn add<F: Field>(cs: &mut ConstraintSystem<F>, a: &Self, b: &Self, carry: &Self) -> (r: Result<
        (Self, Self),
        SynthesisError,
    >)
        requires
            old(cs).wf(),
            a.holds_in(old(cs)),
            b.holds_in(old(cs)),
            carry.holds_in(old(cs)),
        ensures
            r is Ok,
            r->Ok_0.0.value_spec() == (a.value_spec() ^ b.value_spec() ^ carry.value_spec()),
            r->Ok_0.1.value_spec() == ((a.value_spec() && b.value_spec()) || (carry.value_spec() && (
            a.value_spec() ^ b.value_spec()))),
            r->Ok_0.0.holds_in(final(cs)),
            r->Ok_0.1.holds_in(final(cs)),
            final(cs).wf(),
            old(cs).extended_by(final(cs)),
            final(cs).aux@.len() <= old(cs).aux@.len() + 5,
            final(cs).inputs@ == old(cs).inputs@,
            final(cs).satisfied_spec() == old(cs).satisfied_spec(),
    {
        let a_x_b = match Self::xor(cs, a, b) {
            Ok(v) => v,
            Err(e) => {
                return Err(e);
            },
        };
        let sum = match Self::xor(cs, &a_x_b, carry) {
            Ok(v) => v,
            Err(e) => {
                return Err(e);
            },
        };
        let c1 = match Self::and(cs, a, b) {
            Ok(v) => v,
            Err(e) => {
                return Err(e);
            },
        };
        let c2 = match Self::and(cs, carry, &a_x_b) {
            Ok(v) => v,
            Err(e) => {
                return Err(e);
            },
        };
        let carry_out = match Self::or(cs, &c1, &c2) {
            Ok(v) => v,
            Err(e) => {
                return Err(e);
            },
        };
        Ok((sum, carry_out))
    }
}

} // verus!
