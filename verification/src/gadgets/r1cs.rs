//! Rank-1 constraint systems: a list of triples `(A, B, C)` of linear
//! combinations over the assigned values `z`, each demanding
//! `<A, z> * <B, z> = <C, z>`.
use crate::fields::closure::group_field_closed;
use crate::fields::field::Field;
use crate::fields::laws::lemma_mul_zero;
use vstd::prelude::*;

verus! {

broadcast use group_field_closed;

/// Why the synthesis of a circuit failed.
#[derive(Clone, Copy, Debug, PartialEq, Eq, Structural)]
pub enum SynthesisError {
    /// A value was needed for a wire that has none.
    AssignmentMissing,
    /// The constraints cannot be met.
    Unsatisfiable,
}

/// A wire of a constraint system: a public input or a witness.  The input
/// with index 0 is the constant one.
#[derive(Clone, Copy, Debug, PartialEq, Eq, Structural)]
pub struct Variable {
    pub is_input: bool,
    pub index: usize,
}

/// A sum of wires with coefficients.
pub struct LinearCombination<F: Field> {
    pub terms: Vec<(Variable, F)>,
}

/// One constraint `a * b = c`.
pub struct Constraint<F: Field> {
    pub a: LinearCombination<F>,
    pub b: LinearCombination<F>,
    pub c: LinearCombination<F>,
}

/// A constraint system together with the values assigned to its wires.
pub struct ConstraintSystem<F: Field> {
    pub inputs: Vec<F>,
    pub aux: Vec<F>,
    pub constraints: Vec<Constraint<F>>,
}

/// The wire exists among `ni` inputs and `na` witnesses.
pub open spec fn var_ok(v: Variable, ni: int, na: int) -> bool {
    if v.is_input {
        v.index < ni
    } else {
        v.index < na
    }
}

/// The value assigned to a wire.
pub open spec fn var_value<F: Field>(v: Variable, inputs: Seq<F>, aux: Seq<F>) -> F {
    if v.is_input {
        inputs[v.index as int]
    } else {
        aux[v.index as int]
    }
}

/// Every term has an existing wire and an element as coefficient.
pub open spec fn terms_ok<F: Field>(terms: Seq<(Variable, F)>, ni: int, na: int) -> bool {
    forall|k: int| 0 <= k < terms.len() ==> var_ok((#[trigger] terms[k]).0, ni, na) && terms[k].1.wf()
}

/// The value of the first `n` terms: the sum of coefficient times wire.
pub open spec fn eval_terms<F: Field>(
    terms: Seq<(Variable, F)>,
    inputs: Seq<F>,
    aux: Seq<F>,
    n: int,
) -> F
    decreases n,
{
    if n <= 0 {
        F::zero_spec()
    } else {
        eval_terms(terms, inputs, aux, n - 1).add_spec(
            terms[n - 1].1.mul_spec(var_value(terms[n - 1].0, inputs, aux)),
        )
    }
}

/// The value of a linear combination.
pub open spec fn eval<F: Field>(terms: Seq<(Variable, F)>, inputs: Seq<F>, aux: Seq<F>) -> F {
    eval_terms(terms, inputs, aux, terms.len() as int)
}

/// All values of the sequence are field elements.
pub open spec fn all_elements<F: Field>(s: Seq<F>) -> bool {
    forall|k: int| 0 <= k < s.len() ==> (#[trigger] s[k]).wf()
}

/// The value of a linear combination is an element.
pub proof fn lemma_eval_wf<F: Field>(terms: Seq<(Variable, F)>, inputs: Seq<F>, aux: Seq<F>, n: int)
    requires
        F::is_field(),
        terms_ok(terms, inputs.len() as int, aux.len() as int),
        all_elements(inputs),
        all_elements(aux),
        0 <= n <= terms.len(),
    ensures
        eval_terms(terms, inputs, aux, n).wf(),
    decreases n,
{
    F::lemma_constants();
    if n > 0 {
        lemma_eval_wf(terms, inputs, aux, n - 1);
        assert(var_ok(terms[n - 1].0, inputs.len() as int, aux.len() as int));
    }
}

/// The value of a linear combination depends only on the wires it names:
/// further wires, whatever their values, change nothing.
pub proof fn lemma_eval_stable<F: Field>(
    terms: Seq<(Variable, F)>,
    inputs: Seq<F>,
    aux: Seq<F>,
    inputs2: Seq<F>,
    aux2: Seq<F>,
    n: int,
)
    requires
        terms_ok(terms, inputs.len() as int, aux.len() as int),
        inputs.len() <= inputs2.len(),
        aux.len() <= aux2.len(),
        forall|k: int| 0 <= k < inputs.len() ==> inputs[k] == inputs2[k],
        forall|k: int| 0 <= k < aux.len() ==> aux[k] == aux2[k],
        0 <= n <= terms.len(),
    ensures
        eval_terms(terms, inputs2, aux2, n) == eval_terms(terms, inputs, aux, n),
    decreases n,
{
    if n > 0 {
        lemma_eval_stable(terms, inputs, aux, inputs2, aux2, n - 1);
        assert(var_ok(terms[n - 1].0, inputs.len() as int, aux.len() as int));
    }
}

/// The value of a combination with one more term.
pub proof fn lemma_eval_push<F: Field>(
    terms: Seq<(Variable, F)>,
    t: (Variable, F),
    inputs: Seq<F>,
    aux: Seq<F>,
)
    ensures
        eval(terms.push(t), inputs, aux) == eval(terms, inputs, aux).add_spec(
            t.1.mul_spec(var_value(t.0, inputs, aux)),
        ),
{
    lemma_eval_prefix(terms.push(t), terms, inputs, aux, terms.len() as int);
}

/// The value of the first `n` terms depends on those terms alone.
pub proof fn lemma_eval_prefix<F: Field>(
    a: Seq<(Variable, F)>,
    b: Seq<(Variable, F)>,
    inputs: Seq<F>,
    aux: Seq<F>,
    n: int,
)
    requires
        0 <= n <= a.len(),
        n <= b.len(),
        forall|k: int| 0 <= k < n ==> a[k] == b[k],
    ensures
        eval_terms(a, inputs, aux, n) == eval_terms(b, inputs, aux, n),
    decreases n,
{
    if n > 0 {
        lemma_eval_prefix(a, b, inputs, aux, n - 1);
    }
}

/// The terms with every coefficient multiplied by `c`.
pub open spec fn scaled<F: Field>(terms: Seq<(Variable, F)>, c: F) -> Seq<(Variable, F)> {
    Seq::new(terms.len(), |k: int| (terms[k].0, c.mul_spec(terms[k].1)))
}

/// The value of two combinations put together is the sum of their values.
pub proof fn lemma_eval_concat<F: Field>(
    a: Seq<(Variable, F)>,
    b: Seq<(Variable, F)>,
    inputs: Seq<F>,
    aux: Seq<F>,
    n: int,
)
    requires
        F::is_field(),
        terms_ok(a, inputs.len() as int, aux.len() as int),
        terms_ok(b, inputs.len() as int, aux.len() as int),
        all_elements(inputs),
        all_elements(aux),
        0 <= n <= b.len(),
    ensures
        eval_terms(a + b, inputs, aux, a.len() + n) == eval(a, inputs, aux).add_spec(
            eval_terms(b, inputs, aux, n),
        ),
        terms_ok(a + b, inputs.len() as int, aux.len() as int),
    decreases n,
{
    F::lemma_constants();
    lemma_eval_wf(a, inputs, aux, a.len() as int);
    assert forall|k: int| 0 <= k < (a + b).len() implies var_ok(
        (#[trigger] (a + b)[k]).0,
        inputs.len() as int,
        aux.len() as int,
    ) && (a + b)[k].1.wf() by {
        if k < a.len() {
            assert(var_ok(a[k].0, inputs.len() as int, aux.len() as int));
        } else {
            assert(var_ok(b[k - a.len()].0, inputs.len() as int, aux.len() as int));
        }
    }
    if n == 0 {
        lemma_eval_prefix(a + b, a, inputs, aux, a.len() as int);
        F::lemma_add_zero(eval(a, inputs, aux));
    } else {
        lemma_eval_concat(a, b, inputs, aux, n - 1);
        lemma_eval_wf(b, inputs, aux, n - 1);
        assert((a + b)[a.len() + n - 1] == b[n - 1]);
        assert(var_ok(b[n - 1].0, inputs.len() as int, aux.len() as int));
        F::lemma_add_associative(
            eval(a, inputs, aux),
            eval_terms(b, inputs, aux, n - 1),
            b[n - 1].1.mul_spec(var_value(b[n - 1].0, inputs, aux)),
        );
    }
}

/// The value of a combination whose coefficients are multiplied by `c` is
/// `c` times its value.
pub proof fn lemma_eval_scaled<F: Field>(
    a: Seq<(Variable, F)>,
    c: F,
    inputs: Seq<F>,
    aux: Seq<F>,
    n: int,
)
    requires
        F::is_field(),
        c.wf(),
        terms_ok(a, inputs.len() as int, aux.len() as int),
        all_elements(inputs),
        all_elements(aux),
        0 <= n <= a.len(),
    ensures
        eval_terms(scaled(a, c), inputs, aux, n) == c.mul_spec(eval_terms(a, inputs, aux, n)),
        terms_ok(scaled(a, c), inputs.len() as int, aux.len() as int),
    decreases n,
{
    F::lemma_constants();
    assert forall|k: int| 0 <= k < a.len() implies var_ok(
        (#[trigger] scaled(a, c)[k]).0,
        inputs.len() as int,
        aux.len() as int,
    ) && scaled(a, c)[k].1.wf() by {
        assert(var_ok(a[k].0, inputs.len() as int, aux.len() as int));
    }
    if n == 0 {
        lemma_mul_zero(c);
    } else {
        lemma_eval_scaled(a, c, inputs, aux, n - 1);
        lemma_eval_wf(a, inputs, aux, n - 1);
        assert(var_ok(a[n - 1].0, inputs.len() as int, aux.len() as int));
        let v = var_value(a[n - 1].0, inputs, aux);
        F::lemma_distributive(c, eval_terms(a, inputs, aux, n - 1), a[n - 1].1.mul_spec(v));
        F::lemma_mul_associative(c, a[n - 1].1, v);
    }
}

impl<F: Field> LinearCombination<F> {
    /// The terms of the combination.
    pub open spec fn view(&self) -> Seq<(Variable, F)> {
        self.terms@
    }

    /// The empty combination, whose value is zero.
    pub fn zero() -> (lc: Self)
        ensures
            lc@ == Seq::<(Variable, F)>::empty(),
    {
        LinearCombination { terms: Vec::new() }
    }

    /// The combination of one wire with a coefficient.
    pub fn from_term(v: Variable, coeff: F) -> (lc: Self)
        ensures
            lc@ == seq![(v, coeff)],
    {
        let mut terms: Vec<(Variable, F)> = Vec::new();
        terms.push((v, coeff));
        assert(terms@ =~= seq![(v, coeff)]);
        LinearCombination { terms }
    }

    /// A copy of the combination.
    pub fn duplicate(&self) -> (lc: Self)
        ensures
            lc@ == self@,
    {
        let mut terms: Vec<(Variable, F)> = Vec::new();
        let mut i: usize = 0;
        while i < self.terms.len()
            invariant
                i <= self.terms@.len(),
                terms@ == self.terms@.subrange(0, i as int),
            decreases self.terms@.len() - i,
        {
            terms.push(self.terms[i]);
            assert(terms@ =~= self.terms@.subrange(0, i + 1));
            i += 1;
        }
        assert(terms@ =~= self.terms@);
        LinearCombination { terms }
    }

    /// Adds the terms of `other` to the combination.
    pub fn append(&mut self, other: &Self)
        ensures
            final(self)@ == old(self)@ + other@,
    {
        let mut i: usize = 0;
        while i < other.terms.len()
            invariant
                i <= other.terms@.len(),
                self@ == old(self)@ + other@.subrange(0, i as int),
            decreases other.terms@.len() - i,
        {
            self.terms.push(other.terms[i]);
            assert(self@ =~= old(self)@ + other@.subrange(0, i + 1));
            i += 1;
        }
        assert(other@.subrange(0, other@.len() as int) =~= other@);
    }

    /// The combination with every coefficient multiplied by `c`.
    pub fn scale(&self, c: &F) -> (r: Self)
        requires
            c.wf(),
            forall|k: int| 0 <= k < self@.len() ==> (#[trigger] self@[k]).1.wf(),
        ensures
            r@ == scaled(self@, *c),
    {
        let mut terms: Vec<(Variable, F)> = Vec::new();
        let mut i: usize = 0;
        while i < self.terms.len()
            invariant
                i <= self.terms@.len(),
                c.wf(),
                forall|k: int| 0 <= k < self@.len() ==> (#[trigger] self@[k]).1.wf(),
                terms@ == scaled(self@, *c).subrange(0, i as int),
            decreases self.terms@.len() - i,
        {
            let (v, coeff) = self.terms[i];
            assert(self@[i as int].1.wf());
            terms.push((v, c.mul(&coeff)));
            assert(terms@ =~= scaled(self@, *c).subrange(0, i + 1));
            i += 1;
        }
        assert(terms@ =~= scaled(self@, *c));
        LinearCombination { terms }
    }

    /// Adds the term `coeff * v` to the combination.
    pub fn add_term(&mut self, v: Variable, coeff: F)
        ensures
            final(self)@ == old(self)@.push((v, coeff)),
    {
        self.terms.push((v, coeff));
    }
}

impl<F: Field> ConstraintSystem<F> {
    /// The wires are assigned field elements, the first input is the
    /// constant one, and the constraints speak of existing wires.
    pub open spec fn wf(&self) -> bool {
        &&& F::is_field()
        &&& self.inputs@.len() >= 1
        &&& self.inputs@[0] == F::one_spec()
        &&& all_elements(self.inputs@)
        &&& all_elements(self.aux@)
        &&& forall|i: int|
            0 <= i < self.constraints@.len() ==> self.constraint_ok(#[trigger] self.constraints@[i])
    }

    /// The three combinations of the constraint speak of existing wires.
    pub open spec fn constraint_ok(&self, c: Constraint<F>) -> bool {
        &&& terms_ok(c.a@, self.inputs@.len() as int, self.aux@.len() as int)
        &&& terms_ok(c.b@, self.inputs@.len() as int, self.aux@.len() as int)
        &&& terms_ok(c.c@, self.inputs@.len() as int, self.aux@.len() as int)
    }

    /// The combination speaks of existing wires.
    pub open spec fn lc_ok(&self, lc: Seq<(Variable, F)>) -> bool {
        terms_ok(lc, self.inputs@.len() as int, self.aux@.len() as int)
    }

    /// The value of a combination under the assignment of the system.
    pub open spec fn value_of(&self, lc: Seq<(Variable, F)>) -> F {
        eval(lc, self.inputs@, self.aux@)
    }

    /// The assigned values meet the constraint.
    pub open spec fn holds(&self, c: Constraint<F>) -> bool {
        self.value_of(c.a@).mul_spec(self.value_of(c.b@)) == self.value_of(c.c@)
    }

    /// The assigned values meet every constraint.
    pub open spec fn satisfied_spec(&self) -> bool {
        forall|i: int| 0 <= i < self.constraints@.len() ==> self.holds(#[trigger] self.constraints@[i])
    }

    /// `later` is this system after further allocations and constraints:
    /// the wires and constraints of this system are there, unchanged.
    pub open spec fn extended_by(&self, later: &Self) -> bool {
        &&& self.inputs@.len() <= later.inputs@.len()
        &&& self.aux@.len() <= later.aux@.len()
        &&& self.constraints@.len() <= later.constraints@.len()
        &&& forall|k: int| 0 <= k < self.inputs@.len() ==> self.inputs@[k] == later.inputs@[k]
        &&& forall|k: int| 0 <= k < self.aux@.len() ==> self.aux@[k] == later.aux@[k]
        &&& forall|k: int|
            0 <= k < self.constraints@.len() ==> self.constraints@[k] == later.constraints@[k]
    }

    /// `later` is this system with one more constraint behind its own,
    /// `a * b = c`; the wires of `later` may be more.
    pub open spec fn with_constraint(
        &self,
        later: &Self,
        a: Seq<(Variable, F)>,
        b: Seq<(Variable, F)>,
        c: Seq<(Variable, F)>,
    ) -> bool {
        &&& later.constraints@.len() == self.constraints@.len() + 1
        &&& forall|k: int|
            0 <= k < self.constraints@.len() ==> self.constraints@[k] == later.constraints@[k]
        &&& later.constraints@.last().a@ == a
        &&& later.constraints@.last().b@ == b
        &&& later.constraints@.last().c@ == c
    }

    /// The wire that is the constant one.
    pub open spec fn one_spec() -> Variable {
        Variable { is_input: true, index: 0 }
    }

    /// A system with no wire but the constant one, and no constraints.
    pub fn new() -> (cs: Self)
        requires
            F::is_field(),
        ensures
            cs.wf(),
            cs.satisfied_spec(),
            cs.inputs@ == seq![F::one_spec()],
            cs.aux@.len() == 0,
            cs.constraints@.len() == 0,
    {
        proof {
            F::lemma_constants();
        }
        let mut inputs: Vec<F> = Vec::new();
        inputs.push(F::one());
        assert(inputs@ =~= seq![F::one_spec()]);
        ConstraintSystem { inputs, aux: Vec::new(), constraints: Vec::new() }
    }

    /// The wire that is the constant one.
    pub fn one() -> (v: Variable)
        ensures
            v == Self::one_spec(),
    {
        Variable { is_input: true, index: 0 }
    }

    /// A new witness wire with the given value.
    pub fn allocate(&mut self, value: Option<F>) -> (r: Result<Variable, SynthesisError>)
        requires
            old(self).wf(),
            value is Some ==> value->0.wf(),
        ensures
            match r {
                Ok(v) => {
                    &&& value is Some
                    &&& v == (Variable { is_input: false, index: old(self).aux.len() })
                    &&& final(self).aux@ == old(self).aux@.push(value->0)
                    &&& final(self).inputs@ == old(self).inputs@
                    &&& final(self).constraints@ == old(self).constraints@
                    &&& final(self).wf()
                    &&& old(self).extended_by(final(self))
                    &&& final(self).satisfied_spec() == old(self).satisfied_spec()
                },
                Err(e) => value is None && e == SynthesisError::AssignmentMissing && *final(self)
                    == *old(self),
            },
    {
        match value {
            None => Err(SynthesisError::AssignmentMissing),
            Some(x) => {
                let index = self.aux.len();
                self.aux.push(x);
                proof {
                    old(self).lemma_extension(self);
                }
                Ok(Variable { is_input: false, index })
            },
        }
    }

    /// A new public input wire with the given value.
    pub fn allocate_input(&mut self, value: Option<F>) -> (r: Result<Variable, SynthesisError>)
        requires
            old(self).wf(),
            value is Some ==> value->0.wf(),
        ensures
            match r {
                Ok(v) => {
                    &&& value is Some
                    &&& v == (Variable { is_input: true, index: old(self).inputs.len() })
                    &&& final(self).inputs@ == old(self).inputs@.push(value->0)
                    &&& final(self).aux@ == old(self).aux@
                    &&& final(self).constraints@ == old(self).constraints@
                    &&& final(self).wf()
                    &&& old(self).extended_by(final(self))
                    &&& final(self).satisfied_spec() == old(self).satisfied_spec()
                },
                Err(e) => value is None && e == SynthesisError::AssignmentMissing && *final(self)
                    == *old(self),
            },
    {
        match value {
            None => Err(SynthesisError::AssignmentMissing),
            Some(x) => {
                let index = self.inputs.len();
                self.inputs.push(x);
                proof {
                    old(self).lemma_extension(self);
                }
                Ok(Variable { is_input: true, index })
            },
        }
    }

    /// Adds the constraint `a * b = c`.
    pub fn enforce(&mut self, a: LinearCombination<F>, b: LinearCombination<F>, c: LinearCombination<F>)
        requires
            old(self).wf(),
            old(self).lc_ok(a@),
            old(self).lc_ok(b@),
            old(self).lc_ok(c@),
        ensures
            final(self).inputs@ == old(self).inputs@,
            final(self).aux@ == old(self).aux@,
            final(self).constraints@ == old(self).constraints@.push(Constraint { a, b, c }),
            final(self).wf(),
            old(self).extended_by(final(self)),
            final(self).satisfied_spec() == (old(self).satisfied_spec() && old(self).value_of(
                a@,
            ).mul_spec(old(self).value_of(b@)) == old(self).value_of(c@)),
    {
        let ghost con = Constraint { a, b, c };
        self.constraints.push(Constraint { a, b, c });
        proof {
            assert(self.constraints@[old(self).constraints@.len() as int] == con);
            assert forall|i: int| 0 <= i < self.constraints@.len() implies self.constraint_ok(
                #[trigger] self.constraints@[i],
            ) by {
                if i < old(self).constraints@.len() {
                    assert(old(self).constraint_ok(old(self).constraints@[i]));
                }
            }
            if self.satisfied_spec() {
                assert(self.holds(self.constraints@[old(self).constraints@.len() as int]));
                assert forall|i: int| 0 <= i < old(self).constraints@.len() implies old(self).holds(
                    #[trigger] old(self).constraints@[i],
                ) by {
                    assert(self.holds(self.constraints@[i]));
                }
            }
            if old(self).satisfied_spec() && old(self).holds(con) {
                assert forall|i: int| 0 <= i < self.constraints@.len() implies self.holds(
                    #[trigger] self.constraints@[i],
                ) by {
                    if i < old(self).constraints@.len() {
                        assert(old(self).holds(old(self).constraints@[i]));
                    }
                }
            }
        }
    }

    /// The number of constraints.
    pub fn num_constraints(&self) -> (n: usize)
        ensures
            n == self.constraints@.len(),
    {
        self.constraints.len()
    }

    /// The value of a combination under the assignment of the system.
    pub fn evaluate(&self, lc: &LinearCombination<F>) -> (r: F)
        requires
            self.wf(),
            self.lc_ok(lc@),
        ensures
            r == self.value_of(lc@),
            r.wf(),
    {
        proof {
            F::lemma_constants();
        }
        let mut acc = F::zero();
        let mut i: usize = 0;
        while i < lc.terms.len()
            invariant
                self.wf(),
                self.lc_ok(lc@),
                i <= lc.terms@.len(),
                acc == eval_terms(lc@, self.inputs@, self.aux@, i as int),
                acc.wf(),
            decreases lc.terms@.len() - i,
        {
            let (v, coeff) = lc.terms[i];
            assert(var_ok(lc@[i as int].0, self.inputs@.len() as int, self.aux@.len() as int));
            let x = if v.is_input {
                self.inputs[v.index]
            } else {
                self.aux[v.index]
            };
            acc = acc.add(&coeff.mul(&x));
            i += 1;
        }
        acc
    }

    /// Whether the assigned values meet every constraint.
    pub fn is_satisfied(&self) -> (b: bool)
        requires
            self.wf(),
        ensures
            b == self.satisfied_spec(),
    {
        let mut i: usize = 0;
        while i < self.constraints.len()
            invariant
                self.wf(),
                i <= self.constraints@.len(),
                forall|k: int| 0 <= k < i ==> self.holds(#[trigger] self.constraints@[k]),
            decreases self.constraints@.len() - i,
        {
            let con = &self.constraints[i];
            assert(self.constraint_ok(self.constraints@[i as int]));
            let a = self.evaluate(&con.a);
            let b = self.evaluate(&con.b);
            let c = self.evaluate(&con.c);
            if !a.mul(&b).is_equal(&c) {
                assert(!self.holds(self.constraints@[i as int]));
                return false;
            }
            i += 1;
        }
        true
    }

    /// In an extension of this system every combination of this system
    /// has the value it had.
    pub proof fn lemma_extension_general(&self, later: &Self)
        requires
            self.wf(),
            later.wf(),
            self.extended_by(later),
        ensures
            forall|lc: Seq<(Variable, F)>|
                self.lc_ok(lc) ==> later.lc_ok(lc) && #[trigger] later.value_of(lc) == self.value_of(lc),
    {
        assert forall|lc: Seq<(Variable, F)>| self.lc_ok(lc) implies later.lc_ok(lc)
            && #[trigger] later.value_of(lc) == self.value_of(lc) by {
            lemma_eval_stable(lc, self.inputs@, self.aux@, later.inputs@, later.aux@, lc.len() as int);
            assert forall|k: int| 0 <= k < lc.len() implies var_ok(
                (#[trigger] lc[k]).0,
                later.inputs@.len() as int,
                later.aux@.len() as int,
            ) && lc[k].1.wf() by {
                assert(var_ok(lc[k].0, self.inputs@.len() as int, self.aux@.len() as int));
            }
        }
    }

    /// An extension of an extension is an extension.
    pub proof fn lemma_extended_twice(&self, mid: &Self, later: &Self)
        requires
            self.extended_by(mid),
            mid.extended_by(later),
        ensures
            self.extended_by(later),
    {
    }

    /// After further allocations every combination of this system has the
    /// value it had, so the constraints that held still hold.
    pub proof fn lemma_extension(&self, later: &Self)
        requires
            self.wf(),
            self.extended_by(later),
            later.constraints@ == self.constraints@,
            all_elements(later.inputs@),
            all_elements(later.aux@),
        ensures
            later.wf(),
            later.satisfied_spec() == self.satisfied_spec(),
            forall|lc: Seq<(Variable, F)>|
                self.lc_ok(lc) ==> later.lc_ok(lc) && #[trigger] later.value_of(lc) == self.value_of(lc),
    {
        assert forall|lc: Seq<(Variable, F)>| self.lc_ok(lc) implies later.lc_ok(lc)
            && #[trigger] later.value_of(lc) == self.value_of(lc) by {
            lemma_eval_stable(lc, self.inputs@, self.aux@, later.inputs@, later.aux@, lc.len() as int);
            assert forall|k: int| 0 <= k < lc.len() implies var_ok(
                (#[trigger] lc[k]).0,
                later.inputs@.len() as int,
                later.aux@.len() as int,
            ) && lc[k].1.wf() by {
                assert(var_ok(lc[k].0, self.inputs@.len() as int, self.aux@.len() as int));
            }
        }
        assert forall|i: int| 0 <= i < later.constraints@.len() implies later.constraint_ok(
            #[trigger] later.constraints@[i],
        ) && later.holds(later.constraints@[i]) == self.holds(self.constraints@[i]) by {
            let c = self.constraints@[i];
            assert(self.constraint_ok(c));
            assert(later.value_of(c.a@) == self.value_of(c.a@));
            assert(later.value_of(c.b@) == self.value_of(c.b@));
            assert(later.value_of(c.c@) == self.value_of(c.c@));
        }
        if self.satisfied_spec() {
            assert forall|i: int| 0 <= i < later.constraints@.len() implies later.holds(
                #[trigger] later.constraints@[i],
            ) by {
                assert(self.holds(self.constraints@[i]));
            }
        }
        if later.satisfied_spec() {
            assert forall|i: int| 0 <= i < self.constraints@.len() implies self.holds(
                #[trigger] self.constraints@[i],
            ) by {
                assert(later.holds(later.constraints@[i]));
            }
        }
    }
}

} // verus!
