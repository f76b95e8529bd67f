//! The sponge as a state machine over a permutation: a state of field
//! elements, a mode and a cursor.  Absorbing adds elements into the rate
//! part of the state and squeezing reads them from it; the permutation
//! runs when the mode changes and when the cursor reaches the rate.
use crate::fields::closure::group_field_closed;
use crate::fields::field::{Field, PrimeField};
use crate::gadgets::fp::{all_fp_hold_in, fp_values, lemma_all_fp_hold_later, FpGadget};
use crate::gadgets::r1cs::{ConstraintSystem, SynthesisError};
use crate::marlin::sponge::{all_wf, AlgebraicSponge, AlgebraicSpongeVar};
use vstd::prelude::*;

verus! {

broadcast use group_field_closed;

/// A permutation of states of `width()` elements, of which the first
/// `rate()` take what is absorbed.
pub trait Permutation<CF: PrimeField>: Sized {
    /// The number of elements of a state.
    spec fn width_spec() -> nat;

    /// The number of elements of the rate.
    spec fn rate_spec() -> nat;

    /// The permuted state.
    spec fn permute_spec(state: Seq<CF>) -> Seq<CF>;

    /// The rate is at least one element and within the state, and the
    /// permutation takes states to states.
    proof fn lemma_shape(state: Seq<CF>)
        ensures
            1 <= Self::rate_spec() <= Self::width_spec(),
            state.len() == Self::width_spec() && all_wf(state) ==> Self::permute_spec(state).len()
                == Self::width_spec() && all_wf(Self::permute_spec(state)),
    ;

    fn width() -> (w: usize)
        ensures
            w == Self::width_spec(),
    ;

    fn rate() -> (r: usize)
        ensures
            r == Self::rate_spec(),
    ;

    fn permute(state: &mut Vec<CF>)
        requires
            old(state)@.len() == Self::width_spec(),
            all_wf(old(state)@),
        ensures
            final(state)@ == Self::permute_spec(old(state)@),
    ;
}

/// The permutation `P` in a circuit.
pub trait PermutationVar<CF: PrimeField, P: Permutation<CF>>: Sized {
    /// The implementation fails on no state that holds in its system.
    spec fn never_fails() -> bool;

    /// Permutes the state.  Fails only where the implementation may fail.
    fn permute(cs: &mut ConstraintSystem<CF>, state: &mut Vec<FpGadget<CF>>) -> (r: Result<
        (),
        SynthesisError,
    >)
        requires
            old(cs).wf(),
            old(state)@.len() == P::width_spec(),
            all_fp_hold_in(old(state)@, old(cs)),
        ensures
            final(cs).wf(),
            old(cs).extended_by(final(cs)),
            final(cs).satisfied_spec() == old(cs).satisfied_spec(),
            Self::never_fails() ==> r is Ok,
            r is Ok ==> {
                &&& fp_values(final(state)@) == P::permute_spec(fp_values(old(state)@))
                &&& all_fp_hold_in(final(state)@, final(cs))
            },
    ;
}

/// The sponge as a mathematical value.
pub struct SpongeModel<CF> {
    /// The state.
    pub state: Seq<CF>,
    /// Whether the sponge is being squeezed; else it is absorbing.
    pub squeezing: bool,
    /// The cursor into the rate.
    pub pos: nat,
    /// How often the permutation has run.
    pub permutations: nat,
}

/// The state of `n` zeros.
pub open spec fn zero_state<CF: PrimeField>(n: nat) -> Seq<CF> {
    Seq::new(n, |i: int| CF::zero_spec())
}

/// The sponge that has absorbed nothing: absorbing, with the cursor at 0.
pub open spec fn initial_model<CF: PrimeField, P: Permutation<CF>>() -> SpongeModel<CF> {
    SpongeModel { state: zero_state::<CF>(P::width_spec()), squeezing: false, pos: 0, permutations: 0 }
}

/// The sponge after the permutation has run, with the cursor at 0.
pub open spec fn permuted<CF: PrimeField, P: Permutation<CF>>(m: SpongeModel<CF>, squeezing: bool) -> SpongeModel<
    CF,
> {
    SpongeModel {
        state: P::permute_spec(m.state),
        squeezing,
        pos: 0,
        permutations: m.permutations + 1,
    }
}

/// The sponge after absorbing one element: a sponge that was being
/// squeezed is permuted first; the element is added at the cursor, the
/// cursor advances, and where it reaches the rate the sponge is permuted.
pub open spec fn absorb_one<CF: PrimeField, P: Permutation<CF>>(m: SpongeModel<CF>, e: CF) -> SpongeModel<
    CF,
> {
    let a = if m.squeezing {
        permuted::<CF, P>(m, false)
    } else {
        m
    };
    let b = SpongeModel {
        state: a.state.update(a.pos as int, a.state[a.pos as int].add_spec(e)),
        squeezing: false,
        pos: a.pos + 1,
        permutations: a.permutations,
    };
    if b.pos == P::rate_spec() {
        permuted::<CF, P>(b, false)
    } else {
        b
    }
}

/// The sponge after squeezing one element, and that element: a sponge
/// that was absorbing is permuted first; the element at the cursor is
/// read, the cursor advances, and where it reaches the rate the sponge is
/// permuted.
pub open spec fn squeeze_one<CF: PrimeField, P: Permutation<CF>>(m: SpongeModel<CF>) -> (
    SpongeModel<CF>,
    CF,
) {
    let a = if !m.squeezing {
        permuted::<CF, P>(m, true)
    } else {
        m
    };
    let out = a.state[a.pos as int];
    let b = SpongeModel {
        state: a.state,
        squeezing: true,
        pos: a.pos + 1,
        permutations: a.permutations,
    };
    if b.pos == P::rate_spec() {
        (permuted::<CF, P>(b, true), out)
    } else {
        (b, out)
    }
}

/// The sponge after absorbing the first `n` of the elements.
pub open spec fn absorb_many<CF: PrimeField, P: Permutation<CF>>(
    m: SpongeModel<CF>,
    elems: Seq<CF>,
    n: int,
) -> SpongeModel<CF>
    decreases n,
{
    if n <= 0 {
        m
    } else {
        absorb_one::<CF, P>(absorb_many::<CF, P>(m, elems, n - 1), elems[n - 1])
    }
}

/// The sponge after squeezing `n` elements, and those elements.
pub open spec fn squeeze_many<CF: PrimeField, P: Permutation<CF>>(m: SpongeModel<CF>, n: nat) -> (
    SpongeModel<CF>,
    Seq<CF>,
)
    decreases n,
{
    if n == 0 {
        (m, Seq::empty())
    } else {
        let (a, out) = squeeze_many::<CF, P>(m, (n - 1) as nat);
        let (b, e) = squeeze_one::<CF, P>(a);
        (b, out.push(e))
    }
}

/// The model is a sponge: a state of field elements of the width of the
/// permutation, and the cursor within the rate.
pub open spec fn model_wf<CF: PrimeField, P: Permutation<CF>>(m: SpongeModel<CF>) -> bool {
    &&& CF::is_field()
    &&& m.state.len() == P::width_spec()
    &&& all_wf(m.state)
    &&& m.pos < P::rate_spec()
}

/// Absorbing and squeezing take sponges to sponges.
pub proof fn lemma_steps_wf<CF: PrimeField, P: Permutation<CF>>(m: SpongeModel<CF>, e: CF)
    requires
        model_wf::<CF, P>(m),
        e.wf(),
    ensures
        model_wf::<CF, P>(absorb_one::<CF, P>(m, e)),
        model_wf::<CF, P>(squeeze_one::<CF, P>(m).0),
        squeeze_one::<CF, P>(m).1.wf(),
{
    P::lemma_shape(m.state);
    let a = if m.squeezing {
        permuted::<CF, P>(m, false)
    } else {
        m
    };
    let st = a.state.update(a.pos as int, a.state[a.pos as int].add_spec(e));
    assert(a.state[a.pos as int].wf());
    P::lemma_shape(st);
    let q = if !m.squeezing {
        permuted::<CF, P>(m, true)
    } else {
        m
    };
    P::lemma_shape(q.state);
    assert(q.state[q.pos as int].wf());
}

/// Squeezing gives as many elements as were asked for.
pub proof fn lemma_squeeze_many_len<CF: PrimeField, P: Permutation<CF>>(m: SpongeModel<CF>, n: nat)
    ensures
        squeeze_many::<CF, P>(m, n).1.len() == n,
    decreases n,
{
    if n > 0 {
        lemma_squeeze_many_len::<CF, P>(m, (n - 1) as nat);
    }
}

/// Where the rate has two elements or more, absorbing one element after
/// a squeeze runs the permutation exactly once.
pub proof fn lemma_squeeze_then_absorb<CF: PrimeField, P: Permutation<CF>>(m: SpongeModel<CF>, e: CF)
    requires
        model_wf::<CF, P>(m),
        P::rate_spec() >= 2,
    ensures
        absorb_one::<CF, P>(squeeze_one::<CF, P>(m).0, e).permutations == squeeze_one::<CF, P>(
            m,
        ).0.permutations + 1,
        !absorb_one::<CF, P>(squeeze_one::<CF, P>(m).0, e).squeezing,
{
}

/// Where the rate has two elements or more, squeezing one element after
/// an absorb runs the permutation exactly once.
pub proof fn lemma_absorb_then_squeeze<CF: PrimeField, P: Permutation<CF>>(m: SpongeModel<CF>, e: CF)
    requires
        model_wf::<CF, P>(m),
        P::rate_spec() >= 2,
    ensures
        squeeze_one::<CF, P>(absorb_one::<CF, P>(m, e)).0.permutations == absorb_one::<CF, P>(
            m,
            e,
        ).permutations + 1,
        squeeze_one::<CF, P>(absorb_one::<CF, P>(m, e)).0.squeezing,
{
}

/// The native sponge over the permutation `P`.
pub struct DuplexSponge<CF: PrimeField, P: Permutation<CF>> {
    pub state: Vec<CF>,
    pub squeezing: bool,
    pub pos: usize,
    pub permutations: Ghost<nat>,
    pub p_phantom: core::marker::PhantomData<P>,
}

impl<CF: PrimeField, P: Permutation<CF>> DuplexSponge<CF, P> {
    /// Runs the permutation and sets the mode.
    fn run_permutation(&mut self, squeezing: bool)
        requires
            model_wf::<CF, P>(old(self).model()) || (old(self).state@.len() == P::width_spec() && all_wf(
                old(self).state@,
            ) && CF::is_field()),
        ensures
            final(self).model() == permuted::<CF, P>(old(self).model(), squeezing),
            final(self).state@.len() == P::width_spec(),
            all_wf(final(self).state@),
    {
        proof {
            P::lemma_shape(self.state@);
        }
        P::permute(&mut self.state);
        self.squeezing = squeezing;
        self.pos = 0;
        self.permutations = Ghost((self.permutations@ + 1) as nat);
    }
}

impl<CF: PrimeField, P: Permutation<CF>> AlgebraicSponge<CF> for DuplexSponge<CF, P> {
    type Model = SpongeModel<CF>;

    open spec fn wf(&self) -> bool {
        model_wf::<CF, P>(self.model())
    }

    open spec fn model(&self) -> SpongeModel<CF> {
        SpongeModel {
            state: self.state@,
            squeezing: self.squeezing,
            pos: self.pos as nat,
            permutations: self.permutations@,
        }
    }

    open spec fn new_spec() -> SpongeModel<CF> {
        initial_model::<CF, P>()
    }

    open spec fn absorb_spec(m: SpongeModel<CF>, elems: Seq<CF>) -> SpongeModel<CF> {
        absorb_many::<CF, P>(m, elems, elems.len() as int)
    }

    open spec fn squeeze_spec(m: SpongeModel<CF>, n: nat) -> (SpongeModel<CF>, Seq<CF>) {
        squeeze_many::<CF, P>(m, n)
    }

    proof fn lemma_squeeze_len(m: SpongeModel<CF>, n: nat) {
        lemma_squeeze_many_len::<CF, P>(m, n);
    }

    fn new() -> (s: Self) {
        proof {
            CF::lemma_constants();
            P::lemma_shape(Seq::empty());
        }
        let width = P::width();
        let mut state: Vec<CF> = Vec::new();
        let mut i: usize = 0;
        while i < width
            invariant
                i <= width,
                state@.len() == i,
                forall|k: int| 0 <= k < i ==> (#[trigger] state@[k]) == CF::zero_spec(),
            decreases width - i,
        {
            state.push(CF::zero());
            i += 1;
        }
        assert(state@ =~= zero_state::<CF>(P::width_spec()));
        DuplexSponge {
            state,
            squeezing: false,
            pos: 0,
            permutations: Ghost(0),
            p_phantom: core::marker::PhantomData,
        }
    }

    fn absorb(&mut self, elems: &Vec<CF>) {
        let mut i: usize = 0;
        while i < elems.len()
            invariant
                i <= elems@.len(),
                all_wf(elems@),
                self.wf(),
                self.model() == absorb_many::<CF, P>(old(self).model(), elems@, i as int),
            decreases elems@.len() - i,
        {
            let ghost before = self.model();
            proof {
                lemma_steps_wf::<CF, P>(before, elems@[i as int]);
                P::lemma_shape(self.state@);
            }
            if self.squeezing {
                self.run_permutation(false);
            }
            let pos = self.pos;
            assert(self.state@[pos as int].wf());
            let sum = self.state[pos].add(&elems[i]);
            self.state.set(pos, sum);
            let width = self.state.len();
            assert(pos < width);
            self.pos = pos + 1;
            if self.pos == P::rate() {
                self.run_permutation(false);
            }
            i += 1;
        }
    }

    fn squeeze(&mut self, num: usize) -> (r: Vec<CF>) {
        let mut out: Vec<CF> = Vec::new();
        let mut i: usize = 0;
        while i < num
            invariant
                i <= num,
                self.wf(),
                self.model() == squeeze_many::<CF, P>(old(self).model(), i as nat).0,
                out@ == squeeze_many::<CF, P>(old(self).model(), i as nat).1,
                all_wf(out@),
            decreases num - i,
        {
            let ghost before = self.model();
            proof {
                CF::lemma_constants();
                lemma_steps_wf::<CF, P>(before, CF::zero_spec());
                P::lemma_shape(self.state@);
            }
            if !self.squeezing {
                self.run_permutation(true);
            }
            let pos = self.pos;
            out.push(self.state[pos]);
            let width = self.state.len();
            assert(pos < width);
            self.pos = pos + 1;
            if self.pos == P::rate() {
                self.run_permutation(true);
            }
            i += 1;
        }
        out
    }
}

/// The sponge over the permutation `P` in a circuit.
pub struct DuplexSpongeVar<CF: PrimeField, P: Permutation<CF>, PV: PermutationVar<CF, P>> {
    pub state: Vec<FpGadget<CF>>,
    pub squeezing: bool,
    pub pos: usize,
    pub permutations: Ghost<nat>,
    pub p_phantom: core::marker::PhantomData<P>,
    pub pv_phantom: core::marker::PhantomData<PV>,
}

impl<CF: PrimeField, P: Permutation<CF>, PV: PermutationVar<CF, P>> DuplexSpongeVar<CF, P, PV> {
    /// Runs the permutation and sets the mode.  Fails only where the
    /// permutation does.
    fn run_permutation(&mut self, cs: &mut ConstraintSystem<CF>, squeezing: bool) -> (r: Result<
        (),
        SynthesisError,
    >)
        requires
            old(cs).wf(),
            old(self).state@.len() == P::width_spec(),
            all_fp_hold_in(old(self).state@, old(cs)),
        ensures
            final(cs).wf(),
            old(cs).extended_by(final(cs)),
            final(cs).satisfied_spec() == old(cs).satisfied_spec(),
            PV::never_fails() ==> r is Ok,
            r is Ok ==> {
                &&& <Self as AlgebraicSpongeVar<CF, DuplexSponge<CF, P>>>::model(final(self)) == permuted::<
                    CF,
                    P,
                >(<Self as AlgebraicSpongeVar<CF, DuplexSponge<CF, P>>>::model(old(self)), squeezing)
                &&& all_fp_hold_in(final(self).state@, final(cs))
                &&& final(self).state@.len() == P::width_spec()
            },
    {
        let ghost vals = fp_values(self.state@);
        match PV::permute(cs, &mut self.state) {
            Err(e) => Err(e),
            Ok(()) => {
                proof {
                    assert forall|i: int| 0 <= i < vals.len() implies (#[trigger] vals[i]).wf() by {
                        assert(old(self).state@[i].holds_in(old(cs)));
                    }
                    P::lemma_shape(vals);
                    assert(fp_values(self.state@).len() == self.state@.len());
                }
                self.squeezing = squeezing;
                self.pos = 0;
                self.permutations = Ghost((self.permutations@ + 1) as nat);
                Ok(())
            },
        }
    }
}

impl<CF: PrimeField, P: Permutation<CF>, PV: PermutationVar<CF, P>> AlgebraicSpongeVar<
    CF,
    DuplexSponge<CF, P>,
> for DuplexSpongeVar<CF, P, PV> {
    open spec fn wf(&self, cs: &ConstraintSystem<CF>) -> bool {
        &&& self.state@.len() == P::width_spec()
        &&& all_fp_hold_in(self.state@, cs)
        &&& self.pos < P::rate_spec()
    }

    open spec fn model(&self) -> SpongeModel<CF> {
        SpongeModel {
            state: fp_values(self.state@),
            squeezing: self.squeezing,
            pos: self.pos as nat,
            permutations: self.permutations@,
        }
    }

    /// The sponge fails only where its permutation does.
    open spec fn never_fails() -> bool {
        PV::never_fails()
    }

    proof fn lemma_wf_later(&self, cs: &ConstraintSystem<CF>, later: &ConstraintSystem<CF>) {
        lemma_all_fp_hold_later(self.state@, cs, later);
    }

    fn new(cs: &mut ConstraintSystem<CF>) -> (s: Self) {
        proof {
            CF::lemma_constants();
            P::lemma_shape(Seq::empty());
        }
        let width = P::width();
        let mut state: Vec<FpGadget<CF>> = Vec::new();
        let mut i: usize = 0;
        while i < width
            invariant
                i <= width,
                cs.wf(),
                *cs == *old(cs),
                state@.len() == i,
                all_fp_hold_in(state@, cs),
                forall|k: int| 0 <= k < i ==> (#[trigger] state@[k]).value == Some(CF::zero_spec()),
            decreases width - i,
        {
            proof {
                CF::lemma_constants();
            }
            state.push(FpGadget::constant(cs, CF::zero()));
            i += 1;
        }
        assert(fp_values(state@) =~= zero_state::<CF>(P::width_spec()));
        DuplexSpongeVar {
            state,
            squeezing: false,
            pos: 0,
            permutations: Ghost(0),
            p_phantom: core::marker::PhantomData,
            pv_phantom: core::marker::PhantomData,
        }
    }

    fn constant(cs: &mut ConstraintSystem<CF>, ps: &DuplexSponge<CF, P>) -> (s: Self) {
        let mut state: Vec<FpGadget<CF>> = Vec::new();
        let mut i: usize = 0;
        while i < ps.state.len()
            invariant
                i <= ps.state@.len(),
                ps.wf(),
                cs.wf(),
                *cs == *old(cs),
                state@.len() == i,
                all_fp_hold_in(state@, cs),
                forall|k: int| 0 <= k < i ==> (#[trigger] state@[k]).value == Some(ps.state@[k]),
            decreases ps.state@.len() - i,
        {
            assert(ps.state@[i as int].wf());
            state.push(FpGadget::constant(cs, ps.state[i]));
            i += 1;
        }
        assert(fp_values(state@) =~= ps.state@);
        DuplexSpongeVar {
            state,
            squeezing: ps.squeezing,
            pos: ps.pos,
            permutations: Ghost(ps.permutations@),
            p_phantom: core::marker::PhantomData,
            pv_phantom: core::marker::PhantomData,
        }
    }

    fn absorb(&mut self, cs: &mut ConstraintSystem<CF>, elems: &Vec<FpGadget<CF>>) -> (r: Result<
        (),
        SynthesisError,
    >) {
        let ghost vals = fp_values(elems@);
        let mut i: usize = 0;
        while i < elems.len()
            invariant
                i <= elems@.len(),
                vals == fp_values(elems@),
                cs.wf(),
                old(cs).wf(),
                old(cs).extended_by(cs),
                cs.satisfied_spec() == old(cs).satisfied_spec(),
                all_fp_hold_in(elems@, cs),
                self.wf(cs),
                self.model() == absorb_many::<CF, P>(old(self).model(), vals, i as int),
            decreases elems@.len() - i,
        {
            let ghost before = *cs;
            proof {
                P::lemma_shape(fp_values(self.state@));
            }
            if self.squeezing {
                match self.run_permutation(cs, false) {
                    Err(e) => {
                        proof {
                            old(cs).lemma_extended_twice(&before, cs);
                        }
                        return Err(e);
                    },
                    Ok(()) => {},
                }
            }
            let ghost mid = *cs;
            proof {
                old(cs).lemma_extended_twice(&before, cs);
                lemma_all_fp_hold_later(elems@, &before, cs);
            }
            let pos = self.pos;
            assert(self.state@[pos as int].holds_in(cs));
            assert(elems@[i as int].holds_in(cs));
            let ghost prev_state = self.state@;
            let sum = self.state[pos].add(cs, &elems[i]);
            self.state.set(pos, sum);
            proof {
                assert(fp_values(self.state@) =~= fp_values(prev_state).update(
                    pos as int,
                    fp_values(prev_state)[pos as int].add_spec(vals[i as int]),
                ));
                assert forall|k: int| 0 <= k < self.state@.len() implies (#[trigger] self.state@[k]).holds_in(
                    cs,
                ) by {
                    if k != pos {
                        assert(prev_state[k].holds_in(cs));
                    }
                }
            }
            let width = self.state.len();
            assert(pos < width);
            self.pos = pos + 1;
            if self.pos == P::rate() {
                match self.run_permutation(cs, false) {
                    Err(e) => {
                        proof {
                            old(cs).lemma_extended_twice(&mid, cs);
                        }
                        return Err(e);
                    },
                    Ok(()) => {},
                }
            }
            proof {
                old(cs).lemma_extended_twice(&mid, cs);
                lemma_all_fp_hold_later(elems@, &mid, cs);
            }
            i += 1;
        }
        Ok(())
    }

    fn squeeze(&mut self, cs: &mut ConstraintSystem<CF>, num: usize) -> (r: Result<
        Vec<FpGadget<CF>>,
        SynthesisError,
    >) {
        let mut out: Vec<FpGadget<CF>> = Vec::new();
        let mut i: usize = 0;
        assert(fp_values(out@) =~= Seq::<CF>::empty());
        while i < num
            invariant
                i <= num,
                cs.wf(),
                old(cs).wf(),
                old(cs).extended_by(cs),
                cs.satisfied_spec() == old(cs).satisfied_spec(),
                self.wf(cs),
                self.model() == squeeze_many::<CF, P>(old(self).model(), i as nat).0,
                fp_values(out@) == squeeze_many::<CF, P>(old(self).model(), i as nat).1,
                out@.len() == i,
                all_fp_hold_in(out@, cs),
            decreases num - i,
        {
            let ghost before = *cs;
            let ghost prev_out = out@;
            proof {
                P::lemma_shape(fp_values(self.state@));
            }
            if !self.squeezing {
                match self.run_permutation(cs, true) {
                    Err(e) => {
                        proof {
                            old(cs).lemma_extended_twice(&before, cs);
                        }
                        return Err(e);
                    },
                    Ok(()) => {},
                }
            }
            let ghost mid = *cs;
            proof {
                old(cs).lemma_extended_twice(&before, cs);
                lemma_all_fp_hold_later(prev_out, &before, cs);
            }
            let pos = self.pos;
            assert(self.state@[pos as int].holds_in(cs));
            let e = self.state[pos].duplicate();
            assert(e.holds_in(cs));
            out.push(e);
            assert(fp_values(out@) =~= fp_values(prev_out).push(fp_values(self.state@)[pos as int]));
            let ghost out_now = out@;
            let width = self.state.len();
            assert(pos < width);
            self.pos = pos + 1;
            if self.pos == P::rate() {
                match self.run_permutation(cs, true) {
                    Err(e) => {
                        proof {
                            old(cs).lemma_extended_twice(&mid, cs);
                        }
                        return Err(e);
                    },
                    Ok(()) => {},
                }
            }
            proof {
                old(cs).lemma_extended_twice(&mid, cs);
                lemma_all_fp_hold_later(out_now, &mid, cs);
            }
            i += 1;
        }
        Ok(out)
    }
}

} // verus!
