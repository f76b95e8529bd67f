//! A permutation of the shape of Poseidon, natively and in a circuit:
//! rounds that add constants to the state, raise it to the fifth power,
//! wholly or in its first element only, and mix it by a matrix.
use crate::fields::closure::group_field_closed;
use crate::fields::field::{fsq, Field, PrimeField};
use crate::gadgets::fp::{all_fp_hold_in, fp_values, lemma_all_fp_hold_later, FpGadget};
use crate::gadgets::r1cs::{ConstraintSystem, SynthesisError};
use crate::marlin::duplex::{Permutation, PermutationVar};
use crate::marlin::sponge::all_wf;
use core::marker::PhantomData;
use vstd::prelude::*;

verus! {

broadcast use group_field_closed;

/// The parameters of the permutation over the field `CF`.
pub trait PoseidonParameters<CF: PrimeField>: Sized {
    /// The number of elements of the rate.
    spec fn rate_spec() -> nat;

    /// The number of elements of the capacity.
    spec fn capacity_spec() -> nat;

    /// The number of rounds that raise the whole state; half of them come
    /// first and the others last.
    spec fn full_rounds_spec() -> nat;

    /// The number of rounds that raise the first element only.
    spec fn partial_rounds_spec() -> nat;

    /// The constant that round `round` adds to element `i`.
    spec fn ark_spec(round: int, i: int) -> CF;

    /// The entry of the mixing matrix in row `i` and column `j`.
    spec fn mds_spec(i: int, j: int) -> CF;

    /// The rate is not empty, and state and rounds are few enough to be
    /// counted.
    proof fn lemma_shape()
        ensures
            1 <= Self::rate_spec(),
            Self::rate_spec() + Self::capacity_spec() <= 0x1_0000,
            Self::full_rounds_spec() + Self::partial_rounds_spec() <= 0x1_0000,
    ;

    /// The constants are field elements.
    proof fn lemma_constants(round: int, i: int, j: int)
        requires
            CF::is_field(),
        ensures
            Self::ark_spec(round, i).wf(),
            Self::mds_spec(i, j).wf(),
    ;

    fn rate() -> (r: usize)
        ensures
            r == Self::rate_spec(),
    ;

    fn capacity() -> (r: usize)
        ensures
            r == Self::capacity_spec(),
    ;

    fn full_rounds() -> (r: usize)
        ensures
            r == Self::full_rounds_spec(),
    ;

    fn partial_rounds() -> (r: usize)
        ensures
            r == Self::partial_rounds_spec(),
    ;

    fn ark(round: usize, i: usize) -> (r: CF)
        requires
            CF::is_field(),
        ensures
            r == Self::ark_spec(round as int, i as int),
    ;

    fn mds(i: usize, j: usize) -> (r: CF)
        requires
            CF::is_field(),
        ensures
            r == Self::mds_spec(i as int, j as int),
    ;
}

/// The fifth power.
pub open spec fn fifth<CF: Field>(x: CF) -> CF {
    fsq(fsq(x)).mul_spec(x)
}

/// Round `r` raises the whole state.
pub open spec fn is_full_round<CF: PrimeField, PP: PoseidonParameters<CF>>(r: int) -> bool {
    r < PP::full_rounds_spec() / 2 || r >= PP::full_rounds_spec() / 2 + PP::partial_rounds_spec()
}

/// The state with the constants of round `r` added.
pub open spec fn with_constants<CF: PrimeField, PP: PoseidonParameters<CF>>(state: Seq<CF>, r: int) -> Seq<
    CF,
> {
    Seq::new(state.len(), |i: int| state[i].add_spec(PP::ark_spec(r, i)))
}

/// The state with its elements raised to the fifth power: all of them,
/// or the first only.
pub open spec fn with_powers<CF: PrimeField>(state: Seq<CF>, full: bool) -> Seq<CF> {
    Seq::new(
        state.len(),
        |i: int|
            if full || i == 0 {
                fifth(state[i])
            } else {
                state[i]
            },
    )
}

/// The first `n` terms of row `i` of the matrix times the state.
pub open spec fn row_sum<CF: PrimeField, PP: PoseidonParameters<CF>>(state: Seq<CF>, i: int, n: int) -> CF
    decreases n,
{
    if n <= 0 {
        CF::zero_spec()
    } else {
        row_sum::<CF, PP>(state, i, n - 1).add_spec(PP::mds_spec(i, n - 1).mul_spec(state[n - 1]))
    }
}

/// The matrix times the state.
pub open spec fn mixed<CF: PrimeField, PP: PoseidonParameters<CF>>(state: Seq<CF>) -> Seq<CF> {
    Seq::new(state.len(), |i: int| row_sum::<CF, PP>(state, i, state.len() as int))
}

/// The state after round `r`.
pub open spec fn round<CF: PrimeField, PP: PoseidonParameters<CF>>(state: Seq<CF>, r: int) -> Seq<CF> {
    mixed::<CF, PP>(with_powers(with_constants::<CF, PP>(state, r), is_full_round::<CF, PP>(r)))
}

/// The state after the first `n` rounds.
pub open spec fn rounds<CF: PrimeField, PP: PoseidonParameters<CF>>(state: Seq<CF>, n: nat) -> Seq<CF>
    decreases n,
{
    if n == 0 {
        state
    } else {
        round::<CF, PP>(rounds::<CF, PP>(state, (n - 1) as nat), n - 1)
    }
}

/// The sums of a row are field elements.
pub proof fn lemma_row_sum_wf<CF: PrimeField, PP: PoseidonParameters<CF>>(state: Seq<CF>, i: int, n: int)
    requires
        CF::is_field(),
        all_wf(state),
        n <= state.len(),
    ensures
        row_sum::<CF, PP>(state, i, n).wf(),
    decreases n,
{
    CF::lemma_constants();
    if n > 0 {
        lemma_row_sum_wf::<CF, PP>(state, i, n - 1);
        PP::lemma_constants(0, i, n - 1);
        assert(state[n - 1].wf());
    }
}

/// A round takes states to states.
pub proof fn lemma_round_wf<CF: PrimeField, PP: PoseidonParameters<CF>>(state: Seq<CF>, r: int)
    requires
        CF::is_field(),
        all_wf(state),
    ensures
        round::<CF, PP>(state, r).len() == state.len(),
        all_wf(with_constants::<CF, PP>(state, r)),
        all_wf(with_powers(with_constants::<CF, PP>(state, r), is_full_round::<CF, PP>(r))),
        all_wf(round::<CF, PP>(state, r)),
{
    let a = with_constants::<CF, PP>(state, r);
    assert forall|i: int| 0 <= i < a.len() implies (#[trigger] a[i]).wf() by {
        PP::lemma_constants(r, i, 0);
        assert(state[i].wf());
    }
    let b = with_powers(a, is_full_round::<CF, PP>(r));
    assert forall|i: int| 0 <= i < b.len() implies (#[trigger] b[i]).wf() by {
        assert(a[i].wf());
    }
    let c = round::<CF, PP>(state, r);
    assert forall|i: int| 0 <= i < c.len() implies (#[trigger] c[i]).wf() by {
        lemma_row_sum_wf::<CF, PP>(b, i, b.len() as int);
    }
}

/// Rounds take states to states.
pub proof fn lemma_rounds_wf<CF: PrimeField, PP: PoseidonParameters<CF>>(state: Seq<CF>, n: nat)
    requires
        CF::is_field(),
        all_wf(state),
    ensures
        rounds::<CF, PP>(state, n).len() == state.len(),
        all_wf(rounds::<CF, PP>(state, n)),
    decreases n,
{
    if n > 0 {
        lemma_rounds_wf::<CF, PP>(state, (n - 1) as nat);
        lemma_round_wf::<CF, PP>(rounds::<CF, PP>(state, (n - 1) as nat), n - 1);
    }
}

/// Whether round `r` raises the whole state.
pub fn full_round<CF: PrimeField, PP: PoseidonParameters<CF>>(r: usize) -> (b: bool)
    ensures
        b == is_full_round::<CF, PP>(r as int),
{
    proof {
        PP::lemma_shape();
    }
    let half = PP::full_rounds() / 2;
    r < half || r >= half + PP::partial_rounds()
}

/// The fifth power of `x`.
pub fn fifth_power<CF: Field>(x: &CF) -> (r: CF)
    requires
        x.wf(),
    ensures
        r == fifth(*x),
        r.wf(),
{
    let x2 = x.square();
    let x4 = x2.square();
    x4.mul(x)
}

/// The state after round `r`.
pub fn round_of<CF: PrimeField, PP: PoseidonParameters<CF>>(state: &Vec<CF>, r: usize) -> (next: Vec<CF>)
    requires
        CF::is_field(),
        all_wf(state@),
    ensures
        next@ == round::<CF, PP>(state@, r as int),
        all_wf(next@),
{
    let n = state.len();
    let full = full_round::<CF, PP>(r);
    let ghost a = with_constants::<CF, PP>(state@, r as int);
    let ghost b = with_powers(a, full);
    proof {
        lemma_round_wf::<CF, PP>(state@, r as int);
    }
    let mut raised: Vec<CF> = Vec::new();
    let mut i: usize = 0;
    while i < n
        invariant
            i <= n,
            n == state@.len(),
            CF::is_field(),
            all_wf(state@),
            a == with_constants::<CF, PP>(state@, r as int),
            b == with_powers(a, full),
            all_wf(a),
            raised@.len() == i,
            forall|k: int| 0 <= k < i ==> raised@[k] == b[k],
        decreases n - i,
    {
        let c = PP::ark(r, i);
        proof {
            PP::lemma_constants(r as int, i as int, 0);
            assert(state@[i as int].wf());
            assert(a[i as int].wf());
        }
        let x = state[i].add(&c);
        let y = if full || i == 0 {
            fifth_power(&x)
        } else {
            x
        };
        raised.push(y);
        i += 1;
    }
    assert(raised@ =~= b);
    let mut next: Vec<CF> = Vec::new();
    let mut i: usize = 0;
    while i < n
        invariant
            i <= n,
            n == raised@.len(),
            CF::is_field(),
            all_wf(raised@),
            next@.len() == i,
            forall|k: int| 0 <= k < i ==> next@[k] == row_sum::<CF, PP>(raised@, k, n as int),
        decreases n - i,
    {
        let mut acc = CF::zero();
        let mut j: usize = 0;
        proof {
            CF::lemma_constants();
        }
        while j < n
            invariant
                j <= n,
                i < n,
                n == raised@.len(),
                CF::is_field(),
                all_wf(raised@),
                acc == row_sum::<CF, PP>(raised@, i as int, j as int),
                acc.wf(),
            decreases n - j,
        {
            let m = PP::mds(i, j);
            proof {
                PP::lemma_constants(0, i as int, j as int);
                assert(raised@[j as int].wf());
            }
            acc = acc.add(&m.mul(&raised[j]));
            j += 1;
        }
        next.push(acc);
        i += 1;
    }
    assert(next@ =~= round::<CF, PP>(state@, r as int));
    next
}

/// The permutation with the parameters `PP`.
pub struct Poseidon<CF: PrimeField, PP: PoseidonParameters<CF>> {
    pub f_phantom: PhantomData<CF>,
    pub p_phantom: PhantomData<PP>,
}

impl<CF: PrimeField, PP: PoseidonParameters<CF>> Permutation<CF> for Poseidon<CF, PP> {
    open spec fn width_spec() -> nat {
        PP::rate_spec() + PP::capacity_spec()
    }

    open spec fn rate_spec() -> nat {
        PP::rate_spec()
    }

    open spec fn permute_spec(state: Seq<CF>) -> Seq<CF> {
        rounds::<CF, PP>(state, PP::full_rounds_spec() + PP::partial_rounds_spec())
    }

    proof fn lemma_shape(state: Seq<CF>) {
        PP::lemma_shape();
        if state.len() == Self::width_spec() && all_wf(state) {
            assert(state[0].wf());
            CF::lemma_wf_is_field(state[0]);
            lemma_rounds_wf::<CF, PP>(state, PP::full_rounds_spec() + PP::partial_rounds_spec());
        }
    }

    fn width() -> (w: usize) {
        proof {
            PP::lemma_shape();
        }
        PP::rate() + PP::capacity()
    }

    fn rate() -> (r: usize) {
        PP::rate()
    }

    fn permute(state: &mut Vec<CF>) {
        proof {
            PP::lemma_shape();
            assert(state@[0].wf());
            CF::lemma_wf_is_field(state@[0]);
        }
        let total = PP::full_rounds() + PP::partial_rounds();
        let mut r: usize = 0;
        while r < total
            invariant
                r <= total,
                CF::is_field(),
                all_wf(state@),
                state@ == rounds::<CF, PP>(old(state)@, r as nat),
            decreases total - r,
        {
            let next = round_of::<CF, PP>(state, r);
            *state = next;
            r += 1;
        }
    }
}

/// The state after round `r`, in a circuit: each fifth power takes three
/// new wires and constraints, and each element of the mixed state one.
pub fn round_var<CF: PrimeField, PP: PoseidonParameters<CF>>(
    cs: &mut ConstraintSystem<CF>,
    state: &Vec<FpGadget<CF>>,
    r: usize,
) -> (next: Vec<FpGadget<CF>>)
    requires
        old(cs).wf(),
        all_fp_hold_in(state@, old(cs)),
    ensures
        final(cs).wf(),
        old(cs).extended_by(final(cs)),
        final(cs).satisfied_spec() == old(cs).satisfied_spec(),
        next@.len() == state@.len(),
        fp_values(next@) == round::<CF, PP>(fp_values(state@), r as int),
        all_fp_hold_in(next@, final(cs)),
{
    let n = state.len();
    let full = full_round::<CF, PP>(r);
    let ghost vals = fp_values(state@);
    let ghost a = with_constants::<CF, PP>(vals, r as int);
    let ghost b = with_powers(a, full);
    proof {
        assert forall|k: int| 0 <= k < vals.len() implies (#[trigger] vals[k]).wf() by {
            assert(state@[k].holds_in(cs));
        }
        lemma_round_wf::<CF, PP>(vals, r as int);
    }
    let mut raised: Vec<FpGadget<CF>> = Vec::new();
    let mut i: usize = 0;
    while i < n
        invariant
            i <= n,
            n == state@.len(),
            cs.wf(),
            old(cs).wf(),
            old(cs).extended_by(cs),
            cs.satisfied_spec() == old(cs).satisfied_spec(),
            all_fp_hold_in(state@, cs),
            vals == fp_values(state@),
            a == with_constants::<CF, PP>(vals, r as int),
            b == with_powers(a, full),
            all_wf(a),
            raised@.len() == i,
            all_fp_hold_in(raised@, cs),
            forall|k: int| 0 <= k < i ==> (#[trigger] raised@[k]).value->0 == b[k],
        decreases n - i,
    {
        let ghost before = *cs;
        let c = PP::ark(r, i);
        proof {
            PP::lemma_constants(r as int, i as int, 0);
            assert(state@[i as int].holds_in(cs));
            assert(a[i as int].wf());
        }
        let constant = FpGadget::constant(cs, c);
        let x = state[i].add(cs, &constant);
        let y = if full || i == 0 {
            let x2 = x.mul(cs, &x);
            let ghost first = *cs;
            proof {
                x.lemma_holds_later(&before, &first);
            }
            let x4 = x2.mul(cs, &x2);
            let ghost second = *cs;
            proof {
                x.lemma_holds_later(&first, &second);
                before.lemma_extended_twice(&first, &second);
            }
            let x5 = x4.mul(cs, &x);
            proof {
                before.lemma_extended_twice(&second, cs);
            }
            x5
        } else {
            x
        };
        proof {
            old(cs).lemma_extended_twice(&before, cs);
            lemma_all_fp_hold_later(state@, &before, cs);
            lemma_all_fp_hold_later(raised@, &before, cs);
        }
        raised.push(y);
        i += 1;
    }
    proof {
        assert(fp_values(raised@) =~= b);
    }
    let mut next: Vec<FpGadget<CF>> = Vec::new();
    let mut i: usize = 0;
    while i < n
        invariant
            i <= n,
            n == raised@.len(),
            cs.wf(),
            old(cs).wf(),
            old(cs).extended_by(cs),
            cs.satisfied_spec() == old(cs).satisfied_spec(),
            all_fp_hold_in(raised@, cs),
            b == fp_values(raised@),
            all_wf(b),
            next@.len() == i,
            all_fp_hold_in(next@, cs),
            forall|k: int| 0 <= k < i ==> (#[trigger] next@[k]).value->0 == row_sum::<CF, PP>(b, k, n as int),
        decreases n - i,
    {
        proof {
            CF::lemma_constants();
        }
        let ghost before = *cs;
        let mut acc = FpGadget::constant(cs, CF::zero());
        let mut j: usize = 0;
        while j < n
            invariant
                j <= n,
                i < n,
                n == raised@.len(),
                cs.wf(),
                all_fp_hold_in(raised@, cs),
                b == fp_values(raised@),
                all_wf(b),
                acc.holds_in(cs),
                acc.value->0 == row_sum::<CF, PP>(b, i as int, j as int),
            decreases n - j,
        {
            let m = PP::mds(i, j);
            proof {
                PP::lemma_constants(0, i as int, j as int);
                assert(raised@[j as int].holds_in(cs));
                assert(b[j as int] == raised@[j as int].value->0);
                CF::lemma_mul_commutative(b[j as int], m);
            }
            let term = raised[j].mul_by_constant(cs, &m);
            acc = acc.add(cs, &term);
            j += 1;
        }
        // a wire of its own for the sum, that the combinations stay short
        let one = FpGadget::constant(cs, CF::one());
        let wire = acc.mul(cs, &one);
        proof {
            CF::lemma_mul_one(acc.value->0);
            old(cs).lemma_extended_twice(&before, cs);
            lemma_all_fp_hold_later(raised@, &before, cs);
            lemma_all_fp_hold_later(next@, &before, cs);
        }
        next.push(wire);
        i += 1;
    }
    proof {
        assert(fp_values(next@) =~= round::<CF, PP>(vals, r as int));
    }
    next
}

/// The permutation with the parameters `PP` in a circuit.
pub struct PoseidonVar<CF: PrimeField, PP: PoseidonParameters<CF>> {
    pub f_phantom: PhantomData<CF>,
    pub p_phantom: PhantomData<PP>,
}

impl<CF: PrimeField, PP: PoseidonParameters<CF>> PermutationVar<CF, Poseidon<CF, PP>> for PoseidonVar<
    CF,
    PP,
> {
    /// The rounds allocate products of values that are there: nothing can
    /// fail.
    open spec fn never_fails() -> bool {
        true
    }

    fn permute(cs: &mut ConstraintSystem<CF>, state: &mut Vec<FpGadget<CF>>) -> (r: Result<
        (),
        SynthesisError,
    >) {
        proof {
            PP::lemma_shape();
        }
        let total = PP::full_rounds() + PP::partial_rounds();
        let mut r: usize = 0;
        while r < total
            invariant
                r <= total,
                cs.wf(),
                old(cs).wf(),
                old(cs).extended_by(cs),
                cs.satisfied_spec() == old(cs).satisfied_spec(),
                all_fp_hold_in(state@, cs),
                fp_values(state@) == rounds::<CF, PP>(fp_values(old(state)@), r as nat),
            decreases total - r,
        {
            let ghost before = *cs;
            let next = round_var::<CF, PP>(cs, state, r);
            proof {
                old(cs).lemma_extended_twice(&before, cs);
            }
            *state = next;
            r += 1;
        }
        Ok(())
    }
}

/// The field element of the number `x`: one, added up `x` times.
pub open spec fn counted<CF: Field>(x: nat) -> CF
    decreases x,
{
    if x == 0 {
        CF::zero_spec()
    } else {
        counted::<CF>((x - 1) as nat).add_spec(CF::one_spec())
    }
}

/// The numbers are field elements.
pub proof fn lemma_counted_wf<CF: Field>(x: nat)
    requires
        CF::is_field(),
    ensures
        counted::<CF>(x).wf(),
    decreases x,
{
    CF::lemma_constants();
    if x > 0 {
        lemma_counted_wf::<CF>((x - 1) as nat);
    }
}

/// The field element of the number `x`.
pub fn counted_element<CF: Field>(x: usize) -> (r: CF)
    requires
        CF::is_field(),
    ensures
        r == counted::<CF>(x as nat),
        r.wf(),
{
    proof {
        CF::lemma_constants();
    }
    let one = CF::one();
    let mut r = CF::zero();
    let mut i: usize = 0;
    while i < x
        invariant
            i <= x,
            one == CF::one_spec(),
            one.wf(),
            r == counted::<CF>(i as nat),
            r.wf(),
        decreases x - i,
    {
        r = r.add(&one);
        i += 1;
    }
    r
}

/// A small set of parameters for states of three elements, two of them
/// the rate: eight full rounds around twenty-four partial ones, the
/// matrix with twos on the diagonal and ones elsewhere, and for constants
/// the numbers from one on, three to a round.  The constants are chosen
/// for plainness: this set is for examples and trials, and is no hash to
/// rely on.
pub struct CountingParameters {}

impl<CF: PrimeField> PoseidonParameters<CF> for CountingParameters {
    open spec fn rate_spec() -> nat {
        2
    }

    open spec fn capacity_spec() -> nat {
        1
    }

    open spec fn full_rounds_spec() -> nat {
        8
    }

    open spec fn partial_rounds_spec() -> nat {
        24
    }

    open spec fn ark_spec(round: int, i: int) -> CF {
        counted::<CF>(((round % 64) * 3 + i % 3 + 1) as nat)
    }

    open spec fn mds_spec(i: int, j: int) -> CF {
        if i == j {
            counted::<CF>(2)
        } else {
            counted::<CF>(1)
        }
    }

    proof fn lemma_shape() {
    }

    proof fn lemma_constants(round: int, i: int, j: int) {
        lemma_counted_wf::<CF>(((round % 64) * 3 + i % 3 + 1) as nat);
        lemma_counted_wf::<CF>(1);
        lemma_counted_wf::<CF>(2);
    }

    fn rate() -> (r: usize) {
        2
    }

    fn capacity() -> (r: usize) {
        1
    }

    fn full_rounds() -> (r: usize) {
        8
    }

    fn partial_rounds() -> (r: usize) {
        24
    }

    fn ark(round: usize, i: usize) -> (r: CF) {
        counted_element((round % 64) * 3 + i % 3 + 1)
    }

    fn mds(i: usize, j: usize) -> (r: CF) {
        if i == j {
            counted_element(2)
        } else {
            counted_element(1)
        }
    }
}

} // verus!
