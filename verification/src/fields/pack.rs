//! Field elements from bits: the powers of two of a field, and the sum of
//! those at the set bits.
use crate::bits::limb_bit;
use crate::fields::closure::group_field_closed;
use crate::fields::field::{fdbl, Field};
use vstd::prelude::*;

verus! {

broadcast use group_field_closed;

/// `2^i` in the field, by doubling one `i` times.
pub open spec fn two_pow<F: Field>(i: nat) -> F
    decreases i,
{
    if i == 0 {
        F::one_spec()
    } else {
        fdbl(two_pow::<F>((i - 1) as nat))
    }
}

/// The sum of `2^i` over the places `i` where `bits` is set; place 0 is
/// the first.
pub open spec fn pack_le<F: Field>(bits: Seq<bool>) -> F
    decreases bits.len(),
{
    if bits.len() == 0 {
        F::zero_spec()
    } else {
        pack_le::<F>(bits.drop_last()).add_spec(
            if bits.last() {
                two_pow::<F>((bits.len() - 1) as nat)
            } else {
                F::zero_spec()
            },
        )
    }
}

/// The lowest `n` bits of a multi-limb integer, lowest first.
pub open spec fn low_bits(limbs: Seq<u64>, n: nat) -> Seq<bool> {
    Seq::new(n, |i: int| limb_bit(limbs, i))
}

/// Powers of two and sums of them are elements.
pub proof fn lemma_pack_wf<F: Field>(bits: Seq<bool>, i: nat)
    requires
        F::is_field(),
    ensures
        two_pow::<F>(i).wf(),
        pack_le::<F>(bits).wf(),
    decreases bits.len() + i,
{
    F::lemma_constants();
    if i > 0 {
        lemma_pack_wf::<F>(bits, (i - 1) as nat);
    }
    if bits.len() > 0 {
        lemma_pack_wf::<F>(bits.drop_last(), 0);
        lemma_two_pow_wf::<F>((bits.len() - 1) as nat);
    }
}

/// Powers of two are elements.
pub proof fn lemma_two_pow_wf<F: Field>(i: nat)
    requires
        F::is_field(),
    ensures
        two_pow::<F>(i).wf(),
    decreases i,
{
    F::lemma_constants();
    if i > 0 {
        lemma_two_pow_wf::<F>((i - 1) as nat);
    }
}

/// The sum with one more bit on top.
pub proof fn lemma_pack_push<F: Field>(bits: Seq<bool>, b: bool)
    ensures
        pack_le::<F>(bits.push(b)) == pack_le::<F>(bits).add_spec(
            if b {
                two_pow::<F>(bits.len())
            } else {
                F::zero_spec()
            },
        ),
{
    assert(bits.push(b).drop_last() =~= bits);
}

/// The first `n` powers of two of the field.
pub fn powers_of_two<F: Field>(n: usize) -> (r: Vec<F>)
    requires
        F::is_field(),
    ensures
        r@.len() == n,
        forall|i: int| 0 <= i < n ==> (#[trigger] r@[i]) == two_pow::<F>(i as nat),
        forall|i: int| 0 <= i < n ==> (#[trigger] r@[i]).wf(),
{
    proof {
        F::lemma_constants();
    }
    let mut r: Vec<F> = Vec::new();
    let mut cur = F::one();
    let mut i: usize = 0;
    while i < n
        invariant
            i <= n,
            r@.len() == i,
            cur == two_pow::<F>(i as nat),
            cur.wf(),
            forall|k: int| 0 <= k < i ==> (#[trigger] r@[k]) == two_pow::<F>(k as nat),
            forall|k: int| 0 <= k < i ==> (#[trigger] r@[k]).wf(),
        decreases n - i,
    {
        r.push(cur);
        cur = cur.double();
        i += 1;
    }
    r
}

} // verus!
