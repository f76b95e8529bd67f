//! Powers of field elements.
use crate::bits::{bits_be, BitIteratorBE};
use crate::fields::closure::group_field_closed;
use crate::fields::field::{fsq, Field};
use crate::fields::laws::lemma_one_mul;
use vstd::prelude::*;

verus! {

broadcast use group_field_closed;

/// `a^e`.
pub open spec fn fpow<F: Field>(a: F, e: nat) -> F
    decreases e,
{
    if e == 0 {
        F::one_spec()
    } else {
        a.mul_spec(fpow(a, (e - 1) as nat))
    }
}

/// The number that the bits spell, most significant first.
pub open spec fn bits_value_be(bits: Seq<bool>) -> nat
    decreases bits.len(),
{
    if bits.len() == 0 {
        0
    } else {
        2 * bits_value_be(bits.drop_last()) + if bits.last() {
            1nat
        } else {
            0nat
        }
    }
}

/// Powers are elements.
pub proof fn lemma_fpow_wf<F: Field>(a: F, e: nat)
    requires
        a.wf(),
    ensures
        fpow(a, e).wf(),
    decreases e,
{
    F::lemma_wf_is_field(a);
    F::lemma_constants();
    if e > 0 {
        lemma_fpow_wf(a, (e - 1) as nat);
    }
}

/// `a^(m + n) = a^m a^n`.
pub proof fn lemma_fpow_adds<F: Field>(a: F, m: nat, n: nat)
    requires
        a.wf(),
    ensures
        fpow(a, m + n) == fpow(a, m).mul_spec(fpow(a, n)),
    decreases m,
{
    lemma_fpow_wf(a, n);
    if m == 0 {
        lemma_one_mul(fpow(a, n));
    } else {
        lemma_fpow_adds(a, (m - 1) as nat, n);
        lemma_fpow_wf(a, (m - 1) as nat);
        F::lemma_mul_associative(a, fpow(a, (m - 1) as nat), fpow(a, n));
    }
}

/// `(a^2)^k = a^(2k)`.
pub proof fn lemma_fpow_of_square<F: Field>(a: F, k: nat)
    requires
        a.wf(),
    ensures
        fpow(fsq(a), k) == fpow(a, 2 * k),
    decreases k,
{
    if k > 0 {
        lemma_fpow_of_square(a, (k - 1) as nat);
        let r = fpow(a, (2 * k - 2) as nat);
        lemma_fpow_wf(a, (2 * k - 2) as nat);
        F::lemma_mul_associative(a, a, r);
        assert(fpow(a, (2 * k - 1) as nat) == a.mul_spec(r));
    }
}

/// `a^e`, by squaring.
pub fn pow_u64<F: Field>(a: &F, e: u64) -> (r: F)
    requires
        a.wf(),
    ensures
        r == fpow(*a, e as nat),
        r.wf(),
{
    proof {
        F::lemma_wf_is_field(*a);
        F::lemma_constants();
    }
    let mut acc = F::one();
    let mut base = *a;
    let mut k = e;
    proof {
        lemma_fpow_wf(*a, e as nat);
        F::lemma_mul_one(fpow(*a, e as nat));
    }
    while k > 0
        invariant
            a.wf(),
            acc.wf(),
            base.wf(),
            fpow(base, k as nat).mul_spec(acc) == fpow(*a, e as nat),
        decreases k,
    {
        proof {
            let h = (k / 2) as nat;
            lemma_fpow_of_square(base, h);
            lemma_fpow_wf(base, (2 * h) as nat);
            lemma_fpow_wf(fsq(base), h);
            if k % 2 == 1 {
                // base^k acc = (base base^(2h)) acc = base^(2h) (acc base)
                F::lemma_mul_commutative(base, fpow(base, (2 * h) as nat));
                F::lemma_mul_associative(fpow(base, (2 * h) as nat), base, acc);
                F::lemma_mul_commutative(base, acc);
            }
        }
        if k % 2 == 1 {
            acc = acc.mul(&base);
        }
        base = base.mul(&base);
        k = k / 2;
    }
    proof {
        lemma_one_mul(acc);
    }
    acc
}

/// `a` to the power of the integer with the limbs `exp`, least significant
/// limb first, by squaring and multiplying from the highest bit down.
pub fn pow<F: Field>(a: &F, exp: &Vec<u64>) -> (r: F)
    requires
        a.wf(),
        64 * exp@.len() <= usize::MAX,
    ensures
        r == fpow(*a, bits_value_be(bits_be(exp@))),
        r.wf(),
{
    proof {
        F::lemma_wf_is_field(*a);
        F::lemma_constants();
    }
    let mut limbs: Vec<u64> = Vec::new();
    let mut i: usize = 0;
    while i < exp.len()
        invariant
            i <= exp@.len(),
            limbs@ == exp@.subrange(0, i as int),
        decreases exp@.len() - i,
    {
        limbs.push(exp[i]);
        assert(limbs@ =~= exp@.subrange(0, i + 1));
        i += 1;
    }
    assert(limbs@ =~= exp@);
    let mut bits = BitIteratorBE::new(limbs);
    let ghost all = bits.remaining();
    let ghost mut done: Seq<bool> = Seq::empty();
    let mut res = F::one();
    assert(done + bits.remaining() =~= all);
    loop
        invariant_except_break
            a.wf(),
            bits.wf(),
            res.wf(),
            res == fpow(*a, bits_value_be(done)),
            done + bits.remaining() == all,
        ensures
            res.wf(),
            res == fpow(*a, bits_value_be(all)),
        decreases bits.remaining().len(),
    {
        let ghost before = bits.remaining();
        match bits.next() {
            None => {
                assert(done + before =~= done);
                break ;
            },
            Some(b) => {
                proof {
                    let v = bits_value_be(done);
                    lemma_fpow_adds(*a, v, v);
                    let next = done.push(b);
                    assert(next.drop_last() =~= done);
                    assert(next + bits.remaining() =~= done + before);
                    lemma_fpow_wf(*a, v + v);
                    F::lemma_mul_commutative(*a, fpow(*a, v + v));
                }
                res = res.square();
                if b {
                    res = res.mul(a);
                }
                proof {
                    done = done.push(b);
                }
            },
        }
    }
    res
}

} // verus!
