//! Laws that hold in every field, proved from the laws that the
//! implementations prove.
use crate::bytes::{window, ByteError};
use crate::fields::closure::group_field_closed;
use crate::fields::field::{fdbl, fsq, fsub, Field};
use vstd::prelude::*;

verus! {

broadcast use group_field_closed;

/// `0 + a = a`.
pub proof fn lemma_zero_add<F: Field>(a: F)
    requires
        a.wf(),
    ensures
        F::zero_spec().add_spec(a) == a,
{
    F::lemma_closed(a, a);
    F::lemma_add_commutative(F::zero_spec(), a);
    F::lemma_add_zero(a);
}

/// `1 * a = a`.
pub proof fn lemma_one_mul<F: Field>(a: F)
    requires
        a.wf(),
    ensures
        F::one_spec().mul_spec(a) == a,
{
    F::lemma_closed(a, a);
    F::lemma_mul_commutative(F::one_spec(), a);
    F::lemma_mul_one(a);
}

/// The negation is the only element that adds up to zero with `a`.
pub proof fn lemma_neg_unique<F: Field>(a: F, b: F)
    requires
        a.wf(),
        b.wf(),
        a.add_spec(b) == F::zero_spec(),
    ensures
        b == a.neg_spec(),
{
    let z = F::zero_spec();
    let na = a.neg_spec();
    F::lemma_closed(a, b);
    // b = b + (a + -a) = (b + a) + -a = 0 + -a = -a
    F::lemma_add_zero(b);
    F::lemma_add_neg(a);
    F::lemma_add_associative(b, a, na);
    F::lemma_add_commutative(b, a);
    lemma_zero_add(na);
}

/// `-(-a) = a`.
pub proof fn lemma_neg_neg<F: Field>(a: F)
    requires
        a.wf(),
    ensures
        a.neg_spec().neg_spec() == a,
{
    F::lemma_closed(a, a);
    F::lemma_add_neg(a);
    F::lemma_add_commutative(a, a.neg_spec());
    lemma_neg_unique(a.neg_spec(), a);
}

/// `-0 = 0`.
pub proof fn lemma_neg_zero<F: Field>()
    requires
        F::is_field(),
    ensures
        F::zero_spec().neg_spec() == F::zero_spec(),
{
    F::lemma_constants();
    let z = F::zero_spec();
    F::lemma_add_zero(z);
    lemma_neg_unique(z, z);
}

/// `a - b = 0` exactly when `a = b`.
pub proof fn lemma_sub_is_zero<F: Field>(a: F, b: F)
    requires
        a.wf(),
        b.wf(),
    ensures
        (fsub(a, b) == F::zero_spec()) <==> (a == b),
{
    F::lemma_closed(a, b);
    F::lemma_add_neg(b);
    if fsub(a, b) == F::zero_spec() {
        // a = a + (-b + b) = (a + -b) + b = 0 + b = b
        let nb = b.neg_spec();
        F::lemma_add_zero(a);
        F::lemma_add_commutative(b, nb);
        F::lemma_add_associative(a, nb, b);
        lemma_zero_add(b);
    }
}

/// If `a + b = a + c` then `b = c`.
pub proof fn lemma_add_cancel<F: Field>(a: F, b: F, c: F)
    requires
        a.wf(),
        b.wf(),
        c.wf(),
        a.add_spec(b) == a.add_spec(c),
    ensures
        b == c,
{
    let na = a.neg_spec();
    F::lemma_closed(a, b);
    // b = (-a + a) + b = -a + (a + b) = -a + (a + c) = (-a + a) + c = c
    F::lemma_add_neg(a);
    F::lemma_add_commutative(a, na);
    F::lemma_add_associative(na, a, b);
    F::lemma_add_associative(na, a, c);
    lemma_zero_add(b);
    lemma_zero_add(c);
}

/// `a * 0 = 0` and `0 * a = 0`.
pub proof fn lemma_mul_zero<F: Field>(a: F)
    requires
        a.wf(),
    ensures
        a.mul_spec(F::zero_spec()) == F::zero_spec(),
        F::zero_spec().mul_spec(a) == F::zero_spec(),
{
    let z = F::zero_spec();
    F::lemma_closed(a, a);
    let t = a.mul_spec(z);
    F::lemma_closed(a, z);
    // t = a * (0 + 0) = t + t, and t = t + 0
    F::lemma_add_zero(z);
    F::lemma_distributive(a, z, z);
    F::lemma_add_zero(t);
    lemma_add_cancel(t, t, z);
    F::lemma_mul_commutative(a, z);
}

/// `a * (-b) = -(a * b)` and `(-a) * b = -(a * b)`.
pub proof fn lemma_mul_neg<F: Field>(a: F, b: F)
    requires
        a.wf(),
        b.wf(),
    ensures
        a.mul_spec(b.neg_spec()) == a.mul_spec(b).neg_spec(),
        a.neg_spec().mul_spec(b) == a.mul_spec(b).neg_spec(),
{
    let nb = b.neg_spec();
    let na = a.neg_spec();
    F::lemma_closed(a, b);
    F::lemma_closed(a, nb);
    F::lemma_closed(na, b);
    // a * b + a * (-b) = a * (b + -b) = a * 0 = 0
    F::lemma_distributive(a, b, nb);
    F::lemma_add_neg(b);
    lemma_mul_zero(a);
    lemma_neg_unique(a.mul_spec(b), a.mul_spec(nb));
    // (-a) * b = b * (-a) = -(b * a) = -(a * b)
    F::lemma_distributive(b, a, na);
    F::lemma_add_neg(a);
    lemma_mul_zero(b);
    F::lemma_closed(b, a);
    F::lemma_closed(b, na);
    lemma_neg_unique(b.mul_spec(a), b.mul_spec(na));
    F::lemma_mul_commutative(a, b);
    F::lemma_mul_commutative(na, b);
}

/// A product is zero only if a factor is.
pub proof fn lemma_no_zero_divisors<F: Field>(a: F, b: F)
    requires
        a.wf(),
        b.wf(),
        a.mul_spec(b) == F::zero_spec(),
    ensures
        a == F::zero_spec() || b == F::zero_spec(),
{
    if a != F::zero_spec() {
        let ia = a.inv_spec();
        F::lemma_mul_inverse(a);
        F::lemma_closed(a, b);
        // b = (ia * a) * b = ia * (a * b) = ia * 0 = 0
        F::lemma_mul_commutative(a, ia);
        F::lemma_mul_associative(ia, a, b);
        lemma_one_mul(b);
        lemma_mul_zero(ia);
    }
}

/// The inverse is the only element whose product with `a` is one.
pub proof fn lemma_inverse_unique<F: Field>(a: F, b: F)
    requires
        a.wf(),
        b.wf(),
        a.mul_spec(b) == F::one_spec(),
    ensures
        a != F::zero_spec(),
        b == a.inv_spec(),
{
    F::lemma_wf_is_field(a);
    F::lemma_constants();
    if a == F::zero_spec() {
        lemma_mul_zero(b);
    } else {
        let ia = a.inv_spec();
        F::lemma_mul_inverse(a);
        // b = (ia * a) * b = ia * (a * b) = ia * 1 = ia
        F::lemma_mul_commutative(a, ia);
        F::lemma_mul_associative(ia, a, b);
        lemma_one_mul(b);
        F::lemma_mul_one(ia);
    }
}

/// `1^-1 = 1`.
pub proof fn lemma_inv_one<F: Field>()
    requires
        F::is_field(),
    ensures
        F::one_spec().inv_spec() == F::one_spec(),
{
    F::lemma_constants();
    F::lemma_mul_one(F::one_spec());
    lemma_inverse_unique(F::one_spec(), F::one_spec());
}

/// The inverse of an element other than zero is not zero, and inverting it
/// gives the element back.
pub proof fn lemma_inv_inv<F: Field>(a: F)
    requires
        a.wf(),
        a != F::zero_spec(),
    ensures
        a.inv_spec() != F::zero_spec(),
        a.inv_spec().inv_spec() == a,
{
    F::lemma_mul_inverse(a);
    F::lemma_mul_commutative(a, a.inv_spec());
    lemma_inverse_unique(a.inv_spec(), a);
}

/// `(a * b)^-1 = a^-1 * b^-1` when neither factor is zero.
pub proof fn lemma_inv_mul<F: Field>(a: F, b: F)
    requires
        a.wf(),
        b.wf(),
        a != F::zero_spec(),
        b != F::zero_spec(),
    ensures
        a.mul_spec(b) != F::zero_spec(),
        a.mul_spec(b).inv_spec() == a.inv_spec().mul_spec(b.inv_spec()),
{
    let ia = a.inv_spec();
    let ib = b.inv_spec();
    F::lemma_mul_inverse(a);
    F::lemma_mul_inverse(b);
    F::lemma_closed(a, b);
    F::lemma_closed(ia, ib);
    // (a * b) * (ia * ib) = a * (b * (ia * ib)) = a * (ia * (b * ib)) = a * ia = 1
    let ab = a.mul_spec(b);
    F::lemma_mul_associative(a, b, ia.mul_spec(ib));
    F::lemma_mul_commutative(ia, ib);
    F::lemma_mul_associative(b, ib, ia);
    lemma_one_mul(ia);
    lemma_inverse_unique(ab, ia.mul_spec(ib));
}

/// `a + a = a * (1 + 1)`.
pub proof fn lemma_double_is_mul_two<F: Field>(a: F)
    requires
        a.wf(),
    ensures
        fdbl(a) == a.mul_spec(fdbl(F::one_spec())),
{
    F::lemma_closed(a, a);
    F::lemma_distributive(a, F::one_spec(), F::one_spec());
    F::lemma_mul_one(a);
}

/// Where `1 + 1` is not zero, `a + a = 0` only for `a = 0`.
pub proof fn lemma_double_is_zero<F: Field>(a: F)
    requires
        a.wf(),
        fdbl(F::one_spec()) != F::zero_spec(),
        fdbl(a) == F::zero_spec(),
    ensures
        a == F::zero_spec(),
{
    F::lemma_closed(a, a);
    F::lemma_closed(F::one_spec(), F::one_spec());
    lemma_double_is_mul_two(a);
    lemma_no_zero_divisors(a, fdbl(F::one_spec()));
}

/// Where `1 + 1` is not zero, `a = -a` only for `a = 0`.
pub proof fn lemma_self_neg_is_zero<F: Field>(a: F)
    requires
        a.wf(),
        fdbl(F::one_spec()) != F::zero_spec(),
        a == a.neg_spec(),
    ensures
        a == F::zero_spec(),
{
    F::lemma_add_neg(a);
    lemma_double_is_zero(a);
}

/// The square of an element other than zero is not zero.
pub proof fn lemma_square_nonzero<F: Field>(a: F)
    requires
        a.wf(),
        a != F::zero_spec(),
    ensures
        fsq(a) != F::zero_spec(),
{
    if fsq(a) == F::zero_spec() {
        lemma_no_zero_divisors(a, a);
    }
}

/// An element that is written and read again is the same element, and
/// the reading ends where the encoding ends.
pub fn round_trip<F: Field>(a: &F) -> (r: Result<(F, usize), ByteError>)
    requires
        a.wf(),
    ensures
        r == Ok::<(F, usize), ByteError>((*a, F::byte_len() as usize)),
{
    proof {
        F::lemma_wf_is_field(*a);
        F::lemma_bytes_injective(*a, *a);
    }
    let mut out: Vec<u8> = Vec::new();
    a.write(&mut out);
    assert(out@ =~= a.to_bytes_spec());
    let n = F::byte_size();
    let r = F::read(out.as_slice(), 0);
    proof {
        assert(window(out@, 0, F::byte_len() as int) =~= a.to_bytes_spec());
        match r {
            Ok((b, next)) => {
                F::lemma_bytes_injective(b, *a);
            },
            Err(_) => {},
        }
    }
    r
}

} // verus!
