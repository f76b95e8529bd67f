//! The results of the field operations are elements: stated so that proofs
//! can take it for granted.
use crate::fields::field::Field;
use vstd::prelude::*;

verus! {

/// A sum of elements is an element.
pub broadcast proof fn lemma_add_wf<F: Field>(a: F, b: F)
    requires
        a.wf(),
        b.wf(),
    ensures
        #[trigger] a.add_spec(b).wf(),
{
    F::lemma_closed(a, b);
}

/// The negation of an element is an element.
pub broadcast proof fn lemma_neg_wf<F: Field>(a: F)
    requires
        a.wf(),
    ensures
        #[trigger] a.neg_spec().wf(),
{
    F::lemma_closed(a, a);
}

/// A product of elements is an element.
pub broadcast proof fn lemma_mul_wf<F: Field>(a: F, b: F)
    requires
        a.wf(),
        b.wf(),
    ensures
        #[trigger] a.mul_spec(b).wf(),
{
    F::lemma_closed(a, b);
}

/// The results of the field operations are elements.
pub broadcast group group_field_closed {
    lemma_add_wf,
    lemma_neg_wf,
    lemma_mul_wf,
}

/// `a + b = b + a`, for proofs that take the ring laws for granted.
pub broadcast proof fn lemma_ring_add_commutative<F: Field>(a: F, b: F)
    requires
        a.wf(),
        b.wf(),
    ensures
        #[trigger] a.add_spec(b) == b.add_spec(a),
{
    F::lemma_add_commutative(a, b);
}

/// `(a + b) + c = a + (b + c)`.
pub broadcast proof fn lemma_ring_add_associative<F: Field>(a: F, b: F, c: F)
    requires
        a.wf(),
        b.wf(),
        c.wf(),
    ensures
        #[trigger] a.add_spec(b).add_spec(c) == a.add_spec(b.add_spec(c)),
{
    F::lemma_add_associative(a, b, c);
}

/// `a * b = b * a`.
pub broadcast proof fn lemma_ring_mul_commutative<F: Field>(a: F, b: F)
    requires
        a.wf(),
        b.wf(),
    ensures
        #[trigger] a.mul_spec(b) == b.mul_spec(a),
{
    F::lemma_mul_commutative(a, b);
}

/// `(a * b) * c = a * (b * c)`.
pub broadcast proof fn lemma_ring_mul_associative<F: Field>(a: F, b: F, c: F)
    requires
        a.wf(),
        b.wf(),
        c.wf(),
    ensures
        #[trigger] a.mul_spec(b).mul_spec(c) == a.mul_spec(b.mul_spec(c)),
{
    F::lemma_mul_associative(a, b, c);
}

/// `a * (b + c) = a * b + a * c`.
pub broadcast proof fn lemma_ring_distributive<F: Field>(a: F, b: F, c: F)
    requires
        a.wf(),
        b.wf(),
        c.wf(),
    ensures
        #[trigger] a.mul_spec(b.add_spec(c)) == a.mul_spec(b).add_spec(a.mul_spec(c)),
{
    F::lemma_distributive(a, b, c);
}

/// The ring laws of a field, for proofs of identities.
pub broadcast group group_field_ring {
    lemma_add_wf,
    lemma_neg_wf,
    lemma_mul_wf,
    lemma_ring_add_commutative,
    lemma_ring_add_associative,
    lemma_ring_mul_commutative,
    lemma_ring_mul_associative,
    lemma_ring_distributive,
}

} // verus!
