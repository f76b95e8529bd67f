//! Identities of fields that the square roots of a quadratic extension
//! rest on.
use crate::fields::closure::{group_field_closed, group_field_ring};
use crate::fields::field::{fdbl, fsq, fsub, Field};
use crate::fields::fp2::{lemma_add_sub_cancel, lemma_square_of_product};
use crate::fields::laws::{
    lemma_double_is_mul_two, lemma_mul_neg, lemma_no_zero_divisors, lemma_zero_add,
};
use vstd::prelude::*;

verus! {

broadcast use group_field_closed;

/// `(p - q) + q = p`.
pub proof fn lemma_sub_add_cancel<F: Field>(p: F, q: F)
    requires
        p.wf(),
        q.wf(),
    ensures
        fsub(p, q).add_spec(q) == p,
{
    F::lemma_add_associative(p, q.neg_spec(), q);
    F::lemma_add_commutative(q.neg_spec(), q);
    F::lemma_add_neg(q);
    F::lemma_add_zero(p);
}

/// Elements with the same square are the same, or each the negation of
/// the other.
pub proof fn lemma_equal_squares<F: Field>(a: F, b: F)
    requires
        a.wf(),
        b.wf(),
        fsq(a) == fsq(b),
    ensures
        a == b || a == b.neg_spec(),
{
    let nb = b.neg_spec();
    let u = a.add_spec(nb);
    let v = a.add_spec(b);
    // (a - b)(a + b) = a a + a b - b a - b b = 0
    F::lemma_distributive(u, a, b);
    F::lemma_mul_commutative(u, a);
    F::lemma_mul_commutative(u, b);
    F::lemma_distributive(a, a, nb);
    F::lemma_distributive(b, a, nb);
    lemma_mul_neg(a, b);
    lemma_mul_neg(b, b);
    F::lemma_mul_commutative(a, b);
    let s = fsq(a);
    let t = a.mul_spec(b);
    assert(u.mul_spec(v) == s.add_spec(t.neg_spec()).add_spec(t.add_spec(s.neg_spec())));
    F::lemma_add_associative(s, t.neg_spec(), t.add_spec(s.neg_spec()));
    F::lemma_add_associative(t.neg_spec(), t, s.neg_spec());
    F::lemma_add_commutative(t.neg_spec(), t);
    F::lemma_add_neg(t);
    lemma_zero_add(s.neg_spec());
    F::lemma_add_neg(s);
    assert(u.mul_spec(v) == F::zero_spec());
    lemma_no_zero_divisors(u, v);
    if u == F::zero_spec() {
        // a = (a - b) + b = b
        lemma_sub_add_cancel(a, b);
        lemma_zero_add(b);
    } else {
        // a = (a + b) - b = -b
        lemma_add_sub_cancel(a, b);
        lemma_zero_add(nb);
    }
}

/// Half of the double: `(z + z) h = z` where `(1 + 1) h = 1`.
pub proof fn lemma_half_double<F: Field>(z: F, h: F)
    requires
        z.wf(),
        h.wf(),
        fdbl(F::one_spec()).mul_spec(h) == F::one_spec(),
    ensures
        fdbl(z).mul_spec(h) == z,
{
    F::lemma_wf_is_field(z);
    F::lemma_constants();
    let two = fdbl(F::one_spec());
    lemma_double_is_mul_two(z);
    F::lemma_mul_associative(z, two, h);
    F::lemma_mul_one(z);
}

/// Four times `z`.
pub open spec fn four<F: Field>(z: F) -> F {
    fdbl(fdbl(z))
}

/// `(d + q + q)^2 = d^2 + 4 (d + q) q`.
#[verifier::spinoff_prover]
#[verifier::rlimit(100)]
pub proof fn lemma_square_by_difference<F: Field>(d: F, q: F)
    requires
        d.wf(),
        q.wf(),
    ensures
        fsq(d.add_spec(q).add_spec(q)) == fsq(d).add_spec(four(d.add_spec(q).mul_spec(q))),
{
    broadcast use group_field_ring;

    let dq = d.mul_spec(q);
    let qq = q.mul_spec(q);
    let dd = d.mul_spec(d);
    let e = d.add_spec(q).add_spec(q);
    // (d + q) q = d q + q q
    assert(d.add_spec(q).mul_spec(q) == dq.add_spec(qq));
    // e d = d d + d q + d q, e q = d q + q q + q q
    assert(e.mul_spec(d) == dd.add_spec(dq).add_spec(dq));
    assert(e.mul_spec(q) == dq.add_spec(qq).add_spec(qq));
    assert(e.mul_spec(e) == e.mul_spec(d).add_spec(e.mul_spec(q)).add_spec(e.mul_spec(q)));
}

/// `b (x y + y x)^2 = 4 x^2 (b y^2)`.
#[verifier::spinoff_prover]
#[verifier::rlimit(100)]
pub proof fn lemma_cross_term<F: Field>(x: F, y: F, b: F)
    requires
        x.wf(),
        y.wf(),
        b.wf(),
    ensures
        b.mul_spec(fsq(x.mul_spec(y).add_spec(y.mul_spec(x)))) == four(
            fsq(x).mul_spec(b.mul_spec(fsq(y))),
        ),
{
    broadcast use group_field_ring;

    let m = x.mul_spec(y);
    let t = fsq(x).mul_spec(b.mul_spec(fsq(y)));
    assert(y.mul_spec(x) == m);
    assert(b.mul_spec(m.mul_spec(m)) == t);
    let mm = m.mul_spec(m);
    assert(fsq(m.add_spec(m)) == mm.add_spec(mm).add_spec(mm.add_spec(mm)));
    assert(b.mul_spec(mm.add_spec(mm)) == t.add_spec(t));
}

/// No multiple of a non-square by a square other than zero is a square.
pub proof fn lemma_nonsquare_multiple<F: Field>(z: F, y: F, b: F)
    requires
        z.wf(),
        y.wf(),
        b.wf(),
        y != F::zero_spec(),
        fsq(z) == b.mul_spec(fsq(y)),
    ensures
        exists|w: F| w.wf() && #[trigger] w.mul_spec(w) == b,
{
    let i = y.inv_spec();
    F::lemma_mul_inverse(y);
    let w = z.mul_spec(i);
    // w w = (z z)(i i) = (b (y y))(i i) = b ((y y)(i i)) = b (y i)^2 = b
    lemma_square_of_product(z, i);
    lemma_square_of_product(y, i);
    F::lemma_mul_associative(b, fsq(y), fsq(i));
    F::lemma_wf_is_field(z);
    F::lemma_constants();
    F::lemma_mul_one(F::one_spec());
    F::lemma_mul_one(b);
    assert(w.mul_spec(w) == b);
}

} // verus!
