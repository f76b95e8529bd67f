//! Laws of the group operations in projective coordinates.
use crate::bits::bits_be;
use crate::curves::parameters::Parameters;
use crate::curves::short_weierstrass_projective::{GroupAffine, GroupProjective};
use crate::fields::closure::group_field_closed;
use crate::fields::field::{fdbl, fsq, Field};
use crate::fields::laws::{
    lemma_inv_one, lemma_mul_neg, lemma_mul_zero, lemma_neg_neg, lemma_no_zero_divisors,
    lemma_self_neg_is_zero,
};
use vstd::prelude::*;

verus! {

broadcast use group_field_closed;

/// `P + O = P` and `O + P = P`: the sums stand for the point `P`, and are
/// the very triple `P` unless `P` is itself at infinity.
pub proof fn lemma_add_zero<P: Parameters>(p: GroupProjective<P>)
    requires
        p.wf(),
    ensures
        p.add_spec(GroupProjective::zero_spec()).eq_spec(p),
        GroupProjective::zero_spec().add_spec(p) == p,
        !p.is_zero_spec() ==> p.add_spec(GroupProjective::zero_spec()) == p,
{
}

/// Adding the affine point at infinity changes nothing, and adding an
/// affine point to the point at infinity gives that point.
pub proof fn lemma_add_mixed_zero<P: Parameters>(p: GroupProjective<P>, a: GroupAffine<P>)
    requires
        p.wf(),
        a.wf(),
    ensures
        p.add_mixed_spec(GroupAffine::zero_spec()) == p,
        GroupProjective::<P>::zero_spec().add_mixed_spec(a) == a.to_projective_spec(),
{
}

/// A point other than the point at infinity whose `Y` is zero doubles to
/// the point at infinity.
pub proof fn lemma_double_of_order_two<P: Parameters>(p: GroupProjective<P>)
    requires
        p.wf(),
        p.y == P::BaseField::zero_spec(),
    ensures
        p.double_spec().is_zero_spec(),
{
    let zero = P::BaseField::zero_spec();
    if !p.is_zero_spec() {
        P::BaseField::lemma_constants();
        lemma_mul_zero(p.z);
        P::BaseField::lemma_add_zero(zero);
        let s = fdbl(p.y.mul_spec(p.z));
        assert(s == zero);
        lemma_mul_zero(fsq(s));
    }
}

/// `P + (-P) = O`.
pub proof fn lemma_add_neg<P: Parameters>(p: GroupProjective<P>)
    requires
        p.wf(),
    ensures
        p.add_spec(p.neg_spec()).is_zero_spec(),
{
    let zero = P::BaseField::zero_spec();
    if !p.is_zero_spec() {
        let q = p.neg_spec();
        lemma_mul_neg(p.y, p.z);
        if p.eq_spec(q) {
            lemma_self_neg_is_zero(p.y.mul_spec(p.z));
            lemma_no_zero_divisors(p.y, p.z);
            lemma_double_of_order_two(p);
        } else {
            let x1z2 = p.x.mul_spec(p.z);
            P::BaseField::lemma_mul_commutative(p.z, p.x);
            P::BaseField::lemma_add_neg(x1z2);
            lemma_mul_zero(zero);
            lemma_mul_zero(p.z.mul_spec(p.z));
        }
    }
}

/// `P + P = double(P)`.
pub proof fn lemma_add_self<P: Parameters>(p: GroupProjective<P>)
    requires
        p.wf(),
    ensures
        p.add_spec(p) == p.double_spec(),
{
}

/// `-(-P) = P`.
pub proof fn lemma_neg_neg_point<P: Parameters>(p: GroupProjective<P>)
    requires
        p.wf(),
    ensures
        p.neg_spec().neg_spec() == p,
{
    lemma_neg_neg(p.y);
}

/// `2 P = double(P)`: the multiple by the scalar with the bits `1, 0`.
pub proof fn lemma_mul_two<P: Parameters>(p: GroupProjective<P>)
    requires
        p.wf(),
    ensures
        p.mul_spec(seq![true, false]) == p.double_spec(),
{
    let b2 = seq![true, false];
    let b1 = seq![true];
    assert(b2.drop_last() =~= b1);
    assert(b1.drop_last() =~= Seq::<bool>::empty());
    assert(p.mul_spec(Seq::<bool>::empty()) == GroupProjective::<P>::zero_spec());
    assert(p.mul_spec(b1) == GroupProjective::<P>::zero_spec().double_spec().add_spec(p));
    assert(p.mul_spec(b1) == p);
    assert(p.mul_spec(b2) == p.mul_spec(b1).double_spec());
}

/// The multiple by no bits at all, or by a zero bit, is the point at
/// infinity; the multiple by the single bit `1` is the point.
pub proof fn lemma_mul_small<P: Parameters>(p: GroupProjective<P>)
    requires
        p.wf(),
    ensures
        p.mul_spec(Seq::<bool>::empty()) == GroupProjective::<P>::zero_spec(),
        p.mul_spec(seq![false]) == GroupProjective::<P>::zero_spec(),
        p.mul_spec(seq![true]) == p,
{
    let e = Seq::<bool>::empty();
    assert(seq![false].drop_last() =~= e);
    assert(seq![true].drop_last() =~= e);
    assert(p.mul_spec(e) == GroupProjective::<P>::zero_spec());
    assert(p.mul_spec(seq![false]) == p.mul_spec(e).double_spec());
    assert(p.mul_spec(seq![true]) == p.mul_spec(e).double_spec().add_spec(p));
}

/// The bits of a zero limb are all zero, and of the limbs 1 and 2 only
/// the lowest and the next.
pub proof fn lemma_small_limb_bits(x: u64, i: u64)
    requires
        x <= 2,
        i < 64,
    ensures
        ((x >> i) & 1 == 1) == ((x == 1 && i == 0) || (x == 2 && i == 1)),
{
    assert(((x >> i) & 1 == 1) == ((x == 1 && i == 0) || (x == 2 && i == 1))) by (bit_vector)
        requires
            x <= 2,
            i < 64,
    ;
}

/// Zero bits in front of the bits of a scalar do not change the multiple.
pub proof fn lemma_mul_leading_zeros<P: Parameters>(p: GroupProjective<P>, zeros: nat, bits: Seq<bool>)
    requires
        p.wf(),
    ensures
        p.mul_spec(Seq::new(zeros, |k: int| false) + bits) == p.mul_spec(bits),
    decreases bits.len(),
{
    let front = Seq::new(zeros, |k: int| false);
    if bits.len() == 0 {
        assert(front + bits =~= front);
        lemma_mul_zeros(p, zeros);
    } else {
        assert((front + bits).drop_last() =~= front + bits.drop_last());
        lemma_mul_leading_zeros(p, zeros, bits.drop_last());
    }
}

/// The multiple by zero bits only is the point at infinity.
pub proof fn lemma_mul_zeros<P: Parameters>(p: GroupProjective<P>, zeros: nat)
    requires
        p.wf(),
    ensures
        p.mul_spec(Seq::new(zeros, |k: int| false)) == GroupProjective::<P>::zero_spec(),
    decreases zeros,
{
    let front = Seq::new(zeros, |k: int| false);
    if zeros > 0 {
        assert(front.drop_last() =~= Seq::new((zeros - 1) as nat, |k: int| false));
        lemma_mul_zeros(p, (zeros - 1) as nat);
    }
}

/// The multiples by the scalars 0, 1 and 2: for a scalar whose integer
/// lift has the lowest limb `x` and no other, the multiple over all the
/// bits of the limbs is the point at infinity for `x = 0`, the point for
/// `x = 1`, and its double for `x = 2`.
pub proof fn lemma_mul_by_small_scalar<P: Parameters>(p: GroupProjective<P>, limbs: Seq<u64>, x: u64)
    requires
        p.wf(),
        x <= 2,
        limbs.len() >= 1,
        limbs[0] == x,
        forall|i: int| 1 <= i < limbs.len() ==> limbs[i] == 0,
    ensures
        p.mul_spec(bits_be(limbs)) == (if x == 0 {
            GroupProjective::<P>::zero_spec()
        } else if x == 1 {
            p
        } else {
            p.double_spec()
        }),
{
    let n = 64 * limbs.len();
    let bits = bits_be(limbs);
    assert forall|k: int| 0 <= k < n implies bits[k] == ((x == 1 && k == n - 1) || (x == 2 && k == n - 2)) by {
        let i = n - 1 - k;
        if i < 64 {
            lemma_small_limb_bits(x, i as u64);
        } else {
            assert(limbs[i / 64] == 0);
            lemma_small_limb_bits(0, (i % 64) as u64);
        }
    }
    lemma_mul_small(p);
    lemma_mul_two(p);
    if x == 0 {
        assert(bits =~= Seq::new(n as nat, |k: int| false));
        lemma_mul_zeros(p, n as nat);
    } else if x == 1 {
        assert(bits =~= Seq::new((n - 1) as nat, |k: int| false) + seq![true]);
        lemma_mul_leading_zeros(p, (n - 1) as nat, seq![true]);
    } else {
        assert(bits =~= Seq::new((n - 2) as nat, |k: int| false) + seq![true, false]);
        lemma_mul_leading_zeros(p, (n - 2) as nat, seq![true, false]);
    }
}

/// In affine coordinates: `A + O = A` for points other than the point at
/// infinity, and `O + A = A`.
pub proof fn lemma_affine_add_zero<P: Parameters>(a: GroupAffine<P>)
    requires
        a.wf(),
        !a.infinity,
    ensures
        a.add_spec(GroupAffine::zero_spec()) == a,
        GroupAffine::<P>::zero_spec().add_spec(a) == a,
{
    P::BaseField::lemma_constants();
    lemma_inv_one::<P::BaseField>();
    P::BaseField::lemma_mul_one(a.x);
    P::BaseField::lemma_mul_one(a.y);
}

/// In affine coordinates: `A + (-A) = O`.
pub proof fn lemma_affine_add_neg<P: Parameters>(a: GroupAffine<P>)
    requires
        a.wf(),
    ensures
        a.add_spec(a.neg_spec()) == GroupAffine::<P>::zero_spec(),
{
    let zero = P::BaseField::zero_spec();
    let one = P::BaseField::one_spec();
    P::BaseField::lemma_constants();
    if !a.infinity {
        let p = a.to_projective_spec();
        let ny = a.y.neg_spec();
        P::BaseField::lemma_mul_one(a.x);
        P::BaseField::lemma_mul_one(ny);
        if a.y == ny {
            lemma_self_neg_is_zero(a.y);
            lemma_double_of_order_two(p);
        } else {
            // v = 0, so Z3 = v^3 Z1 = 0
            P::BaseField::lemma_add_neg(a.x);
            lemma_mul_zero(zero);
            lemma_mul_zero(one);
        }
    }
}

/// In affine coordinates: `A + A` is the double of `A`.
pub proof fn lemma_affine_add_self<P: Parameters>(a: GroupAffine<P>)
    requires
        a.wf(),
    ensures
        a.add_spec(a) == a.to_projective_spec().double_spec().to_affine_spec(),
{
    P::BaseField::lemma_constants();
    if !a.infinity {
        P::BaseField::lemma_mul_one(a.x);
        P::BaseField::lemma_mul_one(a.y);
    }
}

/// After normalization a point other than the point at infinity has
/// `Z = 1`, and every point stands for the affine point it stood for.
pub proof fn lemma_normalize<P: Parameters>(p: GroupProjective<P>)
    requires
        p.wf(),
    ensures
        p.normalize_spec().wf(),
        p.is_zero_spec() ==> p.normalize_spec() == p,
        !p.is_zero_spec() ==> p.normalize_spec().z == P::BaseField::one_spec(),
        p.normalize_spec().to_affine_spec() == p.to_affine_spec(),
{
    P::BaseField::lemma_constants();
    if !p.is_normalized_spec() {
        let n = p.normalize_spec();
        P::BaseField::lemma_mul_inverse(p.z);
        lemma_inv_one::<P::BaseField>();
        P::BaseField::lemma_mul_one(n.x);
        P::BaseField::lemma_mul_one(n.y);
    }
}

/// A point taken to projective coordinates and back is the same point.
pub proof fn lemma_affine_round_trip<P: Parameters>(a: GroupAffine<P>)
    requires
        a.wf(),
        a.infinity ==> a == GroupAffine::<P>::zero_spec(),
    ensures
        a.to_projective_spec().to_affine_spec() == a,
{
    P::BaseField::lemma_constants();
    if !a.infinity {
        lemma_inv_one::<P::BaseField>();
        P::BaseField::lemma_mul_one(a.x);
        P::BaseField::lemma_mul_one(a.y);
    }
}

} // verus!
