//! Quadratic extensions: the elements `c0 + c1 u` with `u^2` a non-residue
//! of the base field.
use crate::bytes::{lemma_concat_parts, lemma_window_split, window, ByteError};
use crate::fields::closure::{group_field_closed, group_field_ring};
use crate::fields::field::{fdbl, fsq, fsub, Field};
use crate::fields::roots::{
    four, lemma_cross_term, lemma_equal_squares, lemma_half_double,
    lemma_nonsquare_multiple, lemma_square_by_difference, lemma_sub_add_cancel,
};
use crate::fields::fp::Fp;
use crate::fields::laws::{
    lemma_double_is_zero, lemma_mul_neg, lemma_mul_zero, lemma_neg_neg, lemma_no_zero_divisors,
    lemma_one_mul, lemma_sub_is_zero, lemma_zero_add,
};
use vstd::prelude::*;

verus! {

broadcast use group_field_closed;

/// The parameters of a quadratic extension.
pub trait Fp2Parameters: Sized + Copy {
    /// The base field.
    type Fp: Field;

    /// The non-residue whose square root is adjoined.
    spec fn nonresidue_spec() -> Self::Fp;

    /// The constants of the Frobenius map: `nonresidue^((p^i - 1) / 2)`
    /// for `i` = 0 and 1, which are one and minus one.
    spec fn frobenius_coeff_spec(i: int) -> Self::Fp;

    fn nonresidue() -> (r: Self::Fp)
        ensures
            r == Self::nonresidue_spec(),
    ;

    fn frobenius_coeff_fp2_c1(i: usize) -> (r: Self::Fp)
        requires
            i < 2,
        ensures
            r == Self::frobenius_coeff_spec(i as int),
    ;
}

/// The quadratic extension of the integers modulo `P` by a square root of
/// `NR`.
#[derive(Clone, Copy)]
pub struct QuadraticExtension<const P: u64, const NR: u64> {}

impl<const P: u64, const NR: u64> Fp2Parameters for QuadraticExtension<P, NR> {
    type Fp = Fp<P>;

    open spec fn nonresidue_spec() -> Fp<P> {
        Fp { v: NR }
    }

    open spec fn frobenius_coeff_spec(i: int) -> Fp<P> {
        if i == 0 {
            Fp { v: 1 }
        } else if P == 0 {
            Fp { v: 0 }
        } else {
            Fp { v: (P - 1) as u64 }
        }
    }

    fn nonresidue() -> (r: Fp<P>) {
        Fp { v: NR }
    }

    fn frobenius_coeff_fp2_c1(i: usize) -> (r: Fp<P>) {
        if i == 0 {
            Fp { v: 1 }
        } else if P == 0 {
            Fp { v: 0 }
        } else {
            Fp { v: P - 1 }
        }
    }
}

/// An element `c0 + c1 u` of the extension.
#[derive(Clone, Copy)]
pub struct Fp2<P: Fp2Parameters> {
    pub c0: P::Fp,
    pub c1: P::Fp,
}

/// The non-residue is an element of the base field that is the square of
/// none, and the constants of the Frobenius map are elements.
pub open spec fn valid_extension<P: Fp2Parameters>() -> bool {
    &&& P::Fp::is_field()
    &&& P::nonresidue_spec().wf()
    &&& P::frobenius_coeff_spec(0).wf()
    &&& P::frobenius_coeff_spec(1).wf()
    &&& 2 * P::Fp::byte_len() <= 0x0100_0000
    &&& forall|x: P::Fp| x.wf() ==> #[trigger] x.mul_spec(x) != P::nonresidue_spec()
}

/// The norm `c0^2 - nonresidue * c1^2`.
pub open spec fn norm_spec<P: Fp2Parameters>(a: Fp2<P>) -> P::Fp {
    fsub(fsq(a.c0), P::nonresidue_spec().mul_spec(fsq(a.c1)))
}

/// The norm of an element other than zero is not zero.
pub proof fn lemma_norm_nonzero<P: Fp2Parameters>(a: Fp2<P>)
    requires
        valid_extension::<P>(),
        a.c0.wf(),
        a.c1.wf(),
        a.c0 != P::Fp::zero_spec() || a.c1 != P::Fp::zero_spec(),
    ensures
        norm_spec(a) != P::Fp::zero_spec(),
        norm_spec(a).wf(),
{
    let zero = P::Fp::zero_spec();
    let n = P::nonresidue_spec();
    P::Fp::lemma_constants();
    if norm_spec(a) == zero {
        lemma_sub_is_zero(fsq(a.c0), n.mul_spec(fsq(a.c1)));
        if a.c1 == zero {
            lemma_mul_zero(zero);
            lemma_mul_zero(n);
            lemma_no_zero_divisors(a.c0, a.c0);
        } else {
            // n = (c0 / c1)^2
            let i = a.c1.inv_spec();
            P::Fp::lemma_mul_inverse(a.c1);
            let q = a.c0.mul_spec(i);
            // q * q = (c0 c0) (i i) = n (c1 c1) (i i) = n
            lemma_square_of_product(a.c0, i);
            lemma_square_of_product(a.c1, i);
            P::Fp::lemma_mul_associative(n, fsq(a.c1), fsq(i));
            P::Fp::lemma_mul_one(P::Fp::one_spec());
            P::Fp::lemma_mul_one(n);
            assert(q.mul_spec(q) == n);
        }
    }
}

/// `(a b)^2 = a^2 b^2`.
pub proof fn lemma_square_of_product<F: Field>(a: F, b: F)
    requires
        a.wf(),
        b.wf(),
    ensures
        fsq(a.mul_spec(b)) == fsq(a).mul_spec(fsq(b)),
{
    // (a b)(a b) = a (b (a b)) = a ((b a) b) = a ((a b) b) = a (a (b b)) = (a a)(b b)
    F::lemma_mul_associative(a, b, a.mul_spec(b));
    F::lemma_mul_associative(b, a, b);
    F::lemma_mul_commutative(a, b);
    F::lemma_mul_associative(a, b, b);
    F::lemma_mul_associative(a, a, b.mul_spec(b));
}

/// The norm of a square `(x0 + x1 u)^2` is the square of
/// `x0^2 - nonresidue * x1^2`.
pub proof fn lemma_norm_of_square<P: Fp2Parameters>(x: Fp2<P>)
    requires
        x.wf(),
    ensures
        norm_spec(x.mul_spec(x)) == fsq(fsub(fsq(x.c0), P::nonresidue_spec().mul_spec(fsq(x.c1)))),
{
    let b = P::nonresidue_spec();
    let p = fsq(x.c0);
    let q = b.mul_spec(fsq(x.c1));
    let d = fsub(p, q);
    lemma_sub_add_cancel(p, q);
    lemma_square_by_difference(d, q);
    lemma_cross_term(x.c0, x.c1, b);
    lemma_add_sub_cancel(fsq(d), four(p.mul_spec(q)));
}

/// Both coordinates of a square root of an element outside the base field
/// are other than zero.
pub proof fn lemma_root_outside_base<P: Fp2Parameters>(x: Fp2<P>)
    requires
        x.wf(),
        x.mul_spec(x).c1 != P::Fp::zero_spec(),
    ensures
        x.c0 != P::Fp::zero_spec(),
        x.c1 != P::Fp::zero_spec(),
{
    let zero = P::Fp::zero_spec();
    P::Fp::lemma_constants();
    lemma_mul_zero(x.c0);
    lemma_mul_zero(x.c1);
    P::Fp::lemma_add_zero(zero);
}

/// The halves of the first coordinate of a square `a = (x0 + x1 u)^2` more
/// and less a root `alpha` of its norm are `x0^2` and
/// `nonresidue * x1^2`, in one order or the other.
pub proof fn lemma_halves<P: Fp2Parameters>(x: Fp2<P>, alpha: P::Fp, h: P::Fp)
    requires
        x.wf(),
        alpha.wf(),
        h.wf(),
        fsq(alpha) == norm_spec(x.mul_spec(x)),
        fdbl(P::Fp::one_spec()).mul_spec(h) == P::Fp::one_spec(),
    ensures
        ({
            let a0 = x.mul_spec(x).c0;
            let p = fsq(x.c0);
            let q = P::nonresidue_spec().mul_spec(fsq(x.c1));
            let d1 = a0.add_spec(alpha).mul_spec(h);
            let d2 = fsub(a0, alpha).mul_spec(h);
            (d1 == p && d2 == q) || (d1 == q && d2 == p)
        }),
{
    let b = P::nonresidue_spec();
    let a0 = x.mul_spec(x).c0;
    let p = fsq(x.c0);
    let q = b.mul_spec(fsq(x.c1));
    let d = fsub(p, q);
    lemma_norm_of_square(x);
    lemma_equal_squares(alpha, d);
    lemma_sub_add_cancel(p, q);
    // a0 + d = p + p
    P::Fp::lemma_add_associative(p, q, d);
    P::Fp::lemma_add_commutative(q, d);
    assert(a0.add_spec(d) == fdbl(p));
    // a0 - d = q + q
    P::Fp::lemma_add_associative(d, q, q);
    P::Fp::lemma_add_commutative(d, fdbl(q));
    lemma_add_sub_cancel(fdbl(q), d);
    assert(fsub(a0, d) == fdbl(q));
    lemma_half_double(p, h);
    lemma_half_double(q, h);
    lemma_neg_neg(d);
}

/// With `s^2 = x0^2`, the element `s + (a1 / (2 s)) u` is a square root of
/// `a = (x0 + x1 u)^2`.
pub proof fn lemma_general_candidate<P: Fp2Parameters>(x: Fp2<P>, s: P::Fp, si: P::Fp, h: P::Fp)
    requires
        x.wf(),
        s.wf(),
        si.wf(),
        h.wf(),
        fsq(s) == fsq(x.c0),
        s.mul_spec(si) == P::Fp::one_spec(),
        fdbl(P::Fp::one_spec()).mul_spec(h) == P::Fp::one_spec(),
    ensures
        ({
            let a = x.mul_spec(x);
            let cand = Fp2::<P> { c0: s, c1: a.c1.mul_spec(h).mul_spec(si) };
            cand.mul_spec(cand) == a
        }),
{
    let one = P::Fp::one_spec();
    let b = P::nonresidue_spec();
    let a = x.mul_spec(x);
    let m = x.c0.mul_spec(x.c1);
    let y = fsq(x.c1);
    P::Fp::lemma_constants();
    P::Fp::lemma_mul_commutative(x.c1, x.c0);
    lemma_half_double(m, h);
    let c1 = m.mul_spec(si);
    assert(a.c1.mul_spec(h).mul_spec(si) == c1);
    // c1 c1 = y
    lemma_square_of_product(m, si);
    lemma_square_of_product(x.c0, x.c1);
    lemma_square_of_product(s, si);
    P::Fp::lemma_mul_commutative(fsq(s), y);
    P::Fp::lemma_mul_associative(y, fsq(s), fsq(si));
    P::Fp::lemma_mul_one(one);
    P::Fp::lemma_mul_one(y);
    assert(fsq(c1) == y);
    // s c1 = c1 s = m
    P::Fp::lemma_mul_associative(m, si, s);
    P::Fp::lemma_mul_commutative(si, s);
    P::Fp::lemma_mul_one(m);
    P::Fp::lemma_mul_commutative(s, c1);
    let cand = Fp2::<P> { c0: s, c1 };
    assert(cand.mul_spec(cand).c0 == a.c0);
    assert(cand.mul_spec(cand).c1 == a.c1);
}

/// A square root of an element `a0` of the base field lies in the base
/// field, and `a0` is its square, or is a multiple of `u`, and
/// `a0 / nonresidue` is the square of its factor.
pub proof fn lemma_base_root<P: Fp2Parameters>(x: Fp2<P>)
    requires
        x.wf(),
        fdbl(P::Fp::one_spec()) != P::Fp::zero_spec(),
        x.mul_spec(x).c1 == P::Fp::zero_spec(),
    ensures
        (x.c1 == P::Fp::zero_spec() && x.mul_spec(x).c0 == fsq(x.c0)) || (x.c0 == P::Fp::zero_spec()
            && fsq(x.c1) == x.mul_spec(x).c0.mul_spec(P::nonresidue_spec().inv_spec())),
{
    let zero = P::Fp::zero_spec();
    let b = P::nonresidue_spec();
    let m = x.c0.mul_spec(x.c1);
    let y = fsq(x.c1);
    P::Fp::lemma_constants();
    P::Fp::lemma_mul_commutative(x.c1, x.c0);
    lemma_double_is_zero(m);
    lemma_no_zero_divisors(x.c0, x.c1);
    lemma_mul_zero(zero);
    lemma_mul_zero(b);
    if x.c1 == zero {
        P::Fp::lemma_add_zero(fsq(x.c0));
    } else {
        lemma_zero_add(b.mul_spec(y));
        lemma_nonresidue_nonzero::<P>();
        P::Fp::lemma_mul_inverse(b);
        let bi = b.inv_spec();
        P::Fp::lemma_mul_commutative(b, y);
        P::Fp::lemma_mul_associative(y, b, bi);
        P::Fp::lemma_mul_one(y);
    }
}

/// The non-residue is not zero.
pub proof fn lemma_nonresidue_nonzero<P: Fp2Parameters>()
    requires
        valid_extension::<P>(),
    ensures
        P::nonresidue_spec() != P::Fp::zero_spec(),
{
    let zero = P::Fp::zero_spec();
    P::Fp::lemma_constants();
    lemma_mul_zero(zero);
    assert(zero.mul_spec(zero) != P::nonresidue_spec());
}

/// A square root `s` of `a0` in the base field is a square root of `a0`.
pub proof fn lemma_pure_candidate<P: Fp2Parameters>(s: P::Fp, a: Fp2<P>)
    requires
        a.wf(),
        s.wf(),
        a.c1 == P::Fp::zero_spec(),
        fsq(s) == a.c0,
    ensures
        ({
            let cand = Fp2::<P> { c0: s, c1: P::Fp::zero_spec() };
            cand.mul_spec(cand) == a
        }),
{
    let zero = P::Fp::zero_spec();
    P::Fp::lemma_constants();
    lemma_mul_zero(zero);
    lemma_mul_zero(s);
    lemma_mul_zero(P::nonresidue_spec());
    P::Fp::lemma_add_zero(a.c0);
    P::Fp::lemma_add_zero(zero);
}

/// With `s^2 = a0 / nonresidue`, the element `s u` is a square root of
/// `a0`.
pub proof fn lemma_imaginary_candidate<P: Fp2Parameters>(s: P::Fp, a: Fp2<P>)
    requires
        a.wf(),
        s.wf(),
        a.c1 == P::Fp::zero_spec(),
        fsq(s) == a.c0.mul_spec(P::nonresidue_spec().inv_spec()),
    ensures
        ({
            let cand = Fp2::<P> { c0: P::Fp::zero_spec(), c1: s };
            cand.mul_spec(cand) == a
        }),
{
    let zero = P::Fp::zero_spec();
    let b = P::nonresidue_spec();
    let bi = b.inv_spec();
    P::Fp::lemma_constants();
    lemma_nonresidue_nonzero::<P>();
    P::Fp::lemma_mul_inverse(b);
    lemma_mul_zero(zero);
    lemma_mul_zero(s);
    P::Fp::lemma_add_zero(zero);
    // b (a0 bi) = (b bi) a0 = a0
    P::Fp::lemma_mul_commutative(a.c0, bi);
    P::Fp::lemma_mul_associative(b, bi, a.c0);
    lemma_one_mul(a.c0);
    lemma_zero_add(a.c0);
}

impl<P: Fp2Parameters> Fp2<P> {
    /// The element `c0 + c1 u`.
    pub fn new(c0: P::Fp, c1: P::Fp) -> (r: Self)
        ensures
            r == (Fp2::<P> { c0, c1 }),
    {
        Fp2 { c0, c1 }
    }

    /// The conjugate `c0 - c1 u`.
    pub open spec fn conjugate_spec(self) -> Self {
        Fp2 { c0: self.c0, c1: self.c1.neg_spec() }
    }

    /// The norm `c0^2 - nonresidue * c1^2`.
    pub fn norm(&self) -> (r: P::Fp)
        requires
            self.wf(),
        ensures
            r == norm_spec(*self),
            r.wf(),
    {
        let t0 = self.c0.square();
        let t1 = P::nonresidue().mul(&self.c1.square());
        t0.sub(&t1)
    }

    /// The search is complete: the base field finds its roots, and
    /// `1 + 1` is not zero.
    pub open spec fn finds_roots() -> bool {
        P::Fp::sqrt_is_complete() && fdbl(P::Fp::one_spec()) != P::Fp::zero_spec()
    }

    /// A candidate for a square root.  Of an element of the base field it
    /// is a root in the base field, or a root of `c0 / nonresidue` times
    /// `u`; of another element it is `c0' + c1' u` with `c0'^2` one of
    /// `(c0 + alpha) / 2` and `(c0 - alpha) / 2`, where `alpha^2` is the
    /// norm, and `c1' = c1 / (2 c0')`.  Where the search is complete, the
    /// candidate is a root of every square.
    pub fn sqrt_candidate(&self) -> (cand: Self)
        requires
            self.wf(),
        ensures
            cand.wf(),
            Self::finds_roots() ==> forall|x: Self|
                x.wf() && #[trigger] x.mul_spec(x) == *self ==> cand.mul_spec(cand) == *self,
    {
        proof {
            P::Fp::lemma_constants();
            lemma_nonresidue_nonzero::<P>();
        }
        let zero = P::Fp::zero();
        if self.c1.is_zero() {
            match self.c0.sqrt() {
                Some(s) => {
                    proof {
                        lemma_pure_candidate::<P>(s, *self);
                    }
                    return Fp2 { c0: s, c1: zero };
                },
                None => {},
            }
            let ni = P::nonresidue().inverse().unwrap();
            match self.c0.mul(&ni).sqrt() {
                Some(s) => {
                    proof {
                        lemma_imaginary_candidate::<P>(s, *self);
                    }
                    Fp2 { c0: zero, c1: s }
                },
                None => {
                    proof {
                        if Self::finds_roots() {
                            assert forall|x: Self| x.wf() && #[trigger] x.mul_spec(x) == *self implies false by {
                                lemma_base_root(x);
                                if x.c1 == P::Fp::zero_spec() {
                                    assert(x.c0.mul_spec(x.c0) == self.c0);
                                } else {
                                    assert(x.c1.mul_spec(x.c1) == self.c0.mul_spec(ni));
                                }
                            }
                        }
                    }
                    *self
                },
            }
        } else {
            let two = P::Fp::one().double();
            let h = match two.inverse() {
                Some(h) => h,
                None => {
                    return *self;
                },
            };
            proof {
                P::Fp::lemma_mul_inverse(two);
            }
            let alpha = match self.norm().sqrt() {
                Some(alpha) => alpha,
                None => {
                    proof {
                        if Self::finds_roots() {
                            assert forall|x: Self| x.wf() && #[trigger] x.mul_spec(x) == *self implies false by {
                                lemma_norm_of_square(x);
                                let d = fsub(fsq(x.c0), P::nonresidue_spec().mul_spec(fsq(x.c1)));
                                assert(d.mul_spec(d) == norm_spec(*self));
                            }
                        }
                    }
                    return *self;
                },
            };
            let d1 = self.c0.add(&alpha).mul(&h);
            let d2 = self.c0.sub(&alpha).mul(&h);
            let first = d1.sqrt();
            let s = match first {
                Some(s) => s,
                None => match d2.sqrt() {
                    Some(s) => s,
                    None => {
                        proof {
                            if Self::finds_roots() {
                                assert forall|x: Self| x.wf() && #[trigger] x.mul_spec(x) == *self implies false by {
                                    lemma_halves(x, alpha, h);
                                    assert(x.c0.mul_spec(x.c0) == d1 || x.c0.mul_spec(x.c0) == d2);
                                }
                            }
                        }
                        return *self;
                    },
                },
            };
            proof {
                // s^2 is x0^2 for every root x: the other half is no square
                assert forall|x: Self| x.wf() && #[trigger] x.mul_spec(x) == *self implies fsq(s) == fsq(
                    x.c0,
                ) by {
                    lemma_halves(x, alpha, h);
                    lemma_root_outside_base(x);
                    if fsq(s) == P::nonresidue_spec().mul_spec(fsq(x.c1)) {
                        lemma_nonsquare_multiple(s, x.c1, P::nonresidue_spec());
                    }
                    if Self::finds_roots() && first is None {
                        assert(x.c0.mul_spec(x.c0) != d1);
                    }
                }
            }
            let si = match s.inverse() {
                Some(si) => si,
                None => {
                    proof {
                        assert forall|x: Self| x.wf() && #[trigger] x.mul_spec(x) == *self implies false by {
                            lemma_root_outside_base(x);
                            lemma_mul_zero(P::Fp::zero_spec());
                            lemma_no_zero_divisors(x.c0, x.c0);
                        }
                    }
                    return *self;
                },
            };
            proof {
                P::Fp::lemma_mul_inverse(s);
                assert forall|x: Self| x.wf() && #[trigger] x.mul_spec(x) == *self implies (Fp2::<P> {
                    c0: s,
                    c1: self.c1.mul_spec(h).mul_spec(si),
                }).mul_spec(Fp2::<P> { c0: s, c1: self.c1.mul_spec(h).mul_spec(si) }) == *self by {
                    lemma_general_candidate(x, s, si, h);
                }
            }
            Fp2 { c0: s, c1: self.c1.mul(&h).mul(&si) }
        }
    }

    /// The conjugate `c0 - c1 u`.
    pub fn conjugate(&self) -> (r: Self)
        requires
            self.wf(),
        ensures
            r == self.conjugate_spec(),
            r.wf(),
    {
        Fp2 { c0: self.c0, c1: self.c1.neg() }
    }
}

impl<P: Fp2Parameters> Field for Fp2<P> {
    open spec fn is_field() -> bool {
        valid_extension::<P>()
    }

    open spec fn wf(&self) -> bool {
        valid_extension::<P>() && self.c0.wf() && self.c1.wf()
    }

    open spec fn zero_spec() -> Self {
        Fp2 { c0: P::Fp::zero_spec(), c1: P::Fp::zero_spec() }
    }

    open spec fn one_spec() -> Self {
        Fp2 { c0: P::Fp::one_spec(), c1: P::Fp::zero_spec() }
    }

    open spec fn add_spec(self, rhs: Self) -> Self {
        Fp2 { c0: self.c0.add_spec(rhs.c0), c1: self.c1.add_spec(rhs.c1) }
    }

    open spec fn neg_spec(self) -> Self {
        Fp2 { c0: self.c0.neg_spec(), c1: self.c1.neg_spec() }
    }

    open spec fn mul_spec(self, rhs: Self) -> Self {
        Fp2 {
            c0: self.c0.mul_spec(rhs.c0).add_spec(
                P::nonresidue_spec().mul_spec(self.c1.mul_spec(rhs.c1)),
            ),
            c1: self.c0.mul_spec(rhs.c1).add_spec(self.c1.mul_spec(rhs.c0)),
        }
    }

    open spec fn inv_spec(self) -> Self {
        let n = norm_spec(self).inv_spec();
        Fp2 { c0: self.c0.mul_spec(n), c1: self.c1.mul_spec(n).neg_spec() }
    }

    open spec fn lt_spec(self, rhs: Self) -> bool {
        self.c1.lt_spec(rhs.c1) || (self.c1 == rhs.c1 && self.c0.lt_spec(rhs.c0))
    }

    /// The second coefficient times the constant for `power` modulo 2.
    open spec fn frobenius_spec(self, power: nat) -> Self {
        Fp2 { c0: self.c0, c1: self.c1.mul_spec(P::frobenius_coeff_spec((power % 2) as int)) }
    }

    /// The search finds a root of every square where the base field
    /// does, and `1 + 1` is not zero.
    open spec fn sqrt_is_complete() -> bool {
        Self::finds_roots()
    }

    open spec fn byte_len() -> nat {
        2 * P::Fp::byte_len()
    }

    open spec fn to_bytes_spec(self) -> Seq<u8> {
        self.c0.to_bytes_spec() + self.c1.to_bytes_spec()
    }

    proof fn lemma_wf_is_field(a: Self) {
    }

    proof fn lemma_closed(a: Self, b: Self) {
        P::Fp::lemma_constants();
        assert(valid_extension::<P>());
        assert(P::Fp::one_spec().wf() && P::Fp::zero_spec().wf());
        assert(Self::one_spec().c0.wf() && Self::one_spec().c1.wf());
    }

    proof fn lemma_constants() {
        P::Fp::lemma_constants();
    }

    proof fn lemma_add_commutative(a: Self, b: Self) {
        P::Fp::lemma_add_commutative(a.c0, b.c0);
        P::Fp::lemma_add_commutative(a.c1, b.c1);
    }

    proof fn lemma_add_associative(a: Self, b: Self, c: Self) {
        P::Fp::lemma_add_associative(a.c0, b.c0, c.c0);
        P::Fp::lemma_add_associative(a.c1, b.c1, c.c1);
    }

    proof fn lemma_add_zero(a: Self) {
        P::Fp::lemma_add_zero(a.c0);
        P::Fp::lemma_add_zero(a.c1);
    }

    proof fn lemma_add_neg(a: Self) {
        P::Fp::lemma_add_neg(a.c0);
        P::Fp::lemma_add_neg(a.c1);
    }

    proof fn lemma_mul_commutative(a: Self, b: Self) {
        P::Fp::lemma_mul_commutative(a.c0, b.c0);
        P::Fp::lemma_mul_commutative(a.c1, b.c1);
        P::Fp::lemma_mul_commutative(a.c0, b.c1);
        P::Fp::lemma_mul_commutative(a.c1, b.c0);
        P::Fp::lemma_add_commutative(a.c0.mul_spec(b.c1), a.c1.mul_spec(b.c0));
    }

    proof fn lemma_mul_associative(a: Self, b: Self, c: Self) {
        lemma_fp2_mul_associative::<P>(a, b, c);
    }

    proof fn lemma_mul_one(a: Self) {
        let zero = P::Fp::zero_spec();
        P::Fp::lemma_constants();
        P::Fp::lemma_mul_one(a.c0);
        P::Fp::lemma_mul_one(a.c1);
        lemma_mul_zero(a.c0);
        lemma_mul_zero(a.c1);
        lemma_mul_zero(P::nonresidue_spec());
        P::Fp::lemma_add_zero(a.c0);
        lemma_zero_add(a.c1);
    }

    proof fn lemma_distributive(a: Self, b: Self, c: Self) {
        lemma_fp2_distributive::<P>(a, b, c);
    }

    proof fn lemma_mul_inverse(a: Self) {
        lemma_fp2_mul_inverse::<P>(a);
    }

    proof fn lemma_lt_total(a: Self, b: Self) {
        P::Fp::lemma_lt_total(a.c0, b.c0);
        P::Fp::lemma_lt_total(a.c1, b.c1);
        P::Fp::lemma_lt_total(b.c0, a.c0);
        P::Fp::lemma_lt_total(b.c1, a.c1);
    }

    proof fn lemma_bytes_injective(a: Self, b: Self) {
        P::Fp::lemma_bytes_injective(a.c0, b.c0);
        P::Fp::lemma_bytes_injective(a.c1, b.c1);
        P::Fp::lemma_bytes_injective(b.c0, a.c0);
        P::Fp::lemma_bytes_injective(b.c1, a.c1);
        if a.to_bytes_spec() == b.to_bytes_spec() {
            lemma_concat_parts(
                a.c0.to_bytes_spec(),
                a.c1.to_bytes_spec(),
                b.c0.to_bytes_spec(),
                b.c1.to_bytes_spec(),
            );
        }
    }

    fn zero() -> (r: Self) {
        Fp2 { c0: P::Fp::zero(), c1: P::Fp::zero() }
    }

    fn one() -> (r: Self) {
        Fp2 { c0: P::Fp::one(), c1: P::Fp::zero() }
    }

    fn is_equal(&self, other: &Self) -> (b: bool) {
        self.c0.is_equal(&other.c0) && self.c1.is_equal(&other.c1)
    }

    fn is_less_than(&self, other: &Self) -> (b: bool) {
        self.c1.is_less_than(&other.c1) || (self.c1.is_equal(&other.c1) && self.c0.is_less_than(
            &other.c0,
        ))
    }

    fn add(&self, rhs: &Self) -> (r: Self) {
        Fp2 { c0: self.c0.add(&rhs.c0), c1: self.c1.add(&rhs.c1) }
    }

    fn neg(&self) -> (r: Self) {
        Fp2 { c0: self.c0.neg(), c1: self.c1.neg() }
    }

    /// Karatsuba's product, with three products of the base field.
    fn mul(&self, rhs: &Self) -> (r: Self) {
        let v0 = self.c0.mul(&rhs.c0);
        let v1 = self.c1.mul(&rhs.c1);
        let c1 = self.c0.add(&self.c1).mul(&rhs.c0.add(&rhs.c1)).sub(&v0).sub(&v1);
        let c0 = v0.add(&P::nonresidue().mul(&v1));
        proof {
            lemma_karatsuba(self.c0, self.c1, rhs.c0, rhs.c1);
        }
        Fp2 { c0, c1 }
    }

    fn inverse(&self) -> (r: Option<Self>) {
        if self.c0.is_zero() && self.c1.is_zero() {
            return None;
        }
        proof {
            lemma_norm_nonzero(*self);
        }
        // the inverse of the norm, times the conjugate
        let n = self.norm().inverse().unwrap();
        Some(Fp2 { c0: self.c0.mul(&n), c1: self.c1.mul(&n).neg() })
    }

    fn sqrt(&self) -> (r: Option<Self>) {
        let cand = self.sqrt_candidate();
        let sq = cand.mul(&cand);
        if !sq.is_equal(self) {
            return None;
        }
        let other = cand.neg();
        proof {
            lemma_fp2_neg_square::<P>(cand);
            lemma_neg_neg(cand.c0);
            lemma_neg_neg(cand.c1);
            Self::lemma_lt_total(cand, other);
        }
        if other.is_less_than(&cand) {
            Some(other)
        } else {
            Some(cand)
        }
    }

    fn frobenius_map(&self, power: usize) -> (r: Self) {
        Fp2 { c0: self.c0, c1: self.c1.mul(&P::frobenius_coeff_fp2_c1(power % 2)) }
    }

    fn byte_size() -> (n: usize) {
        2 * P::Fp::byte_size()
    }

    fn write(&self, out: &mut Vec<u8>) {
        self.c0.write(out);
        self.c1.write(out);
        assert(out@ =~= old(out)@ + self.to_bytes_spec());
    }

    fn read(bytes: &[u8], start: usize) -> (r: Result<(Self, usize), ByteError>) {
        let flen = P::Fp::byte_size();
        let total = 2 * flen;
        if bytes.len() < total || start > bytes.len() - total {
            return Err(ByteError::UnexpectedEof);
        }
        let ghost w = window(bytes@, start as int, total as int);
        let ghost w0 = window(bytes@, start as int, flen as int);
        let ghost w1 = window(bytes@, start + flen, flen as int);
        proof {
            lemma_window_split(bytes@, start as int, flen as int, flen as int);
            assert forall|a: Self| a.wf() && #[trigger] a.to_bytes_spec() == w implies a.c0.to_bytes_spec()
                == w0 && a.c1.to_bytes_spec() == w1 by {
                P::Fp::lemma_bytes_injective(a.c0, a.c1);
                lemma_concat_parts(a.c0.to_bytes_spec(), a.c1.to_bytes_spec(), w0, w1);
            }
        }
        let (c0, mid) = match P::Fp::read(bytes, start) {
            Err(_) => {
                return Err(ByteError::InvalidData);
            },
            Ok(v) => v,
        };
        let (c1, end) = match P::Fp::read(bytes, mid) {
            Err(_) => {
                return Err(ByteError::InvalidData);
            },
            Ok(v) => v,
        };
        let a = Fp2::<P> { c0, c1 };
        assert(a.to_bytes_spec() =~= w);
        Ok((a, end))
    }
}

/// Karatsuba's middle term: `(a0 + a1)(b0 + b1) - a0 b0 - a1 b1` is
/// `a0 b1 + a1 b0`.
pub proof fn lemma_karatsuba<F: Field>(a0: F, a1: F, b0: F, b1: F)
    requires
        a0.wf(),
        a1.wf(),
        b0.wf(),
        b1.wf(),
    ensures
        fsub(fsub(a0.add_spec(a1).mul_spec(b0.add_spec(b1)), a0.mul_spec(b0)), a1.mul_spec(b1))
            == a0.mul_spec(b1).add_spec(a1.mul_spec(b0)),
{
    let ab00 = a0.mul_spec(b0);
    let ab01 = a0.mul_spec(b1);
    let ab10 = a1.mul_spec(b0);
    let ab11 = a1.mul_spec(b1);
    // (a0 + a1)(b0 + b1) = (ab00 + ab01) + (ab10 + ab11)
    F::lemma_distributive(a0.add_spec(a1), b0, b1);
    F::lemma_mul_commutative(a0.add_spec(a1), b0);
    F::lemma_mul_commutative(a0.add_spec(a1), b1);
    F::lemma_distributive(b0, a0, a1);
    F::lemma_distributive(b1, a0, a1);
    F::lemma_mul_commutative(b0, a0);
    F::lemma_mul_commutative(b0, a1);
    F::lemma_mul_commutative(b1, a0);
    F::lemma_mul_commutative(b1, a1);
    let full = ab00.add_spec(ab10).add_spec(ab01.add_spec(ab11));
    assert(a0.add_spec(a1).mul_spec(b0.add_spec(b1)) == full);
    // full - ab00 - ab11 = ab01 + ab10
    let m = ab01.add_spec(ab10);
    // full = (m + ab00) + ab11
    F::lemma_add_associative(ab00, ab10, ab01.add_spec(ab11));
    F::lemma_add_associative(ab10, ab01, ab11);
    F::lemma_add_commutative(ab10, ab01);
    F::lemma_add_associative(ab00, m, ab11);
    F::lemma_add_commutative(ab00, m);
    assert(full == m.add_spec(ab00).add_spec(ab11));
    // ((m + ab00) + ab11) - ab00 - ab11
    lemma_add_sub_cancel(m.add_spec(ab00), ab11);
    F::lemma_add_commutative(m.add_spec(ab00), ab11);
    lemma_sub_add_swap(m.add_spec(ab00), ab11, ab00);
    lemma_add_sub_cancel(m, ab00);
}

/// `(a + b) - b = a`.
pub proof fn lemma_add_sub_cancel<F: Field>(a: F, b: F)
    requires
        a.wf(),
        b.wf(),
    ensures
        fsub(a.add_spec(b), b) == a,
{
    F::lemma_add_associative(a, b, b.neg_spec());
    F::lemma_add_neg(b);
    F::lemma_add_zero(a);
}

/// `((a + b) - c) - b = a - c`.
pub proof fn lemma_sub_add_swap<F: Field>(a: F, b: F, c: F)
    requires
        a.wf(),
        b.wf(),
        c.wf(),
    ensures
        fsub(fsub(a.add_spec(b), c), b) == fsub(a, c),
{
    let nb = b.neg_spec();
    let nc = c.neg_spec();
    // ((a + b) + -c) + -b = (a + (b + -c)) + -b = (a + (-c + b)) + -b
    //   = ((a + -c) + b) + -b = (a + -c) + (b + -b) = a + -c
    F::lemma_add_associative(a, b, nc);
    F::lemma_add_commutative(b, nc);
    F::lemma_add_associative(a, nc, b);
    F::lemma_add_associative(a.add_spec(nc), b, nb);
    F::lemma_add_neg(b);
    F::lemma_add_zero(a.add_spec(nc));
}

/// `(-a)^2 = a^2` in the extension.
pub proof fn lemma_fp2_neg_square<P: Fp2Parameters>(a: Fp2<P>)
    requires
        a.wf(),
    ensures
        a.neg_spec().mul_spec(a.neg_spec()) == a.mul_spec(a),
{
    lemma_mul_neg(a.c0, a.c0);
    lemma_mul_neg(a.c0.neg_spec(), a.c0);
    lemma_mul_neg(a.c1, a.c1);
    lemma_mul_neg(a.c1.neg_spec(), a.c1);
    lemma_mul_neg(a.c0, a.c1);
    lemma_mul_neg(a.c0.neg_spec(), a.c1);
    lemma_mul_neg(a.c1, a.c0);
    lemma_mul_neg(a.c1.neg_spec(), a.c0);
    lemma_neg_neg(a.c0.mul_spec(a.c0));
    lemma_neg_neg(a.c1.mul_spec(a.c1));
    lemma_neg_neg(a.c0.mul_spec(a.c1));
    lemma_neg_neg(a.c1.mul_spec(a.c0));
}

/// The product of the extension is associative.
#[verifier::spinoff_prover]
#[verifier::rlimit(100)]
pub proof fn lemma_fp2_mul_associative<P: Fp2Parameters>(a: Fp2<P>, b: Fp2<P>, c: Fp2<P>)
    requires
        a.wf(),
        b.wf(),
        c.wf(),
    ensures
        a.mul_spec(b).mul_spec(c) == a.mul_spec(b.mul_spec(c)),
{
    broadcast use group_field_ring;

    let n = P::nonresidue_spec();
    assert(a.mul_spec(b).mul_spec(c).c0 == a.mul_spec(b.mul_spec(c)).c0);
    assert(a.mul_spec(b).mul_spec(c).c1 == a.mul_spec(b.mul_spec(c)).c1);
}

/// The product of the extension distributes over the sum.
#[verifier::spinoff_prover]
#[verifier::rlimit(100)]
pub proof fn lemma_fp2_distributive<P: Fp2Parameters>(a: Fp2<P>, b: Fp2<P>, c: Fp2<P>)
    requires
        a.wf(),
        b.wf(),
        c.wf(),
    ensures
        a.mul_spec(b.add_spec(c)) == a.mul_spec(b).add_spec(a.mul_spec(c)),
{
    broadcast use group_field_ring;

    assert(a.mul_spec(b.add_spec(c)).c0 == a.mul_spec(b).add_spec(a.mul_spec(c)).c0);
    assert(a.mul_spec(b.add_spec(c)).c1 == a.mul_spec(b).add_spec(a.mul_spec(c)).c1);
}

/// An element other than zero times its inverse is one.
pub proof fn lemma_fp2_mul_inverse<P: Fp2Parameters>(a: Fp2<P>)
    requires
        a.wf(),
        a != Fp2::<P>::zero_spec(),
    ensures
        a.inv_spec().wf(),
        a.mul_spec(a.inv_spec()) == Fp2::<P>::one_spec(),
{
    let zero = P::Fp::zero_spec();
    let n = P::nonresidue_spec();
    lemma_norm_nonzero(a);
    let nm = norm_spec(a);
    let ni = nm.inv_spec();
    P::Fp::lemma_mul_inverse(nm);
    P::Fp::lemma_constants();
    let x = a.c0.mul_spec(ni);
    let y = a.c1.mul_spec(ni);
    // c0 = a0 (a0 ni) + n (a1 (-(a1 ni))) = (a0 a0) ni - (n (a1 a1)) ni = norm ni = 1
    P::Fp::lemma_mul_associative(a.c0, a.c0, ni);
    lemma_mul_neg(a.c1, y);
    P::Fp::lemma_mul_associative(a.c1, a.c1, ni);
    lemma_mul_neg(n, a.c1.mul_spec(y));
    P::Fp::lemma_mul_associative(n, fsq(a.c1), ni);
    lemma_mul_neg(n.mul_spec(fsq(a.c1)), ni);
    P::Fp::lemma_mul_commutative(nm, ni);
    P::Fp::lemma_distributive(ni, fsq(a.c0), n.mul_spec(fsq(a.c1)).neg_spec());
    P::Fp::lemma_mul_commutative(ni, fsq(a.c0));
    P::Fp::lemma_mul_commutative(ni, n.mul_spec(fsq(a.c1)).neg_spec());
    assert(a.mul_spec(a.inv_spec()).c0 == P::Fp::one_spec());
    // c1 = a0 (-(a1 ni)) + a1 (a0 ni) = -(a0 a1 ni) + (a1 a0 ni) = 0
    lemma_mul_neg(a.c0, y);
    P::Fp::lemma_mul_associative(a.c0, a.c1, ni);
    P::Fp::lemma_mul_associative(a.c1, a.c0, ni);
    P::Fp::lemma_mul_commutative(a.c0, a.c1);
    let t = a.c0.mul_spec(y);
    P::Fp::lemma_add_neg(t);
    P::Fp::lemma_add_commutative(t, t.neg_spec());
    assert(a.mul_spec(a.inv_spec()).c1 == zero);
}

} // verus!
