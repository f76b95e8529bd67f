//! Short Weierstrass curves in Jacobian coordinates: `(X, Y, Z)` stands for
//! the affine point `(X / Z^2, Y / Z^3)`, and `Z = 0` for the point at
//! infinity.
use crate::bits::{bits_be, BitIteratorBE};
use crate::bytes::{lemma_concat_parts, lemma_window_split, window, ByteError};
use crate::curves::group::{Group, ProjectiveCurve};
use crate::curves::parameters::{curve_rhs, valid, Parameters};
use crate::fields::closure::group_field_closed;
use crate::fields::field::{fdbl, fsq, fsub, Field, PrimeField};
use crate::fields::laws::{
    lemma_inv_inv, lemma_inv_mul, lemma_inv_one, lemma_mul_neg, lemma_neg_neg,
    lemma_no_zero_divisors,
};
use vstd::prelude::*;

verus! {

broadcast use group_field_closed;

/// A point in affine coordinates, or the point at infinity.
#[derive(Clone, Copy)]
pub struct GroupAffine<P: Parameters> {
    pub x: P::BaseField,
    pub y: P::BaseField,
    pub infinity: bool,
}

/// A point in Jacobian coordinates.
#[derive(Clone, Copy)]
pub struct GroupProjective<P: Parameters> {
    pub x: P::BaseField,
    pub y: P::BaseField,
    pub z: P::BaseField,
}

/// `8 c`, by doubling three times.
pub open spec fn feight<F: Field>(c: F) -> F {
    fdbl(fdbl(fdbl(c)))
}

/// `3 a`.
pub open spec fn ftriple<F: Field>(a: F) -> F {
    a.add_spec(fdbl(a))
}

/// The product of the `Z` coordinates of those of the first `n` points that
/// are not normalized.
pub open spec fn z_product<P: Parameters>(v: Seq<GroupProjective<P>>, n: int) -> P::BaseField
    decreases n,
{
    if n <= 0 {
        P::BaseField::one_spec()
    } else if v[n - 1].is_normalized_spec() {
        z_product(v, n - 1)
    } else {
        z_product(v, n - 1).mul_spec(v[n - 1].z)
    }
}

/// How many of the first `n` points are not normalized.
pub open spec fn open_count<P: Parameters>(v: Seq<GroupProjective<P>>, n: int) -> nat
    decreases n,
{
    if n <= 0 {
        0
    } else if v[n - 1].is_normalized_spec() {
        open_count(v, n - 1)
    } else {
        open_count(v, n - 1) + 1
    }
}

/// Every point of the sequence is well formed.
pub open spec fn all_wf<P: Parameters>(v: Seq<GroupProjective<P>>) -> bool {
    forall|i: int| 0 <= i < v.len() ==> (#[trigger] v[i]).wf()
}

/// The product of the `Z` coordinates is an element other than zero, and
/// it is one while no point has been counted.
proof fn lemma_z_product<P: Parameters>(v: Seq<GroupProjective<P>>, n: int)
    requires
        valid::<P>(),
        all_wf(v),
        0 <= n <= v.len(),
    ensures
        z_product(v, n).wf(),
        z_product(v, n) != P::BaseField::zero_spec(),
        open_count(v, n) <= n,
        open_count(v, n) == 0 ==> z_product(v, n) == P::BaseField::one_spec(),
    decreases n,
{
    P::BaseField::lemma_constants();
    if n > 0 {
        lemma_z_product(v, n - 1);
        assert(v[n - 1].wf());
        if !v[n - 1].is_normalized_spec() {
            if z_product(v, n) == P::BaseField::zero_spec() {
                lemma_no_zero_divisors(z_product(v, n - 1), v[n - 1].z);
            }
        }
    }
}

/// Counting further points never lowers the count.
proof fn lemma_open_count_monotonic<P: Parameters>(v: Seq<GroupProjective<P>>, m: int, n: int)
    requires
        0 <= m <= n,
    ensures
        open_count(v, m) <= open_count(v, n),
    decreases n - m,
{
    if m < n {
        lemma_open_count_monotonic(v, m, n - 1);
    }
}

/// With `t` the inverse of `p * z`: `t * p` is the inverse of `z`, and
/// `t * z` is the inverse of `p`.
proof fn lemma_split_inverse<F: Field>(p: F, z: F)
    requires
        p.wf(),
        z.wf(),
        p != F::zero_spec(),
        z != F::zero_spec(),
    ensures
        p.mul_spec(z).inv_spec().mul_spec(p) == z.inv_spec(),
        p.mul_spec(z).inv_spec().mul_spec(z) == p.inv_spec(),
{
    let ip = p.inv_spec();
    let iz = z.inv_spec();
    lemma_inv_mul(p, z);
    F::lemma_mul_inverse(p);
    F::lemma_mul_inverse(z);
    // (ip * iz) * p = (iz * ip) * p = iz * (ip * p) = iz * 1
    F::lemma_mul_commutative(ip, iz);
    F::lemma_mul_associative(iz, ip, p);
    F::lemma_mul_commutative(ip, p);
    F::lemma_mul_one(iz);
    // (ip * iz) * z = ip * (iz * z) = ip * 1
    F::lemma_mul_associative(ip, iz, z);
    F::lemma_mul_commutative(iz, z);
    F::lemma_mul_one(ip);
}

impl<P: Parameters> GroupAffine<P> {
    /// The coordinates are elements of the base field of a valid curve.
    pub open spec fn wf(&self) -> bool {
        valid::<P>() && self.x.wf() && self.y.wf()
    }

    /// The point at infinity, with the coordinates that stand for it.
    pub open spec fn zero_spec() -> Self {
        GroupAffine { x: P::BaseField::zero_spec(), y: P::BaseField::one_spec(), infinity: true }
    }

    /// The point is the point at infinity or satisfies `y^2 = x^3 + a x + b`.
    pub open spec fn is_on_curve_spec(&self) -> bool {
        self.infinity || fsq(self.y) == curve_rhs::<P>(self.x)
    }

    /// The inverse of the point in the group.
    pub open spec fn neg_spec(self) -> Self {
        if self.infinity {
            self
        } else {
            GroupAffine { x: self.x, y: self.y.neg_spec(), infinity: false }
        }
    }

    /// The same point in Jacobian coordinates, with `Z = 1`.
    pub open spec fn to_projective_spec(self) -> GroupProjective<P> {
        if self.infinity {
            GroupProjective::zero_spec()
        } else {
            GroupProjective { x: self.x, y: self.y, z: P::BaseField::one_spec() }
        }
    }

    pub fn new(x: P::BaseField, y: P::BaseField, infinity: bool) -> (p: Self)
        ensures
            p == (GroupAffine::<P> { x, y, infinity }),
    {
        GroupAffine { x, y, infinity }
    }

    /// The point at infinity.
    pub fn zero() -> (p: Self)
        ensures
            p == Self::zero_spec(),
    {
        GroupAffine { x: P::BaseField::zero(), y: P::BaseField::one(), infinity: true }
    }

    /// Whether the point is the point at infinity.
    pub fn is_zero(&self) -> (b: bool)
        ensures
            b == self.infinity,
    {
        self.infinity
    }

    /// Checks that the point is on the curve.
    pub fn is_on_curve(&self) -> (b: bool)
        requires
            self.wf(),
        ensures
            b == self.is_on_curve_spec(),
    {
        if self.is_zero() {
            true
        } else {
            let y2 = self.y.square();
            let x3 = self.x.square().mul(&self.x);
            let ax = P::mul_by_a(&self.x);
            let x3b = P::add_b(&x3.add(&ax));
            y2.is_equal(&x3b)
        }
    }

    /// The inverse of the point in the group.
    pub fn neg(&self) -> (p: Self)
        requires
            self.wf(),
        ensures
            p == self.neg_spec(),
            p.wf(),
    {
        if !self.is_zero() {
            GroupAffine { x: self.x, y: self.y.neg(), infinity: false }
        } else {
            *self
        }
    }

    /// The same point in Jacobian coordinates.
    pub fn into_projective(&self) -> (p: GroupProjective<P>)
        requires
            self.wf(),
        ensures
            p == self.to_projective_spec(),
            p.wf(),
    {
        proof {
            P::BaseField::lemma_constants();
        }
        if self.is_zero() {
            GroupProjective::zero()
        } else {
            GroupProjective { x: self.x, y: self.y, z: P::BaseField::one() }
        }
    }

    pub fn to_x_coordinate(&self) -> (x: P::BaseField)
        ensures
            x == self.x,
    {
        self.x
    }

    pub fn to_y_coordinate(&self) -> (y: P::BaseField)
        ensures
            y == self.y,
    {
        self.y
    }

    /// The byte that stands for the flag of the point at infinity.
    pub open spec fn flag_byte(infinity: bool) -> u8 {
        if infinity {
            1
        } else {
            0
        }
    }

    /// The encoding of the point: `x`, then `y`, then the flag.
    pub open spec fn to_bytes_spec(self) -> Seq<u8> {
        self.x.to_bytes_spec() + self.y.to_bytes_spec() + seq![Self::flag_byte(self.infinity)]
    }

    /// The length of the encoding of a point.
    pub open spec fn byte_len() -> nat {
        2 * P::BaseField::byte_len() + 1
    }

    /// The point is the point at infinity with the coordinates `(0, 1)`
    /// that stand for it, or a point of the curve with other coordinates.
    pub open spec fn is_valid_point(self) -> bool {
        let sentinel = self.x == P::BaseField::zero_spec() && self.y == P::BaseField::one_spec();
        if self.infinity {
            sentinel
        } else {
            !sentinel && self.is_on_curve_spec()
        }
    }

    /// Appends the encoding of the point to `out`.
    pub fn write(&self, out: &mut Vec<u8>)
        requires
            self.wf(),
        ensures
            final(out)@ == old(out)@ + self.to_bytes_spec(),
    {
        self.x.write(out);
        self.y.write(out);
        out.push(if self.infinity { 1 } else { 0 });
        assert(out@ =~= old(out)@ + self.to_bytes_spec());
    }

    /// Decodes the point whose encoding starts at `start`, and says where
    /// it ends.  Fails with `UnexpectedEof` exactly when the input is too
    /// short, and with `InvalidData` when the bytes are there but are the
    /// encoding of no valid point: a coordinate is no field element, the
    /// flag is neither 0 nor 1, the flag does not agree with the
    /// coordinates, or the point is not on the curve.
    pub fn read(bytes: &[u8], start: usize) -> (r: Result<(Self, usize), ByteError>)
        requires
            valid::<P>(),
        ensures
            match r {
                Ok((p, next)) => {
                    &&& p.wf()
                    &&& p.is_valid_point()
                    &&& next == start + Self::byte_len()
                    &&& next <= bytes.len()
                    &&& p.to_bytes_spec() == window(bytes@, start as int, Self::byte_len() as int)
                },
                Err(ByteError::UnexpectedEof) => start + Self::byte_len() > bytes.len(),
                Err(ByteError::InvalidData) => {
                    &&& start + Self::byte_len() <= bytes.len()
                    &&& forall|p: Self|
                        p.wf() && p.is_valid_point() ==> #[trigger] p.to_bytes_spec() != window(
                            bytes@,
                            start as int,
                            Self::byte_len() as int,
                        )
                },
            },
    {
        let flen = P::BaseField::byte_size();
        let total = 2 * flen + 1;
        if bytes.len() < total || start > bytes.len() - total {
            return Err(ByteError::UnexpectedEof);
        }
        let ghost w = window(bytes@, start as int, total as int);
        let ghost wx = window(bytes@, start as int, flen as int);
        let ghost wy = window(bytes@, start + flen, flen as int);
        let ghost wf = window(bytes@, start + 2 * flen, 1);
        proof {
            lemma_window_split(bytes@, start as int, flen as int, flen as int);
            lemma_window_split(bytes@, start as int, 2 * flen, 1);
            assert(w == wx + wy + wf);
            // a point with the encoding `w` has the three parts of `w` as
            // the encodings of its coordinates and of its flag
            assert forall|p: Self| p.wf() && #[trigger] p.to_bytes_spec() == w implies {
                &&& p.x.to_bytes_spec() == wx
                &&& p.y.to_bytes_spec() == wy
                &&& seq![Self::flag_byte(p.infinity)] == wf
            } by {
                P::BaseField::lemma_bytes_injective(p.x, p.y);
                P::BaseField::lemma_bytes_injective(p.y, p.x);
                lemma_concat_parts(
                    p.x.to_bytes_spec() + p.y.to_bytes_spec(),
                    seq![Self::flag_byte(p.infinity)],
                    wx + wy,
                    wf,
                );
                lemma_concat_parts(p.x.to_bytes_spec(), p.y.to_bytes_spec(), wx, wy);
            }
        }
        let (x, mid) = match P::BaseField::read(bytes, start) {
            Err(_) => {
                return Err(ByteError::InvalidData);
            },
            Ok(v) => v,
        };
        let (y, end) = match P::BaseField::read(bytes, mid) {
            Err(_) => {
                return Err(ByteError::InvalidData);
            },
            Ok(v) => v,
        };
        let flag = bytes[end];
        assert(wf =~= seq![flag]);
        proof {
            assert forall|p: Self| p.wf() && #[trigger] p.to_bytes_spec() == w implies {
                &&& p.x == x
                &&& p.y == y
                &&& Self::flag_byte(p.infinity) == flag
            } by {
                P::BaseField::lemma_bytes_injective(p.x, x);
                P::BaseField::lemma_bytes_injective(p.y, y);
                assert(seq![Self::flag_byte(p.infinity)][0] == wf[0]);
            }
        }
        if flag > 1 {
            return Err(ByteError::InvalidData);
        }
        let infinity = flag == 1;
        let p = GroupAffine::<P> { x, y, infinity };
        let sentinel = x.is_zero() && y.is_one();
        if infinity != sentinel {
            return Err(ByteError::InvalidData);
        }
        if !p.is_on_curve() {
            return Err(ByteError::InvalidData);
        }
        assert(p.to_bytes_spec() =~= w);
        Ok((p, end + 1))
    }

    /// Double-and-add over the bits of a scalar, most significant first:
    /// for each bit the sum so far is doubled, and the point is added where
    /// the bit is set.
    pub open spec fn mul_bits_spec(self, bits: Seq<bool>) -> GroupProjective<P>
        decreases bits.len(),
    {
        if bits.len() == 0 {
            GroupProjective::zero_spec()
        } else {
            let r = self.mul_bits_spec(bits.drop_last()).double_spec();
            if bits.last() {
                r.add_mixed_spec(self)
            } else {
                r
            }
        }
    }

    /// The sum of two affine points, by way of Jacobian coordinates.
    pub open spec fn add_spec(self, other: Self) -> Self {
        self.to_projective_spec().add_mixed_spec(other).to_affine_spec()
    }

    /// The generator of the prime-order subgroup.
    pub open spec fn generator_spec() -> Self {
        GroupAffine { x: P::generator_spec().0, y: P::generator_spec().1, infinity: false }
    }

    /// The generator of the prime-order subgroup.
    pub fn prime_subgroup_generator() -> (p: Self)
        ensures
            p == Self::generator_spec(),
    {
        let g = P::affine_generator_coeffs();
        GroupAffine { x: g.0, y: g.1, infinity: false }
    }

    /// The multiple of the point by the scalar whose bits the iterator
    /// still holds.
    pub fn mul_bits(&self, bits: BitIteratorBE) -> (r: GroupProjective<P>)
        requires
            self.wf(),
            bits.wf(),
        ensures
            r == self.mul_bits_spec(bits.remaining()),
            r.wf(),
    {
        let mut bits = bits;
        let ghost all = bits.remaining();
        let ghost mut done: Seq<bool> = Seq::empty();
        proof {
            P::BaseField::lemma_constants();
            assert(done + bits.remaining() =~= all);
        }
        let mut res = GroupProjective::<P>::zero();
        loop
            invariant_except_break
                self.wf(),
                bits.wf(),
                res.wf(),
                res == self.mul_bits_spec(done),
                done + bits.remaining() == all,
            ensures
                res.wf(),
                res == self.mul_bits_spec(all),
            decreases bits.remaining().len(),
        {
            let ghost before = bits.remaining();
            match bits.next() {
                None => {
                    proof {
                        assert(done + before =~= done);
                    }
                    break ;
                },
                Some(i) => {
                    res.double_in_place();
                    if i {
                        res.add_assign_mixed(self);
                    }
                    proof {
                        let next = done.push(i);
                        assert(next.drop_last() =~= done);
                        assert(next.last() == i);
                        assert(next + bits.remaining() =~= done + before);
                        done = next;
                    }
                },
            }
        }
        res
    }

    /// The multiple of the point by the cofactor of the curve.
    pub fn scale_by_cofactor(&self) -> (r: GroupProjective<P>)
        requires
            self.wf(),
        ensures
            r == self.mul_bits_spec(bits_be(P::cofactor_spec())),
            r.wf(),
    {
        self.mul_bits(BitIteratorBE::new(P::cofactor()))
    }

    /// The multiple of the point by the cofactor of the curve.
    pub fn mul_by_cofactor_to_projective(&self) -> (r: GroupProjective<P>)
        requires
            self.wf(),
        ensures
            r == self.mul_bits_spec(bits_be(P::cofactor_spec())),
            r.wf(),
    {
        self.scale_by_cofactor()
    }

    /// The multiple of the point by a scalar.
    pub fn mul(&self, other: &P::ScalarField) -> (r: Self)
        requires
            self.wf(),
            other.wf(),
        ensures
            r == self.mul_bits_spec(bits_be(other.repr_spec())).to_affine_spec(),
            r.wf(),
    {
        proof {
            P::ScalarField::lemma_limbs(*other);
        }
        self.mul_bits(BitIteratorBE::new(other.into_repr())).into_affine()
    }

    /// The multiple of the point by the inverse of the cofactor.
    pub fn mul_by_cofactor_inv(&self) -> (r: Self)
        requires
            self.wf(),
        ensures
            r == self.mul_bits_spec(bits_be(P::cofactor_inv_spec().repr_spec())).to_affine_spec(),
            r.wf(),
    {
        self.mul(&P::cofactor_inv())
    }

    /// Whether the multiple of the point by the order of the scalar field
    /// is the point at infinity.
    pub fn is_in_correct_subgroup_assuming_on_curve(&self) -> (b: bool)
        requires
            self.wf(),
        ensures
            b == self.mul_bits_spec(
                bits_be(P::ScalarField::characteristic_spec()),
            ).is_zero_spec(),
    {
        proof {
            P::ScalarField::lemma_limbs(P::cofactor_inv_spec());
        }
        self.mul_bits(BitIteratorBE::new(P::ScalarField::characteristic())).is_zero()
    }

    /// The sum of the two points.
    pub fn add(&self, other: &Self) -> (r: Self)
        requires
            self.wf(),
            other.wf(),
        ensures
            r == self.add_spec(*other),
            r.wf(),
    {
        let mut projective = self.into_projective();
        projective.add_assign_mixed(other);
        projective.into_affine()
    }

    /// Replaces the point by its sum with `other`.
    pub fn add_assign(&mut self, other: &Self)
        requires
            old(self).wf(),
            other.wf(),
        ensures
            *final(self) == old(self).add_spec(*other),
            final(self).wf(),
    {
        let r = self.add(other);
        *self = r;
    }

    /// The difference of the two points.
    pub fn sub(&self, other: &Self) -> (r: Self)
        requires
            self.wf(),
            other.wf(),
        ensures
            r == self.add_spec(other.neg_spec()),
            r.wf(),
    {
        let n = other.neg();
        self.add(&n)
    }

    /// Replaces the point by its difference with `other`.
    pub fn sub_assign(&mut self, other: &Self)
        requires
            old(self).wf(),
            other.wf(),
        ensures
            *final(self) == old(self).add_spec(other.neg_spec()),
            final(self).wf(),
    {
        let r = self.sub(other);
        *self = r;
    }

    /// The double of the point: its sum with itself.
    pub fn double(&self) -> (r: Self)
        requires
            self.wf(),
        ensures
            r == self.add_spec(*self),
            r.wf(),
    {
        self.add(self)
    }

    /// Replaces the point by its double.
    pub fn double_in_place(&mut self)
        requires
            old(self).wf(),
        ensures
            *final(self) == old(self).add_spec(*old(self)),
            final(self).wf(),
    {
        let r = self.double();
        *self = r;
    }

    /// Replaces the point by its multiple by a scalar.
    pub fn mul_assign(&mut self, other: &P::ScalarField)
        requires
            old(self).wf(),
            other.wf(),
        ensures
            *final(self) == old(self).mul_bits_spec(bits_be(other.repr_spec())).to_affine_spec(),
            final(self).wf(),
    {
        let r = self.mul(other);
        *self = r;
    }

    /// `q` is a point of the curve with the x-coordinate `x`, whose
    /// y-coordinate is the root with the greater integer lift where
    /// `greatest` is set, and the one with the smaller where it is not.
    pub open spec fn is_candidate(q: Self, x: P::BaseField, greatest: bool) -> bool {
        &&& q.wf()
        &&& q.x == x
        &&& !q.infinity
        &&& q.is_on_curve_spec()
        &&& greatest ==> !q.y.lt_spec(q.y.neg_spec())
        &&& !greatest ==> !q.y.neg_spec().lt_spec(q.y)
    }

    /// A point of the curve with the given x-coordinate, if the search for
    /// a square root of `x^3 + a x + b` finds one; where the search is
    /// complete, there is none only where the curve has no such point.  Of
    /// the two roots the one with the greater integer lift is the
    /// y-coordinate where `greatest` is set, the one with the smaller where
    /// it is not.
    pub fn from_x_coordinate(x: P::BaseField, greatest: bool) -> (r: Option<Self>)
        requires
            valid::<P>(),
            x.wf(),
        ensures
            r is Some ==> Self::is_candidate(r->0, x, greatest),
            P::BaseField::sqrt_is_complete() && r is None ==> forall|y: P::BaseField|
                y.wf() ==> #[trigger] y.mul_spec(y) != curve_rhs::<P>(x),
    {
        // Compute x^3 + ax + b
        let x3 = x.square().mul(&x);
        let ax = P::mul_by_a(&x);
        let x3b = P::add_b(&x3.add(&ax));
        match x3b.sqrt() {
            None => None,
            Some(y) => {
                let negy = y.neg();
                proof {
                    lemma_mul_neg(y, negy);
                    lemma_mul_neg(y, y);
                    lemma_neg_neg(y.mul_spec(y));
                    lemma_neg_neg(y);
                    P::BaseField::lemma_lt_total(y, negy);
                }
                let y = if y.is_less_than(&negy) != greatest {
                    y
                } else {
                    negy
                };
                Some(GroupAffine { x, y, infinity: false })
            },
        }
    }

    /// One attempt at a point of the prime-order subgroup from a candidate
    /// x-coordinate and a choice of root: the point with that x-coordinate,
    /// multiplied by the cofactor.  Where the search for square roots is
    /// complete, the attempt fails only where the curve has no point with
    /// that x-coordinate.
    pub fn sample_attempt(x: P::BaseField, greatest: bool) -> (r: Option<Self>)
        requires
            valid::<P>(),
            x.wf(),
        ensures
            r is Some ==> r->0.wf() && exists|q: Self| #[trigger]
                Self::is_candidate(q, x, greatest) && r->0 == q.mul_bits_spec(
                    bits_be(P::cofactor_spec()),
                ).to_affine_spec(),
            P::BaseField::sqrt_is_complete() && r is None ==> forall|y: P::BaseField|
                y.wf() ==> #[trigger] y.mul_spec(y) != curve_rhs::<P>(x),
    {
        match Self::from_x_coordinate(x, greatest) {
            None => None,
            Some(p) => {
                assert(Self::is_candidate(p, x, greatest));
                Some(p.scale_by_cofactor().into_affine())
            },
        }
    }
}

impl<P: Parameters> GroupProjective<P> {
    /// The coordinates are elements of the base field of a valid curve.
    pub open spec fn wf(&self) -> bool {
        valid::<P>() && self.x.wf() && self.y.wf() && self.z.wf()
    }

    /// The point at infinity: `(0, 1, 0)`.
    pub open spec fn zero_spec() -> Self {
        GroupProjective {
            x: P::BaseField::zero_spec(),
            y: P::BaseField::one_spec(),
            z: P::BaseField::zero_spec(),
        }
    }

    /// The point is the point at infinity: `Z = 0`.
    pub open spec fn is_zero_spec(&self) -> bool {
        self.z == P::BaseField::zero_spec()
    }

    /// The point is at infinity or has `Z = 1`.
    pub open spec fn is_normalized_spec(&self) -> bool {
        self.is_zero_spec() || self.z == P::BaseField::one_spec()
    }

    /// The inverse of the point in the group.
    pub open spec fn neg_spec(self) -> Self {
        if self.is_zero_spec() {
            self
        } else {
            GroupProjective { x: self.x, y: self.y.neg_spec(), z: self.z }
        }
    }

    /// Doubling where `a = 0`:
    /// `A = X^2, B = Y^2, C = B^2, D = 2((X + B)^2 - A - C), E = 3A, F = E^2`,
    /// `X' = F - 2D, Y' = E (D - X') - 8C, Z' = 2 Y Z`.
    pub open spec fn double_a0_spec(self) -> Self {
        let a = fsq(self.x);
        let b = fsq(self.y);
        let c = fsq(b);
        let d = fdbl(fsub(fsub(fsq(self.x.add_spec(b)), a), c));
        let e = ftriple(a);
        let f = fsq(e);
        let x3 = fsub(f, fdbl(d));
        let y3 = fsub(e.mul_spec(fsub(d, x3)), feight(c));
        let z3 = fdbl(self.y.mul_spec(self.z));
        GroupProjective { x: x3, y: y3, z: z3 }
    }

    /// Doubling for any `a`:
    /// `XX = X^2, YY = Y^2, YYYY = YY^2, ZZ = Z^2`,
    /// `S = 2((X + YY)^2 - XX - YYYY), M = 3 XX + a ZZ^2, T = M^2 - 2S`,
    /// `X' = T, Y' = M (S - T) - 8 YYYY, Z' = (Y + Z)^2 - YY - ZZ`.
    pub open spec fn double_general_spec(self) -> Self {
        let xx = fsq(self.x);
        let yy = fsq(self.y);
        let yyyy = fsq(yy);
        let zz = fsq(self.z);
        let s = fdbl(fsub(fsub(fsq(self.x.add_spec(yy)), xx), yyyy));
        let m = ftriple(xx).add_spec(P::coeff_a_spec().mul_spec(fsq(zz)));
        let t = fsub(fsq(m), fdbl(s));
        let y3 = fsub(m.mul_spec(fsub(s, t)), feight(yyyy));
        let z3 = fsub(fsub(fsq(self.y.add_spec(self.z)), yy), zz);
        GroupProjective { x: t, y: y3, z: z3 }
    }

    /// The double of the point.
    pub open spec fn double_spec(self) -> Self {
        if self.is_zero_spec() {
            self
        } else if P::coeff_a_spec() == P::BaseField::zero_spec() {
            self.double_a0_spec()
        } else {
            self.double_general_spec()
        }
    }

    /// The sum of two different points, the second with `Z = 1`:
    /// `H = U2 - X1, I = 4 H^2, J = H I, r = 2 (S2 - Y1), V = X1 I`,
    /// `X3 = r^2 - J - 2V, Y3 = r (V - X3) - 2 Y1 J, Z3 = (Z1 + H)^2 - Z1^2 - H^2`.
    pub open spec fn madd_spec(self, u2: P::BaseField, s2: P::BaseField) -> Self {
        let z1z1 = fsq(self.z);
        let h = fsub(u2, self.x);
        let hh = fsq(h);
        let i = fdbl(fdbl(hh));
        let j = h.mul_spec(i);
        let r = fdbl(fsub(s2, self.y));
        let v = self.x.mul_spec(i);
        let x3 = fsub(fsub(fsq(r), j), fdbl(v));
        let y3 = fsub(r.mul_spec(fsub(v, x3)), fdbl(self.y.mul_spec(j)));
        let z3 = fsub(fsub(fsq(self.z.add_spec(h)), z1z1), hh);
        GroupProjective { x: x3, y: y3, z: z3 }
    }

    /// The sum of the point and an affine point, where
    /// `U2 = X2 Z1^2` and `S2 = Y2 Z1^3`.
    pub open spec fn add_mixed_spec(self, other: GroupAffine<P>) -> Self {
        if other.infinity {
            self
        } else if self.is_zero_spec() {
            GroupProjective { x: other.x, y: other.y, z: P::BaseField::one_spec() }
        } else {
            let z1z1 = fsq(self.z);
            let u2 = other.x.mul_spec(z1z1);
            let s2 = other.y.mul_spec(self.z).mul_spec(z1z1);
            if self.x == u2 && self.y == s2 {
                self.double_spec()
            } else {
                self.madd_spec(u2, s2)
            }
        }
    }

    /// The sum of two different points:
    /// `H = U2 - U1, I = (2H)^2, J = H I, r = 2 (S2 - S1), V = U1 I`,
    /// `X3 = r^2 - J - 2V, Y3 = r (V - X3) - 2 S1 J`,
    /// `Z3 = ((Z1 + Z2)^2 - Z1^2 - Z2^2) H`.
    pub open spec fn add_distinct_spec(
        self,
        other: Self,
        u1: P::BaseField,
        u2: P::BaseField,
        s1: P::BaseField,
        s2: P::BaseField,
    ) -> Self {
        let z1z1 = fsq(self.z);
        let z2z2 = fsq(other.z);
        let h = fsub(u2, u1);
        let i = fsq(fdbl(h));
        let j = h.mul_spec(i);
        let r = fdbl(fsub(s2, s1));
        let v = u1.mul_spec(i);
        let x3 = fsub(fsub(fsq(r), j), fdbl(v));
        let y3 = fsub(r.mul_spec(fsub(v, x3)), fdbl(s1.mul_spec(j)));
        let z3 = fsub(fsub(fsq(self.z.add_spec(other.z)), z1z1), z2z2).mul_spec(h);
        GroupProjective { x: x3, y: y3, z: z3 }
    }

    /// The sum of two points, where `U1 = X1 Z2^2, U2 = X2 Z1^2`,
    /// `S1 = Y1 Z2^3, S2 = Y2 Z1^3`.
    pub open spec fn add_spec(self, other: Self) -> Self {
        if self.is_zero_spec() {
            other
        } else if other.is_zero_spec() {
            self
        } else {
            let z1z1 = fsq(self.z);
            let z2z2 = fsq(other.z);
            let u1 = self.x.mul_spec(z2z2);
            let u2 = other.x.mul_spec(z1z1);
            let s1 = self.y.mul_spec(other.z).mul_spec(z2z2);
            let s2 = other.y.mul_spec(self.z).mul_spec(z1z1);
            if u1 == u2 && s1 == s2 {
                self.double_spec()
            } else {
                self.add_distinct_spec(other, u1, u2, s1, s2)
            }
        }
    }

    /// The affine point that the coordinates stand for: `(X / Z^2, Y / Z^3)`.
    pub open spec fn to_affine_spec(self) -> GroupAffine<P> {
        if self.is_zero_spec() {
            GroupAffine::zero_spec()
        } else {
            let zinv = self.z.inv_spec();
            let zinv2 = fsq(zinv);
            GroupAffine {
                x: self.x.mul_spec(zinv2),
                y: self.y.mul_spec(zinv2.mul_spec(zinv)),
                infinity: false,
            }
        }
    }

    /// The two triples stand for the same point:
    /// `X1 Z2^2 = X2 Z1^2` and `Y1 Z2^3 = Y2 Z1^3`, or both are at infinity.
    pub open spec fn eq_spec(self, other: Self) -> bool {
        if self.is_zero_spec() {
            other.is_zero_spec()
        } else if other.is_zero_spec() {
            false
        } else {
            let z1 = fsq(self.z);
            let z2 = fsq(other.z);
            &&& self.x.mul_spec(z2) == other.x.mul_spec(z1)
            &&& self.y.mul_spec(z2.mul_spec(other.z)) == other.y.mul_spec(z1.mul_spec(self.z))
        }
    }

    pub fn new(x: P::BaseField, y: P::BaseField, z: P::BaseField) -> (p: Self)
        ensures
            p == (GroupProjective::<P> { x, y, z }),
    {
        GroupProjective { x, y, z }
    }

    /// The point at infinity.
    pub fn zero() -> (p: Self)
        ensures
            p == Self::zero_spec(),
    {
        GroupProjective {
            x: P::BaseField::zero(),
            y: P::BaseField::one(),
            z: P::BaseField::zero(),
        }
    }

    /// Whether the point is the point at infinity.
    pub fn is_zero(&self) -> (b: bool)
        requires
            self.wf(),
        ensures
            b == self.is_zero_spec(),
    {
        self.z.is_zero()
    }

    /// Whether the point is at infinity or has `Z = 1`.
    pub fn is_normalized(&self) -> (b: bool)
        requires
            self.wf(),
        ensures
            b == self.is_normalized_spec(),
    {
        self.is_zero() || self.z.is_one()
    }

    /// Whether the two triples stand for the same point.
    pub fn eq(&self, other: &Self) -> (b: bool)
        requires
            self.wf(),
            other.wf(),
        ensures
            b == self.eq_spec(*other),
    {
        if self.is_zero() {
            return other.is_zero();
        }
        if other.is_zero() {
            return false;
        }
        let z1 = self.z.square();
        let z2 = other.z.square();
        let lx = self.x.mul(&z2);
        let rx = other.x.mul(&z1);
        let ly = self.y.mul(&z2.mul(&other.z));
        let ry = other.y.mul(&z1.mul(&self.z));
        lx.is_equal(&rx) && ly.is_equal(&ry)
    }

    /// The inverse of the point in the group.
    pub fn neg(&self) -> (p: Self)
        requires
            self.wf(),
        ensures
            p == self.neg_spec(),
            p.wf(),
    {
        if !self.is_zero() {
            GroupProjective { x: self.x, y: self.y.neg(), z: self.z }
        } else {
            *self
        }
    }

    /// The double of the point.
    pub fn double(&self) -> (p: Self)
        requires
            self.wf(),
        ensures
            p == self.double_spec(),
            p.wf(),
    {
        let mut tmp = *self;
        tmp.double_in_place();
        tmp
    }

    /// Replaces the point by its double.
    pub fn double_in_place(&mut self)
        requires
            old(self).wf(),
        ensures
            *final(self) == old(self).double_spec(),
            final(self).wf(),
    {
        if self.is_zero() {
            return ;
        }
        let coeff_a = P::coeff_a();
        if coeff_a.is_zero() {
            // A = X1^2
            let a = self.x.square();
            // B = Y1^2
            let b = self.y.square();
            // C = B^2
            let c = b.square();
            // D = 2*((X1+B)^2-A-C)
            let d = self.x.add(&b).square().sub(&a).sub(&c).double();
            // E = 3*A
            let e = a.add(&a.double());
            // F = E^2
            let f = e.square();
            // Z3 = 2*Y1*Z1
            let z3 = self.y.mul(&self.z).double();
            // X3 = F-2*D
            let x3 = f.sub(&d.double());
            // Y3 = E*(D-X3)-8*C
            let c8 = c.double().double().double();
            let y3 = e.mul(&d.sub(&x3)).sub(&c8);
            self.x = x3;
            self.y = y3;
            self.z = z3;
        } else {
            // XX = X1^2
            let xx = self.x.square();
            // YY = Y1^2
            let yy = self.y.square();
            // YYYY = YY^2
            let yyyy = yy.square();
            // ZZ = Z1^2
            let zz = self.z.square();
            // S = 2*((X1+YY)^2-XX-YYYY)
            let s = self.x.add(&yy).square().sub(&xx).sub(&yyyy).double();
            // M = 3*XX+a*ZZ^2
            let m = xx.add(&xx.double()).add(&P::mul_by_a(&zz.square()));
            // T = M^2-2*S
            let t = m.square().sub(&s.double());
            // Y3 = M*(S-T)-8*YYYY
            let y8 = yyyy.double().double().double();
            let y3 = m.mul(&s.sub(&t)).sub(&y8);
            // Z3 = (Y1+Z1)^2-YY-ZZ
            let z3 = self.y.add(&self.z).square().sub(&yy).sub(&zz);
            self.x = t;
            self.y = y3;
            self.z = z3;
        }
    }

    /// Adds an affine point to the point.
    pub fn add_assign_mixed(&mut self, other: &GroupAffine<P>)
        requires
            old(self).wf(),
            other.wf(),
        ensures
            *final(self) == old(self).add_mixed_spec(*other),
            final(self).wf(),
    {
        if other.is_zero() {
            return ;
        }
        if self.is_zero() {
            proof {
                P::BaseField::lemma_constants();
            }
            self.x = other.x;
            self.y = other.y;
            self.z = P::BaseField::one();
            return ;
        }
        // Z1Z1 = Z1^2
        let z1z1 = self.z.square();
        // U2 = X2*Z1Z1
        let u2 = other.x.mul(&z1z1);
        // S2 = Y2*Z1*Z1Z1
        let s2 = other.y.mul(&self.z).mul(&z1z1);
        if self.x.is_equal(&u2) && self.y.is_equal(&s2) {
            // The two points are equal, so we double.
            self.double_in_place();
        } else {
            // H = U2-X1
            let h = u2.sub(&self.x);
            // HH = H^2
            let hh = h.square();
            // I = 4*HH
            let i = hh.double().double();
            // J = H*I
            let j = h.mul(&i);
            // r = 2*(S2-Y1)
            let r = s2.sub(&self.y).double();
            // V = X1*I
            let v = self.x.mul(&i);
            // X3 = r^2 - J - 2*V
            let x3 = r.square().sub(&j).sub(&v.double());
            // Y3 = r*(V-X3)-2*Y1*J
            let y3 = r.mul(&v.sub(&x3)).sub(&self.y.mul(&j).double());
            // Z3 = (Z1+H)^2-Z1Z1-HH
            let z3 = self.z.add(&h).square().sub(&z1z1).sub(&hh);
            self.x = x3;
            self.y = y3;
            self.z = z3;
        }
    }

    /// Adds a point to the point.
    pub fn add_assign(&mut self, other: &Self)
        requires
            old(self).wf(),
            other.wf(),
        ensures
            *final(self) == old(self).add_spec(*other),
            final(self).wf(),
    {
        if self.is_zero() {
            *self = *other;
            return ;
        }
        if other.is_zero() {
            return ;
        }
        // Z1Z1 = Z1^2
        let z1z1 = self.z.square();
        // Z2Z2 = Z2^2
        let z2z2 = other.z.square();
        // U1 = X1*Z2Z2
        let u1 = self.x.mul(&z2z2);
        // U2 = X2*Z1Z1
        let u2 = other.x.mul(&z1z1);
        // S1 = Y1*Z2*Z2Z2
        let s1 = self.y.mul(&other.z).mul(&z2z2);
        // S2 = Y2*Z1*Z1Z1
        let s2 = other.y.mul(&self.z).mul(&z1z1);
        if u1.is_equal(&u2) && s1.is_equal(&s2) {
            // The two points are equal, so we double.
            self.double_in_place();
        } else {
            // H = U2-U1
            let h = u2.sub(&u1);
            // I = (2*H)^2
            let i = h.double().square();
            // J = H*I
            let j = h.mul(&i);
            // r = 2*(S2-S1)
            let r = s2.sub(&s1).double();
            // V = U1*I
            let v = u1.mul(&i);
            // X3 = r^2 - J - 2*V
            let x3 = r.square().sub(&j).sub(&v.double());
            // Y3 = r*(V - X3) - 2*S1*J
            let y3 = r.mul(&v.sub(&x3)).sub(&s1.mul(&j).double());
            // Z3 = ((Z1+Z2)^2 - Z1Z1 - Z2Z2)*H
            let z3 = self.z.add(&other.z).square().sub(&z1z1).sub(&z2z2).mul(&h);
            self.x = x3;
            self.y = y3;
            self.z = z3;
        }
    }

    /// Double-and-add over the bits of a scalar, most significant first.
    pub open spec fn mul_spec(self, bits: Seq<bool>) -> Self
        decreases bits.len(),
    {
        if bits.len() == 0 {
            Self::zero_spec()
        } else {
            let r = self.mul_spec(bits.drop_last()).double_spec();
            if bits.last() {
                r.add_spec(self)
            } else {
                r
            }
        }
    }

    /// The generator of the prime-order subgroup.
    pub fn prime_subgroup_generator() -> (p: Self)
        requires
            valid::<P>(),
        ensures
            p == GroupAffine::<P>::generator_spec().to_projective_spec(),
            p.wf(),
    {
        GroupAffine::<P>::prime_subgroup_generator().into_projective()
    }

    /// The sum of the two points.
    pub fn add(&self, other: &Self) -> (r: Self)
        requires
            self.wf(),
            other.wf(),
        ensures
            r == self.add_spec(*other),
            r.wf(),
    {
        let mut copy = *self;
        copy.add_assign(other);
        copy
    }

    /// The difference of the two points.
    pub fn sub(&self, other: &Self) -> (r: Self)
        requires
            self.wf(),
            other.wf(),
        ensures
            r == self.add_spec(other.neg_spec()),
            r.wf(),
    {
        let mut copy = *self;
        copy.sub_assign(other);
        copy
    }

    /// Subtracts a point from the point.
    pub fn sub_assign(&mut self, other: &Self)
        requires
            old(self).wf(),
            other.wf(),
        ensures
            *final(self) == old(self).add_spec(other.neg_spec()),
            final(self).wf(),
    {
        let n = other.neg();
        self.add_assign(&n);
    }

    /// The multiple of the point by a scalar.  The doublings before the
    /// first set bit are left out: they double the point at infinity.
    pub fn mul(&self, other: &P::ScalarField) -> (r: Self)
        requires
            self.wf(),
            other.wf(),
        ensures
            r == self.mul_spec(bits_be(other.repr_spec())),
            r.wf(),
    {
        proof {
            P::ScalarField::lemma_limbs(*other);
            P::BaseField::lemma_constants();
        }
        let mut bits = BitIteratorBE::new(other.into_repr());
        let ghost all = bits.remaining();
        let ghost mut done: Seq<bool> = Seq::empty();
        proof {
            assert(done + bits.remaining() =~= all);
        }
        let mut res = Self::zero();
        let mut found_one = false;
        loop
            invariant_except_break
                self.wf(),
                bits.wf(),
                res.wf(),
                res == self.mul_spec(done),
                !found_one ==> res == Self::zero_spec(),
                done + bits.remaining() == all,
            ensures
                res.wf(),
                res == self.mul_spec(all),
            decreases bits.remaining().len(),
        {
            let ghost before = bits.remaining();
            let ghost prev = res;
            match bits.next() {
                None => {
                    proof {
                        assert(done + before =~= done);
                    }
                    break ;
                },
                Some(i) => {
                    if found_one {
                        res.double_in_place();
                    } else {
                        found_one = i;
                    }
                    assert(res == prev.double_spec());
                    if i {
                        res.add_assign(self);
                    }
                    proof {
                        let next = done.push(i);
                        assert(next.drop_last() =~= done);
                        assert(next.last() == i);
                        assert(next + bits.remaining() =~= done + before);
                        done = next;
                    }
                },
            }
        }
        res
    }

    /// Replaces the point by its multiple by a scalar.
    pub fn mul_assign(&mut self, other: &P::ScalarField)
        requires
            old(self).wf(),
            other.wf(),
        ensures
            *final(self) == old(self).mul_spec(bits_be(other.repr_spec())),
            final(self).wf(),
    {
        let r = self.mul(other);
        *self = r;
    }

    /// The point with `Z = 1` that stands for the same affine point; the
    /// point at infinity and points with `Z = 1` stay as they are.
    pub open spec fn normalize_spec(self) -> Self {
        if self.is_normalized_spec() {
            self
        } else {
            let zinv = self.z.inv_spec();
            let zinv2 = fsq(zinv);
            GroupProjective {
                x: self.x.mul_spec(zinv2),
                y: self.y.mul_spec(zinv2.mul_spec(zinv)),
                z: P::BaseField::one_spec(),
            }
        }
    }

    /// Normalizes every point of `v` with one inversion in all, by
    /// Montgomery's trick: the running products of the `Z` coordinates are
    /// kept, their last is inverted, and a walk backwards hands each point
    /// the inverse of its own `Z`.
    pub fn batch_normalization(v: &mut Vec<Self>)
        requires
            valid::<P>(),
            all_wf(old(v)@),
        ensures
            final(v)@.len() == old(v)@.len(),
            forall|i: int|
                0 <= i < old(v)@.len() ==> (#[trigger] final(v)@[i]) == old(v)@[i].normalize_spec(),
            all_wf(final(v)@),
    {
        let ghost orig = v@;
        let n = v.len();
        proof {
            P::BaseField::lemma_constants();
        }
        // First pass: compute [a, ab, abc, ...]
        let mut prod: Vec<P::BaseField> = Vec::new();
        let mut tmp = P::BaseField::one();
        let mut i: usize = 0;
        while i < n
            invariant
                valid::<P>(),
                v@ == orig,
                all_wf(orig),
                n == orig.len(),
                i <= n,
                tmp == z_product(orig, i as int),
                tmp.wf(),
                prod@.len() == open_count(orig, i as int),
                forall|k: int| 0 <= k < prod@.len() ==> (#[trigger] prod@[k]).wf(),
                forall|m: int|
                    0 <= m <= i && open_count(orig, m) > 0 ==> prod@[open_count(orig, m) - 1]
                        == #[trigger] z_product(orig, m),
            decreases n - i,
        {
            assert(orig[i as int].wf());
            let ghost prev = prod@;
            // Ignore normalized elements
            if !v[i].is_normalized() {
                tmp = tmp.mul(&v[i].z);
                prod.push(tmp);
            }
            i += 1;
            proof {
                assert forall|m: int| 0 <= m <= i && open_count(orig, m) > 0 implies prod@[open_count(
                    orig,
                    m,
                ) - 1] == #[trigger] z_product(orig, m) by {
                    if m < i {
                        lemma_open_count_monotonic(orig, m, i - 1);
                        assert(prev[open_count(orig, m) - 1] == z_product(orig, m));
                    }
                }
            }
        }
        proof {
            lemma_z_product(orig, n as int);
        }
        // Invert `tmp`.
        tmp = tmp.inverse().unwrap();
        // Second pass: iterate backwards to compute inverses
        let mut k: usize = prod.len();
        while i > 0
            invariant
                valid::<P>(),
                all_wf(orig),
                n == orig.len(),
                v@.len() == n,
                i <= n,
                k == open_count(orig, i as int),
                prod@.len() == open_count(orig, n as int),
                forall|c: int| 0 <= c < prod@.len() ==> (#[trigger] prod@[c]).wf(),
                forall|m: int|
                    0 <= m <= n && open_count(orig, m) > 0 ==> prod@[open_count(orig, m) - 1]
                        == #[trigger] z_product(orig, m),
                tmp.wf(),
                tmp == z_product(orig, i as int).inv_spec(),
                forall|j: int| 0 <= j < i ==> (#[trigger] v@[j]) == orig[j],
                forall|j: int|
                    i <= j < n ==> (#[trigger] v@[j]) == (if orig[j].is_normalized_spec() {
                        orig[j]
                    } else {
                        GroupProjective { x: orig[j].x, y: orig[j].y, z: orig[j].z.inv_spec() }
                    }),
            decreases i,
        {
            i -= 1;
            let g = v[i];
            assert(g == orig[i as int]);
            assert(orig[i as int].wf());
            if !g.is_normalized() {
                proof {
                    lemma_open_count_monotonic(orig, i + 1, n as int);
                    lemma_z_product(orig, i as int);
                    lemma_split_inverse(z_product(orig, i as int), g.z);
                    assert(z_product(orig, i + 1) == z_product(orig, i as int).mul_spec(g.z));
                    if k >= 2 {
                        assert(open_count(orig, i as int) == k - 1);
                        assert(prod@[k - 2] == z_product(orig, i as int));
                    }
                }
                // Backwards, skip last element, fill in one for last term.
                let s = if k >= 2 {
                    prod[k - 2]
                } else {
                    P::BaseField::one()
                };
                // tmp := tmp * g.z; g.z := tmp * s = 1/z
                let newtmp = tmp.mul(&g.z);
                let zinv = tmp.mul(&s);
                proof {
                    P::BaseField::lemma_mul_inverse(g.z);
                    P::BaseField::lemma_mul_inverse(z_product(orig, i as int));
                }
                v.set(i, GroupProjective { x: g.x, y: g.y, z: zinv });
                tmp = newtmp;
                k -= 1;
            }
        }
        // Perform affine transformations
        while i < n
            invariant
                valid::<P>(),
                all_wf(orig),
                n == orig.len(),
                v@.len() == n,
                i <= n,
                forall|j: int| 0 <= j < i ==> (#[trigger] v@[j]) == orig[j].normalize_spec(),
                forall|j: int| 0 <= j < i ==> (#[trigger] v@[j]).wf(),
                forall|j: int|
                    i <= j < n ==> (#[trigger] v@[j]) == (if orig[j].is_normalized_spec() {
                        orig[j]
                    } else {
                        GroupProjective { x: orig[j].x, y: orig[j].y, z: orig[j].z.inv_spec() }
                    }),
            decreases n - i,
        {
            let g = v[i];
            assert(orig[i as int].wf());
            proof {
                P::BaseField::lemma_constants();
                if !orig[i as int].is_normalized_spec() {
                    let z = orig[i as int].z;
                    P::BaseField::lemma_mul_inverse(z);
                    lemma_inv_inv(z);
                    lemma_inv_one::<P::BaseField>();
                }
            }
            if !g.is_normalized() {
                let z2 = g.z.square();  // 1/z^2
                let x = g.x.mul(&z2);  // x/z^2
                let y = g.y.mul(&z2.mul(&g.z));  // y/z^3
                v.set(i, GroupProjective { x, y, z: P::BaseField::one() });
            }
            i += 1;
        }
    }

    /// The encoding of the point: `x`, then `y`, then `z`.
    pub open spec fn to_bytes_spec(self) -> Seq<u8> {
        self.x.to_bytes_spec() + self.y.to_bytes_spec() + self.z.to_bytes_spec()
    }

    /// The length of the encoding of a point.
    pub open spec fn byte_len() -> nat {
        3 * P::BaseField::byte_len()
    }

    /// Appends the encoding of the point to `out`.
    pub fn write(&self, out: &mut Vec<u8>)
        requires
            self.wf(),
        ensures
            final(out)@ == old(out)@ + self.to_bytes_spec(),
    {
        self.x.write(out);
        self.y.write(out);
        self.z.write(out);
        assert(out@ =~= old(out)@ + self.to_bytes_spec());
    }

    /// Decodes the triple whose encoding starts at `start`, and says where
    /// it ends.  Fails with `UnexpectedEof` exactly when the input is too
    /// short, and with `InvalidData` when a coordinate is no field element.
    pub fn read(bytes: &[u8], start: usize) -> (r: Result<(Self, usize), ByteError>)
        requires
            valid::<P>(),
        ensures
            match r {
                Ok((p, next)) => {
                    &&& p.wf()
                    &&& next == start + Self::byte_len()
                    &&& next <= bytes.len()
                    &&& p.to_bytes_spec() == window(bytes@, start as int, Self::byte_len() as int)
                },
                Err(ByteError::UnexpectedEof) => start + Self::byte_len() > bytes.len(),
                Err(ByteError::InvalidData) => {
                    &&& start + Self::byte_len() <= bytes.len()
                    &&& forall|p: Self|
                        p.wf() ==> #[trigger] p.to_bytes_spec() != window(
                            bytes@,
                            start as int,
                            Self::byte_len() as int,
                        )
                },
            },
    {
        let flen = P::BaseField::byte_size();
        let total = 3 * flen;
        if bytes.len() < total || start > bytes.len() - total {
            return Err(ByteError::UnexpectedEof);
        }
        let ghost w = window(bytes@, start as int, total as int);
        let ghost wx = window(bytes@, start as int, flen as int);
        let ghost wy = window(bytes@, start + flen, flen as int);
        let ghost wz = window(bytes@, start + 2 * flen, flen as int);
        proof {
            lemma_window_split(bytes@, start as int, flen as int, flen as int);
            lemma_window_split(bytes@, start as int, 2 * flen, flen as int);
            assert(w == wx + wy + wz);
            assert forall|p: Self| p.wf() && #[trigger] p.to_bytes_spec() == w implies {
                &&& p.x.to_bytes_spec() == wx
                &&& p.y.to_bytes_spec() == wy
                &&& p.z.to_bytes_spec() == wz
            } by {
                P::BaseField::lemma_bytes_injective(p.x, p.y);
                P::BaseField::lemma_bytes_injective(p.y, p.x);
                lemma_concat_parts(
                    p.x.to_bytes_spec() + p.y.to_bytes_spec(),
                    p.z.to_bytes_spec(),
                    wx + wy,
                    wz,
                );
                lemma_concat_parts(p.x.to_bytes_spec(), p.y.to_bytes_spec(), wx, wy);
            }
        }
        let (x, mid) = match P::BaseField::read(bytes, start) {
            Err(_) => {
                return Err(ByteError::InvalidData);
            },
            Ok(v) => v,
        };
        let (y, last) = match P::BaseField::read(bytes, mid) {
            Err(_) => {
                return Err(ByteError::InvalidData);
            },
            Ok(v) => v,
        };
        let (z, end) = match P::BaseField::read(bytes, last) {
            Err(_) => {
                return Err(ByteError::InvalidData);
            },
            Ok(v) => v,
        };
        let p = GroupProjective::<P> { x, y, z };
        assert(p.to_bytes_spec() =~= w);
        Ok((p, end))
    }

    /// The affine point that the coordinates stand for.
    pub fn into_affine(&self) -> (p: GroupAffine<P>)
        requires
            self.wf(),
        ensures
            p == self.to_affine_spec(),
            p.wf(),
    {
        proof {
            P::BaseField::lemma_constants();
        }
        if self.is_zero() {
            GroupAffine::zero()
        } else if self.z.is_one() {
            // If Z is one, the point is already normalized.
            proof {
                let one = P::BaseField::one_spec();
                lemma_inv_one::<P::BaseField>();
                P::BaseField::lemma_mul_one(one);
                P::BaseField::lemma_mul_one(self.x);
                P::BaseField::lemma_mul_one(self.y);
            }
            GroupAffine { x: self.x, y: self.y, infinity: false }
        } else {
            // Z is nonzero, so it must have an inverse in a field.
            let zinv = self.z.inverse().unwrap();
            let zinv_squared = zinv.square();
            // X/Z^2
            let x = self.x.mul(&zinv_squared);
            // Y/Z^3
            let y = self.y.mul(&zinv_squared.mul(&zinv));
            GroupAffine { x, y, infinity: false }
        }
    }
}

/// Two triples with the same encoding are the same triple.
pub proof fn lemma_projective_bytes_injective<P: Parameters>(a: GroupProjective<P>, b: GroupProjective<P>)
    requires
        a.wf(),
        b.wf(),
        a.to_bytes_spec() == b.to_bytes_spec(),
    ensures
        a == b,
        a.to_bytes_spec().len() == GroupProjective::<P>::byte_len(),
{
    P::BaseField::lemma_bytes_injective(a.x, b.x);
    P::BaseField::lemma_bytes_injective(a.y, b.y);
    P::BaseField::lemma_bytes_injective(a.z, b.z);
    P::BaseField::lemma_bytes_injective(b.x, a.x);
    P::BaseField::lemma_bytes_injective(b.y, a.y);
    P::BaseField::lemma_bytes_injective(b.z, a.z);
    lemma_concat_parts(
        a.x.to_bytes_spec() + a.y.to_bytes_spec(),
        a.z.to_bytes_spec(),
        b.x.to_bytes_spec() + b.y.to_bytes_spec(),
        b.z.to_bytes_spec(),
    );
    lemma_concat_parts(a.x.to_bytes_spec(), a.y.to_bytes_spec(), b.x.to_bytes_spec(), b.y.to_bytes_spec());
}

impl<P: Parameters> Default for GroupAffine<P> {
    /// The point at infinity.
    fn default() -> (p: Self)
        ensures
            p == GroupAffine::<P>::zero_spec(),
    {
        GroupAffine::zero()
    }
}

impl<P: Parameters> Default for GroupProjective<P> {
    /// The point at infinity.
    fn default() -> (p: Self)
        ensures
            p == GroupProjective::<P>::zero_spec(),
    {
        GroupProjective::zero()
    }
}

impl<P: Parameters> Group for GroupProjective<P> {
    type ScalarField = P::ScalarField;

    open spec fn is_group() -> bool {
        valid::<P>()
    }

    open spec fn wf(&self) -> bool {
        valid::<P>() && self.x.wf() && self.y.wf() && self.z.wf()
    }

    open spec fn zero_spec() -> Self {
        GroupProjective {
            x: P::BaseField::zero_spec(),
            y: P::BaseField::one_spec(),
            z: P::BaseField::zero_spec(),
        }
    }

    open spec fn add_spec(self, other: Self) -> Self {
        GroupProjective::add_spec(self, other)
    }

    open spec fn double_spec(self) -> Self {
        GroupProjective::double_spec(self)
    }

    open spec fn neg_spec(self) -> Self {
        GroupProjective::neg_spec(self)
    }

    open spec fn eq_spec(self, other: Self) -> bool {
        GroupProjective::eq_spec(self, other)
    }

    open spec fn byte_len() -> nat {
        3 * P::BaseField::byte_len()
    }

    open spec fn to_bytes_spec(self) -> Seq<u8> {
        GroupProjective::to_bytes_spec(self)
    }

    open spec fn decode_spec(w: Seq<u8>) -> Option<Self> {
        if exists|p: Self| GroupProjective::wf(&p) && GroupProjective::to_bytes_spec(p) == w {
            Some(choose|p: Self| GroupProjective::wf(&p) && GroupProjective::to_bytes_spec(p) == w)
        } else {
            None
        }
    }

    proof fn lemma_wf_is_group(a: Self) {
    }

    proof fn lemma_closed(a: Self, b: Self) {
        P::BaseField::lemma_constants();
    }

    proof fn lemma_zero() {
        P::BaseField::lemma_constants();
    }

    proof fn lemma_decode(a: Self, w: Seq<u8>) {
        if GroupProjective::wf(&a) {
            let d = Self::decode_spec(GroupProjective::to_bytes_spec(a))->0;
            lemma_projective_bytes_injective(a, d);
        }
    }

    fn zero() -> (r: Self) {
        proof {
            P::BaseField::lemma_constants();
        }
        GroupProjective::zero()
    }

    fn add(&self, other: &Self) -> (r: Self) {
        GroupProjective::add(self, other)
    }

    fn double_in_place(&mut self) {
        GroupProjective::double_in_place(self)
    }

    fn neg(&self) -> (r: Self) {
        GroupProjective::neg(self)
    }

    fn eq(&self, other: &Self) -> (b: bool) {
        GroupProjective::eq(self, other)
    }

    fn byte_size() -> (n: usize) {
        3 * P::BaseField::byte_size()
    }

    fn write(&self, out: &mut Vec<u8>) {
        GroupProjective::write(self, out)
    }

    fn read(bytes: &[u8], start: usize) -> (r: Result<(Self, usize), ByteError>) {
        let r = GroupProjective::read(bytes, start);
        proof {
            let w = window(bytes@, start as int, Self::byte_len() as int);
            match r {
                Ok((p, _)) => {
                    let d = Self::decode_spec(w)->0;
                    lemma_projective_bytes_injective(p, d);
                },
                Err(_) => {},
            }
        }
        r
    }
}

impl<P: Parameters> ProjectiveCurve for GroupProjective<P> {
    type BaseField = P::BaseField;

    open spec fn affine_x_spec(self) -> P::BaseField {
        GroupProjective::to_affine_spec(self).x
    }

    fn to_affine_x(&self) -> (x: P::BaseField) {
        self.into_affine().to_x_coordinate()
    }
}

} // verus!
