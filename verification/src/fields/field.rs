//! The capability set of a field, with the laws that every implementation
//! proves of its own arithmetic.
use crate::bytes::{window, ByteError};
use vstd::prelude::*;

verus! {

/// A field whose elements are values of `Self`.
///
/// The specification functions give the arithmetic; the proof functions are
/// the field laws, which every implementation has to prove; the executable
/// functions compute what the specification functions say.  Equality of
/// elements is equality of values: an implementation keeps its elements in
/// canonical form.
pub trait Field: Sized + Copy {
    /// The parameters of the type describe a field.
    spec fn is_field() -> bool;

    /// The value is a canonical element of a valid field.
    spec fn wf(&self) -> bool;

    spec fn zero_spec() -> Self;

    spec fn one_spec() -> Self;

    spec fn add_spec(self, rhs: Self) -> Self;

    spec fn neg_spec(self) -> Self;

    spec fn mul_spec(self, rhs: Self) -> Self;

    /// The multiplicative inverse; meaningful for elements other than zero.
    spec fn inv_spec(self) -> Self;

    /// The order of the elements' integer lifts, lowest coefficient first.
    spec fn lt_spec(self, rhs: Self) -> bool;

    /// The image of the element under the Frobenius map applied `power`
    /// times.
    spec fn frobenius_spec(self, power: nat) -> Self;

    /// Every element that has a square root has one found by `sqrt`.
    spec fn sqrt_is_complete() -> bool;

    /// The length of an element's encoding.
    spec fn byte_len() -> nat;

    /// The canonical little-endian encoding.
    spec fn to_bytes_spec(self) -> Seq<u8>;

    /// A well-formed element witnesses that the type is a field.
    proof fn lemma_wf_is_field(a: Self)
        requires
            a.wf(),
        ensures
            Self::is_field(),
    ;

    /// The constants are elements, and the operations stay inside the field.
    proof fn lemma_closed(a: Self, b: Self)
        requires
            a.wf(),
            b.wf(),
        ensures
            Self::zero_spec().wf(),
            Self::one_spec().wf(),
            a.add_spec(b).wf(),
            a.neg_spec().wf(),
            a.mul_spec(b).wf(),
    ;

    /// The constants of a field are elements, and zero differs from one.
    proof fn lemma_constants()
        requires
            Self::is_field(),
        ensures
            Self::zero_spec().wf(),
            Self::one_spec().wf(),
            Self::zero_spec() != Self::one_spec(),
    ;

    /// `a + b = b + a`.
    proof fn lemma_add_commutative(a: Self, b: Self)
        requires
            a.wf(),
            b.wf(),
        ensures
            a.add_spec(b) == b.add_spec(a),
    ;

    /// `(a + b) + c = a + (b + c)`.
    proof fn lemma_add_associative(a: Self, b: Self, c: Self)
        requires
            a.wf(),
            b.wf(),
            c.wf(),
        ensures
            a.add_spec(b).add_spec(c) == a.add_spec(b.add_spec(c)),
    ;

    /// `a + 0 = a`.
    proof fn lemma_add_zero(a: Self)
        requires
            a.wf(),
        ensures
            a.add_spec(Self::zero_spec()) == a,
    ;

    /// `a + (-a) = 0`.
    proof fn lemma_add_neg(a: Self)
        requires
            a.wf(),
        ensures
            a.add_spec(a.neg_spec()) == Self::zero_spec(),
    ;

    /// `a * b = b * a`.
    proof fn lemma_mul_commutative(a: Self, b: Self)
        requires
            a.wf(),
            b.wf(),
        ensures
            a.mul_spec(b) == b.mul_spec(a),
    ;

    /// `(a * b) * c = a * (b * c)`.
    proof fn lemma_mul_associative(a: Self, b: Self, c: Self)
        requires
            a.wf(),
            b.wf(),
            c.wf(),
        ensures
            a.mul_spec(b).mul_spec(c) == a.mul_spec(b.mul_spec(c)),
    ;

    /// `a * 1 = a`.
    proof fn lemma_mul_one(a: Self)
        requires
            a.wf(),
        ensures
            a.mul_spec(Self::one_spec()) == a,
    ;

    /// `a * (b + c) = a * b + a * c`.
    proof fn lemma_distributive(a: Self, b: Self, c: Self)
        requires
            a.wf(),
            b.wf(),
            c.wf(),
        ensures
            a.mul_spec(b.add_spec(c)) == a.mul_spec(b).add_spec(a.mul_spec(c)),
    ;

    /// `a * a^-1 = 1` when `a` is not zero.
    proof fn lemma_mul_inverse(a: Self)
        requires
            a.wf(),
            a != Self::zero_spec(),
        ensures
            a.inv_spec().wf(),
            a.mul_spec(a.inv_spec()) == Self::one_spec(),
    ;

    /// The order is strict and total.
    proof fn lemma_lt_total(a: Self, b: Self)
        requires
            a.wf(),
            b.wf(),
        ensures
            !(a.lt_spec(b) && b.lt_spec(a)),
            a.lt_spec(b) || b.lt_spec(a) || a == b,
            !a.lt_spec(a),
    ;

    /// Encodings have the fixed length, and different elements have
    /// different encodings.
    proof fn lemma_bytes_injective(a: Self, b: Self)
        requires
            a.wf(),
            b.wf(),
        ensures
            a.to_bytes_spec().len() == Self::byte_len(),
            a.to_bytes_spec() == b.to_bytes_spec() ==> a == b,
    ;

    fn zero() -> (r: Self)
        ensures
            r == Self::zero_spec(),
    ;

    fn one() -> (r: Self)
        ensures
            r == Self::one_spec(),
    ;

    fn is_equal(&self, other: &Self) -> (b: bool)
        requires
            self.wf(),
            other.wf(),
        ensures
            b == (*self == *other),
    ;

    fn is_less_than(&self, other: &Self) -> (b: bool)
        requires
            self.wf(),
            other.wf(),
        ensures
            b == self.lt_spec(*other),
    ;

    fn add(&self, rhs: &Self) -> (r: Self)
        requires
            self.wf(),
            rhs.wf(),
        ensures
            r == self.add_spec(*rhs),
            r.wf(),
    ;

    fn neg(&self) -> (r: Self)
        requires
            self.wf(),
        ensures
            r == self.neg_spec(),
            r.wf(),
    ;

    fn mul(&self, rhs: &Self) -> (r: Self)
        requires
            self.wf(),
            rhs.wf(),
        ensures
            r == self.mul_spec(*rhs),
            r.wf(),
    ;

    /// The inverse of every element but zero.
    fn inverse(&self) -> (r: Option<Self>)
        requires
            self.wf(),
        ensures
            r == (if *self == Self::zero_spec() {
                None
            } else {
                Some(self.inv_spec())
            }),
            r is Some ==> r->0.wf(),
    ;

    /// A square root, if the search finds one: the root whose integer lift
    /// is not above that of its negation.  Where the search is complete,
    /// it fails only for elements that are the square of none.
    fn sqrt(&self) -> (r: Option<Self>)
        requires
            self.wf(),
        ensures
            r is Some ==> {
                &&& r->0.wf()
                &&& r->0.mul_spec(r->0) == *self
                &&& !r->0.neg_spec().lt_spec(r->0)
            },
            Self::sqrt_is_complete() && r is None ==> forall|x: Self|
                x.wf() ==> #[trigger] x.mul_spec(x) != *self,
    ;

    /// The Frobenius map applied `power` times.
    fn frobenius_map(&self, power: usize) -> (r: Self)
        requires
            self.wf(),
        ensures
            r == self.frobenius_spec(power as nat),
            r.wf(),
    ;

    /// The length of an element's encoding.
    fn byte_size() -> (n: usize)
        requires
            Self::is_field(),
        ensures
            n == Self::byte_len(),
            n <= 0x0100_0000,
    ;

    /// Appends the element's encoding to `out`.
    fn write(&self, out: &mut Vec<u8>)
        requires
            self.wf(),
        ensures
            final(out)@ == old(out)@ + self.to_bytes_spec(),
    ;

    /// Decodes the element whose encoding starts at `start`, and says where
    /// it ends.  Fails with `UnexpectedEof` when the input is too short, and
    /// with `InvalidData` when the bytes encode no element.
    fn read(bytes: &[u8], start: usize) -> (r: Result<(Self, usize), ByteError>)
        requires
            Self::is_field(),
        ensures
            match r {
                Ok((a, next)) => {
                    &&& a.wf()
                    &&& next == start + Self::byte_len()
                    &&& next <= bytes.len()
                    &&& a.to_bytes_spec() == window(bytes@, start as int, Self::byte_len() as int)
                },
                Err(ByteError::UnexpectedEof) => start + Self::byte_len() > bytes.len(),
                Err(ByteError::InvalidData) => {
                    &&& start + Self::byte_len() <= bytes.len()
                    &&& forall|a: Self|
                        a.wf() ==> #[trigger] a.to_bytes_spec() != window(
                            bytes@,
                            start as int,
                            Self::byte_len() as int,
                        )
                },
            },
    ;

    /// `self - rhs`.
    fn sub(&self, rhs: &Self) -> (r: Self)
        requires
            self.wf(),
            rhs.wf(),
        ensures
            r == self.add_spec(rhs.neg_spec()),
            r.wf(),
    {
        let nb = rhs.neg();
        self.add(&nb)
    }

    /// `self * self`.
    fn square(&self) -> (r: Self)
        requires
            self.wf(),
        ensures
            r == self.mul_spec(*self),
            r.wf(),
    {
        self.mul(self)
    }

    /// `self + self`.
    fn double(&self) -> (r: Self)
        requires
            self.wf(),
        ensures
            r == self.add_spec(*self),
            r.wf(),
    {
        self.add(self)
    }

    /// Whether the element is zero.
    fn is_zero(&self) -> (b: bool)
        requires
            self.wf(),
        ensures
            b == (*self == Self::zero_spec()),
    {
        proof {
            Self::lemma_closed(*self, *self);
        }
        let z = Self::zero();
        self.is_equal(&z)
    }

    /// Whether the element is one.
    fn is_one(&self) -> (b: bool)
        requires
            self.wf(),
        ensures
            b == (*self == Self::one_spec()),
    {
        proof {
            Self::lemma_closed(*self, *self);
        }
        let o = Self::one();
        self.is_equal(&o)
    }
}

/// A prime field: its elements are the residues of a prime, which have an
/// integer lift.
pub trait PrimeField: Field {
    /// The limbs of the element's integer lift, least significant first.
    spec fn repr_spec(self) -> Seq<u64>;

    /// The limbs of the field's characteristic, least significant first.
    spec fn characteristic_spec() -> Seq<u64>;

    /// The number of limbs of an integer lift.
    spec fn num_limbs() -> nat;

    /// Integer lifts have the fixed number of limbs, which is small enough
    /// for their bits to be counted.
    proof fn lemma_limbs(a: Self)
        requires
            a.wf(),
        ensures
            a.repr_spec().len() == Self::num_limbs(),
            Self::characteristic_spec().len() == Self::num_limbs(),
            64 * Self::num_limbs() <= 0x1000_0000,
    ;

    /// The number of bits of the characteristic.
    spec fn size_in_bits_spec() -> nat;

    /// The characteristic has at least one bit, and no more than the limbs
    /// hold.
    proof fn lemma_size_in_bits()
        requires
            Self::is_field(),
        ensures
            1 <= Self::size_in_bits_spec() <= 64 * Self::num_limbs(),
    ;

    /// An element is the sum of the powers of two at the set bits of its
    /// integer lift.
    proof fn lemma_pack_repr(a: Self)
        requires
            a.wf(),
        ensures
            crate::fields::pack::pack_le::<Self>(
                crate::fields::pack::low_bits(a.repr_spec(), Self::size_in_bits_spec()),
            ) == a,
    ;

    /// The number of bits of the characteristic.
    fn size_in_bits() -> (n: usize)
        requires
            Self::is_field(),
        ensures
            n == Self::size_in_bits_spec(),
    ;

    /// The integer lift of the element.
    fn into_repr(&self) -> (r: Vec<u64>)
        requires
            self.wf(),
        ensures
            r@ == self.repr_spec(),
    ;

    /// The characteristic of the field.
    fn characteristic() -> (r: Vec<u64>)
        ensures
            r@ == Self::characteristic_spec(),
    ;
}

/// `a - b`.
pub open spec fn fsub<F: Field>(a: F, b: F) -> F {
    a.add_spec(b.neg_spec())
}

/// `a * a`.
pub open spec fn fsq<F: Field>(a: F) -> F {
    a.mul_spec(a)
}

/// `a + a`.
pub open spec fn fdbl<F: Field>(a: F) -> F {
    a.add_spec(a)
}

} // verus!
