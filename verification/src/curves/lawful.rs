//! Groups whose laws are proved, and the additive group of a field, which
//! is one.
use crate::bytes::{window, ByteError};
use crate::curves::group::Group;
use crate::fields::field::{Field, PrimeField};
use vstd::prelude::*;

verus! {

/// A commutative group in which every element has one value only, so that
/// two values stand for the same element exactly when they are equal.
pub trait LawfulGroup: Group {
    /// Two values stand for the same element exactly when they are equal.
    proof fn lemma_eq(a: Self, b: Self)
        requires
            a.wf(),
            b.wf(),
        ensures
            a.eq_spec(b) == (a == b),
    ;

    /// `a + b = b + a`.
    proof fn lemma_add_commutative(a: Self, b: Self)
        requires
            a.wf(),
            b.wf(),
        ensures
            a.add_spec(b) == b.add_spec(a),
    ;

    /// `(a + b) + c = a + (b + c)`.
    proof fn lemma_add_associative(a: Self, b: Self, c: Self)
        requires
            a.wf(),
            b.wf(),
            c.wf(),
        ensures
            a.add_spec(b).add_spec(c) == a.add_spec(b.add_spec(c)),
    ;

    /// `a + 0 = a`.
    proof fn lemma_add_zero(a: Self)
        requires
            a.wf(),
        ensures
            a.add_spec(Self::zero_spec()) == a,
    ;

    /// `a + (-a) = 0`.
    proof fn lemma_add_neg(a: Self)
        requires
            a.wf(),
        ensures
            a.add_spec(a.neg_spec()) == Self::zero_spec(),
    ;

    /// `double(a) = a + a`.
    proof fn lemma_double(a: Self)
        requires
            a.wf(),
        ensures
            a.double_spec() == a.add_spec(a),
    ;
}

/// The additive group of a field.
#[derive(Clone, Copy)]
pub struct AdditiveGroup<F: PrimeField>(pub F);

impl<F: PrimeField> Group for AdditiveGroup<F> {
    type ScalarField = F;

    open spec fn is_group() -> bool {
        F::is_field()
    }

    open spec fn wf(&self) -> bool {
        self.0.wf()
    }

    open spec fn zero_spec() -> Self {
        AdditiveGroup(F::zero_spec())
    }

    open spec fn add_spec(self, other: Self) -> Self {
        AdditiveGroup(self.0.add_spec(other.0))
    }

    open spec fn double_spec(self) -> Self {
        AdditiveGroup(self.0.add_spec(self.0))
    }

    open spec fn neg_spec(self) -> Self {
        AdditiveGroup(self.0.neg_spec())
    }

    open spec fn eq_spec(self, other: Self) -> bool {
        self == other
    }

    open spec fn byte_len() -> nat {
        F::byte_len()
    }

    open spec fn to_bytes_spec(self) -> Seq<u8> {
        self.0.to_bytes_spec()
    }

    open spec fn decode_spec(w: Seq<u8>) -> Option<Self> {
        if exists|a: F| a.wf() && a.to_bytes_spec() == w {
            Some(AdditiveGroup(choose|a: F| a.wf() && a.to_bytes_spec() == w))
        } else {
            None
        }
    }

    proof fn lemma_wf_is_group(a: Self) {
        F::lemma_wf_is_field(a.0);
    }

    proof fn lemma_closed(a: Self, b: Self) {
        F::lemma_closed(a.0, b.0);
        F::lemma_closed(a.0, a.0);
    }

    proof fn lemma_zero() {
        F::lemma_constants();
    }

    proof fn lemma_decode(a: Self, w: Seq<u8>) {
        if a.0.wf() {
            let d = Self::decode_spec(a.0.to_bytes_spec())->0;
            F::lemma_bytes_injective(a.0, d.0);
            F::lemma_bytes_injective(d.0, a.0);
        }
    }

    fn zero() -> (r: Self) {
        proof {
            F::lemma_constants();
        }
        AdditiveGroup(F::zero())
    }

    fn add(&self, other: &Self) -> (r: Self) {
        AdditiveGroup(self.0.add(&other.0))
    }

    fn double_in_place(&mut self) {
        self.0 = self.0.double();
    }

    fn neg(&self) -> (r: Self) {
        AdditiveGroup(self.0.neg())
    }

    fn eq(&self, other: &Self) -> (b: bool) {
        self.0.is_equal(&other.0)
    }

    fn byte_size() -> (n: usize) {
        F::byte_size()
    }

    fn write(&self, out: &mut Vec<u8>) {
        self.0.write(out);
    }

    fn read(bytes: &[u8], start: usize) -> (r: Result<(Self, usize), ByteError>) {
        let n = F::byte_size();
        if bytes.len() < n || start > bytes.len() - n {
            return Err(ByteError::UnexpectedEof);
        }
        let ghost w = window(bytes@, start as int, n as int);
        match F::read(bytes, start) {
            Ok((a, next)) => {
                proof {
                    let d = Self::decode_spec(w)->0;
                    F::lemma_bytes_injective(a, d.0);
                    F::lemma_bytes_injective(d.0, a);
                }
                Ok((AdditiveGroup(a), next))
            },
            Err(_) => Err(ByteError::InvalidData),
        }
    }
}

impl<F: PrimeField> LawfulGroup for AdditiveGroup<F> {
    proof fn lemma_eq(a: Self, b: Self) {
    }

    proof fn lemma_add_commutative(a: Self, b: Self) {
        F::lemma_add_commutative(a.0, b.0);
    }

    proof fn lemma_add_associative(a: Self, b: Self, c: Self) {
        F::lemma_add_associative(a.0, b.0, c.0);
    }

    proof fn lemma_add_zero(a: Self) {
        F::lemma_add_zero(a.0);
    }

    proof fn lemma_add_neg(a: Self) {
        F::lemma_add_neg(a.0);
    }

    proof fn lemma_double(a: Self) {
    }
}

} // verus!
