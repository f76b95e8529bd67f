//! The capability set of a group, which the Pedersen hash is written
//! against.
use crate::bytes::{window, ByteError};
use crate::fields::field::{Field, PrimeField};
use vstd::prelude::*;

verus! {

/// A group whose elements are values of `Self`.  Several values may stand
/// for one element; `eq_spec` says when two do.
pub trait Group: Sized + Copy {
    /// The field of the scalars.
    type ScalarField: PrimeField;

    /// The parameters of the type describe a group.
    spec fn is_group() -> bool;

    /// The value is an element of a valid group.
    spec fn wf(&self) -> bool;

    spec fn zero_spec() -> Self;

    spec fn add_spec(self, other: Self) -> Self;

    spec fn double_spec(self) -> Self;

    spec fn neg_spec(self) -> Self;

    /// The two values stand for the same element.
    spec fn eq_spec(self, other: Self) -> bool;

    /// The length of the encoding of an element.
    spec fn byte_len() -> nat;

    /// The encoding of the value.
    spec fn to_bytes_spec(self) -> Seq<u8>;

    /// The value that `w` is the encoding of, if it is the encoding of one.
    spec fn decode_spec(w: Seq<u8>) -> Option<Self>;

    /// A well-formed element witnesses that the type is a group.
    proof fn lemma_wf_is_group(a: Self)
        requires
            a.wf(),
        ensures
            Self::is_group(),
    ;

    /// The identity is an element, and the operations stay inside the
    /// group.
    proof fn lemma_closed(a: Self, b: Self)
        requires
            a.wf(),
            b.wf(),
        ensures
            Self::zero_spec().wf(),
            a.add_spec(b).wf(),
            a.double_spec().wf(),
            a.neg_spec().wf(),
    ;

    /// The identity of a group is an element.
    proof fn lemma_zero()
        requires
            Self::is_group(),
        ensures
            Self::zero_spec().wf(),
    ;

    /// Decoding undoes encoding, and what decodes is an encoding.
    proof fn lemma_decode(a: Self, w: Seq<u8>)
        ensures
            a.wf() ==> a.to_bytes_spec().len() == Self::byte_len() && Self::decode_spec(
                a.to_bytes_spec(),
            ) == Some(a),
            Self::decode_spec(w) is Some ==> Self::decode_spec(w)->0.wf() && Self::decode_spec(
                w,
            )->0.to_bytes_spec() == w,
    ;

    fn zero() -> (r: Self)
        requires
            Self::is_group(),
        ensures
            r == Self::zero_spec(),
            r.wf(),
    ;

    fn add(&self, other: &Self) -> (r: Self)
        requires
            self.wf(),
            other.wf(),
        ensures
            r == self.add_spec(*other),
            r.wf(),
    ;

    fn double_in_place(&mut self)
        requires
            old(self).wf(),
        ensures
            *final(self) == old(self).double_spec(),
            final(self).wf(),
    ;

    fn neg(&self) -> (r: Self)
        requires
            self.wf(),
        ensures
            r == self.neg_spec(),
            r.wf(),
    ;

    fn eq(&self, other: &Self) -> (b: bool)
        requires
            self.wf(),
            other.wf(),
        ensures
            b == self.eq_spec(*other),
    ;

    /// The length of the encoding of an element.
    fn byte_size() -> (n: usize)
        requires
            Self::is_group(),
        ensures
            n == Self::byte_len(),
            n <= 0x0400_0000,
    ;

    /// Appends the encoding of the value to `out`.
    fn write(&self, out: &mut Vec<u8>)
        requires
            self.wf(),
        ensures
            final(out)@ == old(out)@ + self.to_bytes_spec(),
    ;

    /// Decodes the value whose encoding starts at `start`, and says where
    /// it ends.  Fails with `UnexpectedEof` exactly when the input is too
    /// short, else with `InvalidData` exactly when the bytes are the
    /// encoding of no value.
    fn read(bytes: &[u8], start: usize) -> (r: Result<(Self, usize), ByteError>)
        requires
            Self::is_group(),
        ensures
            r == (if start + Self::byte_len() > bytes@.len() {
                Err::<(Self, usize), ByteError>(ByteError::UnexpectedEof)
            } else {
                match Self::decode_spec(window(bytes@, start as int, Self::byte_len() as int)) {
                    Some(g) => Ok((g, (start + Self::byte_len()) as usize)),
                    None => Err(ByteError::InvalidData),
                }
            }),
    ;
}

/// What reading a value at `start` gives.
pub open spec fn read_spec<G: Group>(bytes: Seq<u8>, start: int) -> Result<(G, usize), ByteError> {
    if start + G::byte_len() > bytes.len() {
        Err(ByteError::UnexpectedEof)
    } else {
        match G::decode_spec(window(bytes, start, G::byte_len() as int)) {
            Some(g) => Ok((g, (start + G::byte_len()) as usize)),
            None => Err(ByteError::InvalidData),
        }
    }
}

/// A group of points of a curve, whose elements have an affine
/// x-coordinate.
pub trait ProjectiveCurve: Group {
    /// The field of the coordinates.
    type BaseField: Field;

    /// The x-coordinate of the affine point that the value stands for.
    spec fn affine_x_spec(self) -> Self::BaseField;

    /// The x-coordinate of the affine point that the value stands for.
    fn to_affine_x(&self) -> (x: Self::BaseField)
        requires
            self.wf(),
        ensures
            x == self.affine_x_spec(),
            x.wf(),
    ;
}

} // verus!
