//! Bytes as hexadecimal text and back.
use vstd::prelude::*;

verus! {

/// The character of the hexadecimal digit `d`, in lower case.
pub open spec fn hex_char(d: int) -> char {
    if d < 10 {
        (48 + d) as char
    } else {
        (87 + d) as char
    }
}

/// The hexadecimal text of the bytes: two digits for each byte, the high
/// one first, in lower case.
pub open spec fn hex_encoding(bytes: Seq<u8>) -> Seq<char> {
    Seq::new(
        2 * bytes.len(),
        |i: int|
            hex_char(
                if i % 2 == 0 {
                    bytes[i / 2] as int / 16
                } else {
                    bytes[i / 2] as int % 16
                },
            ),
    )
}

/// The value of the hexadecimal digit with the character code `c`, in
/// either case.
pub open spec fn hex_value(c: u8) -> Option<int> {
    if 48 <= c <= 57 {
        Some(c - 48)
    } else if 97 <= c <= 102 {
        Some(c - 87)
    } else if 65 <= c <= 70 {
        Some(c - 55)
    } else {
        None
    }
}

/// Place `k` holds the first character of the text that is no hexadecimal
/// digit.
pub open spec fn first_invalid(text: Seq<u8>, k: int) -> bool {
    &&& 0 <= k < text.len()
    &&& hex_value(text[k]) is None
    &&& forall|j: int| 0 <= j < k ==> hex_value(#[trigger] text[j]) is Some
}

/// The bytes that the hexadecimal text spells: one for each two digits.
pub open spec fn hex_decoding(text: Seq<u8>) -> Seq<u8> {
    Seq::new(
        text.len() / 2,
        |i: int| (16 * hex_value(text[2 * i])->0 + hex_value(text[2 * i + 1])->0) as u8,
    )
}

/// Why a text is no hexadecimal text.
#[derive(Clone, Copy, Debug, PartialEq, Eq)]
pub enum HexError {
    /// A character is no hexadecimal digit.
    InvalidHexCharacter { c: char, index: usize },
    /// The text has an odd number of characters.
    OddLength,
    /// The text has not the length that was asked for.
    InvalidStringLength,
}

/// `hex::encode`: the text has two lower-case hexadecimal digits for each
/// byte, the high digit first.
#[verifier::external_body]
pub(crate) fn hex_encode(data: &Vec<u8>) -> (r: String)
    ensures
        r@ == hex_encoding(data@),
{
    hex::encode(data)
}

/// `hex::decode`: a text of an even number of hexadecimal digits, in
/// either case, gives the bytes that it spells; a text of odd length gives
/// `OddLength`; any other text gives the first character that is no
/// hexadecimal digit, and its place.
#[verifier::external_body]
pub(crate) fn hex_decode(data: &[u8]) -> (r: Result<Vec<u8>, HexError>)
    ensures
        match r {
            Ok(v) => {
                &&& data@.len() % 2 == 0
                &&& forall|j: int| 0 <= j < data@.len() ==> hex_value(#[trigger] data@[j]) is Some
                &&& v@ == hex_decoding(data@)
            },
            Err(HexError::OddLength) => data@.len() % 2 == 1,
            Err(HexError::InvalidHexCharacter { c, index }) => {
                &&& data@.len() % 2 == 0
                &&& first_invalid(data@, index as int)
                &&& c == data@[index as int] as char
            },
            Err(HexError::InvalidStringLength) => false,
        },
{
    match hex::decode(data) {
        Ok(v) => Ok(v),
        Err(hex::FromHexError::InvalidHexCharacter { c, index }) => Err(
            HexError::InvalidHexCharacter { c, index },
        ),
        Err(hex::FromHexError::OddLength) => Err(HexError::OddLength),
        Err(hex::FromHexError::InvalidStringLength) => Err(HexError::InvalidStringLength),
    }
}

} // verus!
