//! Lengths as variable-length integers: one byte for values up to 252,
//! else a marker byte and the value in two, four or eight little-endian
//! bytes, always in the shortest form.
use crate::bytes::{copy_window, write_all, ByteError};
use vstd::bytes::*;
use vstd::prelude::*;

verus! {

/// The encoding of `value`.
pub open spec fn variable_length_integer_spec(value: u64) -> Seq<u8> {
    if value <= 252 {
        seq![value as u8]
    } else if value <= 65535 {
        seq![0xfdu8] + spec_u16_to_le_bytes(value as u16)
    } else if value <= 4294967295 {
        seq![0xfeu8] + spec_u32_to_le_bytes(value as u32)
    } else {
        seq![0xffu8] + spec_u64_to_le_bytes(value)
    }
}

/// How many bytes follow the first byte `flag` of an encoding.
pub open spec fn payload_len(flag: u8) -> int {
    if flag <= 252 {
        0
    } else if flag == 0xfd {
        2
    } else if flag == 0xfe {
        4
    } else {
        8
    }
}

/// The value that the bytes after the first byte `flag` hold.
pub open spec fn payload_value(flag: u8, payload: Seq<u8>) -> u64 {
    if flag <= 252 {
        flag as u64
    } else if flag == 0xfd {
        spec_u16_from_le_bytes(payload) as u64
    } else if flag == 0xfe {
        spec_u32_from_le_bytes(payload) as u64
    } else {
        spec_u64_from_le_bytes(payload)
    }
}

/// The least value that is written with the first byte `flag`.
pub open spec fn least_value(flag: u8) -> int {
    if flag <= 252 {
        0
    } else if flag == 0xfd {
        253
    } else if flag == 0xfe {
        65536
    } else {
        4294967296
    }
}

/// What reading a length at `start` gives: the length and the place after
/// it; `UnexpectedEof` where the input ends too early; `InvalidData` where
/// the value has a shorter encoding or does not fit a `usize`.
pub open spec fn read_variable_length_integer_spec(bytes: Seq<u8>, start: int) -> Result<
    (usize, usize),
    ByteError,
> {
    if start >= bytes.len() {
        Err(ByteError::UnexpectedEof)
    } else {
        let flag = bytes[start];
        let n = payload_len(flag);
        if start + 1 + n > bytes.len() {
            Err(ByteError::UnexpectedEof)
        } else {
            let value = payload_value(flag, bytes.subrange(start + 1, start + 1 + n));
            if value < least_value(flag) || value > usize::MAX {
                Err(ByteError::InvalidData)
            } else {
                Ok((value as usize, (start + 1 + n) as usize))
            }
        }
    }
}

/// Encodes `value`.
pub fn variable_length_integer(value: u64) -> (r: Vec<u8>)
    ensures
        r@ == variable_length_integer_spec(value),
{
    let mut r: Vec<u8> = Vec::new();
    if value <= 252 {
        r.push(value as u8);
        assert(r@ =~= seq![value as u8]);
    } else if value <= 65535 {
        r.push(0xfd);
        let b = u16_to_le_bytes(value as u16);
        write_all(&mut r, &b);
        assert(r@ =~= seq![0xfdu8] + spec_u16_to_le_bytes(value as u16));
    } else if value <= 4294967295 {
        r.push(0xfe);
        let b = u32_to_le_bytes(value as u32);
        write_all(&mut r, &b);
        assert(r@ =~= seq![0xfeu8] + spec_u32_to_le_bytes(value as u32));
    } else {
        r.push(0xff);
        let b = u64_to_le_bytes(value);
        write_all(&mut r, &b);
        assert(r@ =~= seq![0xffu8] + spec_u64_to_le_bytes(value));
    }
    r
}

/// Reads a length at `start`.
pub fn read_variable_length_integer(bytes: &[u8], start: usize) -> (r: Result<
    (usize, usize),
    ByteError,
>)
    ensures
        r == read_variable_length_integer_spec(bytes@, start as int),
{
    if start >= bytes.len() {
        return Err(ByteError::UnexpectedEof);
    }
    let flag = bytes[start];
    let rest = bytes.len() - start - 1;
    if flag <= 252 {
        Ok((flag as usize, start + 1))
    } else if flag == 0xfd {
        if rest < 2 {
            return Err(ByteError::UnexpectedEof);
        }
        let w = copy_window(bytes, start + 1, 2);
        let s = u16_from_le_bytes(w.as_slice());
        if s < 253 {
            Err(ByteError::InvalidData)
        } else {
            Ok((s as usize, start + 3))
        }
    } else if flag == 0xfe {
        if rest < 4 {
            return Err(ByteError::UnexpectedEof);
        }
        let w = copy_window(bytes, start + 1, 4);
        let s = u32_from_le_bytes(w.as_slice());
        if s < 65536 {
            Err(ByteError::InvalidData)
        } else {
            Ok((s as usize, start + 5))
        }
    } else {
        if rest < 8 {
            return Err(ByteError::UnexpectedEof);
        }
        let w = copy_window(bytes, start + 1, 8);
        let s = u64_from_le_bytes(w.as_slice());
        if s < 4294967296 || s > usize::MAX as u64 {
            Err(ByteError::InvalidData)
        } else {
            Ok((s as usize, start + 9))
        }
    }
}

/// A length that is written and read again is the same length, and the
/// reading ends where the encoding ends.
pub proof fn lemma_variable_length_integer_round_trip(value: u64, rest: Seq<u8>)
    requires
        value <= usize::MAX,
    ensures
        read_variable_length_integer_spec(variable_length_integer_spec(value) + rest, 0) == Ok::<
            (usize, usize),
            ByteError,
        >((value as usize, variable_length_integer_spec(value).len() as usize)),
{
    let enc = variable_length_integer_spec(value);
    let bytes = enc + rest;
    lemma_auto_spec_u16_to_from_le_bytes();
    lemma_auto_spec_u32_to_from_le_bytes();
    lemma_auto_spec_u64_to_from_le_bytes();
    if value <= 252 {
        assert(bytes[0] == value as u8);
    } else if value <= 65535 {
        assert(bytes[0] == 0xfdu8);
        assert(bytes.subrange(1, 3) =~= spec_u16_to_le_bytes(value as u16));
    } else if value <= 4294967295 {
        assert(bytes[0] == 0xfeu8);
        assert(bytes.subrange(1, 5) =~= spec_u32_to_le_bytes(value as u32));
    } else {
        assert(bytes[0] == 0xffu8);
        assert(bytes.subrange(1, 9) =~= spec_u64_to_le_bytes(value));
    }
}

} // verus!
