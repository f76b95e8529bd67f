//! Reading and writing the canonical little-endian byte encodings.
use vstd::bytes::*;
use vstd::prelude::*;

verus! {

/// Why a byte sequence could not be decoded.
#[derive(Clone, Copy, Debug, PartialEq, Eq, Structural)]
pub enum ByteError {
    /// The input ends before the value does.
    UnexpectedEof,
    /// The bytes are all there but encode no valid value.
    InvalidData,
}

/// The part of `bytes` from `start` that is `len` bytes long.
pub open spec fn window(bytes: Seq<u8>, start: int, len: int) -> Seq<u8> {
    bytes.subrange(start, start + len)
}

/// A window splits into its first `a` bytes and the `b` bytes after them.
pub proof fn lemma_window_split(bytes: Seq<u8>, start: int, a: int, b: int)
    requires
        0 <= start,
        0 <= a,
        0 <= b,
        start + a + b <= bytes.len(),
    ensures
        window(bytes, start, a + b) == window(bytes, start, a) + window(bytes, start + a, b),
{
    assert(window(bytes, start, a + b) =~= window(bytes, start, a) + window(bytes, start + a, b));
}

/// Two concatenations that are equal and whose first parts have the same
/// length have equal parts.
pub proof fn lemma_concat_parts(a: Seq<u8>, b: Seq<u8>, c: Seq<u8>, d: Seq<u8>)
    requires
        a.len() == c.len(),
        a + b == c + d,
    ensures
        a == c,
        b == d,
{
    assert(a =~= (a + b).subrange(0, a.len() as int));
    assert(c =~= (c + d).subrange(0, c.len() as int));
    assert(b =~= (a + b).subrange(a.len() as int, (a + b).len() as int));
    assert(d =~= (c + d).subrange(c.len() as int, (c + d).len() as int));
}

/// Appends every byte of `src` to `out`.
pub fn write_all(out: &mut Vec<u8>, src: &Vec<u8>)
    ensures
        final(out)@ == old(out)@ + src@,
{
    let mut i: usize = 0;
    while i < src.len()
        invariant
            i <= src.len(),
            out@ == old(out)@ + src@.subrange(0, i as int),
        decreases src.len() - i,
    {
        out.push(src[i]);
        i += 1;
    }
    assert(src@.subrange(0, src.len() as int) == src@);
}

/// Copies `len` bytes of `bytes`, starting at `start`.
pub fn copy_window(bytes: &[u8], start: usize, len: usize) -> (out: Vec<u8>)
    requires
        start + len <= bytes.len(),
    ensures
        out@ == window(bytes@, start as int, len as int),
{
    let mut out: Vec<u8> = Vec::new();
    let mut i: usize = 0;
    while i < len
        invariant
            i <= len,
            start + len <= bytes.len(),
            out@ == bytes@.subrange(start as int, start + i),
        decreases len - i,
    {
        out.push(bytes[start + i]);
        i += 1;
    }
    out
}

/// Appends the little-endian bytes of a 64-bit word.
pub fn write_u64(out: &mut Vec<u8>, x: u64)
    ensures
        final(out)@ == old(out)@ + spec_u64_to_le_bytes(x),
{
    let b = u64_to_le_bytes(x);
    write_all(out, &b);
}

/// Appends the little-endian bytes of a 32-bit word.
pub fn write_u32(out: &mut Vec<u8>, x: u32)
    ensures
        final(out)@ == old(out)@ + spec_u32_to_le_bytes(x),
{
    let b = u32_to_le_bytes(x);
    write_all(out, &b);
}

/// Reads a little-endian 64-bit word at `start`; fails exactly when fewer
/// than eight bytes are left.
pub fn read_u64(bytes: &[u8], start: usize) -> (r: Result<(u64, usize), ByteError>)
    ensures
        r == (if start + 8 <= bytes.len() {
            Ok::<_, ByteError>(
                (spec_u64_from_le_bytes(window(bytes@, start as int, 8)), (start + 8) as usize),
            )
        } else {
            Err(ByteError::UnexpectedEof)
        }),
{
    if bytes.len() < 8 || start > bytes.len() - 8 {
        return Err(ByteError::UnexpectedEof);
    }
    let w = copy_window(bytes, start, 8);
    let x = u64_from_le_bytes(w.as_slice());
    Ok((x, start + 8))
}

/// Reads a little-endian 32-bit word at `start`; fails exactly when fewer
/// than four bytes are left.
pub fn read_u32(bytes: &[u8], start: usize) -> (r: Result<(u32, usize), ByteError>)
    ensures
        r == (if start + 4 <= bytes.len() {
            Ok::<_, ByteError>(
                (spec_u32_from_le_bytes(window(bytes@, start as int, 4)), (start + 4) as usize),
            )
        } else {
            Err(ByteError::UnexpectedEof)
        }),
{
    if bytes.len() < 4 || start > bytes.len() - 4 {
        return Err(ByteError::UnexpectedEof);
    }
    let w = copy_window(bytes, start, 4);
    let x = u32_from_le_bytes(w.as_slice());
    Ok((x, start + 4))
}

/// Whether two byte vectors hold the same bytes.
pub fn bytes_eq(a: &Vec<u8>, b: &Vec<u8>) -> (r: bool)
    ensures
        r == (a@ == b@),
{
    if a.len() != b.len() {
        return false;
    }
    let mut i: usize = 0;
    while i < a.len()
        invariant
            i <= a.len(),
            a.len() == b.len(),
            a@.subrange(0, i as int) == b@.subrange(0, i as int),
        decreases a.len() - i,
    {
        if a[i] != b[i] {
            return false;
        }
        assert(a@.subrange(0, i + 1) =~= a@.subrange(0, i as int).push(a@[i as int]));
        assert(b@.subrange(0, i + 1) =~= b@.subrange(0, i as int).push(b@[i as int]));
        i += 1;
    }
    assert(a@ =~= a@.subrange(0, a.len() as int));
    assert(b@ =~= b@.subrange(0, b.len() as int));
    true
}

/// The byte sequences that the vectors of `v` hold.
pub open spec fn views(v: Seq<Vec<u8>>) -> Seq<Seq<u8>> {
    Seq::new(v.len(), |i: int| v[i]@)
}

/// Whether one of the vectors of `v` holds the bytes of `x`.
pub fn contains_bytes(v: &Vec<Vec<u8>>, x: &Vec<u8>) -> (r: bool)
    ensures
        r == views(v@).contains(x@),
{
    let mut i: usize = 0;
    while i < v.len()
        invariant
            i <= v.len(),
            forall|k: int| 0 <= k < i ==> v@[k]@ != x@,
        decreases v.len() - i,
    {
        if bytes_eq(&v[i], x) {
            assert(views(v@)[i as int] == x@);
            return true;
        }
        i += 1;
    }
    true && false
}

} // verus!
