//! The Pedersen hash: the input, padded with zero bytes, is cut into
//! windows of bits, and the bases at the set bits are added up.
use crate::algorithms::pedersen_parameters::{row_wf, rows_wf, PedersenCRHParameters, PedersenSize};
use crate::curves::group::{Group, ProjectiveCurve};
use crate::fields::field::{Field, PrimeField};
use crate::gadgets::uint8::byte_bit;
use vstd::prelude::*;

verus! {

/// Why a hash could not be computed.
#[derive(Clone, Copy, Debug, PartialEq, Eq, Structural)]
pub enum CRHError {
    /// The input has more bits than the windows take.
    IncorrectInputLength,
    /// The parameters have not one row for each window.
    IncorrectParameterSize,
}

/// The sum of the entries of the row at the set ones of the `n` bits from
/// `first` on.
pub open spec fn window_sum<G: Group>(row: Seq<G>, bits: Seq<bool>, first: int, n: int) -> G
    decreases n,
{
    if n <= 0 {
        G::zero_spec()
    } else {
        let s = window_sum(row, bits, first, n - 1);
        if bits[first + n - 1] {
            s.add_spec(row[n - 1])
        } else {
            s
        }
    }
}

/// How many of the bits of window `w` are there, and have a base.
pub open spec fn window_len(row_len: int, total_bits: int, window_size: int, w: int) -> int {
    let left = total_bits - w * window_size;
    let there = if left < window_size {
        left
    } else {
        window_size
    };
    if there < row_len {
        if there < 0 {
            0
        } else {
            there
        }
    } else {
        row_len
    }
}

/// The sum of the sums of the first `w` windows.
pub open spec fn windows_sum<G: Group>(rows: Seq<Seq<G>>, bits: Seq<bool>, window_size: int, w: int) -> G
    decreases w,
{
    if w <= 0 {
        G::zero_spec()
    } else {
        windows_sum(rows, bits, window_size, w - 1).add_spec(
            window_sum(
                rows[w - 1],
                bits,
                (w - 1) * window_size,
                window_len(rows[w - 1].len() as int, bits.len() as int, window_size, w - 1),
            ),
        )
    }
}

/// How many windows are summed: as many as there are rows, and no more
/// than the bits fill or begin.
pub open spec fn windows_used(num_rows: int, total_bits: int, window_size: int) -> int {
    let chunks = (total_bits + window_size - 1) / window_size;
    if chunks < num_rows {
        chunks
    } else {
        num_rows
    }
}

/// The sum of the bases at the set bits: in window `i` the bit `j` picks
/// the base `rows[i][j]`.
pub open spec fn msm_spec<G: Group>(rows: Seq<Seq<G>>, bits: Seq<bool>, window_size: int) -> G {
    windows_sum(
        rows,
        bits,
        window_size,
        windows_used(rows.len() as int, bits.len() as int, window_size),
    )
}

/// The sum over the `n` bits from `first` on of the entry of the row, or
/// of its inverse where the bit is set.
pub open spec fn symmetric_window_sum<G: Group>(row: Seq<G>, bits: Seq<bool>, first: int, n: int) -> G
    decreases n,
{
    if n <= 0 {
        G::zero_spec()
    } else {
        symmetric_window_sum(row, bits, first, n - 1).add_spec(
            if bits[first + n - 1] {
                row[n - 1].neg_spec()
            } else {
                row[n - 1]
            },
        )
    }
}

/// The sum of the symmetric sums of the first `w` windows.
pub open spec fn symmetric_windows_sum<G: Group>(
    rows: Seq<Seq<G>>,
    bits: Seq<bool>,
    window_size: int,
    w: int,
) -> G
    decreases w,
{
    if w <= 0 {
        G::zero_spec()
    } else {
        symmetric_windows_sum(rows, bits, window_size, w - 1).add_spec(
            symmetric_window_sum(
                rows[w - 1],
                bits,
                (w - 1) * window_size,
                window_len(rows[w - 1].len() as int, bits.len() as int, window_size, w - 1),
            ),
        )
    }
}

/// The sum over all bits of the base, or of its inverse where the bit is
/// set.
pub open spec fn symmetric_msm_spec<G: Group>(rows: Seq<Seq<G>>, bits: Seq<bool>, window_size: int) -> G {
    symmetric_windows_sum(
        rows,
        bits,
        window_size,
        windows_used(rows.len() as int, bits.len() as int, window_size),
    )
}

/// The masked sum over the `n` bits from `first` on: where the bit and
/// the mask bit differ, the base is added, or its inverse where the mask
/// bit is set; and for every bit the mask base is taken away, or added
/// where the mask bit is set.
pub open spec fn masked_window_sum<G: Group>(
    row: Seq<G>,
    mask_row: Seq<G>,
    bits: Seq<bool>,
    mask_bits: Seq<bool>,
    first: int,
    n: int,
) -> G
    decreases n,
{
    if n <= 0 {
        G::zero_spec()
    } else {
        let s = masked_window_sum(row, mask_row, bits, mask_bits, first, n - 1);
        let m = bits[first + n - 1];
        let p = mask_bits[first + n - 1];
        let t = if m != p {
            s.add_spec(
                if p {
                    row[n - 1].neg_spec()
                } else {
                    row[n - 1]
                },
            )
        } else {
            s
        };
        t.add_spec(
            if p {
                mask_row[n - 1]
            } else {
                mask_row[n - 1].neg_spec()
            },
        )
    }
}

/// The lesser of two numbers.
pub open spec fn lesser(a: int, b: int) -> int {
    if a < b {
        a
    } else {
        b
    }
}

/// The sum of the masked sums of the first `w` windows.
pub open spec fn masked_windows_sum<G: Group>(
    rows: Seq<Seq<G>>,
    mask_rows: Seq<Seq<G>>,
    bits: Seq<bool>,
    mask_bits: Seq<bool>,
    window_size: int,
    w: int,
) -> G
    decreases w,
{
    if w <= 0 {
        G::zero_spec()
    } else {
        masked_windows_sum(rows, mask_rows, bits, mask_bits, window_size, w - 1).add_spec(
            masked_window_sum(
                rows[w - 1],
                mask_rows[w - 1],
                bits,
                mask_bits,
                (w - 1) * window_size,
                window_len(
                    lesser(rows[w - 1].len() as int, mask_rows[w - 1].len() as int),
                    lesser(bits.len() as int, mask_bits.len() as int),
                    window_size,
                    w - 1,
                ),
            ),
        )
    }
}

/// The masked sum over all bits.
pub open spec fn masked_msm_spec<G: Group>(
    rows: Seq<Seq<G>>,
    mask_rows: Seq<Seq<G>>,
    bits: Seq<bool>,
    mask_bits: Seq<bool>,
    window_size: int,
) -> G {
    masked_windows_sum(
        rows,
        mask_rows,
        bits,
        mask_bits,
        window_size,
        windows_used(
            lesser(rows.len() as int, mask_rows.len() as int),
            lesser(bits.len() as int, mask_bits.len() as int),
            window_size,
        ),
    )
}

/// Bit `t` of byte `i` of the extended mask: every bit `p` of the mask is
/// made the two bits `p, not p`, lowest first, so that a mask bit 0
/// becomes 01 and a mask bit 1 becomes 10.
pub open spec fn extended_byte_bit(mask: Seq<u8>, i: int, t: int) -> bool {
    let p = byte_bit(mask[i / 2], (i % 2) * 4 + t / 2);
    if t % 2 == 0 {
        p
    } else {
        !p
    }
}

/// `ext` is the extension of `mask`.
pub open spec fn is_extension(mask: Seq<u8>, ext: Seq<u8>) -> bool {
    &&& ext.len() == 2 * mask.len()
    &&& forall|i: int, t: int|
        0 <= i < ext.len() && 0 <= t < 8 ==> #[trigger] byte_bit(ext[i], t) == extended_byte_bit(
            mask,
            i,
            t,
        )
}

/// The masked hash: the masked sum of the input under the mask, to which
/// the hash of the extended mask and its symmetric sum over the mask
/// bases are added.
pub open spec fn masked_hash_spec<G: Group, S: PedersenSize>(
    rows: Seq<Seq<G>>,
    mask_rows: Seq<Seq<G>>,
    input: Seq<u8>,
    extended_mask: Seq<u8>,
) -> G {
    let w = S::WINDOW_SIZE as int;
    let bits = input_bits::<S>(input);
    let mask_bits = input_bits::<S>(extended_mask);
    masked_msm_spec(rows, mask_rows, bits, mask_bits, w).add_spec(msm_spec(rows, mask_bits, w)).add_spec(
        symmetric_msm_spec(mask_rows, mask_bits, w),
    )
}

/// The number of bytes that the input is padded to.
pub open spec fn padded_len<S: PedersenSize>() -> int {
    (S::WINDOW_SIZE * S::NUM_WINDOWS) / 8
}

/// The bits of the padded input, each byte least significant bit first.
pub open spec fn input_bits<S: PedersenSize>(input: Seq<u8>) -> Seq<bool> {
    Seq::new(
        (8 * padded_len::<S>()) as nat,
        |k: int| k / 8 < input.len() && byte_bit(input[k / 8], k % 8),
    )
}

/// The Pedersen hash of the input.
pub open spec fn hash_spec<G: Group, S: PedersenSize>(rows: Seq<Seq<G>>, input: Seq<u8>) -> G {
    msm_spec(rows, input_bits::<S>(input), S::WINDOW_SIZE as int)
}

/// The bits of a zero byte are unset.
pub proof fn lemma_zero_byte(i: int)
    requires
        0 <= i < 8,
    ensures
        !byte_bit(0u8, i),
{
    let s = i as u8;
    assert((0u8 >> s) & 1 == 0) by (bit_vector)
        requires
            s < 8,
    ;
}

/// Zero bytes appended to the input within the padding change nothing:
/// the bits of the padded input are the same.
pub proof fn lemma_padding<S: PedersenSize>(input: Seq<u8>, zeros: nat)
    ensures
        input_bits::<S>(input + Seq::new(zeros, |i: int| 0u8)) == input_bits::<S>(input),
{
    let longer = input + Seq::new(zeros, |i: int| 0u8);
    assert forall|k: int| 0 <= k < 8 * padded_len::<S>() implies input_bits::<S>(longer)[k]
        == input_bits::<S>(input)[k] by {
        if k / 8 < input.len() {
            assert(longer[k / 8] == input[k / 8]);
        } else if k / 8 < longer.len() {
            assert(longer[k / 8] == 0u8);
            lemma_zero_byte(k % 8);
        }
    }
    assert(input_bits::<S>(longer) =~= input_bits::<S>(input));
}

/// The Pedersen hash of an input with zero bytes appended is the hash of
/// the input.
pub proof fn lemma_hash_of_padded<G: Group, S: PedersenSize>(rows: Seq<Seq<G>>, input: Seq<u8>, zeros: nat)
    ensures
        hash_spec::<G, S>(rows, input + Seq::new(zeros, |i: int| 0u8)) == hash_spec::<G, S>(
            rows,
            input,
        ),
{
    lemma_padding::<S>(input, zeros);
}

/// The sum of the bases at the set bits.
pub fn multi_scalar_multiplication<G: Group>(bases: &Vec<Vec<G>>, bits: &Vec<bool>, window_size: usize) -> (r: G)
    requires
        G::is_group(),
        rows_wf(crate::algorithms::pedersen_parameters::rows_view(bases@)),
        window_size >= 1,
    ensures
        r == msm_spec(
            crate::algorithms::pedersen_parameters::rows_view(bases@),
            bits@,
            window_size as int,
        ),
        r.wf(),
{
    let ghost rows = crate::algorithms::pedersen_parameters::rows_view(bases@);
    let total = bits.len();
    let mut result = G::zero();
    let mut w: usize = 0;
    let mut first: usize = 0;
    proof {
        lemma_window_index(total as int, window_size as int, 0);
    }
    while w < bases.len() && first < total
        invariant
            w <= bases@.len(),
            first <= total,
            total == bits@.len(),
            window_size >= 1,
            G::is_group(),
            rows == crate::algorithms::pedersen_parameters::rows_view(bases@),
            rows_wf(rows),
            first < total ==> first == w * window_size,
            first >= total ==> w >= (total + window_size - 1) / (window_size as int),
            w <= (total + window_size - 1) / (window_size as int),
            result == windows_sum(rows, bits@, window_size as int, w as int),
            result.wf(),
        decreases bases@.len() - w,
    {
        let row = &bases[w];
        assert(row_wf(rows[w as int]));
        let left = total - first;
        let there = if left < window_size {
            left
        } else {
            window_size
        };
        let n = if there < row.len() {
            there
        } else {
            row.len()
        };
        let mut encoded = G::zero();
        let mut j: usize = 0;
        while j < n
            invariant
                j <= n,
                n <= row@.len(),
                first + n <= total,
                total == bits@.len(),
                row_wf(row@),
                encoded == window_sum(row@, bits@, first as int, j as int),
                encoded.wf(),
            decreases n - j,
        {
            assert(row@[j as int].wf());
            if bits[first + j] {
                encoded = encoded.add(&row[j]);
            }
            j += 1;
        }
        result = result.add(&encoded);
        proof {
            lemma_window_index(total as int, window_size as int, w as int);
            lemma_window_index(total as int, window_size as int, w + 1);
        }
        first = first + there;
        w += 1;
    }
    proof {
        lemma_window_index(total as int, window_size as int, w as int);
    }
    result
}

/// Window `w` of `k` bits begins within `len` bits exactly when `w` is
/// below the number of windows that `len` bits fill or begin.
pub proof fn lemma_window_index(len: int, k: int, w: int) by (nonlinear_arith)
    requires
        0 <= len,
        1 <= k,
        0 <= w,
    ensures
        (w * k < len) <==> w < (len + k - 1) / k,
        (w + 1) * k == w * k + k,
        0 <= w * k,
        (len + k - 1) / k >= 0,
{
}

/// The bits of the input padded with zero bytes, each byte least
/// significant bit first.
pub fn bits_of_input<S: PedersenSize>(input: &[u8]) -> (r: Vec<bool>)
    requires
        S::WINDOW_SIZE * S::NUM_WINDOWS <= usize::MAX,
    ensures
        r@ == input_bits::<S>(input@),
{
    let padded = (S::WINDOW_SIZE * S::NUM_WINDOWS) / 8;
    let total = 8 * padded;
    let mut bits: Vec<bool> = Vec::new();
    let mut k: usize = 0;
    while k < total
        invariant
            k <= total,
            total == 8 * padded_len::<S>(),
            bits@.len() == k,
            forall|t: int|
                0 <= t < k ==> (#[trigger] bits@[t]) == (t / 8 < input@.len() && byte_bit(
                    input@[t / 8],
                    t % 8,
                )),
        decreases total - k,
    {
        let byte = k / 8;
        let b = byte < input.len() && (input[byte] >> ((k % 8) as u8)) & 1 == 1;
        bits.push(b);
        k += 1;
    }
    assert(bits@ =~= input_bits::<S>(input@));
    bits
}

/// The byte with the given bits, lowest first.
pub fn byte_of_bits(b0: bool, b1: bool, b2: bool, b3: bool, b4: bool, b5: bool, b6: bool, b7: bool) -> (v:
    u8)
    ensures
        byte_bit(v, 0) == b0,
        byte_bit(v, 1) == b1,
        byte_bit(v, 2) == b2,
        byte_bit(v, 3) == b3,
        byte_bit(v, 4) == b4,
        byte_bit(v, 5) == b5,
        byte_bit(v, 6) == b6,
        byte_bit(v, 7) == b7,
{
    let x0: u8 = if b0 { 1 } else { 0 };
    let x1: u8 = if b1 { 2 } else { 0 };
    let x2: u8 = if b2 { 4 } else { 0 };
    let x3: u8 = if b3 { 8 } else { 0 };
    let x4: u8 = if b4 { 16 } else { 0 };
    let x5: u8 = if b5 { 32 } else { 0 };
    let x6: u8 = if b6 { 64 } else { 0 };
    let x7: u8 = if b7 { 128 } else { 0 };
    let v = x0 | x1 | x2 | x3 | x4 | x5 | x6 | x7;
    assert(((v >> 0u8) & 1 == 1) == (x0 == 1) && ((v >> 1u8) & 1 == 1) == (x1 == 2) && ((v >> 2u8) & 1
        == 1) == (x2 == 4) && ((v >> 3u8) & 1 == 1) == (x3 == 8) && ((v >> 4u8) & 1 == 1) == (x4 == 16)
        && ((v >> 5u8) & 1 == 1) == (x5 == 32) && ((v >> 6u8) & 1 == 1) == (x6 == 64) && ((v >> 7u8) & 1
        == 1) == (x7 == 128)) by (bit_vector)
        requires
            v == x0 | x1 | x2 | x3 | x4 | x5 | x6 | x7,
            x0 == 0 || x0 == 1,
            x1 == 0 || x1 == 2,
            x2 == 0 || x2 == 4,
            x3 == 0 || x3 == 8,
            x4 == 0 || x4 == 16,
            x5 == 0 || x5 == 32,
            x6 == 0 || x6 == 64,
            x7 == 0 || x7 == 128,
    ;
    v
}

/// The extension of the mask: every bit `p` is made the two bits
/// `p, not p`.
pub fn extend_mask(mask: &[u8]) -> (ext: Vec<u8>)
    requires
        2 * mask@.len() <= usize::MAX,
    ensures
        is_extension(mask@, ext@),
{
    let mut ext: Vec<u8> = Vec::new();
    let mut i: usize = 0;
    while i < mask.len()
        invariant
            i <= mask@.len(),
            ext@.len() == 2 * i,
            forall|k: int, t: int|
                0 <= k < 2 * i && 0 <= t < 8 ==> #[trigger] byte_bit(ext@[k], t) == extended_byte_bit(
                    mask@,
                    k,
                    t,
                ),
        decreases mask@.len() - i,
    {
        let m = mask[i];
        let bit0 = (m >> 0u8) & 1 == 1;
        let bit1 = (m >> 1u8) & 1 == 1;
        let bit2 = (m >> 2u8) & 1 == 1;
        let bit3 = (m >> 3u8) & 1 == 1;
        let bit4 = (m >> 4u8) & 1 == 1;
        let bit5 = (m >> 5u8) & 1 == 1;
        let bit6 = (m >> 6u8) & 1 == 1;
        let bit7 = (m >> 7u8) & 1 == 1;
        let low = byte_of_bits(bit0, !bit0, bit1, !bit1, bit2, !bit2, bit3, !bit3);
        let high = byte_of_bits(bit4, !bit4, bit5, !bit5, bit6, !bit6, bit7, !bit7);
        ext.push(low);
        ext.push(high);
        i += 1;
    }
    ext
}

/// The sum over all bits of the base, or of its inverse where the bit is
/// set.
pub fn symmetric_multi_scalar_multiplication<G: Group>(
    bases: &Vec<Vec<G>>,
    bits: &Vec<bool>,
    window_size: usize,
) -> (r: G)
    requires
        G::is_group(),
        rows_wf(crate::algorithms::pedersen_parameters::rows_view(bases@)),
        window_size >= 1,
    ensures
        r == symmetric_msm_spec(
            crate::algorithms::pedersen_parameters::rows_view(bases@),
            bits@,
            window_size as int,
        ),
        r.wf(),
{
    let ghost rows = crate::algorithms::pedersen_parameters::rows_view(bases@);
    let total = bits.len();
    let mut result = G::zero();
    let mut w: usize = 0;
    let mut first: usize = 0;
    proof {
        lemma_window_index(total as int, window_size as int, 0);
    }
    while w < bases.len() && first < total
        invariant
            w <= bases@.len(),
            first <= total,
            total == bits@.len(),
            window_size >= 1,
            G::is_group(),
            rows == crate::algorithms::pedersen_parameters::rows_view(bases@),
            rows_wf(rows),
            first < total ==> first == w * window_size,
            first >= total ==> w >= (total + window_size - 1) / (window_size as int),
            w <= (total + window_size - 1) / (window_size as int),
            result == symmetric_windows_sum(rows, bits@, window_size as int, w as int),
            result.wf(),
        decreases bases@.len() - w,
    {
        let row = &bases[w];
        assert(row_wf(rows[w as int]));
        let left = total - first;
        let there = if left < window_size {
            left
        } else {
            window_size
        };
        let n = if there < row.len() {
            there
        } else {
            row.len()
        };
        let mut encoded = G::zero();
        let mut j: usize = 0;
        while j < n
            invariant
                j <= n,
                n <= row@.len(),
                first + n <= total,
                total == bits@.len(),
                row_wf(row@),
                encoded == symmetric_window_sum(row@, bits@, first as int, j as int),
                encoded.wf(),
            decreases n - j,
        {
            assert(row@[j as int].wf());
            if bits[first + j] {
                encoded = encoded.add(&row[j].neg());
            } else {
                encoded = encoded.add(&row[j]);
            }
            j += 1;
        }
        result = result.add(&encoded);
        proof {
            lemma_window_index(total as int, window_size as int, w as int);
            lemma_window_index(total as int, window_size as int, w + 1);
        }
        first = first + there;
        w += 1;
    }
    proof {
        lemma_window_index(total as int, window_size as int, w as int);
    }
    result
}

/// The masked sum over all bits.
pub fn masked_multi_scalar_multiplication<G: Group>(
    bases: &Vec<Vec<G>>,
    bits: &Vec<bool>,
    mask_bases: &Vec<Vec<G>>,
    mask_bits: &Vec<bool>,
    window_size: usize,
) -> (r: G)
    requires
        G::is_group(),
        rows_wf(crate::algorithms::pedersen_parameters::rows_view(bases@)),
        rows_wf(crate::algorithms::pedersen_parameters::rows_view(mask_bases@)),
        window_size >= 1,
    ensures
        r == masked_msm_spec(
            crate::algorithms::pedersen_parameters::rows_view(bases@),
            crate::algorithms::pedersen_parameters::rows_view(mask_bases@),
            bits@,
            mask_bits@,
            window_size as int,
        ),
        r.wf(),
{
    let ghost rows = crate::algorithms::pedersen_parameters::rows_view(bases@);
    let ghost mask_rows = crate::algorithms::pedersen_parameters::rows_view(mask_bases@);
    let total = if bits.len() < mask_bits.len() {
        bits.len()
    } else {
        mask_bits.len()
    };
    let num_rows = if bases.len() < mask_bases.len() {
        bases.len()
    } else {
        mask_bases.len()
    };
    let mut result = G::zero();
    let mut w: usize = 0;
    let mut first: usize = 0;
    proof {
        lemma_window_index(total as int, window_size as int, 0);
    }
    while w < num_rows && first < total
        invariant
            w <= num_rows,
            num_rows == lesser(bases@.len() as int, mask_bases@.len() as int),
            first <= total,
            total == lesser(bits@.len() as int, mask_bits@.len() as int),
            window_size >= 1,
            G::is_group(),
            rows == crate::algorithms::pedersen_parameters::rows_view(bases@),
            mask_rows == crate::algorithms::pedersen_parameters::rows_view(mask_bases@),
            rows_wf(rows),
            rows_wf(mask_rows),
            first < total ==> first == w * window_size,
            first >= total ==> w >= (total + window_size - 1) / (window_size as int),
            w <= (total + window_size - 1) / (window_size as int),
            result == masked_windows_sum(rows, mask_rows, bits@, mask_bits@, window_size as int, w as int),
            result.wf(),
        decreases num_rows - w,
    {
        let row = &bases[w];
        let mask_row = &mask_bases[w];
        assert(row_wf(rows[w as int]));
        assert(row_wf(mask_rows[w as int]));
        let left = total - first;
        let there = if left < window_size {
            left
        } else {
            window_size
        };
        let row_len = if row.len() < mask_row.len() {
            row.len()
        } else {
            mask_row.len()
        };
        let n = if there < row_len {
            there
        } else {
            row_len
        };
        let mut encoded = G::zero();
        let mut j: usize = 0;
        while j < n
            invariant
                j <= n,
                n <= row@.len(),
                n <= mask_row@.len(),
                first + n <= total,
                total <= bits@.len(),
                total <= mask_bits@.len(),
                row_wf(row@),
                row_wf(mask_row@),
                encoded == masked_window_sum(row@, mask_row@, bits@, mask_bits@, first as int, j as int),
                encoded.wf(),
            decreases n - j,
        {
            assert(row@[j as int].wf());
            assert(mask_row@[j as int].wf());
            let m = bits[first + j];
            let p = mask_bits[first + j];
            if m != p {
                if p {
                    encoded = encoded.add(&row[j].neg());
                } else {
                    encoded = encoded.add(&row[j]);
                }
            }
            if p {
                encoded = encoded.add(&mask_row[j]);
            } else {
                encoded = encoded.add(&mask_row[j].neg());
            }
            j += 1;
        }
        result = result.add(&encoded);
        proof {
            lemma_window_index(total as int, window_size as int, w as int);
            lemma_window_index(total as int, window_size as int, w + 1);
        }
        first = first + there;
        w += 1;
    }
    proof {
        lemma_window_index(total as int, window_size as int, w as int);
    }
    result
}

/// The Pedersen hash.
pub struct PedersenCRH<G: Group, S: PedersenSize> {
    pub parameters: PedersenCRHParameters<G, S>,
}

impl<G: Group, S: PedersenSize> PedersenCRH<G, S> {
    /// The hash with the given parameters.
    pub fn from(parameters: PedersenCRHParameters<G, S>) -> (r: Self)
        ensures
            r.parameters == parameters,
    {
        PedersenCRH { parameters }
    }

    /// The parameters of the hash.
    pub fn parameters(&self) -> (p: &PedersenCRHParameters<G, S>)
        ensures
            *p == self.parameters,
    {
        &self.parameters
    }

    /// The hash of `input`.  Fails with `IncorrectInputLength` exactly
    /// when the input has more bits than the windows take, else with
    /// `IncorrectParameterSize` exactly when there is not one row of bases
    /// for each window.
    pub fn hash(&self, input: &[u8]) -> (r: Result<G, CRHError>)
        requires
            G::is_group(),
            self.parameters.wf(),
            S::WINDOW_SIZE >= 1,
            S::WINDOW_SIZE * S::NUM_WINDOWS <= usize::MAX,
            input@.len() * 8 <= usize::MAX,
        ensures
            r == (if input@.len() * 8 > S::WINDOW_SIZE * S::NUM_WINDOWS {
                Err::<G, CRHError>(CRHError::IncorrectInputLength)
            } else if self.parameters.rows().len() != S::NUM_WINDOWS {
                Err(CRHError::IncorrectParameterSize)
            } else {
                Ok(hash_spec::<G, S>(self.parameters.rows(), input@))
            }),
            r is Ok ==> r->Ok_0.wf(),
    {
        if input.len() * 8 > S::WINDOW_SIZE * S::NUM_WINDOWS {
            return Err(CRHError::IncorrectInputLength);
        }
        if self.parameters.bases.len() != S::NUM_WINDOWS {
            return Err(CRHError::IncorrectParameterSize);
        }
        // Pad the input if it is not the current length.
        let bits = bits_of_input::<S>(input);
        // Compute sum of h_i^{m_i} for all i.
        Ok(multi_scalar_multiplication::<G>(&self.parameters.bases, &bits, S::WINDOW_SIZE))
    }

    /// The masked hash of `input` under `mask`, with the mask bases of
    /// `mask_parameters`.  Fails with `IncorrectInputLength` exactly when
    /// the input is not twice as long as the mask or has more bits than
    /// the windows take, else with `IncorrectParameterSize` exactly when
    /// there is not one row of bases for each window.
    pub fn hash_masked(&self, input: &[u8], mask_parameters: &PedersenCRHParameters<G, S>, mask: &[u8]) -> (r:
        Result<G, CRHError>)
        requires
            G::is_group(),
            self.parameters.wf(),
            mask_parameters.wf(),
            S::WINDOW_SIZE >= 1,
            S::WINDOW_SIZE * S::NUM_WINDOWS <= usize::MAX,
            input@.len() * 8 <= usize::MAX,
            mask@.len() * 2 <= usize::MAX,
        ensures
            match r {
                Ok(g) => {
                    &&& input@.len() == 2 * mask@.len()
                    &&& input@.len() * 8 <= S::WINDOW_SIZE * S::NUM_WINDOWS
                    &&& self.parameters.rows().len() == S::NUM_WINDOWS
                    &&& exists|ext: Seq<u8>|
                        is_extension(mask@, ext) && g == masked_hash_spec::<G, S>(
                            self.parameters.rows(),
                            mask_parameters.rows(),
                            input@,
                            ext,
                        )
                },
                Err(CRHError::IncorrectInputLength) => input@.len() != 2 * mask@.len() || input@.len() * 8
                    > S::WINDOW_SIZE * S::NUM_WINDOWS,
                Err(CRHError::IncorrectParameterSize) => {
                    &&& input@.len() == 2 * mask@.len()
                    &&& input@.len() * 8 <= S::WINDOW_SIZE * S::NUM_WINDOWS
                    &&& self.parameters.rows().len() != S::NUM_WINDOWS
                },
            },
    {
        if input.len() != mask.len() * 2 {
            return Err(CRHError::IncorrectInputLength);
        }
        let mask = extend_mask(mask);
        // H(p) = sum of g_i^{p_i} for all i.
        let mask_hash = match self.hash(mask.as_slice()) {
            Ok(h) => h,
            Err(e) => {
                return Err(e);
            },
        };
        // H_2(p) = sum of h_i^{1-2*p_i} for all i.
        let mask_bits = bits_of_input::<S>(mask.as_slice());
        let mask_symmetric_hash = symmetric_multi_scalar_multiplication::<G>(
            &mask_parameters.bases,
            &mask_bits,
            S::WINDOW_SIZE,
        );
        let input_in_bits = bits_of_input::<S>(input);
        let masked_output = masked_multi_scalar_multiplication::<G>(
            &self.parameters.bases,
            &input_in_bits,
            &mask_parameters.bases,
            &mask_bits,
            S::WINDOW_SIZE,
        );
        let out = masked_output.add(&mask_hash).add(&mask_symmetric_hash);
        assert(out == masked_hash_spec::<G, S>(
            self.parameters.rows(),
            mask_parameters.rows(),
            input@,
            mask@,
        ));
        Ok(out)
    }
}

/// The Pedersen hash, of which only the x-coordinate of the affine form
/// is kept.
pub struct PedersenCompressedCRH<G: ProjectiveCurve, S: PedersenSize> {
    pub parameters: PedersenCRHParameters<G, S>,
}

impl<G: ProjectiveCurve, S: PedersenSize> PedersenCompressedCRH<G, S> {
    /// The hash with the given parameters.
    pub fn from(parameters: PedersenCRHParameters<G, S>) -> (r: Self)
        ensures
            r.parameters == parameters,
    {
        PedersenCompressedCRH { parameters }
    }

    /// The x-coordinate of the hash of `input`.
    pub fn hash(&self, input: &[u8]) -> (r: Result<G::BaseField, CRHError>)
        requires
            G::is_group(),
            self.parameters.wf(),
            S::WINDOW_SIZE >= 1,
            S::WINDOW_SIZE * S::NUM_WINDOWS <= usize::MAX,
            input@.len() * 8 <= usize::MAX,
        ensures
            r == (if input@.len() * 8 > S::WINDOW_SIZE * S::NUM_WINDOWS {
                Err::<G::BaseField, CRHError>(CRHError::IncorrectInputLength)
            } else if self.parameters.rows().len() != S::NUM_WINDOWS {
                Err(CRHError::IncorrectParameterSize)
            } else {
                Ok(hash_spec::<G, S>(self.parameters.rows(), input@).affine_x_spec())
            }),
    {
        if input.len() * 8 > S::WINDOW_SIZE * S::NUM_WINDOWS {
            return Err(CRHError::IncorrectInputLength);
        }
        if self.parameters.bases.len() != S::NUM_WINDOWS {
            return Err(CRHError::IncorrectParameterSize);
        }
        let bits = bits_of_input::<S>(input);
        let output = multi_scalar_multiplication::<G>(&self.parameters.bases, &bits, S::WINDOW_SIZE);
        Ok(output.to_affine_x())
    }
}

} // verus!
