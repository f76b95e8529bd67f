//! Laws of the Pedersen hash.
use crate::algorithms::pedersen::{
    hash_spec, input_bits, lesser, masked_hash_spec, masked_window_sum, masked_windows_sum,
    symmetric_window_sum, symmetric_windows_sum, window_len, window_sum, windows_sum, windows_used,
};
use crate::algorithms::pedersen_parameters::{row_wf, rows_wf, PedersenSize};
use crate::curves::group::Group;
use crate::curves::lawful::LawfulGroup;
use vstd::prelude::*;

verus! {

/// The sums over a window are elements of the group.
pub proof fn lemma_window_sums_wf<G: Group>(
    row: Seq<G>,
    mask_row: Seq<G>,
    bits: Seq<bool>,
    mask_bits: Seq<bool>,
    first: int,
    n: int,
)
    requires
        G::is_group(),
        row_wf(row),
        row_wf(mask_row),
        n <= row.len(),
        n <= mask_row.len(),
    ensures
        window_sum(row, bits, first, n).wf(),
        symmetric_window_sum(mask_row, mask_bits, first, n).wf(),
        masked_window_sum(row, mask_row, bits, mask_bits, first, n).wf(),
    decreases n,
{
    G::lemma_zero();
    if n > 0 {
        lemma_window_sums_wf(row, mask_row, bits, mask_bits, first, n - 1);
        let h = row[n - 1];
        let g = mask_row[n - 1];
        assert(h.wf() && g.wf());
        G::lemma_closed(h, g);
        G::lemma_closed(g, h);
        let s = masked_window_sum(row, mask_row, bits, mask_bits, first, n - 1);
        G::lemma_closed(s, h);
        G::lemma_closed(s, h.neg_spec());
        G::lemma_closed(s.add_spec(h), g);
        G::lemma_closed(s.add_spec(h), g.neg_spec());
        G::lemma_closed(s.add_spec(h.neg_spec()), g);
        G::lemma_closed(s.add_spec(h.neg_spec()), g.neg_spec());
        G::lemma_closed(s, g);
        G::lemma_closed(s, g.neg_spec());
        G::lemma_closed(window_sum(row, bits, first, n - 1), h);
        G::lemma_closed(symmetric_window_sum(mask_row, mask_bits, first, n - 1), g);
        G::lemma_closed(symmetric_window_sum(mask_row, mask_bits, first, n - 1), g.neg_spec());
    }
}

/// `(a + x) + (-x) = a` and `(a + (-x)) + x = a`.
pub proof fn lemma_cancel_pair<G: LawfulGroup>(a: G, x: G)
    requires
        a.wf(),
        x.wf(),
    ensures
        a.add_spec(x).add_spec(x.neg_spec()) == a,
        a.add_spec(x.neg_spec()).add_spec(x) == a,
{
    let nx = x.neg_spec();
    G::lemma_closed(x, x);
    G::lemma_add_associative(a, x, nx);
    G::lemma_add_associative(a, nx, x);
    G::lemma_add_commutative(nx, x);
    G::lemma_add_neg(x);
    G::lemma_add_zero(a);
}

/// `(a + b) + (c + d) = (a + c) + (b + d)`.
pub proof fn lemma_swap_middle<G: LawfulGroup>(a: G, b: G, c: G, d: G)
    requires
        a.wf(),
        b.wf(),
        c.wf(),
        d.wf(),
    ensures
        a.add_spec(b).add_spec(c.add_spec(d)) == a.add_spec(c).add_spec(b.add_spec(d)),
{
    G::lemma_closed(c, d);
    G::lemma_closed(b, c);
    G::lemma_closed(b, d);
    // (a + b) + (c + d) = a + (b + (c + d)) = a + ((b + c) + d) = a + ((c + b) + d)
    //   = a + (c + (b + d)) = (a + c) + (b + d)
    G::lemma_add_associative(a, b, c.add_spec(d));
    G::lemma_add_associative(b, c, d);
    G::lemma_add_commutative(b, c);
    G::lemma_add_associative(c, b, d);
    G::lemma_add_associative(a, c, b.add_spec(d));
}

/// `((m0 + m1) + (h0 + h1)) + (y0 + y1) = ((m0 + h0) + y0) + ((m1 + h1) + y1)`.
pub proof fn lemma_interleave<G: LawfulGroup>(m0: G, h0: G, y0: G, m1: G, h1: G, y1: G)
    requires
        m0.wf(),
        h0.wf(),
        y0.wf(),
        m1.wf(),
        h1.wf(),
        y1.wf(),
    ensures
        m0.add_spec(m1).add_spec(h0.add_spec(h1)).add_spec(y0.add_spec(y1)) == m0.add_spec(
            h0,
        ).add_spec(y0).add_spec(m1.add_spec(h1).add_spec(y1)),
{
    G::lemma_closed(m0, h0);
    G::lemma_closed(m1, h1);
    lemma_swap_middle(m0, m1, h0, h1);
    lemma_swap_middle(m0.add_spec(h0), m1.add_spec(h1), y0, y1);
}

/// In one window the mask is taken out again: the masked sum, the sum of
/// the bases at the set mask bits and the symmetric sum of the mask bases
/// add up to the sum of the bases at the set bits.
pub proof fn lemma_window_unmasked<G: LawfulGroup>(
    row: Seq<G>,
    mask_row: Seq<G>,
    bits: Seq<bool>,
    mask_bits: Seq<bool>,
    first: int,
    n: int,
)
    requires
        G::is_group(),
        row_wf(row),
        row_wf(mask_row),
        n <= row.len(),
        n <= mask_row.len(),
    ensures
        masked_window_sum(row, mask_row, bits, mask_bits, first, n).add_spec(
            window_sum(row, mask_bits, first, n),
        ).add_spec(symmetric_window_sum(mask_row, mask_bits, first, n)) == window_sum(
            row,
            bits,
            first,
            n,
        ),
    decreases n,
{
    G::lemma_zero();
    let zero = G::zero_spec();
    if n <= 0 {
        G::lemma_add_zero(zero);
    } else {
        lemma_window_unmasked(row, mask_row, bits, mask_bits, first, n - 1);
        lemma_window_sums_wf(row, mask_row, bits, mask_bits, first, n - 1);
        lemma_window_sums_wf(row, mask_row, mask_bits, mask_bits, first, n - 1);
        let h = row[n - 1];
        let g = mask_row[n - 1];
        assert(h.wf() && g.wf());
        let nh = h.neg_spec();
        let ng = g.neg_spec();
        G::lemma_closed(h, g);
        G::lemma_closed(g, h);
        let m0 = masked_window_sum(row, mask_row, bits, mask_bits, first, n - 1);
        let h0 = window_sum(row, mask_bits, first, n - 1);
        let y0 = symmetric_window_sum(mask_row, mask_bits, first, n - 1);
        let t0 = window_sum(row, bits, first, n - 1);
        let m = bits[first + n - 1];
        let p = mask_bits[first + n - 1];
        // the terms that the last bit adds to the three sums
        let a = if m != p {
            (if p {
                nh
            } else {
                h
            }).add_spec(
                if p {
                    g
                } else {
                    ng
                },
            )
        } else if p {
            g
        } else {
            ng
        };
        let b = if p {
            h
        } else {
            zero
        };
        let c = if p {
            ng
        } else {
            g
        };
        G::lemma_closed(nh, g);
        G::lemma_closed(h, ng);
        // the three sums with the last bit are m0 + a, h0 + b and y0 + c
        if m != p {
            G::lemma_add_associative(
                m0,
                if p {
                    nh
                } else {
                    h
                },
                if p {
                    g
                } else {
                    ng
                },
            );
        }
        G::lemma_add_zero(h0);
        assert(masked_window_sum(row, mask_row, bits, mask_bits, first, n) == m0.add_spec(a));
        assert(window_sum(row, mask_bits, first, n) == h0.add_spec(b));
        assert(symmetric_window_sum(mask_row, mask_bits, first, n) == y0.add_spec(c));
        lemma_interleave(m0, h0, y0, a, b, c);
        // what the last bit adds in all is the base at a set bit
        let all = a.add_spec(b).add_spec(c);
        if p {
            if m {
                // (g + h) + -g = (h + g) + -g = h
                G::lemma_add_commutative(g, h);
                lemma_cancel_pair(h, g);
                assert(all == h);
            } else {
                // ((-h + g) + h) + -g = ((g + -h) + h) + -g = g + -g = 0
                G::lemma_add_commutative(nh, g);
                lemma_cancel_pair(g, h);
                G::lemma_add_neg(g);
                assert(all == zero);
            }
        } else {
            if m {
                // ((h + -g) + 0) + g = (h + -g) + g = h
                G::lemma_add_zero(h.add_spec(ng));
                lemma_cancel_pair(h, g);
                assert(all == h);
            } else {
                // (-g + 0) + g = -g + g = 0
                G::lemma_add_zero(ng);
                G::lemma_add_commutative(ng, g);
                G::lemma_add_neg(g);
                assert(all == zero);
            }
        }
        G::lemma_add_zero(t0);
    }
}

/// For the first `w` windows the mask is taken out again.
pub proof fn lemma_windows_unmasked<G: LawfulGroup>(
    rows: Seq<Seq<G>>,
    mask_rows: Seq<Seq<G>>,
    bits: Seq<bool>,
    mask_bits: Seq<bool>,
    window_size: int,
    w: int,
)
    requires
        G::is_group(),
        rows_wf(rows),
        rows_wf(mask_rows),
        rows.len() == mask_rows.len(),
        forall|i: int| 0 <= i < rows.len() ==> (#[trigger] rows[i]).len() == mask_rows[i].len(),
        bits.len() == mask_bits.len(),
        window_size >= 1,
        0 <= w <= rows.len(),
    ensures
        masked_windows_sum(rows, mask_rows, bits, mask_bits, window_size, w).add_spec(
            windows_sum(rows, mask_bits, window_size, w),
        ).add_spec(symmetric_windows_sum(mask_rows, mask_bits, window_size, w)) == windows_sum(
            rows,
            bits,
            window_size,
            w,
        ),
        masked_windows_sum(rows, mask_rows, bits, mask_bits, window_size, w).wf(),
        windows_sum(rows, mask_bits, window_size, w).wf(),
        windows_sum(rows, bits, window_size, w).wf(),
        symmetric_windows_sum(mask_rows, mask_bits, window_size, w).wf(),
    decreases w,
{
    G::lemma_zero();
    let zero = G::zero_spec();
    if w <= 0 {
        G::lemma_add_zero(zero);
    } else {
        lemma_windows_unmasked(rows, mask_rows, bits, mask_bits, window_size, w - 1);
        let row = rows[w - 1];
        let mask_row = mask_rows[w - 1];
        assert(row_wf(row) && row_wf(mask_row));
        assert(row.len() == mask_row.len());
        let first = (w - 1) * window_size;
        let n = window_len(row.len() as int, bits.len() as int, window_size, w - 1);
        lemma_window_unmasked(row, mask_row, bits, mask_bits, first, n);
        lemma_window_sums_wf(row, mask_row, bits, mask_bits, first, n);
        lemma_window_sums_wf(row, mask_row, mask_bits, mask_bits, first, n);
        let m0 = masked_windows_sum(rows, mask_rows, bits, mask_bits, window_size, w - 1);
        let h0 = windows_sum(rows, mask_bits, window_size, w - 1);
        let y0 = symmetric_windows_sum(mask_rows, mask_bits, window_size, w - 1);
        let t0 = windows_sum(rows, bits, window_size, w - 1);
        let m1 = masked_window_sum(row, mask_row, bits, mask_bits, first, n);
        let h1 = window_sum(row, mask_bits, first, n);
        let y1 = symmetric_window_sum(mask_row, mask_bits, first, n);
        let t1 = window_sum(row, bits, first, n);
        assert(lesser(row.len() as int, mask_row.len() as int) == row.len());
        assert(lesser(bits.len() as int, mask_bits.len() as int) == bits.len());
        assert(masked_windows_sum(rows, mask_rows, bits, mask_bits, window_size, w) == m0.add_spec(
            m1,
        ));
        lemma_interleave(m0, h0, y0, m1, h1, y1);
        G::lemma_closed(m0, m1);
        G::lemma_closed(h0, h1);
        G::lemma_closed(y0, y1);
        G::lemma_closed(t0, t1);
    }
}

/// The masked hash of an input under a mask is the hash of the input, in
/// every group whose laws are proved, where the mask bases have the shape
/// of the bases.
pub proof fn lemma_masked_hash_is_hash<G: LawfulGroup, S: PedersenSize>(
    rows: Seq<Seq<G>>,
    mask_rows: Seq<Seq<G>>,
    input: Seq<u8>,
    extended_mask: Seq<u8>,
)
    requires
        G::is_group(),
        rows_wf(rows),
        rows_wf(mask_rows),
        rows.len() == mask_rows.len(),
        forall|i: int| 0 <= i < rows.len() ==> (#[trigger] rows[i]).len() == mask_rows[i].len(),
        S::WINDOW_SIZE >= 1,
    ensures
        masked_hash_spec::<G, S>(rows, mask_rows, input, extended_mask) == hash_spec::<G, S>(
            rows,
            input,
        ),
{
    let w = S::WINDOW_SIZE as int;
    let bits = input_bits::<S>(input);
    let mask_bits = input_bits::<S>(extended_mask);
    let used = windows_used(rows.len() as int, bits.len() as int, w);
    crate::algorithms::pedersen::lemma_window_index(bits.len() as int, w, 0);
    lemma_windows_unmasked(rows, mask_rows, bits, mask_bits, w, used);
}

} // verus!
