//! Multi-limb integers as values: the limbs of a given integer, arrays with
//! given limbs, and the byte encoding of limbs.
use crate::bits::limb_bit;
use crate::bytes::{lemma_concat_parts, lemma_window_split, read_u64, window, write_u64, ByteError};
use crate::fields::bigint::{
    base_pow, halve, lemma_base_pow_positive, lemma_limbs_value_bound, lemma_limbs_value_split,
    limb_base, limbs_value, limbs_value_from, zero_limbs, limbs_equal,
};
use crate::fields::fp::{bit_length, lemma_bit_length_bound};
use vstd::arithmetic::div_mod::*;
use vstd::arithmetic::mul::*;
use vstd::arithmetic::power2::{
    lemma2_to64, lemma2_to64_rest, lemma_pow2_adds, lemma_pow2_pos, lemma_pow2_unfold, pow2,
};
use vstd::array::{array_fill_for_copy_types, spec_array_fill_for_copy_type, spec_array_update};
use vstd::bits::lemma_u64_shr_is_div;
use vstd::bytes::*;
use vstd::prelude::*;

verus! {

/// The `n` limbs of `v`, least significant first.
pub open spec fn limbs_of(v: int, n: nat) -> Seq<u64>
    decreases n,
{
    if n == 0 {
        Seq::empty()
    } else {
        limbs_of(v % base_pow((n - 1) as nat), (n - 1) as nat).push(
            (v / base_pow((n - 1) as nat)) as u64,
        )
    }
}

/// The limbs of an integer below `2^(64 n)` make that integer.
pub proof fn lemma_limbs_of(v: int, n: nat)
    requires
        0 <= v < base_pow(n),
    ensures
        limbs_of(v, n).len() == n,
        limbs_value(limbs_of(v, n)) == v,
    decreases n,
{
    if n > 0 {
        let k = (n - 1) as nat;
        let bp = base_pow(k);
        lemma_base_pow_positive(k);
        lemma_mod_bound(v, bp);
        lemma_fundamental_div_mod(v, bp);
        let q = v / bp;
        assert(0 <= q < 0x1_0000_0000_0000_0000) by (nonlinear_arith)
            requires
                v == bp * q + v % bp,
                0 <= v % bp < bp,
                0 <= v < limb_base() * bp,
                limb_base() == 0x1_0000_0000_0000_0000,
        ;
        lemma_limbs_of(v % bp, k);
        let s = limbs_of(v, n);
        assert(s.drop_last() =~= limbs_of(v % bp, k));
        assert(q * bp == bp * q) by (nonlinear_arith);
    }
}

/// The array whose first `k` limbs are those of `s`, and whose others are
/// zero.
pub open spec fn array_of<const N: usize>(s: Seq<u64>, k: nat) -> [u64; N]
    decreases k,
{
    if k == 0 {
        spec_array_fill_for_copy_type(0u64)
    } else {
        spec_array_update(array_of::<N>(s, (k - 1) as nat), k - 1, s[k - 1])
    }
}

/// The array of the limbs `s` has the limbs `s`.
pub proof fn lemma_array_of<const N: usize>(s: Seq<u64>, k: nat)
    requires
        k <= N,
        s.len() == N,
    ensures
        forall|j: int| 0 <= j < k ==> array_of::<N>(s, k)@[j] == s[j],
        k == N ==> array_of::<N>(s, k)@ == s,
    decreases k,
{
    if k > 0 {
        lemma_array_of::<N>(s, (k - 1) as nat);
    }
    if k == N {
        assert(array_of::<N>(s, k)@ =~= s);
    }
}

/// The bytes of the limbs: each limb's eight bytes, least significant
/// first.
pub open spec fn limbs_bytes(s: Seq<u64>) -> Seq<u8>
    decreases s.len(),
{
    if s.len() == 0 {
        Seq::empty()
    } else {
        limbs_bytes(s.drop_last()) + spec_u64_to_le_bytes(s.last())
    }
}

/// Each limb takes eight bytes.
pub proof fn lemma_limbs_bytes_len(s: Seq<u64>)
    ensures
        limbs_bytes(s).len() == 8 * s.len(),
    decreases s.len(),
{
    lemma_auto_spec_u64_to_from_le_bytes();
    if s.len() > 0 {
        lemma_limbs_bytes_len(s.drop_last());
    }
}

/// Different limbs have different bytes.
pub proof fn lemma_limbs_bytes_injective(a: Seq<u64>, b: Seq<u64>)
    requires
        a.len() == b.len(),
        limbs_bytes(a) == limbs_bytes(b),
    ensures
        a == b,
    decreases a.len(),
{
    lemma_auto_spec_u64_to_from_le_bytes();
    if a.len() > 0 {
        lemma_limbs_bytes_len(a.drop_last());
        lemma_limbs_bytes_len(b.drop_last());
        lemma_concat_parts(
            limbs_bytes(a.drop_last()),
            spec_u64_to_le_bytes(a.last()),
            limbs_bytes(b.drop_last()),
            spec_u64_to_le_bytes(b.last()),
        );
        lemma_limbs_bytes_injective(a.drop_last(), b.drop_last());
        assert(spec_u64_from_le_bytes(spec_u64_to_le_bytes(a.last())) == a.last());
        assert(spec_u64_from_le_bytes(spec_u64_to_le_bytes(b.last())) == b.last());
        assert(a =~= a.drop_last().push(a.last()));
        assert(b =~= b.drop_last().push(b.last()));
    } else {
        assert(a =~= b);
    }
}

/// Appends the bytes of the limbs to `out`.
pub fn write_limbs<const N: usize>(a: &[u64; N], out: &mut Vec<u8>)
    ensures
        final(out)@ == old(out)@ + limbs_bytes(a@),
{
    let mut i: usize = 0;
    assert(a@.subrange(0, 0) =~= Seq::<u64>::empty());
    assert(out@ =~= old(out)@ + Seq::<u8>::empty());
    while i < N
        invariant
            i <= N,
            out@ == old(out)@ + limbs_bytes(a@.subrange(0, i as int)),
        decreases N - i,
    {
        let ghost before = out@;
        write_u64(out, a[i]);
        proof {
            assert(a@.subrange(0, i + 1).drop_last() =~= a@.subrange(0, i as int));
            assert(out@ =~= old(out)@ + limbs_bytes(a@.subrange(0, i + 1)));
        }
        i += 1;
    }
    assert(a@.subrange(0, N as int) =~= a@);
}

/// Reads `N` limbs from the bytes at `start`, and says where they end;
/// fails when the input is too short.
pub fn read_limbs<const N: usize>(bytes: &[u8], start: usize) -> (r: Result<
    ([u64; N], usize),
    ByteError,
>)
    ensures
        match r {
            Ok((a, next)) => {
                &&& next == start + 8 * N
                &&& next <= bytes.len()
                &&& limbs_bytes(a@) == window(bytes@, start as int, 8 * N)
            },
            Err(e) => e == ByteError::UnexpectedEof && start + 8 * N > bytes.len(),
        },
{
    let mut a: [u64; N] = array_fill_for_copy_types(0u64);
    let mut i: usize = 0;
    let mut at: usize = start;
    let len = bytes.len();
    if start > len {
        return Err(ByteError::UnexpectedEof);
    }
    assert(a@.subrange(0, 0) =~= Seq::<u64>::empty());
    assert(window(bytes@, start as int, 0) =~= Seq::<u8>::empty());
    while i < N
        invariant
            i <= N,
            at == start + 8 * i,
            at <= bytes.len(),
            limbs_bytes(a@.subrange(0, i as int)) == window(bytes@, start as int, 8 * i),
        decreases N - i,
    {
        match read_u64(bytes, at) {
            Err(_) => {
                return Err(ByteError::UnexpectedEof);
            },
            Ok((x, next)) => {
                let ghost prev = a@;
                a[i] = x;
                proof {
                    lemma_auto_spec_u64_to_from_le_bytes();
                    assert(a@.subrange(0, i + 1).drop_last() =~= prev.subrange(0, i as int));
                    lemma_window_split(bytes@, start as int, 8 * i, 8);
                    let w = window(bytes@, at as int, 8);
                    assert(w.len() == 8);
                    assert(spec_u64_to_le_bytes(spec_u64_from_le_bytes(w)) == w);
                }
                at = next;
                i += 1;
            },
        }
    }
    assert(a@.subrange(0, N as int) =~= a@);
    Ok((a, at))
}

/// `2^(64 k)` as a power of two.
pub proof fn lemma_base_pow_is_pow2(k: nat)
    ensures
        base_pow(k) == pow2(64 * k),
    decreases k,
{
    lemma2_to64();
    lemma2_to64_rest();
    if k > 0 {
        lemma_base_pow_is_pow2((k - 1) as nat);
        lemma_pow2_adds(64, (64 * (k - 1)) as nat);
    }
}

/// The number of bits of the integer.
pub fn limbs_bit_length<const N: usize>(a: &[u64; N]) -> (n: usize)
    requires
        N <= 0x10_0000,
    ensures
        n == bit_length(limbs_value(a@) as nat),
        n <= 64 * N,
{
    let zero: [u64; N] = zero_limbs();
    let mut y = *a;
    let mut n: usize = 0;
    proof {
        lemma_limbs_value_bound(a@);
        lemma_base_pow_is_pow2(N as nat);
        lemma_bit_length_bound(limbs_value(a@) as nat, (64 * N) as nat);
    }
    while !limbs_equal(&y, &zero)
        invariant
            N <= 0x10_0000,
            limbs_value(zero@) == 0,
            limbs_value(y@) >= 0,
            n + bit_length(limbs_value(y@) as nat) == bit_length(limbs_value(a@) as nat),
            bit_length(limbs_value(a@) as nat) <= 64 * N,
        decreases limbs_value(y@),
    {
        y = halve(&y);
        proof {
            lemma_limbs_value_bound(y@);
        }
        n += 1;
    }
    n
}

/// Bit `j` of the limbs is bit `j` of the integer they make.
pub proof fn lemma_limb_bit_value(s: Seq<u64>, j: int)
    requires
        0 <= j < 64 * s.len(),
    ensures
        limb_bit(s, j) == ((limbs_value(s) / (pow2(j as nat) as int)) % 2 == 1),
{
    let i = j / 64;
    let m = (j % 64) as nat;
    let x = s[i];
    let v = limbs_value(s);
    let bp = base_pow(i as nat);
    let pm = pow2(m) as int;
    let low = limbs_value(s.subrange(0, i));
    let hi = limbs_value_from(s, i + 1);
    let t = limbs_value_from(s, i);
    lemma2_to64();
    lemma2_to64_rest();
    // the bit of the limb
    let sh = x >> (m as u64);
    lemma_u64_shr_is_div(x, m as u64);
    assert(sh & 1 == sh % 2) by (bit_vector);
    assert(limb_bit(s, j) == (((x as int) / pm) % 2 == 1));
    // the integer above the limbs below place i
    lemma_limbs_value_split(s, i);
    lemma_limbs_value_bound(s.subrange(0, i));
    lemma_base_pow_positive(i as nat);
    lemma_base_pow_is_pow2(i as nat);
    lemma_pow2_pos(m);
    lemma_pow2_adds((64 * i) as nat, m);
    assert(t * bp == bp * t) by (nonlinear_arith);
    lemma_fundamental_div_mod_converse(v, bp, t, low);
    lemma_limbs_value_bound(s);
    lemma_div_denominator(v, bp, pm);
    assert(v / (pow2(j as nat) as int) == t / pm);
    // the limbs above the limb are a multiple of two after the shift
    let rest = pow2((63 - m) as nat) as int;
    lemma_pow2_adds(m, (64 - m) as nat);
    lemma_pow2_unfold((64 - m) as nat);
    lemma_pow2_pos((63 - m) as nat);
    let k = 2 * rest * hi;
    assert(x + limb_base() * hi == x + k * pm) by (nonlinear_arith)
        requires
            limb_base() == pm * (2 * rest),
            k == 2 * rest * hi,
    ;
    lemma_hoist_over_denominator(x as int, k, pm as nat);
    assert(k == (rest * hi) * 2) by (nonlinear_arith)
        requires
            k == 2 * rest * hi,
    ;
    lemma_mod_multiples_vanish(rest * hi, (x as int) / pm, 2);
}

} // verus!
