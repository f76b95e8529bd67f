//! The Fiat-Shamir generator over an algebraic sponge: what is absorbed
//! and squeezed, natively.  The circuit form computes the same values.
use crate::bits::{bits_be, limb_bit};
use crate::fields::closure::group_field_closed;
use crate::fields::field::{Field, PrimeField};
use crate::fields::pack::{lemma_pack_push, pack_le, powers_of_two, two_pow};
use crate::gadgets::uint8::byte_bit;
use crate::marlin::nonnative::{field_params, fields_fit, get_limbs_representations, limbs_of};
use crate::marlin::params::{
    get_params, overhead, overhead_spec, NonNativeFieldParams, OptimizationType,
};
use crate::marlin::sponge::{all_wf, AlgebraicSponge};
use vstd::prelude::*;

verus! {

broadcast use group_field_closed;

/// The bits that a limb with `count` additions may take.
pub open spec fn max_bits<CF: PrimeField>(p: NonNativeFieldParams, count: CF) -> int {
    p.bits_per_limb + overhead_spec(bits_be(count.add_spec(CF::one_spec()).repr_spec()))
}

/// The limbs from place `i` on, two packed into one wherever the bits of
/// the two fit below the characteristic: the first, shifted left by the
/// bits of the second, plus the second.
pub open spec fn compress_from<CF: PrimeField>(
    limbs: Seq<(CF, CF)>,
    i: int,
    p: NonNativeFieldParams,
) -> Seq<CF>
    decreases limbs.len() - i,
{
    let capacity = CF::size_in_bits_spec() - 1;
    if i < 0 || i >= limbs.len() {
        Seq::empty()
    } else {
        let first = max_bits(p, limbs[i].1);
        if i + 1 < limbs.len() && first + max_bits(p, limbs[i + 1].1) <= capacity {
            seq![
                limbs[i].0.mul_spec(two_pow::<CF>(max_bits(p, limbs[i + 1].1) as nat)).add_spec(
                    limbs[i + 1].0,
                ),
            ] + compress_from(limbs, i + 2, p)
        } else {
            seq![limbs[i].0] + compress_from(limbs, i + 1, p)
        }
    }
}

/// The limbs of the first `n` elements, each with the count one.
pub open spec fn elems_limbs<F: PrimeField, CF: PrimeField>(
    elems: Seq<F>,
    ty: OptimizationType,
    n: int,
) -> Seq<(CF, CF)>
    decreases n,
{
    if n <= 0 {
        Seq::empty()
    } else {
        elems_limbs::<F, CF>(elems, ty, n - 1) + with_count_one(limbs_of::<F, CF>(elems[n - 1], ty))
    }
}

/// The limbs, each with the count one.
pub open spec fn with_count_one<CF: PrimeField>(limbs: Seq<CF>) -> Seq<(CF, CF)> {
    Seq::new(limbs.len(), |k: int| (limbs[k], CF::one_spec()))
}

/// The bits of the bytes, each byte most significant bit first.
pub open spec fn bytes_bits(bytes: Seq<u8>) -> Seq<bool> {
    Seq::new(8 * bytes.len(), |t: int| byte_bit(bytes[t / 8], 7 - t % 8))
}

/// Chunk `c` of the bits: `cap` bits, or what is left of them.
pub open spec fn chunk_of(bits: Seq<bool>, cap: int, c: int) -> Seq<bool> {
    bits.subrange(
        c * cap,
        if (c + 1) * cap <= bits.len() {
            (c + 1) * cap
        } else {
            bits.len() as int
        },
    )
}

/// The number of chunks of `cap` bits that `total` bits make.
pub open spec fn chunk_count(total: int, cap: int) -> int {
    (total + cap - 1) / cap
}

/// The bits in chunks of `cap`, each chunk read as a number, most
/// significant bit first, and taken into the field.
pub open spec fn packed_chunks<CF: PrimeField>(bits: Seq<bool>, cap: int) -> Seq<CF> {
    Seq::new(
        chunk_count(bits.len() as int, cap) as nat,
        |c: int| pack_le::<CF>(chunk_of(bits, cap, c).reverse()),
    )
}

/// The bits of the integer lift of an element, most significant first,
/// without the highest.
pub open spec fn elem_bits<CF: PrimeField>(e: CF) -> Seq<bool> {
    Seq::new(
        (CF::size_in_bits_spec() - 1) as nat,
        |k: int| limb_bit(e.repr_spec(), CF::size_in_bits_spec() - 2 - k),
    )
}

/// The bits of the first `n` elements, one element after the other.
pub open spec fn elems_bits<CF: PrimeField>(elems: Seq<CF>, n: int) -> Seq<bool>
    decreases n,
{
    if n <= 0 {
        Seq::empty()
    } else {
        elems_bits(elems, n - 1) + elem_bits(elems[n - 1])
    }
}

/// How many elements are squeezed for `num_bits` bits.
pub open spec fn squeeze_count<CF: PrimeField>(num_bits: int) -> int {
    (num_bits + (CF::size_in_bits_spec() - 1) - 1) / (CF::size_in_bits_spec() - 1)
}

/// The bits that an element of `F` is made of: 128 for a short element,
/// else one less than the characteristic has.
pub open spec fn bits_per_nonnative<F: PrimeField>(outputs_short_elements: bool) -> int {
    if outputs_short_elements {
        128
    } else {
        F::size_in_bits_spec() - 1
    }
}

/// The first `n` elements of `F` that the bits make, `k` bits each, most
/// significant first; the bits behind them are left over.
pub open spec fn elements_of_bits<F: PrimeField>(bits: Seq<bool>, k: int, n: int) -> Seq<F> {
    Seq::new(n as nat, |i: int| pack_le::<F>(bits.subrange(i * k, (i + 1) * k).reverse()))
}

/// Element `i` of `n` elements of `k` bits lies within bits that hold
/// them all.
pub proof fn lemma_window_within(i: int, n: int, k: int, total: int) by (nonlinear_arith)
    requires
        0 <= i < n,
        1 <= k,
        n * k <= total,
    ensures
        i * k + k <= total,
        (i + 1) * k == i * k + k,
        0 <= i * k,
{
}

/// The elements that are squeezed for `num_bits` bits hold as many bits,
/// at `w` bits each.
pub proof fn lemma_squeeze_covers(num_bits: int, w: int) by (nonlinear_arith)
    requires
        0 <= num_bits,
        1 <= w,
    ensures
        ((num_bits + w - 1) / w) * w >= num_bits,
        (num_bits + w - 1) / w >= 0,
{
}

/// The bits of the elements have the same length each.
pub proof fn lemma_elems_bits_len<CF: PrimeField>(elems: Seq<CF>, n: int)
    requires
        0 <= n,
        CF::size_in_bits_spec() >= 1,
    ensures
        elems_bits(elems, n).len() == n * (CF::size_in_bits_spec() - 1),
    decreases n,
{
    let w = CF::size_in_bits_spec() - 1;
    if n > 0 {
        lemma_elems_bits_len(elems, n - 1);
        assert(elem_bits(elems[n - 1]).len() == w);
        assert(n * w == (n - 1) * w + w) by (nonlinear_arith);
    } else {
        assert(n * w == 0) by (nonlinear_arith)
            requires
                n == 0,
        ;
    }
}

/// Chunk `c` of `cap` bits lies within the bits, and the chunks cover them.
pub proof fn lemma_chunks(total: int, cap: int, c: int)
    requires
        0 <= total,
        1 <= cap,
        0 <= c,
    ensures
        chunk_count(total, cap) >= 0,
        c < chunk_count(total, cap) <==> c * cap < total,
        (c + 1) * cap == c * cap + cap,
        0 <= c * cap,
{
    assert((c + 1) * cap == c * cap + cap) by (nonlinear_arith);
    assert(0 <= c * cap) by (nonlinear_arith)
        requires
            0 <= c,
            1 <= cap,
    ;
    assert((c < (total + cap - 1) / cap) <==> c * cap < total) by (nonlinear_arith)
        requires
            0 <= total,
            1 <= cap,
            0 <= c,
    ;
    assert((total + cap - 1) / cap >= 0) by (nonlinear_arith)
        requires
            0 <= total,
            1 <= cap,
    ;
}

/// The chunk of `cap` bits from `start`, read as a number, most
/// significant bit first, and taken into the field.
pub fn pack_chunk<CF: PrimeField>(bits: &Vec<bool>, start: usize, end: usize, powers: &Vec<CF>) -> (r: CF)
    requires
        CF::is_field(),
        start <= end <= bits@.len(),
        end - start <= powers@.len(),
        forall|i: int| 0 <= i < powers@.len() ==> (#[trigger] powers@[i]) == two_pow::<CF>(i as nat),
        forall|i: int| 0 <= i < powers@.len() ==> (#[trigger] powers@[i]).wf(),
    ensures
        r == pack_le::<CF>(bits@.subrange(start as int, end as int).reverse()),
        r.wf(),
{
    proof {
        CF::lemma_constants();
    }
    let ghost rev = bits@.subrange(start as int, end as int).reverse();
    let len = end - start;
    let mut acc = CF::zero();
    let mut t: usize = 0;
    assert(rev.subrange(0, 0) =~= Seq::<bool>::empty());
    while t < len
        invariant
            t <= len,
            len == end - start,
            start <= end <= bits@.len(),
            len <= powers@.len(),
            CF::is_field(),
            forall|i: int| 0 <= i < powers@.len() ==> (#[trigger] powers@[i]) == two_pow::<CF>(i as nat),
            forall|i: int| 0 <= i < powers@.len() ==> (#[trigger] powers@[i]).wf(),
            rev == bits@.subrange(start as int, end as int).reverse(),
            acc == pack_le::<CF>(rev.subrange(0, t as int)),
            acc.wf(),
        decreases len - t,
    {
        let bit = bits[end - 1 - t];
        proof {
            CF::lemma_constants();
            assert(rev[t as int] == bit);
            assert(rev.subrange(0, t + 1) =~= rev.subrange(0, t as int).push(bit));
            lemma_pack_push::<CF>(rev.subrange(0, t as int), bit);
            CF::lemma_add_zero(acc);
        }
        if bit {
            acc = acc.add(&powers[t]);
        }
        t += 1;
    }
    assert(rev.subrange(0, len as int) =~= rev);
    acc
}

/// The bits of the bytes, each byte most significant bit first.
pub fn bits_of_bytes(bytes: &Vec<u8>) -> (r: Vec<bool>)
    requires
        8 * bytes@.len() <= usize::MAX,
    ensures
        r@ == bytes_bits(bytes@),
{
    let mut bits: Vec<bool> = Vec::new();
    let mut i: usize = 0;
    while i < bytes.len()
        invariant
            i <= bytes@.len(),
            bits@.len() == 8 * i,
            forall|t: int| 0 <= t < 8 * i ==> (#[trigger] bits@[t]) == byte_bit(bytes@[t / 8], 7 - t % 8),
        decreases bytes@.len() - i,
    {
        let b = bytes[i];
        let mut j: u8 = 0;
        while j < 8
            invariant
                j <= 8,
                i < bytes@.len(),
                b == bytes@[i as int],
                bits@.len() == 8 * i + j,
                forall|t: int|
                    0 <= t < 8 * i + j ==> (#[trigger] bits@[t]) == byte_bit(bytes@[t / 8], 7 - t % 8),
            decreases 8 - j,
        {
            bits.push((b >> (7 - j)) & 1 == 1);
            j += 1;
        }
        i += 1;
    }
    assert(bits@ =~= bytes_bits(bytes@));
    bits
}

/// The bits in chunks of `cap`, each chunk packed into a field element.
pub fn pack_bits<CF: PrimeField>(bits: &Vec<bool>, cap: usize) -> (r: Vec<CF>)
    requires
        CF::is_field(),
        1 <= cap,
    ensures
        r@ == packed_chunks::<CF>(bits@, cap as int),
        all_wf(r@),
{
    let powers = powers_of_two::<CF>(cap);
    let mut out: Vec<CF> = Vec::new();
    let mut start: usize = 0;
    let ghost mut c: int = 0;
    let total = bits.len();
    proof {
        lemma_chunks(total as int, cap as int, 0);
    }
    while start < total
        invariant
            start <= total,
            total == bits@.len(),
            1 <= cap,
            CF::is_field(),
            0 <= c,
            start < total ==> start == c * cap,
            start >= total ==> c == chunk_count(total as int, cap as int),
            out@.len() == c,
            c <= chunk_count(total as int, cap as int),
            powers@.len() == cap,
            forall|i: int| 0 <= i < cap ==> (#[trigger] powers@[i]) == two_pow::<CF>(i as nat),
            forall|i: int| 0 <= i < cap ==> (#[trigger] powers@[i]).wf(),
            forall|i: int| 0 <= i < c ==> (#[trigger] out@[i]) == packed_chunks::<CF>(bits@, cap as int)[i],
            all_wf(out@),
        decreases total - start,
    {
        let end = if total - start >= cap {
            start + cap
        } else {
            total
        };
        proof {
            lemma_chunks(total as int, cap as int, c);
            lemma_chunks(total as int, cap as int, c + 1);
            assert(chunk_of(bits@, cap as int, c) == bits@.subrange(start as int, end as int));
        }
        let elem = pack_chunk::<CF>(bits, start, end, &powers);
        out.push(elem);
        start = end;
        proof {
            c = c + 1;
        }
    }
    proof {
        if total == 0 {
            assert(chunk_count(0, cap as int) == 0) by (nonlinear_arith)
                requires
                    1 <= cap,
            ;
        }
        assert(out@ =~= packed_chunks::<CF>(bits@, cap as int));
    }
    out
}

/// The bits of the integer lift of an element, most significant first,
/// without the highest.
pub fn bits_of_elem<CF: PrimeField>(e: &CF) -> (r: Vec<bool>)
    requires
        e.wf(),
    ensures
        r@ == elem_bits(*e),
{
    proof {
        CF::lemma_wf_is_field(*e);
        CF::lemma_size_in_bits();
        CF::lemma_limbs(*e);
    }
    let n = CF::size_in_bits();
    let repr = e.into_repr();
    let mut bits: Vec<bool> = Vec::new();
    let mut k: usize = 0;
    while k + 1 < n
        invariant
            k + 1 <= n,
            n == CF::size_in_bits_spec(),
            n <= 64 * repr@.len(),
            repr@ == e.repr_spec(),
            bits@.len() == k,
            forall|i: int| 0 <= i < k ==> (#[trigger] bits@[i]) == limb_bit(repr@, n - 2 - i),
        decreases n - k,
    {
        let idx = n - 2 - k;
        bits.push((repr[idx / 64] >> ((idx % 64) as u64)) & 1 == 1);
        k += 1;
    }
    assert(bits@ =~= elem_bits(*e));
    bits
}

/// The first `num` elements of `F` that the bits make, `k` bits each.
pub fn elements_from_bits<F: PrimeField>(bits: &Vec<bool>, k: usize, num: usize) -> (r: Vec<F>)
    requires
        F::is_field(),
        1 <= k,
        num * k <= bits@.len(),
    ensures
        r@ == elements_of_bits::<F>(bits@, k as int, num as int),
{
    let powers = powers_of_two::<F>(k);
    let mut out: Vec<F> = Vec::new();
    let mut start: usize = 0;
    let total = bits.len();
    while out.len() < num
        invariant
            out@.len() <= num,
            total == bits@.len(),
            num * k <= total,
            1 <= k,
            F::is_field(),
            start == out@.len() * k,
            powers@.len() == k,
            forall|j: int| 0 <= j < k ==> (#[trigger] powers@[j]) == two_pow::<F>(j as nat),
            forall|j: int| 0 <= j < k ==> (#[trigger] powers@[j]).wf(),
            forall|j: int|
                0 <= j < out@.len() ==> (#[trigger] out@[j]) == elements_of_bits::<F>(
                    bits@,
                    k as int,
                    num as int,
                )[j],
        decreases num - out@.len(),
    {
        proof {
            lemma_window_within(out@.len() as int, num as int, k as int, total as int);
        }
        let elem = pack_chunk::<F>(bits, start, start + k, &powers);
        out.push(elem);
        start = start + k;
    }
    proof {
        assert(out@ =~= elements_of_bits::<F>(bits@, k as int, num as int));
    }
    out
}

/// The Fiat-Shamir generator over the sponge `PS`, for a protocol over the
/// field `F` whose transcript is hashed over the field `CF`.
pub struct FiatShamirAlgebraicSpongeRng<F: PrimeField, CF: PrimeField, PS: AlgebraicSponge<CF>> {
    /// The sponge.
    pub s: PS,
    pub f_phantom: core::marker::PhantomData<F>,
    pub cf_phantom: core::marker::PhantomData<CF>,
}

impl<F: PrimeField, CF: PrimeField, PS: AlgebraicSponge<CF>> FiatShamirAlgebraicSpongeRng<F, CF, PS> {
    /// A generator that has absorbed nothing.
    pub fn new() -> (r: Self)
        requires
            CF::is_field(),
        ensures
            r.s.wf(),
            r.s.model() == PS::new_spec(),
    {
        FiatShamirAlgebraicSpongeRng {
            s: PS::new(),
            f_phantom: core::marker::PhantomData,
            cf_phantom: core::marker::PhantomData,
        }
    }

    /// Compress every two elements if possible. Provides a vector of
    /// (limb, num_of_additions), both of which are CF.
    pub fn compress_elements(src_limbs: &Vec<(CF, CF)>, ty: OptimizationType) -> (r: Vec<CF>)
        requires
            fields_fit::<F, CF>(),
            forall|i: int|
                0 <= i < src_limbs@.len() ==> (#[trigger] src_limbs@[i]).0.wf() && src_limbs@[i].1.wf(),
        ensures
            r@ == compress_from(src_limbs@, 0, field_params::<F, CF>(ty)),
            all_wf(r@),
    {
        proof {
            F::lemma_size_in_bits();
            CF::lemma_size_in_bits();
            CF::lemma_constants();
        }
        let capacity = CF::size_in_bits() - 1;
        let mut dest_limbs: Vec<CF> = Vec::new();
        let params = get_params(F::size_in_bits(), CF::size_in_bits(), ty);
        let adjustment_factor_lookup_table = powers_of_two::<CF>(capacity);
        let mut i: usize = 0;
        let src_len = src_limbs.len();
        while i < src_len
            invariant
                i <= src_len,
                src_len == src_limbs@.len(),
                fields_fit::<F, CF>(),
                params == field_params::<F, CF>(ty),
                params.bits_per_limb >= 1,
                params.bits_per_limb <= 4096,
                capacity == CF::size_in_bits_spec() - 1,
                forall|k: int|
                    0 <= k < src_limbs@.len() ==> (#[trigger] src_limbs@[k]).0.wf() && src_limbs@[k].1.wf(),
                adjustment_factor_lookup_table@.len() == capacity,
                forall|k: int|
                    0 <= k < capacity ==> (#[trigger] adjustment_factor_lookup_table@[k]) == two_pow::<
                        CF,
                    >(k as nat),
                forall|k: int| 0 <= k < capacity ==> (#[trigger] adjustment_factor_lookup_table@[k]).wf(),
                dest_limbs@ + compress_from(src_limbs@, i as int, params) == compress_from(
                    src_limbs@,
                    0,
                    params,
                ),
                all_wf(dest_limbs@),
            decreases src_len - i,
        {
            proof {
                CF::lemma_constants();
                CF::lemma_limbs(src_limbs@[i as int].1);
            }
            let ghost before = dest_limbs@;
            let first = src_limbs[i];
            assert(src_limbs@[i as int].0.wf());
            let first_max_bits_per_limb = params.bits_per_limb + overhead(
                &first.1.add(&CF::one()),
            );
            if i + 1 < src_len {
                let second = src_limbs[i + 1];
                assert(src_limbs@[i + 1].0.wf());
                let second_max_bits_per_limb = params.bits_per_limb + overhead(
                    &second.1.add(&CF::one()),
                );
                if first_max_bits_per_limb + second_max_bits_per_limb <= capacity {
                    let adjustment_factor = adjustment_factor_lookup_table[second_max_bits_per_limb];
                    let value = first.0.mul(&adjustment_factor).add(&second.0);
                    dest_limbs.push(value);
                    assert(dest_limbs@ + compress_from(src_limbs@, i + 2, params) =~= before
                        + compress_from(src_limbs@, i as int, params));
                    i += 2;
                } else {
                    dest_limbs.push(first.0);
                    assert(dest_limbs@ + compress_from(src_limbs@, i + 1, params) =~= before
                        + compress_from(src_limbs@, i as int, params));
                    i += 1;
                }
            } else {
                dest_limbs.push(first.0);
                assert(dest_limbs@ + compress_from(src_limbs@, i + 1, params) =~= before
                    + compress_from(src_limbs@, i as int, params));
                i += 1;
            }
        }
        assert(dest_limbs@ =~= dest_limbs@ + compress_from(src_limbs@, i as int, params));
        dest_limbs
    }

    /// Push elements to sponge, treated in the non-native field
    /// representations.
    pub fn push_elements_to_sponge(sponge: &mut PS, src: &Vec<F>, ty: OptimizationType)
        requires
            old(sponge).wf(),
            fields_fit::<F, CF>(),
            forall|i: int| 0 <= i < src@.len() ==> (#[trigger] src@[i]).wf(),
        ensures
            final(sponge).wf(),
            final(sponge).model() == PS::absorb_spec(
                old(sponge).model(),
                compress_from(
                    elems_limbs::<F, CF>(src@, ty, src@.len() as int),
                    0,
                    field_params::<F, CF>(ty),
                ),
            ),
    {
        proof {
            CF::lemma_constants();
        }
        let mut src_limbs: Vec<(CF, CF)> = Vec::new();
        let mut i: usize = 0;
        while i < src.len()
            invariant
                i <= src@.len(),
                fields_fit::<F, CF>(),
                forall|k: int| 0 <= k < src@.len() ==> (#[trigger] src@[k]).wf(),
                src_limbs@ == elems_limbs::<F, CF>(src@, ty, i as int),
                forall|k: int|
                    0 <= k < src_limbs@.len() ==> (#[trigger] src_limbs@[k]).0.wf() && src_limbs@[k].1.wf(),
            decreases src@.len() - i,
        {
            let limbs = match get_limbs_representations::<F, CF>(&src[i], ty) {
                Ok(l) => l,
                Err(_) => Vec::new(),
            };
            let ghost before = src_limbs@;
            let mut k: usize = 0;
            while k < limbs.len()
                invariant
                    k <= limbs@.len(),
                    CF::is_field(),
                    forall|j: int| 0 <= j < limbs@.len() ==> (#[trigger] limbs@[j]).wf(),
                    src_limbs@ == before + with_count_one(limbs@).subrange(0, k as int),
                    forall|j: int|
                        0 <= j < before.len() ==> (#[trigger] before[j]).0.wf() && before[j].1.wf(),
                    forall|j: int|
                        0 <= j < src_limbs@.len() ==> (#[trigger] src_limbs@[j]).0.wf()
                            && src_limbs@[j].1.wf(),
                decreases limbs@.len() - k,
            {
                proof {
                    CF::lemma_constants();
                }
                let ghost prev = src_limbs@;
                src_limbs.push((limbs[k], CF::one()));
                assert(src_limbs@ =~= before + with_count_one(limbs@).subrange(0, k + 1));
                k += 1;
            }
            assert(with_count_one(limbs@).subrange(0, limbs@.len() as int) =~= with_count_one(limbs@));
            i += 1;
        }
        let dest_limbs = Self::compress_elements(&src_limbs, ty);
        sponge.absorb(&dest_limbs);
    }

    /// Obtain random bits from hashchain. (Not guaranteed to be uniformly
    /// distributed, should only be used in certain situations.)
    pub fn get_bits_from_sponge(sponge: &mut PS, num_bits: usize) -> (r: Vec<bool>)
        requires
            old(sponge).wf(),
            CF::is_field(),
            CF::size_in_bits_spec() >= 2,
            num_bits + CF::size_in_bits_spec() <= usize::MAX,
        ensures
            final(sponge).wf(),
            ({
                let n = squeeze_count::<CF>(num_bits as int) as nat;
                &&& final(sponge).model() == PS::squeeze_spec(old(sponge).model(), n).0
                &&& r@ == elems_bits(PS::squeeze_spec(old(sponge).model(), n).1, n as int)
            }),
    {
        proof {
            CF::lemma_size_in_bits();
        }
        let bits_per_element = CF::size_in_bits() - 1;
        let num_elements = (num_bits + bits_per_element - 1) / bits_per_element;
        proof {
            PS::lemma_squeeze_len(sponge.model(), num_elements as nat);
        }
        let src_elements = sponge.squeeze(num_elements);
        let mut dest_bits: Vec<bool> = Vec::new();
        let mut i: usize = 0;
        while i < src_elements.len()
            invariant
                i <= src_elements@.len(),
                all_wf(src_elements@),
                dest_bits@ == elems_bits(src_elements@, i as int),
            decreases src_elements@.len() - i,
        {
            // discard the highest bit
            let elem_bits = bits_of_elem(&src_elements[i]);
            let mut k: usize = 0;
            let ghost before = dest_bits@;
            while k < elem_bits.len()
                invariant
                    k <= elem_bits@.len(),
                    dest_bits@ == before + elem_bits@.subrange(0, k as int),
                decreases elem_bits@.len() - k,
            {
                dest_bits.push(elem_bits[k]);
                assert(dest_bits@ =~= before + elem_bits@.subrange(0, k + 1));
                k += 1;
            }
            assert(elem_bits@.subrange(0, elem_bits@.len() as int) =~= elem_bits@);
            i += 1;
        }
        dest_bits
    }

    /// Obtain random elements from hashchain: as many native elements are
    /// squeezed as hold the bits of `num_elements` elements, and the bits
    /// behind those are dropped.  (Not guaranteed to be uniformly
    /// distributed, should only be used in certain situations.)
    pub fn get_elements_from_sponge(sponge: &mut PS, num_elements: usize, outputs_short_elements: bool) -> (r:
        Vec<F>)
        requires
            old(sponge).wf(),
            F::is_field(),
            CF::is_field(),
            CF::size_in_bits_spec() >= 2,
            F::size_in_bits_spec() >= 2,
            bits_per_nonnative::<F>(outputs_short_elements) * num_elements + CF::size_in_bits_spec()
                <= usize::MAX,
        ensures
            final(sponge).wf(),
            ({
                let k = bits_per_nonnative::<F>(outputs_short_elements);
                let n = squeeze_count::<CF>(k * num_elements) as nat;
                &&& final(sponge).model() == PS::squeeze_spec(old(sponge).model(), n).0
                &&& r@ == elements_of_bits::<F>(
                    elems_bits(PS::squeeze_spec(old(sponge).model(), n).1, n as int),
                    k,
                    num_elements as int,
                )
            }),
    {
        proof {
            F::lemma_size_in_bits();
        }
        let num_bits_per_nonnative = if outputs_short_elements {
            128
        } else {
            F::size_in_bits() - 1  // also omit the highest bit
        };
        assert(num_bits_per_nonnative * num_elements == bits_per_nonnative::<F>(
            outputs_short_elements,
        ) * num_elements);
        let bits = Self::get_bits_from_sponge(sponge, num_bits_per_nonnative * num_elements);
        proof {
            let w = CF::size_in_bits_spec() - 1;
            let asked = num_bits_per_nonnative * num_elements;
            let n = squeeze_count::<CF>(asked as int);
            lemma_squeeze_covers(asked as int, w);
            lemma_elems_bits_len(PS::squeeze_spec(old(sponge).model(), n as nat).1, n);
            assert(num_elements * num_bits_per_nonnative == asked) by (nonlinear_arith)
                requires
                    asked == num_bits_per_nonnative * num_elements,
            ;
            assert(bits@.len() == n * w);
        }
        elements_from_bits::<F>(&bits, num_bits_per_nonnative, num_elements)
    }

    /// Absorbs elements of `F`, cut into limbs over `CF`.
    pub fn absorb_nonnative_field_elements(&mut self, elems: &Vec<F>, ty: OptimizationType)
        requires
            old(self).s.wf(),
            fields_fit::<F, CF>(),
            forall|i: int| 0 <= i < elems@.len() ==> (#[trigger] elems@[i]).wf(),
        ensures
            final(self).s.wf(),
            final(self).s.model() == PS::absorb_spec(
                old(self).s.model(),
                compress_from(
                    elems_limbs::<F, CF>(elems@, ty, elems@.len() as int),
                    0,
                    field_params::<F, CF>(ty),
                ),
            ),
    {
        Self::push_elements_to_sponge(&mut self.s, elems, ty);
    }

    /// Absorbs elements of the native field.
    pub fn absorb_native_field_elements(&mut self, elems: &Vec<CF>)
        requires
            old(self).s.wf(),
            all_wf(elems@),
        ensures
            final(self).s.wf(),
            final(self).s.model() == PS::absorb_spec(old(self).s.model(), elems@),
    {
        self.s.absorb(elems);
    }

    /// Absorbs bytes: their bits, each byte most significant bit first, in
    /// chunks of one bit less than the characteristic has, each chunk
    /// packed into an element.
    pub fn absorb_bytes(&mut self, elems: &Vec<u8>)
        requires
            old(self).s.wf(),
            CF::is_field(),
            CF::size_in_bits_spec() >= 2,
            8 * elems@.len() <= usize::MAX,
        ensures
            final(self).s.wf(),
            final(self).s.model() == PS::absorb_spec(
                old(self).s.model(),
                packed_chunks::<CF>(bytes_bits(elems@), CF::size_in_bits_spec() - 1),
            ),
    {
        let capacity = CF::size_in_bits() - 1;
        let bits = bits_of_bytes(elems);
        let dest = pack_bits::<CF>(&bits, capacity);
        self.s.absorb(&dest);
    }

    /// Squeezes elements of the native field.
    pub fn squeeze_native_field_elements(&mut self, num: usize) -> (r: Vec<CF>)
        requires
            old(self).s.wf(),
        ensures
            final(self).s.wf(),
            final(self).s.model() == PS::squeeze_spec(old(self).s.model(), num as nat).0,
            r@ == PS::squeeze_spec(old(self).s.model(), num as nat).1,
    {
        self.s.squeeze(num)
    }

    /// Squeezes elements of `F`.
    pub fn squeeze_nonnative_field_elements(&mut self, num: usize) -> (r: Vec<F>)
        requires
            old(self).s.wf(),
            F::is_field(),
            CF::is_field(),
            CF::size_in_bits_spec() >= 2,
            F::size_in_bits_spec() >= 2,
            bits_per_nonnative::<F>(false) * num + CF::size_in_bits_spec() <= usize::MAX,
        ensures
            final(self).s.wf(),
            ({
                let k = bits_per_nonnative::<F>(false);
                let n = squeeze_count::<CF>(k * num) as nat;
                &&& final(self).s.model() == PS::squeeze_spec(old(self).s.model(), n).0
                &&& r@ == elements_of_bits::<F>(
                    elems_bits(PS::squeeze_spec(old(self).s.model(), n).1, n as int),
                    k,
                    num as int,
                )
            }),
    {
        Self::get_elements_from_sponge(&mut self.s, num, false)
    }

    /// Squeezes elements of `F` of 128 bits.
    pub fn squeeze_128_bits_nonnative_field_elements(&mut self, num: usize) -> (r: Vec<F>)
        requires
            old(self).s.wf(),
            F::is_field(),
            CF::is_field(),
            CF::size_in_bits_spec() >= 2,
            F::size_in_bits_spec() >= 2,
            bits_per_nonnative::<F>(true) * num + CF::size_in_bits_spec() <= usize::MAX,
        ensures
            final(self).s.wf(),
            ({
                let k = bits_per_nonnative::<F>(true);
                let n = squeeze_count::<CF>(k * num) as nat;
                &&& final(self).s.model() == PS::squeeze_spec(old(self).s.model(), n).0
                &&& r@ == elements_of_bits::<F>(
                    elems_bits(PS::squeeze_spec(old(self).s.model(), n).1, n as int),
                    k,
                    num as int,
                )
            }),
    {
        Self::get_elements_from_sponge(&mut self.s, num, true)
    }
}

} // verus!
