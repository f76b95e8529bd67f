//! How an element of a field that is not the native one is cut into
//! limbs: the limb size with the least cost, and the room that additions
//! take on top of a limb.
use crate::bits::{bits_be, BitIteratorBE};
use crate::fields::field::PrimeField;
use vstd::prelude::*;

verus! {

/// What the limb size is chosen to keep low.
#[derive(Clone, Copy, Debug, PartialEq, Eq, Structural)]
pub enum OptimizationType {
    /// The number of constraints.
    Constraints,
    /// The number of entries of the constraint matrices.
    Weight,
}

/// The shape of the limbs.
#[derive(Clone, Copy, Debug, PartialEq, Eq, Structural)]
pub struct NonNativeFieldParams {
    /// The number of limbs.
    pub num_limbs: usize,
    /// The number of bits of a limb.
    pub bits_per_limb: usize,
}

/// The bits kept free above the limbs of a product.
pub open spec fn surfeit() -> int {
    10
}

/// The largest limb size that is tried.
pub open spec fn max_limb_size(base: int, target: int) -> int {
    let m = (base - 1 - surfeit() - 1) / 2 - 1;
    if m > target {
        target
    } else {
        m
    }
}

/// The number of limbs of `limb_size` bits that hold `target` bits.
pub open spec fn limbs_for(target: int, limb_size: int) -> int {
    (target + limb_size - 1) / limb_size
}

/// The cost of a multiplication and reduction with limbs of `limb_size`
/// bits, counted in constraints or in weight.
pub open spec fn limb_cost(base: int, target: int, ty: OptimizationType, limb_size: int) -> int {
    let n = limbs_for(target, limb_size);
    let group_size = (base - 1 - surfeit() - 1 - 1 - limb_size + limb_size - 1) / limb_size;
    let groups = (2 * n - 1 + group_size - 1) / group_size;
    match ty {
        OptimizationType::Constraints => (2 * n - 1) + target + (target + n) + (groups + (groups - 1)
            * (limb_size * 2 + surfeit()) + 1),
        OptimizationType::Weight => 6 * (n * n) + (target * 3 + target) + (target * 3 + target + n)
            + (n * n + 2 * (2 * n - 1)) + (n + groups + 6 * groups + (groups - 1) * (2 * limb_size
            + surfeit()) * 4 + 2),
    }
}

/// `limb_size` is the first of the sizes from 1 to the largest whose cost
/// is the least.
pub open spec fn is_best_limb_size(base: int, target: int, ty: OptimizationType, limb_size: int) -> bool {
    &&& 1 <= limb_size <= max_limb_size(base, target)
    &&& forall|m: int|
        1 <= m <= max_limb_size(base, target) ==> limb_cost(base, target, ty, limb_size) <= #[trigger] limb_cost(
            base,
            target,
            ty,
            m,
        )
    &&& forall|m: int|
        1 <= m < limb_size ==> limb_cost(base, target, ty, limb_size) < #[trigger] limb_cost(
            base,
            target,
            ty,
            m,
        )
}

/// The shape of the limbs for a target field of `target` bits over a base
/// field of `base` bits: the best limb size and the limbs it takes, or no
/// limbs at all where the base field leaves room for none.
pub open spec fn params_spec(target: int, base: int, ty: OptimizationType, p: NonNativeFieldParams) -> bool {
    if max_limb_size(base, target) >= 1 {
        &&& is_best_limb_size(base, target, ty, p.bits_per_limb as int)
        &&& p.num_limbs == limbs_for(target, p.bits_per_limb as int)
    } else {
        p.num_limbs == 0 && p.bits_per_limb == 0
    }
}

/// The bounds that keep the cost within the machine's integers.
proof fn lemma_cost_bounds(base: int, target: int, limb_size: int)
    requires
        14 <= base <= 4096,
        1 <= target <= 4096,
        1 <= limb_size <= max_limb_size(base, target),
    ensures
        1 <= limbs_for(target, limb_size) <= target,
        (base - 14) / limb_size >= 2,
        (base - 14) / limb_size <= 4096,
        ({
            let n = limbs_for(target, limb_size);
            let gs = (base - 14) / limb_size;
            1 <= (2 * n - 1 + gs - 1) / gs <= 2 * n
        }),
{
    let n = limbs_for(target, limb_size);
    assert(1 <= (target + limb_size - 1) / limb_size <= target) by (nonlinear_arith)
        requires
            1 <= target,
            1 <= limb_size <= target,
    ;
    let gs = (base - 14) / limb_size;
    assert(2 <= (base - 14) / limb_size <= 4096) by (nonlinear_arith)
        requires
            14 <= base <= 4096,
            1 <= limb_size,
            2 * limb_size <= base - 14,
    ;
    assert(1 <= (2 * n - 1 + gs - 1) / gs <= 2 * n) by (nonlinear_arith)
        requires
            1 <= n,
            2 <= gs,
    ;
}

/// The cost of limbs of `limb_size` bits.
fn cost(base: usize, target: usize, ty: OptimizationType, limb_size: usize) -> (c: u64)
    requires
        14 <= base <= 4096,
        1 <= target <= 4096,
        1 <= limb_size <= max_limb_size(base as int, target as int),
    ensures
        c == limb_cost(base as int, target as int, ty, limb_size as int),
{
    proof {
        lemma_cost_bounds(base as int, target as int, limb_size as int);
    }
    let t = target as u64;
    let l = limb_size as u64;
    let n: u64 = (t + l - 1) / l;
    let group_size: u64 = (base as u64 - 1 - 10 - 1 - 1 - l + l - 1) / l;
    let groups: u64 = (2 * n - 1 + group_size - 1) / group_size;
    assert(n * n <= 4096 * 4096) by (nonlinear_arith)
        requires
            n <= 4096,
    ;
    assert((groups - 1) * (l * 2 + 10) <= 8192 * 8202) by (nonlinear_arith)
        requires
            1 <= groups <= 8192,
            l <= 4096,
    ;
    assert((groups - 1) * (2 * l + 10) * 4 <= 8192 * 8202 * 4) by (nonlinear_arith)
        requires
            1 <= groups <= 8192,
            l <= 4096,
    ;
    match ty {
        OptimizationType::Constraints => {
            (2 * n - 1) + t + (t + n) + (groups + (groups - 1) * (l * 2 + 10) + 1)
        },
        OptimizationType::Weight => {
            6 * (n * n) + (t * 3 + t) + (t * 3 + t + n) + (n * n + 2 * (2 * n - 1)) + (n + groups + 6
                * groups + (groups - 1) * (2 * l + 10) * 4 + 2)
        },
    }
}

/// The number of limbs and the limb size with the least cost.
pub fn find_parameters(
    base_field_prime_length: usize,
    target_field_prime_bit_length: usize,
    optimization_type: OptimizationType,
) -> (r: (usize, usize))
    requires
        14 <= base_field_prime_length <= 4096,
        1 <= target_field_prime_bit_length <= 4096,
    ensures
        params_spec(
            target_field_prime_bit_length as int,
            base_field_prime_length as int,
            optimization_type,
            NonNativeFieldParams { num_limbs: r.0, bits_per_limb: r.1 },
        ),
{
    let base = base_field_prime_length;
    let target = target_field_prime_bit_length;
    let ty = optimization_type;
    let mut found = false;
    let mut min_cost: u64 = 0;
    let mut min_cost_limb_size: usize = 0;
    let mut min_cost_num_of_limbs: usize = 0;
    let mut largest: usize = (base - 1 - 10 - 1) / 2 - 1;
    if largest > target {
        largest = target;
    }
    let mut limb_size: usize = 1;
    while limb_size <= largest
        invariant
            14 <= base <= 4096,
            1 <= target <= 4096,
            largest == max_limb_size(base as int, target as int),
            1 <= limb_size <= largest + 1,
            found == (limb_size > 1),
            !found ==> min_cost_limb_size == 0 && min_cost_num_of_limbs == 0,
            found ==> {
                &&& 1 <= min_cost_limb_size < limb_size
                &&& min_cost == limb_cost(base as int, target as int, ty, min_cost_limb_size as int)
                &&& min_cost_num_of_limbs == limbs_for(target as int, min_cost_limb_size as int)
                &&& forall|m: int|
                    1 <= m < limb_size ==> min_cost <= #[trigger] limb_cost(
                        base as int,
                        target as int,
                        ty,
                        m,
                    )
                &&& forall|m: int|
                    1 <= m < min_cost_limb_size ==> min_cost < #[trigger] limb_cost(
                        base as int,
                        target as int,
                        ty,
                        m,
                    )
            },
        decreases largest + 1 - limb_size,
    {
        proof {
            lemma_cost_bounds(base as int, target as int, limb_size as int);
        }
        let num_of_limbs = (target + limb_size - 1) / limb_size;
        let this_cost = cost(base, target, ty, limb_size);
        if !found || this_cost < min_cost {
            found = true;
            min_cost = this_cost;
            min_cost_limb_size = limb_size;
            min_cost_num_of_limbs = num_of_limbs;
        }
        limb_size += 1;
    }
    (min_cost_num_of_limbs, min_cost_limb_size)
}

/// The shape of the limbs for a target field of `target` bits over a base
/// field of `base` bits.
pub open spec fn the_params(target: int, base: int, ty: OptimizationType) -> NonNativeFieldParams {
    choose|p: NonNativeFieldParams| params_spec(target, base, ty, p)
}

/// The shape of the limbs for a target field of `target_field_size` bits
/// over a base field of `base_field_size` bits.
pub fn get_params(target_field_size: usize, base_field_size: usize, optimization_type: OptimizationType) -> (p:
    NonNativeFieldParams)
    requires
        14 <= base_field_size <= 4096,
        1 <= target_field_size <= 4096,
    ensures
        params_spec(target_field_size as int, base_field_size as int, optimization_type, p),
        p == the_params(target_field_size as int, base_field_size as int, optimization_type),
        p.num_limbs <= 4096,
        p.bits_per_limb <= 4096,
        base_field_size >= 16 ==> p.bits_per_limb >= 1,
{
    let (num_of_limbs, limb_size) = find_parameters(
        base_field_size,
        target_field_size,
        optimization_type,
    );
    let p = NonNativeFieldParams { num_limbs: num_of_limbs, bits_per_limb: limb_size };
    proof {
        lemma_params_unique(
            target_field_size as int,
            base_field_size as int,
            optimization_type,
            p,
            the_params(target_field_size as int, base_field_size as int, optimization_type),
        );
        if max_limb_size(base_field_size as int, target_field_size as int) >= 1 {
            lemma_cost_bounds(base_field_size as int, target_field_size as int, limb_size as int);
        }
    }
    p
}

/// The shape fixed by `params_spec` is unique.
pub proof fn lemma_params_unique(
    target: int,
    base: int,
    ty: OptimizationType,
    p: NonNativeFieldParams,
    q: NonNativeFieldParams,
)
    requires
        params_spec(target, base, ty, p),
        params_spec(target, base, ty, q),
    ensures
        p == q,
{
    if max_limb_size(base, target) >= 1 {
        let a = p.bits_per_limb as int;
        let b = q.bits_per_limb as int;
        if a < b {
            assert(limb_cost(base, target, ty, b) < limb_cost(base, target, ty, a));
            assert(limb_cost(base, target, ty, a) <= limb_cost(base, target, ty, b));
        }
        if b < a {
            assert(limb_cost(base, target, ty, a) < limb_cost(base, target, ty, b));
            assert(limb_cost(base, target, ty, b) <= limb_cost(base, target, ty, a));
        }
    }
}

/// How many of the bits from place `i` on are unset before the first set
/// bit.
pub open spec fn leading_zeros(bits: Seq<bool>, i: int) -> int
    decreases bits.len() - i,
{
    if i < 0 || i >= bits.len() {
        0
    } else if bits[i] {
        0
    } else {
        1 + leading_zeros(bits, i + 1)
    }
}

/// A bit is set after place `s`.
pub open spec fn set_after(bits: Seq<bool>, s: int) -> bool {
    exists|k: int| s < k < bits.len() && bits[k]
}

/// The room that a count of additions takes, from the bits of the count,
/// most significant first: the number of bits from the first set bit on,
/// and one more unless that is the only set bit; nothing for zero.
pub open spec fn overhead_spec(bits: Seq<bool>) -> int {
    let skipped = leading_zeros(bits, 0);
    if set_after(bits, skipped) {
        bits.len() - skipped + 1
    } else {
        bits.len() - skipped
    }
}

/// The room that a count of additions takes on top of a limb.
pub fn overhead<F: PrimeField>(num: &F) -> (r: usize)
    requires
        num.wf(),
    ensures
        r == overhead_spec(bits_be(num.repr_spec())),
        r <= 64 * F::num_limbs() + 1,
{
    proof {
        F::lemma_limbs(*num);
    }
    let mut it = BitIteratorBE::new(num.into_repr());
    let ghost bits = it.remaining();
    let total = it.len();
    let mut skipped: usize = 0;
    let mut seen = false;
    let mut is_power_of_2 = true;
    let mut i: usize = 0;
    while i < total
        invariant
            i <= total,
            total == bits.len(),
            total <= u32::MAX,
            it.wf(),
            it.remaining() == bits.subrange(i as int, total as int),
            skipped <= i,
            !seen ==> skipped == i,
            seen ==> skipped < i && bits[skipped as int],
            forall|k: int| 0 <= k < skipped ==> !bits[k],
            leading_zeros(bits, 0) == skipped + if seen {
                0
            } else {
                leading_zeros(bits, i as int)
            },
            is_power_of_2 == !(exists|k: int| skipped < k < i && bits[k]),
        decreases total - i,
    {
        let b = it.next().unwrap();
        assert(b == bits[i as int]);
        assert(it.remaining() =~= bits.subrange(i + 1, total as int));
        if !seen {
            if b {
                seen = true;
            } else {
                skipped += 1;
            }
        } else if b {
            is_power_of_2 = false;
        }
        i += 1;
    }
    if is_power_of_2 {
        total - skipped
    } else {
        total - skipped + 1
    }
}

} // verus!
