//! Integers of several 64-bit limbs, least significant limb first, and
//! their arithmetic modulo a modulus of as many limbs.
use crate::fields::fermat::{lemma_pow_mod_adds, lemma_pow_mod_of_square, lemma_residues, pow_mod};
use vstd::arithmetic::div_mod::*;
use vstd::arithmetic::mul::*;
use vstd::array::array_fill_for_copy_types;
use vstd::prelude::*;

verus! {

/// The number of values of a limb: `2^64`.
pub open spec fn limb_base() -> int {
    0x1_0000_0000_0000_0000
}

/// `2^(64 k)`.
pub open spec fn base_pow(k: nat) -> int
    decreases k,
{
    if k == 0 {
        1
    } else {
        limb_base() * base_pow((k - 1) as nat)
    }
}

/// The integer with the limbs `s`, least significant first.
pub open spec fn limbs_value(s: Seq<u64>) -> int
    decreases s.len(),
{
    if s.len() == 0 {
        0
    } else {
        limbs_value(s.drop_last()) + s.last() * base_pow((s.len() - 1) as nat)
    }
}

/// The integer with the limbs of `s` from place `i` on.
pub open spec fn limbs_value_from(s: Seq<u64>, i: int) -> int
    decreases s.len() - i,
{
    if i < 0 || i >= s.len() {
        0
    } else {
        s[i] + limb_base() * limbs_value_from(s, i + 1)
    }
}

/// Powers of the base are positive.
pub proof fn lemma_base_pow_positive(k: nat)
    ensures
        base_pow(k) > 0,
    decreases k,
{
    if k > 0 {
        lemma_base_pow_positive((k - 1) as nat);
        assert(limb_base() * base_pow((k - 1) as nat) > 0) by (nonlinear_arith)
            requires
                base_pow((k - 1) as nat) > 0,
                limb_base() == 0x1_0000_0000_0000_0000,
        ;
    }
}

/// An integer of `n` limbs is below `2^(64 n)`.
pub proof fn lemma_limbs_value_bound(s: Seq<u64>)
    ensures
        0 <= limbs_value(s) < base_pow(s.len()),
    decreases s.len(),
{
    if s.len() > 0 {
        lemma_limbs_value_bound(s.drop_last());
        let k = (s.len() - 1) as nat;
        let bp = base_pow(k);
        lemma_base_pow_positive(k);
        let x = s.last() as int;
        assert(0 <= x * bp && x * bp + bp <= limb_base() * bp) by (nonlinear_arith)
            requires
                0 <= x < 0x1_0000_0000_0000_0000,
                bp > 0,
                limb_base() == 0x1_0000_0000_0000_0000,
        ;
    }
}

/// The value of the first `i + 1` limbs is the value of the first `i`, and
/// limb `i` in its place.
pub proof fn lemma_limbs_value_step(s: Seq<u64>, i: int)
    requires
        0 <= i < s.len(),
    ensures
        limbs_value(s.subrange(0, i + 1)) == limbs_value(s.subrange(0, i)) + s[i] * base_pow(i as nat),
{
    assert(s.subrange(0, i + 1).drop_last() =~= s.subrange(0, i));
}

/// The value of the limbs is the value of the first `i` of them, and the
/// value of the rest in its place.
pub proof fn lemma_limbs_value_split(s: Seq<u64>, i: int)
    requires
        0 <= i <= s.len(),
    ensures
        limbs_value(s) == limbs_value(s.subrange(0, i)) + base_pow(i as nat) * limbs_value_from(s, i),
    decreases s.len() - i,
{
    if i == s.len() {
        assert(s.subrange(0, i) =~= s);
        assert(base_pow(i as nat) * 0 == 0);
    } else {
        lemma_limbs_value_split(s, i + 1);
        lemma_limbs_value_step(s, i);
        let bp = base_pow(i as nat);
        let x = s[i] as int;
        let r = limbs_value_from(s, i + 1);
        assert(x * bp + (limb_base() * bp) * r == bp * (x + limb_base() * r)) by (nonlinear_arith);
    }
}

/// Limbs that are all zero make zero.
pub proof fn lemma_zero_limbs(s: Seq<u64>)
    requires
        forall|i: int| 0 <= i < s.len() ==> s[i] == 0,
    ensures
        limbs_value(s) == 0,
    decreases s.len(),
{
    if s.len() > 0 {
        lemma_zero_limbs(s.drop_last());
        assert(0 * base_pow((s.len() - 1) as nat) == 0);
    }
}

/// Two sequences of limbs of the same length with the same value are the
/// same sequence.
pub proof fn lemma_limbs_injective(a: Seq<u64>, b: Seq<u64>)
    requires
        a.len() == b.len(),
        limbs_value(a) == limbs_value(b),
    ensures
        a == b,
    decreases a.len(),
{
    if a.len() > 0 {
        let k = (a.len() - 1) as nat;
        let bp = base_pow(k);
        lemma_base_pow_positive(k);
        lemma_limbs_value_bound(a.drop_last());
        lemma_limbs_value_bound(b.drop_last());
        let la = limbs_value(a.drop_last());
        let lb = limbs_value(b.drop_last());
        let x = a.last() as int;
        let y = b.last() as int;
        assert(x == y) by (nonlinear_arith)
            requires
                la + x * bp == lb + y * bp,
                0 <= la < bp,
                0 <= lb < bp,
        ;
        assert(la == lb) by (nonlinear_arith)
            requires
                la + x * bp == lb + y * bp,
                x == y,
        ;
        lemma_limbs_injective(a.drop_last(), b.drop_last());
        assert(a =~= a.drop_last().push(a.last()));
        assert(b =~= b.drop_last().push(b.last()));
    } else {
        assert(a =~= b);
    }
}

/// `a + b`, and whether the sum ran over the limbs.
pub fn add_carry<const N: usize>(a: &[u64; N], b: &[u64; N]) -> (r: ([u64; N], bool))
    ensures
        limbs_value(r.0@) + (if r.1 {
            base_pow(N as nat)
        } else {
            0
        }) == limbs_value(a@) + limbs_value(b@),
{
    let mut out: [u64; N] = array_fill_for_copy_types(0u64);
    let mut carry: u64 = 0;
    let mut i: usize = 0;
    assert(out@.subrange(0, 0) =~= Seq::<u64>::empty());
    assert(a@.subrange(0, 0) =~= Seq::<u64>::empty());
    assert(b@.subrange(0, 0) =~= Seq::<u64>::empty());
    while i < N
        invariant
            i <= N,
            carry <= 1,
            limbs_value(out@.subrange(0, i as int)) + carry * base_pow(i as nat) == limbs_value(
                a@.subrange(0, i as int),
            ) + limbs_value(b@.subrange(0, i as int)),
        decreases N - i,
    {
        let ghost prev = out@;
        let s: u128 = (a[i] as u128) + (b[i] as u128) + (carry as u128);
        let lo: u64 = (s % 0x1_0000_0000_0000_0000u128) as u64;
        let hi: u64 = (s / 0x1_0000_0000_0000_0000u128) as u64;
        out[i] = lo;
        proof {
            assert(out@.subrange(0, i as int) =~= prev.subrange(0, i as int));
            lemma_limbs_value_step(out@, i as int);
            lemma_limbs_value_step(a@, i as int);
            lemma_limbs_value_step(b@, i as int);
            let bp = base_pow(i as nat);
            let x = a@[i as int] as int;
            let y = b@[i as int] as int;
            let c = carry as int;
            let l = lo as int;
            let h = hi as int;
            assert(x + y + c == l + h * 0x1_0000_0000_0000_0000);
            assert(l * bp + h * (limb_base() * bp) == x * bp + y * bp + c * bp) by (nonlinear_arith)
                requires
                    x + y + c == l + h * 0x1_0000_0000_0000_0000,
                    limb_base() == 0x1_0000_0000_0000_0000,
            ;
        }
        carry = hi;
        i += 1;
    }
    proof {
        assert(out@.subrange(0, N as int) =~= out@);
        assert(a@.subrange(0, N as int) =~= a@);
        assert(b@.subrange(0, N as int) =~= b@);
        assert(1 * base_pow(N as nat) == base_pow(N as nat));
        assert(0 * base_pow(N as nat) == 0);
    }
    (out, carry == 1)
}

/// `a - b`, and whether the difference ran under zero.
pub fn sub_borrow<const N: usize>(a: &[u64; N], b: &[u64; N]) -> (r: ([u64; N], bool))
    ensures
        limbs_value(r.0@) - (if r.1 {
            base_pow(N as nat)
        } else {
            0
        }) == limbs_value(a@) - limbs_value(b@),
        r.1 == (limbs_value(a@) < limbs_value(b@)),
{
    let mut out: [u64; N] = array_fill_for_copy_types(0u64);
    let mut borrow: u64 = 0;
    let mut i: usize = 0;
    assert(out@.subrange(0, 0) =~= Seq::<u64>::empty());
    assert(a@.subrange(0, 0) =~= Seq::<u64>::empty());
    assert(b@.subrange(0, 0) =~= Seq::<u64>::empty());
    while i < N
        invariant
            i <= N,
            borrow <= 1,
            limbs_value(out@.subrange(0, i as int)) - borrow * base_pow(i as nat) == limbs_value(
                a@.subrange(0, i as int),
            ) - limbs_value(b@.subrange(0, i as int)),
        decreases N - i,
    {
        let ghost prev = out@;
        let t: u128 = (a[i] as u128) + 0x1_0000_0000_0000_0000u128 - (b[i] as u128) - (borrow as u128);
        let lo: u64 = (t % 0x1_0000_0000_0000_0000u128) as u64;
        let next: u64 = if t < 0x1_0000_0000_0000_0000u128 {
            1
        } else {
            0
        };
        out[i] = lo;
        proof {
            assert(out@.subrange(0, i as int) =~= prev.subrange(0, i as int));
            lemma_limbs_value_step(out@, i as int);
            lemma_limbs_value_step(a@, i as int);
            lemma_limbs_value_step(b@, i as int);
            let bp = base_pow(i as nat);
            let x = a@[i as int] as int;
            let y = b@[i as int] as int;
            let c = borrow as int;
            let l = lo as int;
            let h = next as int;
            assert(x - y - c == l - h * 0x1_0000_0000_0000_0000);
            assert(l * bp - h * (limb_base() * bp) == x * bp - y * bp - c * bp) by (nonlinear_arith)
                requires
                    x - y - c == l - h * 0x1_0000_0000_0000_0000,
                    limb_base() == 0x1_0000_0000_0000_0000,
            ;
        }
        borrow = next;
        i += 1;
    }
    proof {
        assert(out@.subrange(0, N as int) =~= out@);
        assert(a@.subrange(0, N as int) =~= a@);
        assert(b@.subrange(0, N as int) =~= b@);
        assert(1 * base_pow(N as nat) == base_pow(N as nat));
        assert(0 * base_pow(N as nat) == 0);
        lemma_limbs_value_bound(out@);
        lemma_limbs_value_bound(a@);
        lemma_limbs_value_bound(b@);
    }
    (out, borrow == 1)
}

/// `(a + b) mod p` for `a` and `b` below `p`.
pub fn add_mod<const N: usize>(a: &[u64; N], b: &[u64; N], p: &[u64; N]) -> (r: [u64; N])
    requires
        limbs_value(a@) < limbs_value(p@),
        limbs_value(b@) < limbs_value(p@),
    ensures
        limbs_value(r@) == (limbs_value(a@) + limbs_value(b@)) % limbs_value(p@),
        limbs_value(r@) < limbs_value(p@),
{
    let (s, c) = add_carry(a, b);
    let (d, br) = sub_borrow(&s, p);
    proof {
        lemma_limbs_value_bound(a@);
        lemma_limbs_value_bound(b@);
        lemma_limbs_value_bound(p@);
        lemma_limbs_value_bound(s@);
        lemma_limbs_value_bound(d@);
        let total = limbs_value(a@) + limbs_value(b@);
        let vp = limbs_value(p@);
        if total >= vp {
            lemma_small_mod((total - vp) as nat, vp as nat);
            lemma_mod_sub_multiples_vanish(total, vp);
        } else {
            lemma_small_mod(total as nat, vp as nat);
        }
    }
    if c || !br {
        d
    } else {
        s
    }
}

/// `(a - b) mod p` for `a` and `b` below `p`.
pub fn sub_mod<const N: usize>(a: &[u64; N], b: &[u64; N], p: &[u64; N]) -> (r: [u64; N])
    requires
        limbs_value(a@) < limbs_value(p@),
        limbs_value(b@) < limbs_value(p@),
    ensures
        limbs_value(r@) == (limbs_value(a@) - limbs_value(b@)) % limbs_value(p@),
        limbs_value(r@) < limbs_value(p@),
{
    let (d, br) = sub_borrow(a, b);
    proof {
        lemma_limbs_value_bound(a@);
        lemma_limbs_value_bound(b@);
        lemma_limbs_value_bound(p@);
        lemma_limbs_value_bound(d@);
        let diff = limbs_value(a@) - limbs_value(b@);
        let vp = limbs_value(p@);
        if diff >= 0 {
            lemma_small_mod(diff as nat, vp as nat);
        } else {
            lemma_small_mod((diff + vp) as nat, vp as nat);
            lemma_mod_add_multiples_vanish(diff, vp);
        }
    }
    if !br {
        d
    } else {
        let (e, _) = add_carry(&d, p);
        proof {
            lemma_limbs_value_bound(e@);
        }
        e
    }
}

/// The integer zero.
pub fn zero_limbs<const N: usize>() -> (r: [u64; N])
    ensures
        limbs_value(r@) == 0,
        forall|i: int| 0 <= i < N ==> r@[i] == 0,
{
    let r: [u64; N] = array_fill_for_copy_types(0u64);
    proof {
        lemma_zero_limbs(r@);
    }
    r
}

/// `(a * k) mod p` for `a` below `p`, by doubling and adding.
pub fn mul_small_mod<const N: usize>(a: &[u64; N], k: u64, p: &[u64; N]) -> (r: [u64; N])
    requires
        limbs_value(a@) < limbs_value(p@),
    ensures
        limbs_value(r@) == (limbs_value(a@) * k) % limbs_value(p@),
        limbs_value(r@) < limbs_value(p@),
{
    let ghost va = limbs_value(a@);
    let ghost vp = limbs_value(p@);
    let mut acc: [u64; N] = zero_limbs();
    let mut base = *a;
    let mut rest = k;
    proof {
        lemma_limbs_value_bound(a@);
        lemma_small_mod(va as nat, vp as nat);
        lemma_mul_mod_noop_left(va, k as int, vp);
    }
    while rest > 0
        invariant
            vp == limbs_value(p@),
            va == limbs_value(a@),
            0 <= va < vp,
            limbs_value(acc@) < vp,
            limbs_value(base@) < vp,
            (limbs_value(acc@) + limbs_value(base@) * rest) % vp == (va * k) % vp,
        decreases rest,
    {
        proof {
            lemma_limbs_value_bound(acc@);
            lemma_limbs_value_bound(base@);
            let x = limbs_value(acc@);
            let b = limbs_value(base@);
            let h = (rest / 2) as int;
            if rest % 2 == 1 {
                // acc + base (2h + 1) = (acc + base) + (2 base) h
                assert(x + b * rest == (x + b) + (b + b) * h) by (nonlinear_arith)
                    requires
                        rest == 2 * h + 1,
                ;
                lemma_add_mod_noop((x + b), (b + b) * h, vp);
                lemma_mul_mod_noop_left(b + b, h, vp);
                lemma_add_mod_noop((x + b) % vp, ((b + b) % vp) * h, vp);
                lemma_mod_twice(x + b, vp);
            } else {
                assert(x + b * rest == x + (b + b) * h) by (nonlinear_arith)
                    requires
                        rest == 2 * h,
                ;
                lemma_add_mod_noop(x, (b + b) * h, vp);
                lemma_mul_mod_noop_left(b + b, h, vp);
                lemma_add_mod_noop(x, ((b + b) % vp) * h, vp);
            }
        }
        if rest % 2 == 1 {
            acc = add_mod(&acc, &base, p);
        }
        base = add_mod(&base, &base, p);
        rest = rest / 2;
    }
    proof {
        lemma_limbs_value_bound(acc@);
        assert(limbs_value(base@) * 0 == 0);
        lemma_small_mod(limbs_value(acc@) as nat, vp as nat);
    }
    acc
}

/// `(a * 2^64) mod p` for `a` below `p`, in two steps of `2^32`.
pub fn shift_limb_mod<const N: usize>(a: &[u64; N], p: &[u64; N]) -> (r: [u64; N])
    requires
        limbs_value(a@) < limbs_value(p@),
    ensures
        limbs_value(r@) == (limbs_value(a@) * limb_base()) % limbs_value(p@),
        limbs_value(r@) < limbs_value(p@),
{
    let half = mul_small_mod(a, 0x1_0000_0000u64, p);
    let r = mul_small_mod(&half, 0x1_0000_0000u64, p);
    proof {
        let va = limbs_value(a@);
        let vp = limbs_value(p@);
        lemma_limbs_value_bound(a@);
        lemma_mul_mod_noop_left(va * 0x1_0000_0000, 0x1_0000_0000, vp);
        assert((va * 0x1_0000_0000) * 0x1_0000_0000 == va * limb_base()) by (nonlinear_arith)
            requires
                limb_base() == 0x1_0000_0000_0000_0000,
        ;
    }
    r
}

/// `(a * b) mod p` for `a` and `b` below `p`: the limbs of `b` are taken
/// from the highest down.
pub fn mul_mod<const N: usize>(a: &[u64; N], b: &[u64; N], p: &[u64; N]) -> (r: [u64; N])
    requires
        limbs_value(a@) < limbs_value(p@),
        limbs_value(b@) < limbs_value(p@),
    ensures
        limbs_value(r@) == (limbs_value(a@) * limbs_value(b@)) % limbs_value(p@),
        limbs_value(r@) < limbs_value(p@),
{
    let ghost va = limbs_value(a@);
    let ghost vp = limbs_value(p@);
    let mut r: [u64; N] = zero_limbs();
    let mut i: usize = N;
    proof {
        lemma_limbs_value_bound(a@);
        lemma_small_mod(0, vp as nat);
        assert(va * 0 == 0);
    }
    while i > 0
        invariant
            i <= N,
            vp == limbs_value(p@),
            va == limbs_value(a@),
            0 <= va < vp,
            limbs_value(r@) == (va * limbs_value_from(b@, i as int)) % vp,
            limbs_value(r@) < vp,
        decreases i,
    {
        i -= 1;
        let shifted = shift_limb_mod(&r, p);
        let term = mul_small_mod(a, b[i], p);
        proof {
            let hi = limbs_value_from(b@, i + 1);
            let x = b@[i as int] as int;
            let base = limb_base();
            // ((va hi) % p * base) % p + (va x) % p = va (x + base hi) mod p
            lemma_mul_mod_noop_left(va * hi, base, vp);
            lemma_add_mod_noop((va * hi) * base, va * x, vp);
            assert((va * hi) * base + va * x == va * (x + base * hi)) by (nonlinear_arith);
        }
        r = add_mod(&shifted, &term, p);
    }
    proof {
        lemma_limbs_value_split(b@, 0);
        assert(b@.subrange(0, 0) =~= Seq::<u64>::empty());
        assert(base_pow(0) * limbs_value_from(b@, 0) == limbs_value_from(b@, 0));
    }
    r
}

/// The limbs from a place on where all are zero make zero.
pub proof fn lemma_zero_from(s: Seq<u64>, i: int)
    requires
        0 <= i,
        forall|j: int| i <= j < s.len() ==> s[j] == 0,
    ensures
        limbs_value_from(s, i) == 0,
    decreases s.len() - i,
{
    if i < s.len() {
        lemma_zero_from(s, i + 1);
        assert(limb_base() * 0 == 0);
    }
}

/// The limbs from a place on do not depend on the limbs below it.
pub proof fn lemma_value_from_agrees(s: Seq<u64>, t: Seq<u64>, i: int)
    requires
        0 <= i,
        s.len() == t.len(),
        forall|j: int| i <= j < s.len() ==> s[j] == t[j],
    ensures
        limbs_value_from(s, i) == limbs_value_from(t, i),
    decreases s.len() - i,
{
    if i < s.len() {
        lemma_value_from_agrees(s, t, i + 1);
    }
}

/// The integer `x`, which fits the lowest limb.
pub fn small_limbs<const N: usize>(x: u64) -> (r: [u64; N])
    requires
        N >= 1,
    ensures
        limbs_value(r@) == x,
{
    let mut r: [u64; N] = array_fill_for_copy_types(0u64);
    r[0] = x;
    proof {
        lemma_limbs_value_split(r@, 1);
        lemma_zero_from(r@, 1);
        lemma_limbs_value_step(r@, 0);
        assert(r@.subrange(0, 0) =~= Seq::<u64>::empty());
        assert(base_pow(1) * 0 == 0);
        assert(x * base_pow(0) == x) by (nonlinear_arith)
            requires
                base_pow(0) == 1,
        ;
    }
    r
}

/// Whether the integers are equal.
pub fn limbs_equal<const N: usize>(a: &[u64; N], b: &[u64; N]) -> (r: bool)
    ensures
        r == (a@ == b@),
        r == (limbs_value(a@) == limbs_value(b@)),
{
    let mut i: usize = 0;
    while i < N
        invariant
            i <= N,
            forall|j: int| 0 <= j < i ==> a@[j] == b@[j],
        decreases N - i,
    {
        if a[i] != b[i] {
            proof {
                if limbs_value(a@) == limbs_value(b@) {
                    lemma_limbs_injective(a@, b@);
                }
            }
            return false;
        }
        i += 1;
    }
    assert(a@ =~= b@);
    true
}

/// Whether `a < b`.
pub fn limbs_less<const N: usize>(a: &[u64; N], b: &[u64; N]) -> (r: bool)
    ensures
        r == (limbs_value(a@) < limbs_value(b@)),
{
    let (_, under) = sub_borrow(a, b);
    under
}

/// `(x^h)^k = x^(h k)` modulo `p`.
pub proof fn lemma_pow_mod_pow(x: int, h: nat, k: nat, p: int)
    requires
        p > 0,
    ensures
        pow_mod(pow_mod(x, h, p), k, p) == pow_mod(x, h * k, p),
    decreases k,
{
    if k == 0 {
        assert(h * 0 == 0);
    } else {
        lemma_pow_mod_pow(x, h, (k - 1) as nat, p);
        lemma_pow_mod_adds(x, h, h * ((k - 1) as nat), p);
        assert(h + h * ((k - 1) as nat) == h * k) by (nonlinear_arith)
            requires
                k >= 1,
        ;
    }
}

/// `a^k mod p` for `a` below `p`, by squaring.
pub fn pow_small_mod<const N: usize>(a: &[u64; N], k: u64, p: &[u64; N]) -> (r: [u64; N])
    requires
        N >= 1,
        limbs_value(a@) < limbs_value(p@),
        limbs_value(p@) >= 2,
    ensures
        limbs_value(r@) == pow_mod(limbs_value(a@), k as nat, limbs_value(p@)),
        limbs_value(r@) < limbs_value(p@),
{
    let ghost va = limbs_value(a@);
    let ghost vp = limbs_value(p@);
    let mut acc: [u64; N] = small_limbs(1);
    let mut base = *a;
    let mut rest = k;
    proof {
        lemma_limbs_value_bound(a@);
        lemma_residues(va, k as nat, Seq::empty(), vp);
        lemma_small_mod(pow_mod(va, k as nat, vp) as nat, vp as nat);
        assert(pow_mod(va, k as nat, vp) * 1 == pow_mod(va, k as nat, vp));
    }
    while rest > 0
        invariant
            vp == limbs_value(p@),
            vp >= 2,
            limbs_value(acc@) < vp,
            limbs_value(base@) < vp,
            (pow_mod(limbs_value(base@), rest as nat, vp) * limbs_value(acc@)) % vp == pow_mod(
                va,
                k as nat,
                vp,
            ),
        decreases rest,
    {
        let ghost h = (rest / 2) as nat;
        let ghost b = limbs_value(base@);
        let ghost x = limbs_value(acc@);
        proof {
            lemma_limbs_value_bound(base@);
            lemma_limbs_value_bound(acc@);
            lemma_pow_mod_of_square(b, h, vp);
        }
        if rest % 2 == 1 {
            proof {
                let r = pow_mod(b, (2 * h) as nat, vp);
                lemma_mul_mod_noop_left(b * r, x, vp);
                lemma_mul_mod_noop_right(r, x * b, vp);
                assert((b * r) * x == r * (x * b)) by (nonlinear_arith);
            }
            acc = mul_mod(&acc, &base, p);
        }
        base = mul_mod(&base, &base, p);
        rest = rest / 2;
    }
    proof {
        lemma_limbs_value_bound(acc@);
        lemma_small_mod(1, vp as nat);
        lemma_small_mod(limbs_value(acc@) as nat, vp as nat);
        assert(1 * limbs_value(acc@) == limbs_value(acc@));
    }
    acc
}

/// `a^e mod p` for `a` below `p`: the limbs of `e` are taken from the
/// highest down.
pub fn pow_limbs_mod<const N: usize, const M: usize>(a: &[u64; N], e: &[u64; M], p: &[u64; N]) -> (r:
    [u64; N])
    requires
        N >= 1,
        limbs_value(a@) < limbs_value(p@),
        limbs_value(p@) >= 2,
    ensures
        limbs_value(r@) == pow_mod(limbs_value(a@), limbs_value(e@) as nat, limbs_value(p@)),
        limbs_value(r@) < limbs_value(p@),
{
    let ghost va = limbs_value(a@);
    let ghost vp = limbs_value(p@);
    let mut r: [u64; N] = small_limbs(1);
    let mut i: usize = M;
    proof {
        lemma_small_mod(1, vp as nat);
    }
    while i > 0
        invariant
            i <= M,
            N >= 1,
            vp == limbs_value(p@),
            va == limbs_value(a@),
            va < vp,
            vp >= 2,
            limbs_value_from(e@, i as int) >= 0,
            limbs_value(r@) == pow_mod(va, limbs_value_from(e@, i as int) as nat, vp),
            limbs_value(r@) < vp,
        decreases i,
    {
        i -= 1;
        let half = pow_small_mod(&r, 0x1_0000_0000u64, p);
        let raised = pow_small_mod(&half, 0x1_0000_0000u64, p);
        let low = pow_small_mod(a, e[i], p);
        proof {
            let hi = limbs_value_from(e@, i + 1) as nat;
            let x = e@[i as int] as nat;
            let b32: nat = 0x1_0000_0000;
            let b64: nat = 0x1_0000_0000_0000_0000;
            lemma_pow_mod_pow(limbs_value(r@), b32, b32, vp);
            assert(b32 * b32 == b64) by (nonlinear_arith)
                requires
                    b32 == 0x1_0000_0000,
                    b64 == 0x1_0000_0000_0000_0000,
            ;
            lemma_pow_mod_pow(va, hi, b64, vp);
            lemma_pow_mod_adds(va, hi * b64, x, vp);
            assert(limbs_value_from(e@, i as int) == hi * b64 + x) by (nonlinear_arith)
                requires
                    limbs_value_from(e@, i as int) == x + limb_base() * hi,
                    limb_base() == b64,
            ;
            assert(hi * b64 >= 0) by (nonlinear_arith)
                requires
                    hi >= 0,
                    b64 >= 0,
            ;
        }
        r = mul_mod(&raised, &low, p);
    }
    proof {
        lemma_limbs_value_split(e@, 0);
        assert(e@.subrange(0, 0) =~= Seq::<u64>::empty());
        assert(base_pow(0) * limbs_value_from(e@, 0) == limbs_value_from(e@, 0));
    }
    r
}

/// `a / 2`, rounded down.
pub fn halve<const N: usize>(a: &[u64; N]) -> (r: [u64; N])
    ensures
        limbs_value(r@) == limbs_value(a@) / 2,
{
    let mut r: [u64; N] = array_fill_for_copy_types(0u64);
    let mut i: usize = N;
    let mut carry: u64 = 0;
    while i > 0
        invariant
            i <= N,
            carry <= 1,
            limbs_value_from(a@, i as int) == 2 * limbs_value_from(r@, i as int) + carry,
        decreases i,
    {
        i -= 1;
        let ghost prev = r@;
        let x: u64 = a[i];
        r[i] = x / 2 + carry * 0x8000_0000_0000_0000u64;
        proof {
            lemma_value_from_agrees(prev, r@, i + 1);
            let q = limbs_value_from(r@, i + 1);
            let y = r@[i as int] as int;
            let c = carry as int;
            let n = (x % 2) as int;
            assert(x + limb_base() * (2 * q + c) == 2 * (y + limb_base() * q) + n) by (nonlinear_arith)
                requires
                    y == x / 2 + c * 0x8000_0000_0000_0000,
                    n == x % 2,
                    limb_base() == 0x1_0000_0000_0000_0000,
            ;
        }
        carry = x % 2;
    }
    proof {
        lemma_limbs_value_split(a@, 0);
        lemma_limbs_value_split(r@, 0);
        assert(a@.subrange(0, 0) =~= Seq::<u64>::empty());
        assert(r@.subrange(0, 0) =~= Seq::<u64>::empty());
        assert(base_pow(0) * limbs_value_from(a@, 0) == limbs_value_from(a@, 0));
        assert(base_pow(0) * limbs_value_from(r@, 0) == limbs_value_from(r@, 0));
    }
    r
}

/// Whether the integer is odd.
pub fn is_odd<const N: usize>(a: &[u64; N]) -> (r: bool)
    requires
        N >= 1,
    ensures
        r == (limbs_value(a@) % 2 == 1),
{
    proof {
        lemma_limbs_value_split(a@, 1);
        lemma_limbs_value_step(a@, 0);
        assert(a@.subrange(0, 0) =~= Seq::<u64>::empty());
        let x = a@[0] as int;
        let hi = limbs_value_from(a@, 1);
        assert(x * base_pow(0) == x) by (nonlinear_arith)
            requires
                base_pow(0) == 1,
        ;
        assert(base_pow(1) == limb_base()) by {
            assert(limb_base() * base_pow(0) == limb_base());
        }
        assert((x + limb_base() * hi) % 2 == x % 2) by (nonlinear_arith)
            requires
                limb_base() == 0x1_0000_0000_0000_0000,
        ;
    }
    a[0] % 2 == 1
}

} // verus!
