//! The number theory behind Tonelli and Shanks' square roots: powers by
//! powers of two modulo a prime, and what they say of squares.
use crate::fields::arith::{is_prime, lemma_prime_divides_product};
use crate::fields::bigint::{
    halve, lemma_limbs_value_bound, lemma_pow_mod_pow, limbs_equal, limbs_value, mul_mod,
    pow_limbs_mod, small_limbs, sub_borrow, zero_limbs,
};
use crate::fields::fermat::{
    lemma_fermat, lemma_pow_mod_adds, lemma_pow_mod_of_square, lemma_residues, pow_mod,
};
use vstd::arithmetic::div_mod::*;
use vstd::arithmetic::mul::*;
use vstd::arithmetic::power2::{lemma_pow2_adds, lemma_pow2_pos, lemma_pow2_unfold, pow2};
use vstd::prelude::*;

verus! {

/// `x^(2^k)` modulo `p`.
pub open spec fn pow_two_mod(x: int, k: nat, p: int) -> int {
    pow_mod(x, pow2(k), p)
}

/// `a` is the square of a residue of `p`.
pub open spec fn is_square_mod(a: int, p: int) -> bool {
    exists|y: int| 0 <= y < p && #[trigger] ((y * y) % p) == a
}

/// Some residue of `p` fails Euler's criterion: its power `(p - 1) / 2`
/// is minus one.
pub open spec fn has_non_residue(p: int) -> bool {
    exists|z: int| 0 < z < p && #[trigger] pow_mod(z, ((p - 1) / 2) as nat, p) == p - 1
}

/// What the search needs of the modulus `p`: `p - 1 = t 2^s` with `t`
/// odd and `s` not zero, and `root` has the order `2^s` exactly.
pub open spec fn two_adic(p: int, s: nat, root: int) -> bool {
    &&& s >= 1
    &&& (p - 1) % (pow2(s) as int) == 0
    &&& ((p - 1) / (pow2(s) as int)) % 2 == 1
    &&& 0 <= root < p
    &&& pow_two_mod(root, (s - 1) as nat, p) == p - 1
}

/// The power of a product is the product of the powers.
pub proof fn lemma_pow_mod_mul_base(x: int, y: int, e: nat, p: int)
    requires
        p > 0,
    ensures
        pow_mod((x * y) % p, e, p) == (pow_mod(x, e, p) * pow_mod(y, e, p)) % p,
    decreases e,
{
    if e == 0 {
        lemma_mul_mod_noop_general(1, 1, p);
        assert(1int * 1int == 1int);
    } else {
        lemma_pow_mod_mul_base(x, y, (e - 1) as nat, p);
        let xs = pow_mod(x, (e - 1) as nat, p);
        let ys = pow_mod(y, (e - 1) as nat, p);
        lemma_mul_mod_noop_general(x * y, xs * ys, p);
        lemma_mul_mod_noop_general(x * xs, y * ys, p);
        assert((x * y) * (xs * ys) == (x * xs) * (y * ys)) by (nonlinear_arith);
    }
}

/// The first power is the residue itself.
pub proof fn lemma_pow_mod_first(x: int, p: int)
    requires
        p >= 2,
        0 <= x < p,
    ensures
        pow_mod(x, 1, p) == x,
        pow_two_mod(x, 0, p) == x,
{
    vstd::arithmetic::power2::lemma2_to64();
    lemma_small_mod(1, p as nat);
    assert(pow_mod(x, 0, p) == 1);
    assert(x * 1 == x);
    lemma_small_mod(x as nat, p as nat);
}

/// Squaring moves to the next power of two:
/// `(x^2)^(2^k) = x^(2^(k + 1))`, and `(x^(2^k))^2 = x^(2^(k + 1))`.
pub proof fn lemma_pow_two_step(x: int, k: nat, p: int)
    requires
        p > 0,
    ensures
        pow_two_mod((x * x) % p, k, p) == pow_two_mod(x, k + 1, p),
        (pow_two_mod(x, k, p) * pow_two_mod(x, k, p)) % p == pow_two_mod(x, k + 1, p),
{
    lemma_pow2_unfold(k + 1);
    lemma_pow_mod_of_square(x, pow2(k), p);
    lemma_pow_mod_adds(x, pow2(k), pow2(k), p);
}

/// A power of two of a power of two:
/// `(x^(2^j))^(2^k) = x^(2^(j + k))`.
pub proof fn lemma_pow_two_twice(x: int, j: nat, k: nat, p: int)
    requires
        p > 0,
    ensures
        pow_two_mod(pow_two_mod(x, j, p), k, p) == pow_two_mod(x, j + k, p),
{
    lemma_pow_mod_pow(x, pow2(j), pow2(k), p);
    lemma_pow2_adds(j, k);
}

/// The square roots of one modulo a prime are one and minus one.
pub proof fn lemma_roots_of_one(y: int, p: int)
    requires
        is_prime(p),
        0 <= y < p,
        (y * y) % p == 1,
    ensures
        y == 1 || y == p - 1,
{
    let a = (y + p - 1) % p;
    let b = (y + 1) % p;
    lemma_mod_bound(y + p - 1, p);
    lemma_mod_bound(y + 1, p);
    lemma_mul_mod_noop_general(y + p - 1, y + 1, p);
    assert((y + p - 1) * (y + 1) == (y * y - 1) + p * (y + 1)) by (nonlinear_arith);
    lemma_mod_multiples_vanish(y + 1, y * y - 1, p);
    lemma_sub_mod_noop(y * y, 1, p);
    lemma_small_mod(1, p as nat);
    lemma_small_mod(0, p as nat);
    assert((a * b) % p == 0);
    lemma_mul_nonnegative(a, b);
    lemma_prime_divides_product(a as nat, b as nat, p as nat);
    if a == 0 {
        if y == 0 {
            lemma_small_mod((p - 1) as nat, p as nat);
        } else {
            lemma_mod_add_multiples_vanish(y - 1, p);
            lemma_small_mod((y - 1) as nat, p as nat);
        }
    } else {
        if y + 1 < p {
            lemma_small_mod((y + 1) as nat, p as nat);
        }
    }
}

/// Minus one squared is one.
pub proof fn lemma_minus_one_squared(p: int)
    requires
        p >= 2,
    ensures
        ((p - 1) * (p - 1)) % p == 1,
{
    assert((p - 1) * (p - 1) == 1 + p * (p - 2)) by (nonlinear_arith);
    lemma_mod_multiples_vanish(p - 2, 1, p);
    lemma_small_mod(1, p as nat);
}

/// Euler's criterion, one way: a square other than zero, raised to
/// `(p - 1) / 2`, is one.  Here `p - 1 = t 2^s`, and the power is taken
/// as `(a^t)^(2^(s - 1))`.
pub proof fn lemma_square_to_half_order(a: int, p: int, s: nat, t: nat)
    requires
        is_prime(p),
        s >= 1,
        p - 1 == t * pow2(s),
        0 < a < p,
        is_square_mod(a, p),
    ensures
        pow_two_mod(pow_mod(a, t, p), (s - 1) as nat, p) == 1,
{
    let y = choose|y: int| 0 <= y < p && #[trigger] ((y * y) % p) == a;
    if y == 0 {
        assert(y * y == 0);
        lemma_small_mod(0, p as nat);
    }
    let h = pow2((s - 1) as nat);
    lemma_pow2_unfold(s);
    lemma_pow_mod_pow(a, t, h, p);
    lemma_pow_mod_of_square(y, t * h, p);
    assert(2 * (t * h) == t * (2 * h)) by (nonlinear_arith);
    lemma_fermat(y, p);
}

/// `(a^h)^2 a = a^(2 h + 1)`: what the search starts from.
pub proof fn lemma_odd_power(a: int, h: nat, p: int)
    requires
        p >= 2,
        0 <= a < p,
    ensures
        ({
            let w = pow_mod(a, h, p);
            let x = (w * a) % p;
            let b = (x * w) % p;
            &&& b == pow_mod(a, 2 * h + 1, p)
            &&& (x * x) % p == (a * b) % p
        }),
{
    let w = pow_mod(a, h, p);
    let x = (w * a) % p;
    let b = (x * w) % p;
    lemma_residues(a, h, Seq::empty(), p);
    lemma_pow_mod_adds(a, h, h, p);
    // b = a (w w)
    lemma_mul_mod_noop_left(w * a, w, p);
    lemma_mul_mod_noop_right(a, w * w, p);
    assert((w * a) * w == a * (w * w)) by (nonlinear_arith);
    assert(pow_mod(a, 2 * h + 1, p) == (a * pow_mod(a, 2 * h, p)) % p);
    // x x = a b
    lemma_mul_mod_noop_general(w * a, w * a, p);
    lemma_mul_mod_noop_right(a, (w * a) * w, p);
    assert((w * a) * (w * a) == a * ((w * a) * w)) by (nonlinear_arith);
}

/// One round of the search keeps `x^2 = a b`: with `w` for the factor,
/// `(x w)^2 = a (b w^2)`.
pub proof fn lemma_round_keeps_root(a: int, x: int, b: int, w: int, p: int)
    requires
        p >= 2,
        (x * x) % p == (a * b) % p,
    ensures
        ({
            let z = (w * w) % p;
            let x2 = (x * w) % p;
            let b2 = (b * z) % p;
            (x2 * x2) % p == (a * b2) % p
        }),
{
    let z = (w * w) % p;
    lemma_mul_mod_noop_general(x * w, x * w, p);
    assert((x * w) * (x * w) == (x * x) * (w * w)) by (nonlinear_arith);
    lemma_mul_mod_noop_general(x * x, w * w, p);
    lemma_mul_mod_noop_general(a * b, w * w, p);
    // a b2 = a (b z)
    lemma_mul_mod_noop_right(a, b * z, p);
    lemma_mul_mod_noop_right(a * b, w * w, p);
    assert(a * (b * z) == (a * b) * z) by (nonlinear_arith);
}

/// The integer of one limb is that limb.
pub proof fn lemma_single_limb(s: Seq<u64>)
    requires
        s.len() == 1,
    ensures
        limbs_value(s) == s[0],
{
    assert(limbs_value(s.drop_last()) == 0);
    assert(s[0] * crate::fields::bigint::base_pow(0) == s[0]) by (nonlinear_arith)
        requires
            crate::fields::bigint::base_pow(0) == 1,
    ;
}

/// A residue that fails Euler's criterion, raised to the odd part `t` of
/// `p - 1 = t 2^s`, has the order `2^s`.
pub proof fn lemma_non_residue_gives_root(z: int, p: int, s: nat, t: nat)
    requires
        p > 2,
        s >= 1,
        t % 2 == 1,
        p - 1 == t * pow2(s),
        0 < z < p,
        pow_mod(z, ((p - 1) / 2) as nat, p) == p - 1,
    ensures
        two_adic(p, s, pow_mod(z, t, p)),
{
    let h = pow2((s - 1) as nat);
    lemma_pow2_unfold(s);
    lemma_pow2_pos(s);
    lemma_pow2_pos((s - 1) as nat);
    lemma_residues(z, t, Seq::empty(), p);
    lemma_pow_mod_pow(z, t, h, p);
    assert(t * (2 * h) == 2 * (t * h)) by (nonlinear_arith);
    assert((p - 1) / 2 == t * h);
    lemma_mul_is_commutative(t as int, pow2(s) as int);
    lemma_fundamental_div_mod_converse(p - 1, pow2(s) as int, t as int, 0);
}

/// Tonelli and Shanks' search for a square root of `a` modulo the odd
/// prime `m`, where `m - 1 = t 2^rounds` with `t` odd and `root` has the
/// order `2^rounds`: it finds a root of every square.
pub fn sqrt_limbs<const N: usize>(a_limbs: &[u64; N], m: &[u64; N], rounds: u32, root: &[u64; N]) -> (r:
    [u64; N])
    requires
        N >= 1,
        is_prime(limbs_value(m@)),
        limbs_value(m@) > 2,
        limbs_value(a_limbs@) < limbs_value(m@),
        two_adic(limbs_value(m@), rounds as nat, limbs_value(root@)),
    ensures
        limbs_value(r@) < limbs_value(m@),
        is_square_mod(limbs_value(a_limbs@), limbs_value(m@)) ==> (limbs_value(r@) * limbs_value(r@))
            % limbs_value(m@) == limbs_value(a_limbs@),
{
    let ghost s = rounds as nat;
    let ghost p = limbs_value(m@);
    let ghost a = limbs_value(a_limbs@);
    let zero: [u64; N] = zero_limbs();
    let one_limbs: [u64; N] = small_limbs(1);
    proof {
        lemma_limbs_value_bound(a_limbs@);
        lemma_limbs_value_bound(m@);
    }
    if limbs_equal(a_limbs, &zero) {
        proof {
            assert(a * a == 0) by (nonlinear_arith)
                requires
                    a == 0,
            ;
            lemma_small_mod(0, p as nat);
        }
        return *a_limbs;
    }
    // modulus - 1 = t * 2^s with t odd
    let (top, _) = sub_borrow(m, &one_limbs);
    let mut q = top;
    let mut j: u32 = 0;
    proof {
        vstd::arithmetic::power2::lemma2_to64();
    }
    while j < rounds
        invariant
            j <= rounds,
            p > 2,
            limbs_value(top@) == p - 1,
            limbs_value(q@) == (p - 1) / (pow2(j as nat) as int),
        decreases rounds - j,
    {
        proof {
            lemma_pow2_pos(j as nat);
            lemma_pow2_unfold((j + 1) as nat);
            lemma_div_denominator(p - 1, pow2(j as nat) as int, 2);
            lemma_mul_is_commutative(pow2(j as nat) as int, 2);
        }
        q = halve(&q);
        j = j + 1;
    }
    let half = halve(&q);
    let ghost t = limbs_value(q@) as nat;
    let ghost h = limbs_value(half@) as nat;
    let w = pow_limbs_mod(a_limbs, &half, m);
    let mut x = mul_mod(&w, a_limbs, m);
    let mut b = mul_mod(&x, &w, m);
    let mut z = *root;
    let mut v: u32 = rounds;
    proof {
        lemma_limbs_value_bound(q@);
        lemma_limbs_value_bound(half@);
        lemma_pow2_pos(s);
        lemma_fundamental_div_mod(p - 1, pow2(s) as int);
        lemma_mul_is_commutative(pow2(s) as int, t as int);
        assert(t == 2 * h + 1);
        lemma_odd_power(a, h, p);
        if is_square_mod(a, p) {
            lemma_square_to_half_order(a, p, s, t);
        }
    }
    while v > 0
        invariant
            p == limbs_value(m@),
            is_prime(p),
            N >= 1,
            a == limbs_value(a_limbs@),
            0 <= a < p,
            p > 2,
            limbs_value(one_limbs@) == 1,
            0 <= limbs_value(x@) < p,
            0 <= limbs_value(b@) < p,
            0 <= limbs_value(z@) < p,
            1 <= v,
            (limbs_value(x@) * limbs_value(x@)) % p == (a * limbs_value(b@)) % p,
            pow_two_mod(limbs_value(z@), (v - 1) as nat, p) == p - 1,
            is_square_mod(a, p) ==> pow_two_mod(limbs_value(b@), (v - 1) as nat, p) == 1,
        decreases v,
    {
        proof {
            lemma_limbs_value_bound(b@);
            lemma_limbs_value_bound(z@);
        }
        if limbs_equal(&b, &one_limbs) {
            proof {
                assert(a * 1 == a);
                lemma_small_mod(a as nat, p as nat);
            }
            return x;
        }
        // the least k with b^(2^k) = 1
        let mut k: u32 = 0;
        let mut u = b;
        proof {
            lemma_pow_mod_first(limbs_value(b@), p);
        }
        while k < v && !limbs_equal(&u, &one_limbs)
            invariant
                k <= v,
                p == limbs_value(m@),
            is_prime(p),
            N >= 1,
                p > 2,
                limbs_value(one_limbs@) == 1,
                0 <= limbs_value(b@) < p,
                0 <= limbs_value(u@) < p,
                limbs_value(u@) == pow_two_mod(limbs_value(b@), k as nat, p),
                forall|i: nat| i < k ==> pow_two_mod(limbs_value(b@), i, p) != 1,
            decreases v - k,
        {
            proof {
                lemma_pow_two_step(limbs_value(b@), k as nat, p);
            }
            u = mul_mod(&u, &u, m);
            k = k + 1;
        }
        if k >= v {
            proof {
                if is_square_mod(a, p) {
                    assert(pow_two_mod(limbs_value(b@), (v - 1) as nat, p) == 1);
                }
            }
            return x;
        }
        let ghost y = pow_two_mod(limbs_value(b@), (k - 1) as nat, p);
        proof {
            assert(k >= 1);
            lemma_residues(limbs_value(b@), pow2((k - 1) as nat), Seq::empty(), p);
            lemma_pow_two_step(limbs_value(b@), (k - 1) as nat, p);
            lemma_roots_of_one(y, p);
            assert(y == p - 1);
            lemma_pow_mod_first(limbs_value(z@), p);
        }
        // w = z^(2^(v - k - 1))
        let mut w = z;
        let mut i: u32 = 0;
        while i < v - k - 1
            invariant
                k < v,
                i <= v - k - 1,
                p == limbs_value(m@),
            is_prime(p),
            N >= 1,
                p > 2,
                0 <= limbs_value(z@) < p,
                0 <= limbs_value(w@) < p,
                limbs_value(w@) == pow_two_mod(limbs_value(z@), i as nat, p),
            decreases v - k - 1 - i,
        {
            proof {
                lemma_pow_two_step(limbs_value(z@), i as nat, p);
            }
            w = mul_mod(&w, &w, m);
            i = i + 1;
        }
        let next_z = mul_mod(&w, &w, m);
        let next_b = mul_mod(&b, &next_z, m);
        let next_x = mul_mod(&x, &w, m);
        proof {
            lemma_pow_two_twice(limbs_value(z@), (v - k - 1) as nat, k as nat, p);
            lemma_pow_two_step(limbs_value(w@), (k - 1) as nat, p);
            lemma_pow_mod_mul_base(limbs_value(b@), limbs_value(next_z@), pow2((k - 1) as nat), p);
            lemma_minus_one_squared(p);
            lemma_round_keeps_root(a, limbs_value(x@), limbs_value(b@), limbs_value(w@), p);
        }
        z = next_z;
        b = next_b;
        x = next_x;
        v = k;
    }
    x
}

} // verus!
