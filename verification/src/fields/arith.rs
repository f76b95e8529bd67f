//! Number theory behind arithmetic modulo a prime: greatest common divisors,
//! Bezout coefficients and modular inverses.
use vstd::arithmetic::div_mod::*;
use vstd::arithmetic::mul::*;
use vstd::prelude::*;

verus! {

/// `p` is a prime number.
pub open spec fn is_prime(p: int) -> bool {
    &&& p >= 2
    &&& forall|d: int| 1 < d < p ==> #[trigger] (p % d) != 0
}

/// The greatest common divisor, by Euclid's recursion.
pub open spec fn gcd(a: nat, b: nat) -> nat
    decreases b,
{
    if b == 0 {
        a
    } else {
        gcd(b, a % b)
    }
}

/// `x` is an inverse of `a` modulo `p`, reduced into `[0, p)`.
pub open spec fn is_mod_inverse(a: int, x: int, p: int) -> bool {
    0 <= x < p && (a * x) % p == 1
}

/// The inverse of `a` modulo `p`; meaningful when `p` is prime and does not divide `a`.
pub open spec fn mod_inverse(a: int, p: int) -> int {
    choose|x: int| is_mod_inverse(a, x, p)
}

/// If `g` divides `b` and the remainder `a % b`, then `g` divides `a`.
pub proof fn lemma_divides_from_remainder(a: int, b: int, g: int)
    requires
        a >= 0,
        b > 0,
        g > 0,
        b % g == 0,
        (a % b) % g == 0,
    ensures
        a % g == 0,
{
    let q = a / b;
    let r = a % b;
    lemma_fundamental_div_mod(a, b);
    lemma_fundamental_div_mod(b, g);
    lemma_fundamental_div_mod(r, g);
    let kb = b / g;
    let kr = r / g;
    assert(a == g * (kb * q + kr)) by (nonlinear_arith)
        requires
            a == b * q + r,
            b == g * kb,
            r == g * kr,
    ;
    lemma_mod_multiples_basic(kb * q + kr, g);
    lemma_mul_is_commutative(g, kb * q + kr);
}

/// The greatest common divisor is positive and divides both arguments.
pub proof fn lemma_gcd_divides(a: nat, b: nat)
    requires
        a > 0 || b > 0,
    ensures
        gcd(a, b) > 0,
        a % gcd(a, b) == 0,
        b % gcd(a, b) == 0,
    decreases b,
{
    if b == 0 {
        lemma_mod_self_0(a as int);
        lemma_small_mod(0, a);
    } else {
        lemma_mod_pos_bound(a as int, b as int);
        lemma_gcd_divides(b, a % b);
        lemma_divides_from_remainder(a as int, b as int, gcd(a, b) as int);
    }
}

/// Bezout's identity: the greatest common divisor is an integer combination
/// of the two arguments.
pub proof fn lemma_bezout(a: nat, b: nat) -> (c: (int, int))
    ensures
        a * c.0 + b * c.1 == gcd(a, b),
    decreases b,
{
    if b == 0 {
        (1, 0)
    } else {
        lemma_mod_pos_bound(a as int, b as int);
        let (x, y) = lemma_bezout(b, a % b);
        let q = (a / b) as int;
        let r = (a % b) as int;
        lemma_fundamental_div_mod(a as int, b as int);
        let g = gcd(a, b) as int;
        let ai = a as int;
        let bi = b as int;
        assert(ai * y + bi * (x - q * y) == g) by (nonlinear_arith)
            requires
                bi * x + r * y == g,
                ai == bi * q + r,
        ;
        (y, x - q * y)
    }
}

/// A number strictly between zero and a prime is coprime to that prime.
pub proof fn lemma_gcd_with_prime(a: nat, p: nat)
    requires
        is_prime(p as int),
        0 < a < p,
    ensures
        gcd(p, a) == 1,
        gcd(a, p) == 1,
{
    lemma_gcd_divides(p, a);
    let g = gcd(p, a);
    if g != 1 {
        // g divides a, so g <= a < p; g divides p, against primality
        lemma_fundamental_div_mod(a as int, g as int);
        let k = (a / g) as int;
        assert(g <= a) by (nonlinear_arith)
            requires
                a == g * k,
                a > 0,
                g > 0,
        ;
        assert((p as int) % (g as int) == 0);
        assert(false);
    }
    // gcd(a, p) unfolds to gcd(p, a % p) = gcd(p, a)
    lemma_small_mod(a, p);
    assert(gcd(a, p) == gcd(p, a % p));
}

/// Every number strictly between zero and a prime has an inverse modulo it.
pub proof fn lemma_mod_inverse_exists(a: nat, p: nat)
    requires
        is_prime(p as int),
        0 < a < p,
    ensures
        is_mod_inverse(a as int, mod_inverse(a as int, p as int), p as int),
{
    lemma_gcd_with_prime(a, p);
    let (x, y) = lemma_bezout(a, p);
    let ai = a as int;
    let pi = p as int;
    assert(ai * x + pi * y == 1);
    // (a * x) % p == 1
    lemma_mod_multiples_vanish(y, ai * x, pi);
    lemma_mul_is_commutative(pi, y);
    assert((ai * x) % pi == 1int % pi);
    lemma_small_mod(1, p);
    // reduce x into [0, p)
    let xr = x % pi;
    lemma_mod_bound(x, pi);
    lemma_mul_mod_noop_right(ai, x, pi);
    assert(is_mod_inverse(ai, xr, pi));
}

/// Inverses modulo `p` are unique in `[0, p)`.
pub proof fn lemma_mod_inverse_unique(a: int, x: int, y: int, p: int)
    requires
        p >= 2,
        is_mod_inverse(a, x, p),
        is_mod_inverse(a, y, p),
    ensures
        x == y,
{
    // x == x * (a * y) == (x * a) * y == y   (mod p)
    lemma_mul_mod_noop_right(x, a * y, p);
    lemma_mul_mod_noop_left(a * x, y, p);
    assert(x * (a * y) == (a * x) * y) by (nonlinear_arith);
    lemma_small_mod(x as nat, p as nat);
    lemma_small_mod(y as nat, p as nat);
    assert((x * 1) % p == x);
    assert((1 * y) % p == y);
}

/// A prime that divides a product divides one of the factors.
pub proof fn lemma_prime_divides_product(a: nat, b: nat, p: nat)
    requires
        is_prime(p as int),
        a < p,
        b < p,
        (a * b) % p == 0,
    ensures
        a == 0 || b == 0,
{
    if a != 0 && b != 0 {
        lemma_mod_inverse_exists(a, p);
        let x = mod_inverse(a as int, p as int);
        let ai = a as int;
        let bi = b as int;
        let pi = p as int;
        // b == (x * a) * b == x * (a * b) == 0   (mod p)
        lemma_mul_mod_noop_left(ai * x, bi, pi);
        lemma_mul_mod_noop_right(x, ai * bi, pi);
        assert((ai * x) * bi == x * (ai * bi)) by (nonlinear_arith);
        lemma_small_mod(b, p);
        assert((1 * bi) % pi == bi);
        assert((x * 0) % pi == 0) by {
            lemma_small_mod(0, p);
        }
        assert(false);
    }
}

/// Whether `n` is a prime, by trial division up to its square root.
pub fn is_prime_u64(n: u64) -> (b: bool)
    ensures
        b == is_prime(n as int),
{
    if n < 2 {
        return false;
    }
    let mut d: u64 = 2;
    while d <= n / d
        invariant
            2 <= d <= n,
            forall|e: int| 1 < e < d ==> #[trigger] (n as int % e) != 0,
        decreases n - d,
    {
        proof {
            // d * d <= n, so d < n
            lemma_fundamental_div_mod(n as int, d as int);
            lemma_mod_bound(n as int, d as int);
            assert(d * (n / d) >= d * 2) by (nonlinear_arith)
                requires
                    n / d >= 2,
                    d >= 2,
            ;
        }
        if n % d == 0 {
            return false;
        }
        d += 1;
    }
    proof {
        assert forall|e: int| 1 < e < n implies #[trigger] (n as int % e) != 0 by {
            if e >= d && n as int % e == 0 {
                // the other factor is below d, and divides n as well
                let f = n as int / e;
                let q = n as int / (d as int);
                lemma_fundamental_div_mod(n as int, e);
                lemma_fundamental_div_mod(n as int, d as int);
                lemma_mod_bound(n as int, d as int);
                assert(1 < f < d) by (nonlinear_arith)
                    requires
                        n == e * f,
                        d <= e < n,
                        n == d * q + (n as int % (d as int)),
                        0 <= n as int % (d as int) < d,
                        q < d,
                        2 <= d,
                ;
                lemma_mod_multiples_basic(e, f);
                assert(n as int % f == 0);
            }
        }
    }
    true
}

} // verus!
