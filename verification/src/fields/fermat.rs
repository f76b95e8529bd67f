//! Fermat's little theorem: `x^(p - 1) = 1` modulo a prime `p` for every
//! `x` that `p` does not divide.  The multiples `x, 2x, ..., (p - 1) x`
//! are the numbers `1, ..., p - 1` in another order, so that both have the
//! same product.
use crate::fields::arith::{
    is_prime, lemma_mod_inverse_exists, lemma_prime_divides_product, mod_inverse,
};
use vstd::arithmetic::div_mod::*;
use vstd::arithmetic::mul::*;
use vstd::prelude::*;
use vstd::set_lib::{lemma_int_range, lemma_len_subset, set_int_range};

verus! {

/// `x^e` modulo `p`.
pub open spec fn pow_mod(x: int, e: nat, p: int) -> int
    decreases e,
{
    if e == 0 {
        1int % p
    } else {
        (x * pow_mod(x, (e - 1) as nat, p)) % p
    }
}

/// The product of the numbers of the sequence modulo `p`.
pub open spec fn product_mod(s: Seq<int>, p: int) -> int
    decreases s.len(),
{
    if s.len() == 0 {
        1int % p
    } else {
        (product_mod(s.drop_last(), p) * s.last()) % p
    }
}

/// The numbers `1, ..., n`.
pub open spec fn one_to(n: nat) -> Seq<int> {
    Seq::new(n, |i: int| i + 1)
}

/// The multiples `x, 2x, ..., n x` modulo `p`.
pub open spec fn multiples(x: int, n: nat, p: int) -> Seq<int> {
    Seq::new(n, |i: int| (x * (i + 1)) % p)
}

/// The sequence holds the numbers from 1 to its length, each once.
pub open spec fn is_arrangement(s: Seq<int>) -> bool {
    &&& s.no_duplicates()
    &&& forall|i: int| 0 <= i < s.len() ==> 1 <= #[trigger] s[i] <= s.len()
}

/// Powers and products modulo `p` are residues.
pub proof fn lemma_residues(x: int, e: nat, s: Seq<int>, p: int)
    requires
        p > 0,
    ensures
        0 <= pow_mod(x, e, p) < p,
        0 <= product_mod(s, p) < p,
{
    lemma_mod_bound(1, p);
    if e > 0 {
        lemma_mod_bound(x * pow_mod(x, (e - 1) as nat, p), p);
    }
    if s.len() > 0 {
        lemma_mod_bound(product_mod(s.drop_last(), p) * s.last(), p);
    }
}

/// The product of a sequence is the product of the sequence without one
/// of its numbers, times that number.
pub proof fn lemma_product_remove(s: Seq<int>, j: int, p: int)
    requires
        p > 0,
        0 <= j < s.len(),
    ensures
        product_mod(s, p) == (product_mod(s.remove(j), p) * s[j]) % p,
    decreases s.len(),
{
    let n = s.len();
    if j == n - 1 {
        assert(s.remove(j) =~= s.drop_last());
    } else {
        let t = s.drop_last();
        lemma_product_remove(t, j, p);
        assert(s.remove(j).drop_last() =~= t.remove(j));
        assert(s.remove(j).last() == s.last());
        let a = product_mod(t.remove(j), p);
        let sj = s[j];
        let l = s.last();
        lemma_mul_mod_noop_left(a * sj, l, p);
        lemma_mul_mod_noop_left(a * l, sj, p);
        assert((a * sj) * l == (a * l) * sj) by (nonlinear_arith);
    }
}

/// An arrangement holds its length.
pub proof fn lemma_arrangement_has_top(s: Seq<int>) -> (j: int)
    requires
        is_arrangement(s),
        s.len() > 0,
    ensures
        0 <= j < s.len(),
        s[j] == s.len(),
{
    let n = s.len() as int;
    if forall|i: int| 0 <= i < n ==> s[i] != n {
        // n different numbers among the n - 1 numbers from 1 to n - 1
        s.unique_seq_to_set();
        lemma_int_range(1, n);
        assert forall|v: int| s.to_set().contains(v) implies set_int_range(1, n).contains(v) by {
            let i = choose|i: int| 0 <= i < s.len() && s[i] == v;
            assert(1 <= s[i] <= n);
        }
        lemma_len_subset(s.to_set(), set_int_range(1, n));
        assert(false);
    }
    choose|j: int| 0 <= j < n && s[j] == n
}

/// The product of an arrangement is the product of `1, ..., n`.
pub proof fn lemma_arrangement_product(s: Seq<int>, p: int)
    requires
        p > 0,
        is_arrangement(s),
    ensures
        product_mod(s, p) == product_mod(one_to(s.len()), p),
    decreases s.len(),
{
    let n = s.len();
    if n == 0 {
        assert(one_to(0) =~= s);
    } else {
        let j = lemma_arrangement_has_top(s);
        let t = s.remove(j);
        s.remove_ensures(j);
        assert forall|a: int, b: int| 0 <= a < t.len() && 0 <= b < t.len() && a != b implies t[a]
            != t[b] by {
            let ia = if a < j {
                a
            } else {
                a + 1
            };
            let ib = if b < j {
                b
            } else {
                b + 1
            };
            assert(t[a] == s[ia] && t[b] == s[ib]);
        }
        assert forall|i: int| 0 <= i < t.len() implies 1 <= #[trigger] t[i] <= t.len() by {
            let k = if i < j {
                i
            } else {
                i + 1
            };
            assert(t[i] == s[k]);
            assert(s[k] != s[j]);
        }
        lemma_arrangement_product(t, p);
        lemma_product_remove(s, j, p);
        assert(one_to(n).drop_last() =~= one_to((n - 1) as nat));
        assert(one_to(n).last() == n);
    }
}

/// The product of the multiples of `x` is the power of `x` times the
/// product of `1, ..., n`.
pub proof fn lemma_multiples_product(x: int, n: nat, p: int)
    requires
        p > 0,
    ensures
        product_mod(multiples(x, n, p), p) == (pow_mod(x, n, p) * product_mod(one_to(n), p)) % p,
    decreases n,
{
    if n == 0 {
        lemma_mod_bound(1, p);
        lemma_mul_mod_noop_general(1, 1, p);
    } else {
        let m = (n - 1) as nat;
        lemma_multiples_product(x, m, p);
        assert(multiples(x, n, p).drop_last() =~= multiples(x, m, p));
        assert(one_to(n).drop_last() =~= one_to(m));
        let pw = pow_mod(x, m, p);
        let f = product_mod(one_to(m), p);
        let k = n as int;
        // the product of the multiples is (pw f)(x k)
        lemma_mul_mod_noop_general(pw * f, x * k, p);
        // the power times the product of 1, ..., n is (x pw)(f k)
        lemma_mul_mod_noop_general(x * pw, f * k, p);
        assert((pw * f) * (x * k) == (x * pw) * (f * k)) by (nonlinear_arith);
    }
}

/// The multiples `x, 2x, ..., (p - 1) x` modulo a prime `p` are an
/// arrangement where `p` does not divide `x`.
pub proof fn lemma_multiples_arrangement(x: int, p: int)
    requires
        is_prime(p),
        0 < x < p,
    ensures
        is_arrangement(multiples(x, (p - 1) as nat, p)),
{
    let n = (p - 1) as nat;
    let m = multiples(x, n, p);
    assert forall|i: int| 0 <= i < m.len() implies 1 <= #[trigger] m[i] <= m.len() by {
        lemma_mod_bound(x * (i + 1), p);
        if (x * (i + 1)) % p == 0 {
            lemma_prime_divides_product(x as nat, (i + 1) as nat, p as nat);
        }
    }
    assert forall|a: int, b: int| 0 <= a < m.len() && 0 <= b < m.len() && a != b implies m[a]
        != m[b] by {
        if m[a] == m[b] {
            let (lo, hi) = if a < b {
                (a, b)
            } else {
                (b, a)
            };
            // p divides x (hi - lo)
            lemma_mod_equivalence(x * (hi + 1), x * (lo + 1), p);
            assert(x * (hi + 1) - x * (lo + 1) == x * (hi - lo)) by (nonlinear_arith);
            lemma_prime_divides_product(x as nat, (hi - lo) as nat, p as nat);
        }
    }
}

/// The product of `1, ..., n` is not divisible by a prime above `n`.
pub proof fn lemma_factorial_nonzero(n: nat, p: int)
    requires
        is_prime(p),
        n < p,
    ensures
        0 < product_mod(one_to(n), p) < p,
    decreases n,
{
    lemma_residues(0, 0, one_to(n), p);
    if n == 0 {
        lemma_small_mod(1, p as nat);
    } else {
        let m = (n - 1) as nat;
        lemma_factorial_nonzero(m, p);
        assert(one_to(n).drop_last() =~= one_to(m));
        let f = product_mod(one_to(m), p);
        if (f * n) % p == 0 {
            lemma_prime_divides_product(f as nat, n, p as nat);
        }
    }
}

/// Fermat's little theorem.
pub proof fn lemma_fermat(x: int, p: int)
    requires
        is_prime(p),
        0 < x < p,
    ensures
        pow_mod(x, (p - 1) as nat, p) == 1,
{
    let n = (p - 1) as nat;
    let m = multiples(x, n, p);
    lemma_multiples_arrangement(x, p);
    lemma_arrangement_product(m, p);
    lemma_multiples_product(x, n, p);
    lemma_factorial_nonzero(n, p);
    lemma_residues(x, n, m, p);
    let f = product_mod(one_to(n), p);
    let w = pow_mod(x, n, p);
    assert(f == (w * f) % p);
    // with g the inverse of f: w = w (f g) = (w f) g = f g = 1
    lemma_mod_inverse_exists(f as nat, p as nat);
    let g = mod_inverse(f, p);
    lemma_mul_mod_noop_right(w, f * g, p);
    lemma_mul_mod_noop_left(w * f, g, p);
    assert(w * (f * g) == (w * f) * g) by (nonlinear_arith);
    lemma_small_mod(w as nat, p as nat);
    lemma_small_mod(1, p as nat);
    assert((w * 1) % p == w);
}

/// The power of a product of exponents: `x^(a + b) = x^a x^b`.
pub proof fn lemma_pow_mod_adds(x: int, a: nat, b: nat, p: int)
    requires
        p > 0,
    ensures
        pow_mod(x, a + b, p) == (pow_mod(x, a, p) * pow_mod(x, b, p)) % p,
    decreases a,
{
    lemma_residues(x, b, Seq::empty(), p);
    if a == 0 {
        lemma_small_mod(pow_mod(x, b, p) as nat, p as nat);
        lemma_mul_mod_noop_left(1, pow_mod(x, b, p), p);
    } else {
        lemma_pow_mod_adds(x, (a - 1) as nat, b, p);
        let u = pow_mod(x, (a - 1) as nat, p);
        let v = pow_mod(x, b, p);
        // x ((u v) % p) and ((x u) % p) v
        lemma_mul_mod_noop_right(x, u * v, p);
        lemma_mul_mod_noop_left(x * u, v, p);
        assert(x * (u * v) == (x * u) * v) by (nonlinear_arith);
    }
}

/// `(x^2)^k = x^(2k)`, with the square reduced.
pub proof fn lemma_pow_mod_of_square(x: int, k: nat, p: int)
    requires
        p > 0,
    ensures
        pow_mod((x * x) % p, k, p) == pow_mod(x, 2 * k, p),
    decreases k,
{
    if k > 0 {
        lemma_pow_mod_of_square(x, (k - 1) as nat, p);
        let r = pow_mod(x, (2 * k - 2) as nat, p);
        // ((x x) % p) r and x ((x r) % p)
        lemma_mul_mod_noop_left(x * x, r, p);
        lemma_mul_mod_noop_right(x, x * r, p);
        assert((x * x) * r == x * (x * r)) by (nonlinear_arith);
        assert(pow_mod(x, (2 * k - 1) as nat, p) == (x * r) % p);
    }
}

/// Where the prime `p` is 3 modulo 4, the power `a^((p + 1) / 4)` is a
/// square root of every square `a = x^2`.
pub proof fn lemma_root_of_square(x: int, p: int)
    requires
        is_prime(p),
        p % 4 == 3,
        0 <= x < p,
    ensures
        ({
            let a = (x * x) % p;
            let c = pow_mod(a, (p / 4 + 1) as nat, p);
            (c * c) % p == a
        }),
{
    let a = (x * x) % p;
    let k = (p / 4 + 1) as nat;
    let h = ((p - 1) / 2) as nat;
    let c = pow_mod(a, k, p);
    lemma_mod_bound(x * x, p);
    lemma_residues(a, h, Seq::empty(), p);
    // c c = a^(2k) = a a^h, and a^h = x^(p - 1)
    lemma_pow_mod_adds(a, k, k, p);
    assert(k + k == 1 + h);
    lemma_pow_mod_of_square(x, h, p);
    assert(2 * h == p - 1);
    if x == 0 {
        assert(a == 0) by {
            lemma_small_mod(0, p as nat);
        }
        assert(a * pow_mod(a, h, p) == 0) by (nonlinear_arith)
            requires
                a == 0,
        ;
        lemma_small_mod(0, p as nat);
    } else {
        lemma_fermat(x, p);
        lemma_small_mod(a as nat, p as nat);
        assert(a * 1 == a);
    }
}

/// `x^e` modulo `m`, by squaring.
pub fn pow_mod_exec(x: u64, e: u64, m: u64) -> (r: u64)
    requires
        m > 0,
        x < m,
    ensures
        r == pow_mod(x as int, e as nat, m as int),
        r < m,
{
    let mut acc: u64 = 1 % m;
    let mut base: u64 = x;
    let mut k: u64 = e;
    proof {
        lemma_residues(x as int, e as nat, Seq::empty(), m as int);
        lemma_mul_mod_noop_right(pow_mod(x as int, e as nat, m as int), 1, m as int);
        lemma_small_mod(pow_mod(x as int, e as nat, m as int) as nat, m as nat);
    }
    while k > 0
        invariant
            m > 0,
            acc < m,
            base < m,
            (pow_mod(base as int, k as nat, m as int) * acc) % (m as int) == pow_mod(
                x as int,
                e as nat,
                m as int,
            ),
        decreases k,
    {
        let ghost h = (k / 2) as nat;
        let ghost b = base as int;
        let ghost mi = m as int;
        let ghost old_acc = acc as int;
        proof {
            lemma_pow_mod_of_square(b, h, mi);
        }
        if k % 2 == 1 {
            proof {
                let r = pow_mod(b, (2 * h) as nat, mi);
                // ((b r) % m) acc and r ((acc b) % m)
                lemma_mul_mod_noop_left(b * r, old_acc, mi);
                lemma_mul_mod_noop_right(r, old_acc * b, mi);
                assert((b * r) * old_acc == r * (old_acc * b)) by (nonlinear_arith);
            }
            acc = mul_mod_u64(acc, base, m);
        }
        base = mul_mod_u64(base, base, m);
        k = k / 2;
    }
    proof {
        lemma_residues(x as int, e as nat, Seq::empty(), m as int);
        assert(k == 0);
        assert(pow_mod(base as int, 0, m as int) == 1int % (m as int));
        if m > 1 {
            lemma_small_mod(1, m as nat);
            lemma_small_mod(acc as nat, m as nat);
            assert(1 * acc == acc);
        }
    }
    acc
}

/// `(x * y) mod m` without overflow.
pub fn mul_mod_u64(x: u64, y: u64, m: u64) -> (r: u64)
    requires
        m > 0,
    ensures
        r == (x * y) % (m as int),
        r < m,
{
    assert(x * y <= u128::MAX) by (nonlinear_arith)
        requires
            x <= u64::MAX,
            y <= u64::MAX,
    ;
    assert(0 <= x * y) by (nonlinear_arith);
    let wide: u128 = (x as u128) * (y as u128);
    proof {
        lemma_mod_bound(wide as int, m as int);
    }
    (wide % (m as u128)) as u64
}

} // verus!
