//! Prime fields whose modulus fits one 64-bit limb.
use crate::bytes::{read_u64, window, write_u64, ByteError};
use crate::fields::arith::{
    gcd, is_mod_inverse, is_prime, lemma_gcd_with_prime, lemma_mod_inverse_exists,
    lemma_mod_inverse_unique, mod_inverse,
};
use crate::fields::fermat::{lemma_fermat, lemma_root_of_square, mul_mod_u64, pow_mod, pow_mod_exec};
use crate::fields::field::{Field, PrimeField};
use crate::fields::pack::{low_bits, pack_le, two_pow};
use crate::fields::pow::fpow;
use crate::fields::tonelli::{
    has_non_residue, is_square_mod, lemma_non_residue_gives_root, lemma_single_limb, sqrt_limbs,
};
use vstd::arithmetic::div_mod::*;
use vstd::arithmetic::mul::*;
use vstd::arithmetic::power2::{lemma_pow2_pos, lemma_pow2_unfold, pow2};
use vstd::bits::lemma_u64_shr_is_div;
use vstd::bytes::*;
use vstd::prelude::*;

verus! {

/// An element of the integers modulo `P`, kept as its least residue.
#[derive(Clone, Copy, Debug, PartialEq, Eq, Hash)]
pub struct Fp<const P: u64> {
    pub v: u64,
}

/// `(x - y) mod m` for residues `x` and `y`.
pub fn sub_mod(x: u64, y: u64, m: u64) -> (r: u64)
    requires
        x < m,
        y < m,
    ensures
        r == (x - y) % (m as int),
        r < m,
{
    if x >= y {
        proof {
            lemma_small_mod((x - y) as nat, m as nat);
        }
        x - y
    } else {
        proof {
            lemma_small_mod((x - y + m) as nat, m as nat);
            lemma_mod_add_multiples_vanish(x - y, m as int);
        }
        m - (y - x)
    }
}

/// The number of bits of `x`: the least `n` with `x < 2^n`.
pub open spec fn bit_length(x: nat) -> nat
    decreases x,
{
    if x == 0 {
        0
    } else {
        1 + bit_length(x / 2)
    }
}

/// A number is below two to the number of its bits, and not below half of
/// that.
pub proof fn lemma_bit_length(x: nat)
    ensures
        x < pow2(bit_length(x)),
        x > 0 ==> pow2((bit_length(x) - 1) as nat) <= x,
    decreases x,
{
    if x == 0 {
        lemma_pow2_pos(0);
    } else {
        lemma_bit_length(x / 2);
        lemma_pow2_unfold(bit_length(x));
        if x / 2 > 0 {
            lemma_pow2_unfold(bit_length(x / 2));
        } else {
            lemma_pow2_pos(0);
            assert(pow2(0) == 1) by {
                vstd::arithmetic::power2::lemma2_to64();
            }
        }
    }
}

/// A number below `2^k` has at most `k` bits.
pub proof fn lemma_bit_length_bound(x: nat, k: nat)
    requires
        x < pow2(k),
    ensures
        bit_length(x) <= k,
    decreases x,
{
    if x > 0 {
        if k == 0 {
            assert(pow2(0) == 1) by {
                vstd::arithmetic::power2::lemma2_to64();
            }
        } else {
            lemma_pow2_unfold(k);
            lemma_bit_length_bound(x / 2, (k - 1) as nat);
        }
    }
}

/// The number of bits of `x`.
pub fn count_bits(x: u64) -> (n: usize)
    ensures
        n == bit_length(x as nat),
        n <= 64,
{
    proof {
        vstd::arithmetic::power2::lemma2_to64();
        vstd::arithmetic::power2::lemma2_to64_rest();
        lemma_bit_length_bound(x as nat, 64);
    }
    let mut n: usize = 0;
    let mut y = x;
    while y > 0
        invariant
            n + bit_length(y as nat) == bit_length(x as nat),
            bit_length(x as nat) <= 64,
        decreases y,
    {
        y = y / 2;
        n += 1;
    }
    n
}

/// One step of Euclid's algorithm keeps the remainders congruent to
/// multiples of `a`.
proof fn lemma_euclid_step(a: int, p: int, r0: int, r1: int, s0: int, s1: int, q: int)
    requires
        p > 0,
        (a * s0) % p == r0 % p,
        (a * s1) % p == r1 % p,
    ensures
        (a * ((s0 - (q * s1) % p) % p)) % p == (r0 - q * r1) % p,
{
    let s2 = (s0 - (q * s1) % p) % p;
    lemma_sub_mod_noop_right(s0, q * s1, p);
    assert(s2 == (s0 - q * s1) % p);
    lemma_mul_mod_noop_right(a, s0 - q * s1, p);
    assert(a * (s0 - q * s1) == a * s0 - q * (a * s1)) by (nonlinear_arith);
    lemma_sub_mod_noop(a * s0, q * (a * s1), p);
    lemma_mul_mod_noop_right(q, a * s1, p);
    lemma_mul_mod_noop_right(q, r1, p);
    lemma_sub_mod_noop(r0, q * r1, p);
}

impl<const P: u64> Fp<P> {
    /// The element that `x` reduces to.
    pub fn from_u64(x: u64) -> (r: Self)
        requires
            P > 0,
        ensures
            r.v == x % P,
            r.v < P,
    {
        Fp { v: x % P }
    }

    /// The least residue of the element.
    pub fn value(&self) -> (x: u64)
        ensures
            x == self.v,
    {
        self.v
    }

    /// The modulus.
    pub fn modulus() -> (m: u64)
        ensures
            m == P,
    {
        P
    }

    /// `self` to the power `e`, by squaring; the caller checks what comes
    /// of it.
    fn power(&self, e: u64) -> (r: Self)
        requires
            self.wf(),
        ensures
            r.wf(),
    {
        Fp { v: pow_mod_exec(self.v, e, P) }
    }

    /// The least residue that fails Euler's criterion, or `P` if there is
    /// none.
    fn non_residue() -> (z: u64)
        requires
            P > 2,
        ensures
            0 < z <= P,
            z < P ==> pow_mod(z as int, ((P - 1) / 2) as nat, P as int) == P - 1,
            z == P ==> !has_non_residue(P as int),
    {
        let half: u64 = (P - 1) / 2;
        let mut z: u64 = 1;
        while z < P
            invariant
                0 < z <= P,
                P > 2,
                half == (P - 1) / 2,
                forall|y: int| 0 < y < z ==> #[trigger] pow_mod(y, half as nat, P as int) != P - 1,
            decreases P - z,
        {
            if pow_mod_exec(z, half, P) == P - 1 {
                return z;
            }
            z = z + 1;
        }
        z
    }

    /// Tonelli and Shanks' search for a square root when `P` is odd: it
    /// finds a root of every square, if some residue fails Euler's
    /// criterion.
    fn tonelli_shanks(&self) -> (r: Self)
        requires
            self.wf(),
            P % 2 == 1,
        ensures
            r.wf(),
            has_non_residue(P as int) && is_square_mod(self.v as int, P as int) ==> (r.v * r.v) % (
            P as int) == self.v,
    {
        let z = Self::non_residue();
        if z >= P {
            return *self;
        }
        // P - 1 = q * 2^s with q odd
        let mut q: u64 = P - 1;
        let mut s: u32 = 0;
        proof {
            vstd::arithmetic::power2::lemma2_to64();
            assert(q * 1 == q);
        }
        while q % 2 == 0
            invariant
                q >= 1,
                q * pow2(s as nat) == P - 1,
                s <= 64,
            decreases q,
        {
            proof {
                lemma_pow2_unfold((s + 1) as nat);
                lemma_pow2_pos(s as nat);
                let w = pow2(s as nat) as int;
                let half = (q / 2) as int;
                assert(half * (2 * w) == q * w) by (nonlinear_arith)
                    requires
                        q == 2 * half,
                ;
                if s == 64 {
                    vstd::arithmetic::power2::lemma2_to64_rest();
                    assert(q * w >= w) by (nonlinear_arith)
                        requires
                            q >= 1,
                            w > 0,
                    ;
                }
            }
            q = q / 2;
            s = s + 1;
        }
        proof {
            if s == 0 {
                assert(q * 1 == q);
            }
            lemma_mul_nonnegative(q as int, pow2(s as nat) as int);
            lemma_non_residue_gives_root(z as int, P as int, s as nat, q as nat);
        }
        let c = pow_mod_exec(z, q, P);
        let a_limbs: [u64; 1] = [self.v];
        let m: [u64; 1] = [P];
        let root: [u64; 1] = [c];
        proof {
            lemma_single_limb(a_limbs@);
            lemma_single_limb(m@);
            lemma_single_limb(root@);
        }
        let r = sqrt_limbs(&a_limbs, &m, s, &root);
        proof {
            lemma_single_limb(r@);
        }
        Fp { v: r[0] }
    }
}

impl<const P: u64> Field for Fp<P> {
    open spec fn is_field() -> bool {
        is_prime(P as int)
    }

    open spec fn wf(&self) -> bool {
        self.v < P && is_prime(P as int)
    }

    open spec fn zero_spec() -> Self {
        Fp { v: 0 }
    }

    open spec fn one_spec() -> Self {
        Fp { v: 1 }
    }

    open spec fn add_spec(self, rhs: Self) -> Self {
        Fp { v: ((self.v + rhs.v) % (P as int)) as u64 }
    }

    open spec fn neg_spec(self) -> Self {
        Fp { v: ((P - self.v) % (P as int)) as u64 }
    }

    open spec fn mul_spec(self, rhs: Self) -> Self {
        Fp { v: ((self.v * rhs.v) % (P as int)) as u64 }
    }

    open spec fn inv_spec(self) -> Self {
        Fp { v: mod_inverse(self.v as int, P as int) as u64 }
    }

    open spec fn lt_spec(self, rhs: Self) -> bool {
        self.v < rhs.v
    }

    /// The identity: the elements of a prime field are their own powers
    /// of the characteristic.
    open spec fn frobenius_spec(self, power: nat) -> Self {
        self
    }

    /// The search finds a root of every square where the modulus is 2 or
    /// is 3 modulo 4, or some residue fails Euler's criterion.
    open spec fn sqrt_is_complete() -> bool {
        P == 2 || P % 4 == 3 || has_non_residue(P as int)
    }

    open spec fn byte_len() -> nat {
        8
    }

    open spec fn to_bytes_spec(self) -> Seq<u8> {
        spec_u64_to_le_bytes(self.v)
    }

    proof fn lemma_wf_is_field(a: Self) {
    }

    proof fn lemma_closed(a: Self, b: Self) {
        assert(is_prime(P as int));
        assert(P >= 2);
        assert(Self::one_spec().v == 1);
        lemma_mod_bound(a.v + b.v, P as int);
        lemma_mod_bound(P - a.v, P as int);
        lemma_mod_bound(a.v * b.v, P as int);
    }

    proof fn lemma_constants() {
    }

    proof fn lemma_add_commutative(a: Self, b: Self) {
    }

    proof fn lemma_add_associative(a: Self, b: Self, c: Self) {
        let p = P as int;
        lemma_mod_bound(a.v + b.v, p);
        lemma_mod_bound(b.v + c.v, p);
        lemma_add_mod_noop_right(c.v as int, a.v + b.v, p);
        lemma_add_mod_noop_right(a.v as int, b.v + c.v, p);
    }

    proof fn lemma_add_zero(a: Self) {
        lemma_small_mod(a.v as nat, P as nat);
    }

    proof fn lemma_add_neg(a: Self) {
        let p = P as int;
        lemma_mod_bound(p - a.v, p);
        lemma_add_mod_noop_right(a.v as int, p - a.v, p);
        lemma_mod_self_0(p);
    }

    proof fn lemma_mul_commutative(a: Self, b: Self) {
        lemma_mul_is_commutative(a.v as int, b.v as int);
    }

    proof fn lemma_mul_associative(a: Self, b: Self, c: Self) {
        let p = P as int;
        lemma_mod_bound(a.v * b.v, p);
        lemma_mod_bound(b.v * c.v, p);
        lemma_mul_mod_noop_left(a.v * b.v, c.v as int, p);
        lemma_mul_mod_noop_right(a.v as int, b.v * c.v, p);
        lemma_mul_is_associative(a.v as int, b.v as int, c.v as int);
    }

    proof fn lemma_mul_one(a: Self) {
        lemma_small_mod(a.v as nat, P as nat);
    }

    proof fn lemma_distributive(a: Self, b: Self, c: Self) {
        let p = P as int;
        lemma_mod_bound(b.v + c.v, p);
        lemma_mod_bound(a.v * b.v, p);
        lemma_mod_bound(a.v * c.v, p);
        lemma_mul_mod_noop_right(a.v as int, b.v + c.v, p);
        lemma_add_mod_noop(a.v * b.v, a.v * c.v, p);
        lemma_mul_is_distributive_add(a.v as int, b.v as int, c.v as int);
    }

    proof fn lemma_mul_inverse(a: Self) {
        lemma_mod_inverse_exists(a.v as nat, P as nat);
    }

    proof fn lemma_lt_total(a: Self, b: Self) {
    }

    proof fn lemma_bytes_injective(a: Self, b: Self) {
        lemma_auto_spec_u64_to_from_le_bytes();
    }

    fn zero() -> (r: Self) {
        Fp { v: 0 }
    }

    fn one() -> (r: Self) {
        Fp { v: 1 }
    }

    fn is_equal(&self, other: &Self) -> (b: bool) {
        self.v == other.v
    }

    fn is_less_than(&self, other: &Self) -> (b: bool) {
        self.v < other.v
    }

    fn add(&self, rhs: &Self) -> (r: Self) {
        let wide: u128 = (self.v as u128) + (rhs.v as u128);
        proof {
            lemma_mod_bound(wide as int, P as int);
        }
        Fp { v: (wide % (P as u128)) as u64 }
    }

    fn neg(&self) -> (r: Self) {
        proof {
            lemma_mod_bound(P - self.v, P as int);
        }
        Fp { v: (P - self.v) % P }
    }

    fn mul(&self, rhs: &Self) -> (r: Self) {
        Fp { v: mul_mod_u64(self.v, rhs.v, P) }
    }

    fn inverse(&self) -> (r: Option<Self>) {
        if self.v == 0 {
            return None;
        }
        let mut r0: u64 = P;
        let mut r1: u64 = self.v;
        let mut s0: u64 = 0;
        let mut s1: u64 = 1;
        proof {
            lemma_gcd_with_prime(self.v as nat, P as nat);
            lemma_mod_self_0(P as int);
            lemma_small_mod(0, P as nat);
        }
        while r1 != 0
            invariant
                is_prime(P as int),
                0 < self.v < P,
                s0 < P,
                s1 < P,
                gcd(r0 as nat, r1 as nat) == 1,
                (self.v * s0) % (P as int) == r0 % P,
                (self.v * s1) % (P as int) == r1 % P,
            decreases r1,
        {
            let q = r0 / r1;
            let r2 = r0 % r1;
            let qs = mul_mod_u64(q, s1, P);
            let s2 = sub_mod(s0, qs, P);
            proof {
                lemma_euclid_step(
                    self.v as int,
                    P as int,
                    r0 as int,
                    r1 as int,
                    s0 as int,
                    s1 as int,
                    q as int,
                );
                lemma_fundamental_div_mod(r0 as int, r1 as int);
                lemma_mul_is_commutative(q as int, r1 as int);
                assert(r2 == r0 - q * r1);
            }
            r0 = r1;
            r1 = r2;
            s0 = s1;
            s1 = s2;
        }
        proof {
            assert(r0 == 1);
            lemma_small_mod(1, P as nat);
            assert(is_mod_inverse(self.v as int, s0 as int, P as int));
            lemma_mod_inverse_exists(self.v as nat, P as nat);
            lemma_mod_inverse_unique(
                self.v as int,
                s0 as int,
                mod_inverse(self.v as int, P as int),
                P as int,
            );
        }
        Some(Fp { v: s0 })
    }

    fn sqrt(&self) -> (r: Option<Self>) {
        let cand = if P % 2 == 0 {
            *self
        } else if P % 4 == 3 {
            Fp { v: pow_mod_exec(self.v, P / 4 + 1, P) }
        } else {
            self.tonelli_shanks()
        };
        let sq = cand.mul(&cand);
        if sq.v != self.v {
            proof {
                if Self::sqrt_is_complete() {
                    assert forall|x: Self| x.wf() implies #[trigger] x.mul_spec(x) != *self by {
                        if x.mul_spec(x) == *self {
                            if P == 2 {
                                assert(self.v == 0 || self.v == 1);
                            } else if P % 4 == 3 {
                                lemma_root_of_square(x.v as int, P as int);
                            } else {
                                assert((x.v * x.v) % (P as int) == self.v);
                                assert(is_square_mod(self.v as int, P as int));
                            }
                        }
                    }
                }
            }
            return None;
        }
        let other = cand.neg();
        proof {
            // the negation is a root as well
            let p = P as int;
            let c = cand.v as int;
            let o = other.v as int;
            lemma_mul_mod_noop_general(p - c, p - c, p);
            assert((p - c) * (p - c) == c * c + p * (p - 2 * c)) by (nonlinear_arith);
            lemma_mod_multiples_vanish(p - 2 * c, c * c, p);
        }
        if other.v < cand.v {
            proof {
                let p = P as int;
                lemma_mod_bound(p - other.v, p);
                assert(other.neg_spec() == cand) by {
                    if cand.v == 0 {
                        lemma_mod_self_0(p);
                        lemma_small_mod(0, P as nat);
                    } else {
                        lemma_small_mod((p - cand.v) as nat, P as nat);
                        lemma_small_mod(cand.v as nat, P as nat);
                    }
                }
            }
            Some(other)
        } else {
            Some(cand)
        }
    }

    fn frobenius_map(&self, power: usize) -> (r: Self) {
        *self
    }

    fn byte_size() -> (n: usize) {
        8
    }

    fn write(&self, out: &mut Vec<u8>) {
        write_u64(out, self.v);
    }

    fn read(bytes: &[u8], start: usize) -> (r: Result<(Self, usize), ByteError>) {
        proof {
            lemma_auto_spec_u64_to_from_le_bytes();
        }
        match read_u64(bytes, start) {
            Err(e) => Err(e),
            Ok((x, next)) => {
                if x >= P {
                    assert forall|a: Self| a.wf() implies #[trigger] a.to_bytes_spec() != window(
                        bytes@,
                        start as int,
                        8,
                    ) by {
                        if a.to_bytes_spec() == window(bytes@, start as int, 8) {
                            assert(spec_u64_from_le_bytes(spec_u64_to_le_bytes(a.v)) == a.v);
                        }
                    }
                    Err(ByteError::InvalidData)
                } else {
                    Ok((Fp { v: x }, next))
                }
            },
        }
    }
}

/// The powers of the field are the powers modulo `P`.
pub proof fn lemma_fpow_value<const P: u64>(a: Fp<P>, e: nat)
    requires
        a.wf(),
    ensures
        fpow(a, e).v == pow_mod(a.v as int, e, P as int),
        fpow(a, e).v < P,
    decreases e,
{
    if e == 0 {
        lemma_small_mod(1, P as nat);
    } else {
        lemma_fpow_value::<P>(a, (e - 1) as nat);
        lemma_mod_bound(a.v * fpow(a, (e - 1) as nat).v, P as int);
    }
}

/// Fermat's little theorem in the field: `a^(P - 1) = 1` for `a` other
/// than zero.
pub proof fn lemma_fermat_in_field<const P: u64>(a: Fp<P>)
    requires
        a.wf(),
        a.v != 0,
    ensures
        fpow(a, (P - 1) as nat) == Fp::<P>::one_spec(),
{
    lemma_fermat(a.v as int, P as int);
    lemma_fpow_value::<P>(a, (P - 1) as nat);
}

/// The power of the characteristic is the identity: `a^P = a`.
pub proof fn lemma_frobenius<const P: u64>(a: Fp<P>)
    requires
        a.wf(),
    ensures
        fpow(a, P as nat) == a,
        fpow(a, P as nat) == a.frobenius_spec(1),
{
    if a.v == 0 {
        lemma_fpow_value::<P>(a, (P - 1) as nat);
        lemma_small_mod(0, P as nat);
        assert(a.v * fpow(a, (P - 1) as nat).v == 0) by (nonlinear_arith)
            requires
                a.v == 0,
        ;
    } else {
        lemma_fermat_in_field::<P>(a);
        Fp::<P>::lemma_mul_one(a);
    }
}

/// The power of the characteristic, taken `k` times.
pub open spec fn frobenius_power<const P: u64>(a: Fp<P>, k: nat) -> Fp<P>
    decreases k,
{
    if k == 0 {
        a
    } else {
        fpow(frobenius_power(a, (k - 1) as nat), P as nat)
    }
}

/// `a^(P^k)` is the Frobenius map applied `k` times.
pub proof fn lemma_frobenius_iterated<const P: u64>(a: Fp<P>, k: nat)
    requires
        a.wf(),
    ensures
        frobenius_power(a, k) == a.frobenius_spec(k),
    decreases k,
{
    if k > 0 {
        lemma_frobenius_iterated::<P>(a, (k - 1) as nat);
        lemma_frobenius::<P>(a);
    }
}

/// The powers of two of the field are the powers of two, reduced.
proof fn lemma_two_pow_value<const P: u64>(i: nat)
    requires
        is_prime(P as int),
    ensures
        two_pow::<Fp<P>>(i).v == (pow2(i) as int) % (P as int),
        two_pow::<Fp<P>>(i).v < P,
    decreases i,
{
    vstd::arithmetic::power2::lemma2_to64();
    if i == 0 {
        lemma_small_mod(1, P as nat);
    } else {
        lemma_two_pow_value::<P>((i - 1) as nat);
        lemma_pow2_unfold(i);
        let h = pow2((i - 1) as nat) as int;
        lemma_add_mod_noop(h, h, P as int);
        lemma_mod_bound(h + h, P as int);
    }
}

/// The sum of the powers of two at the lowest `k` set bits of a residue
/// is the residue modulo `2^k`.
proof fn lemma_pack_value<const P: u64>(v: u64, k: nat)
    requires
        is_prime(P as int),
        v < P,
        k <= 64,
    ensures
        pack_le::<Fp<P>>(low_bits(seq![v], k)).v == (v as int) % (pow2(k) as int),
        pack_le::<Fp<P>>(low_bits(seq![v], k)).v < P,
    decreases k,
{
    vstd::arithmetic::power2::lemma2_to64();
    let bits = low_bits(seq![v], k);
    if k == 0 {
    } else {
        let j = (k - 1) as nat;
        lemma_pack_value::<P>(v, j);
        lemma_two_pow_value::<P>(j);
        assert(bits.drop_last() =~= low_bits(seq![v], j));
        let bit = bits.last();
        let pj = pow2(j) as int;
        lemma_pow2_pos(j);
        lemma_pow2_unfold(k);
        // the bit is the quotient by 2^j, modulo 2
        let sh = (v >> (j as u64));
        lemma_u64_shr_is_div(v, j as u64);
        assert(sh & 1 == sh % 2) by (bit_vector);
        assert(bit == ((v as int / pj) % 2 == 1));
        // v mod 2^k = 2^j * bit + v mod 2^j
        lemma_breakdown(v as int, pj, 2);
        lemma_mul_is_commutative(pj, 2);
        let low = v as int % pj;
        lemma_mod_bound(v as int, pj);
        lemma_mod_decreases(v as nat, pow2(k));
        lemma_mod_decreases(v as nat, pow2(j));
        let s = pack_le::<Fp<P>>(low_bits(seq![v], j));
        if bit {
            assert(pj * ((v as int / pj) % 2) == pj) by (nonlinear_arith)
                requires
                    (v as int / pj) % 2 == 1,
            ;
            lemma_add_mod_noop_right(low, pj, P as int);
            lemma_small_mod((low + pj) as nat, P as nat);
        } else {
            assert(pj * ((v as int / pj) % 2) == 0) by (nonlinear_arith)
                requires
                    (v as int / pj) % 2 == 0,
            ;
            lemma_small_mod(low as nat, P as nat);
        }
    }
}

impl<const P: u64> PrimeField for Fp<P> {
    open spec fn repr_spec(self) -> Seq<u64> {
        seq![self.v]
    }

    open spec fn characteristic_spec() -> Seq<u64> {
        seq![P]
    }

    open spec fn num_limbs() -> nat {
        1
    }

    proof fn lemma_limbs(a: Self) {
    }

    open spec fn size_in_bits_spec() -> nat {
        bit_length(P as nat)
    }

    proof fn lemma_size_in_bits() {
        vstd::arithmetic::power2::lemma2_to64();
        vstd::arithmetic::power2::lemma2_to64_rest();
        lemma_bit_length_bound(P as nat, 64);
    }

    proof fn lemma_pack_repr(a: Self) {
        let n = bit_length(P as nat);
        Self::lemma_size_in_bits();
        lemma_pack_value::<P>(a.v, n);
        lemma_bit_length(P as nat);
        lemma_small_mod(a.v as nat, pow2(n));
    }

    fn size_in_bits() -> (n: usize) {
        count_bits(P)
    }

    fn into_repr(&self) -> (r: Vec<u64>) {
        let mut r: Vec<u64> = Vec::new();
        r.push(self.v);
        assert(r@ =~= seq![self.v]);
        r
    }

    fn characteristic() -> (r: Vec<u64>) {
        let mut r: Vec<u64> = Vec::new();
        r.push(P);
        assert(r@ =~= seq![P]);
        r
    }
}

} // verus!
