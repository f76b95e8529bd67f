//! Prime fields whose modulus takes several 64-bit limbs.  An element is
//! kept as the limbs of its least residue, least significant limb first.
use crate::bytes::{window, ByteError};
use crate::fields::arith::{
    is_mod_inverse, is_prime, lemma_mod_inverse_exists, lemma_mod_inverse_unique, mod_inverse,
};
use crate::fields::bigint::{
    add_mod, base_pow, is_odd, lemma_limbs_injective, lemma_limbs_value_bound, limbs_equal,
    limbs_less, limbs_value, mul_mod, pow_limbs_mod, small_limbs, sub_borrow, sub_mod, zero_limbs,
};
use crate::fields::fermat::{lemma_fermat, pow_mod};
use crate::fields::field::{Field, PrimeField};
use crate::fields::fp::{bit_length, lemma_bit_length, lemma_bit_length_bound};
use crate::fields::limbs::{
    array_of, lemma_array_of, lemma_limbs_bytes_injective, lemma_limbs_bytes_len, lemma_limbs_of,
    lemma_base_pow_is_pow2, lemma_limb_bit_value, limbs_bit_length, limbs_bytes, limbs_of,
    read_limbs, write_limbs,
};
use crate::fields::pack::{low_bits, pack_le, two_pow};
use crate::fields::pow::fpow;
use crate::fields::tonelli::{is_square_mod, sqrt_limbs, two_adic};
use core::marker::PhantomData;
use vstd::arithmetic::div_mod::*;
use vstd::arithmetic::mul::*;
use vstd::arithmetic::power2::{lemma_pow2_pos, lemma_pow2_unfold, pow2};
use vstd::prelude::*;

verus! {

/// The parameters of a prime field of `N` limbs.
pub trait FpParameters<const N: usize>: Sized + Copy {
    /// The limbs of the modulus, least significant first.
    spec fn modulus_spec() -> [u64; N];

    /// How often two divides the modulus less one.
    spec fn two_adicity_spec() -> nat;

    /// The limbs of a residue whose order is two to the two-adicity.
    spec fn root_of_unity_spec() -> [u64; N];

    /// The limbs of the modulus, least significant first.
    fn modulus() -> (r: [u64; N])
        ensures
            r == Self::modulus_spec(),
    ;

    /// How often two divides the modulus less one.
    fn two_adicity() -> (r: u32)
        ensures
            r == Self::two_adicity_spec(),
    ;

    /// The limbs of a residue whose order is two to the two-adicity.
    fn root_of_unity() -> (r: [u64; N])
        ensures
            r == Self::root_of_unity_spec(),
    ;
}

/// An element of the integers modulo the modulus of `P`.
#[derive(Debug, PartialEq, Eq)]
pub struct FpWide<P: FpParameters<N>, const N: usize> {
    pub limbs: [u64; N],
    pub parameters: PhantomData<P>,
}

impl<P: FpParameters<N>, const N: usize> Clone for FpWide<P, N> {
    fn clone(&self) -> (r: Self)
        ensures
            r == *self,
    {
        FpWide { limbs: self.limbs, parameters: PhantomData }
    }
}

impl<P: FpParameters<N>, const N: usize> Copy for FpWide<P, N> {

}

/// A field of four limbs.
pub type Fp256<P> = FpWide<P, 4>;

/// A field of six limbs.
pub type Fp384<P> = FpWide<P, 6>;

impl<P: FpParameters<N>, const N: usize> FpWide<P, N> {
    /// The modulus.
    pub open spec fn modulus_value() -> int {
        limbs_value(P::modulus_spec()@)
    }

    /// The parameters describe a field: the modulus is a prime, the limbs
    /// are few enough to be counted, and where the modulus is odd the
    /// two-adicity and the root of unity are what they are called.
    pub open spec fn valid() -> bool {
        &&& 1 <= N <= 0x10_0000
        &&& is_prime(Self::modulus_value())
        &&& Self::modulus_value() > 2 ==> two_adic(
            Self::modulus_value(),
            P::two_adicity_spec(),
            limbs_value(P::root_of_unity_spec()@),
        )
    }

    /// The least residue of the element.
    pub open spec fn value(self) -> int {
        limbs_value(self.limbs@)
    }

    /// The element is a least residue.
    pub open spec fn canonical(self) -> bool {
        Self::valid() && self.value() < Self::modulus_value()
    }

    /// The element with the least residue `v`.
    pub open spec fn from_value(v: int) -> Self {
        FpWide { limbs: array_of::<N>(limbs_of(v, N as nat), N as nat), parameters: PhantomData }
    }

    /// The element made from a residue has that residue.
    pub proof fn lemma_from_value(v: int)
        requires
            0 <= v < Self::modulus_value(),
        ensures
            Self::from_value(v).value() == v,
    {
        lemma_limbs_value_bound(P::modulus_spec()@);
        lemma_limbs_of(v, N as nat);
        lemma_array_of::<N>(limbs_of(v, N as nat), N as nat);
    }

    /// Elements with the same residue are the same.
    pub proof fn lemma_value_injective(a: Self, b: Self)
        requires
            a.value() == b.value(),
        ensures
            a == b,
    {
        lemma_limbs_injective(a.limbs@, b.limbs@);
        assert(a.limbs =~= b.limbs);
    }

    /// The element is the one made from its residue.
    pub proof fn lemma_is_from_value(a: Self)
        requires
            a.value() < Self::modulus_value(),
        ensures
            a == Self::from_value(a.value()),
    {
        lemma_limbs_value_bound(a.limbs@);
        Self::lemma_from_value(a.value());
        Self::lemma_value_injective(a, Self::from_value(a.value()));
    }

    /// The element with the given limbs, if they are below the modulus.
    pub fn from_limbs(limbs: [u64; N]) -> (r: Option<Self>)
        ensures
            r == (if limbs_value(limbs@) < Self::modulus_value() {
                Some(FpWide::<P, N> { limbs, parameters: PhantomData })
            } else {
                None
            }),
    {
        let m = P::modulus();
        if limbs_less(&limbs, &m) {
            Some(FpWide { limbs, parameters: PhantomData })
        } else {
            None
        }
    }

    /// The element that the number `x` reduces to.
    pub fn from_u64(x: u64) -> (r: Self)
        requires
            Self::valid(),
        ensures
            r == Self::from_value((x as int) % Self::modulus_value()),
            r.canonical(),
    {
        let m = P::modulus();
        let o: [u64; N] = small_limbs(1);
        proof {
            lemma_small_mod(1, Self::modulus_value() as nat);
        }
        let limbs = crate::fields::bigint::mul_small_mod(&o, x, &m);
        let r = FpWide { limbs, parameters: PhantomData };
        proof {
            assert(1 * (x as int) == x);
            Self::lemma_is_from_value(r);
        }
        r
    }

    /// The limbs of the least residue.
    pub fn to_limbs(&self) -> (r: [u64; N])
        ensures
            r == self.limbs,
    {
        self.limbs
    }

    /// The element with the given limbs.
    fn wrap(limbs: [u64; N]) -> (r: Self)
        requires
            Self::valid(),
            limbs_value(limbs@) < Self::modulus_value(),
        ensures
            r.limbs == limbs,
            r == Self::from_value(limbs_value(limbs@)),
            r.canonical(),
    {
        let r = FpWide { limbs, parameters: PhantomData };
        proof {
            Self::lemma_is_from_value(r);
        }
        r
    }

    /// `self` to the power `e`.
    fn power<const M: usize>(&self, e: &[u64; M]) -> (r: Self)
        requires
            self.canonical(),
        ensures
            r.canonical(),
            r.value() == pow_mod(self.value(), limbs_value(e@) as nat, Self::modulus_value()),
    {
        let m = P::modulus();
        Self::wrap(pow_limbs_mod(&self.limbs, e, &m))
    }

    /// `self * rhs`.
    fn times(&self, rhs: &Self) -> (r: Self)
        requires
            self.canonical(),
            rhs.canonical(),
        ensures
            r.canonical(),
            r.value() == (self.value() * rhs.value()) % Self::modulus_value(),
            r == Self::from_value((self.value() * rhs.value()) % Self::modulus_value()),
    {
        let m = P::modulus();
        Self::wrap(mul_mod(&self.limbs, &rhs.limbs, &m))
    }

    /// Tonelli and Shanks' search for a square root when the modulus is
    /// odd: it finds a root of every square.
    fn tonelli_shanks(&self) -> (r: Self)
        requires
            self.canonical(),
            Self::modulus_value() > 2,
        ensures
            r.canonical(),
            is_square_mod(self.value(), Self::modulus_value()) ==> (r.value() * r.value())
                % Self::modulus_value() == self.value(),
    {
        let m = P::modulus();
        let root = P::root_of_unity();
        Self::wrap(sqrt_limbs(&self.limbs, &m, P::two_adicity(), &root))
    }
}

impl<P: FpParameters<N>, const N: usize> Field for FpWide<P, N> {
    open spec fn is_field() -> bool {
        Self::valid()
    }

    open spec fn wf(&self) -> bool {
        self.canonical()
    }

    open spec fn zero_spec() -> Self {
        Self::from_value(0)
    }

    open spec fn one_spec() -> Self {
        Self::from_value(1)
    }

    open spec fn add_spec(self, rhs: Self) -> Self {
        Self::from_value((self.value() + rhs.value()) % Self::modulus_value())
    }

    open spec fn neg_spec(self) -> Self {
        Self::from_value((Self::modulus_value() - self.value()) % Self::modulus_value())
    }

    open spec fn mul_spec(self, rhs: Self) -> Self {
        Self::from_value((self.value() * rhs.value()) % Self::modulus_value())
    }

    open spec fn inv_spec(self) -> Self {
        Self::from_value(mod_inverse(self.value(), Self::modulus_value()))
    }

    open spec fn lt_spec(self, rhs: Self) -> bool {
        self.value() < rhs.value()
    }

    /// The identity: the elements of a prime field are their own powers
    /// of the characteristic.
    open spec fn frobenius_spec(self, power: nat) -> Self {
        self
    }

    /// The search finds a root of every square.
    open spec fn sqrt_is_complete() -> bool {
        true
    }

    open spec fn byte_len() -> nat {
        (8 * N) as nat
    }

    open spec fn to_bytes_spec(self) -> Seq<u8> {
        limbs_bytes(self.limbs@)
    }

    proof fn lemma_wf_is_field(a: Self) {
    }

    proof fn lemma_closed(a: Self, b: Self) {
        let p = Self::modulus_value();
        lemma_limbs_value_bound(a.limbs@);
        lemma_limbs_value_bound(b.limbs@);
        lemma_mod_bound(a.value() + b.value(), p);
        lemma_mod_bound(p - a.value(), p);
        lemma_mul_nonnegative(a.value(), b.value());
        lemma_mod_bound(a.value() * b.value(), p);
        Self::lemma_from_value(0);
        Self::lemma_from_value(1);
        assert(Self::one_spec().value() == 1);
        Self::lemma_from_value((a.value() + b.value()) % p);
        Self::lemma_from_value((p - a.value()) % p);
        Self::lemma_from_value((a.value() * b.value()) % p);
    }

    proof fn lemma_constants() {
        Self::lemma_from_value(0);
        Self::lemma_from_value(1);
    }

    proof fn lemma_add_commutative(a: Self, b: Self) {
    }

    proof fn lemma_add_associative(a: Self, b: Self, c: Self) {
        let p = Self::modulus_value();
        let (x, y, z) = (a.value(), b.value(), c.value());
        lemma_limbs_value_bound(a.limbs@);
        lemma_limbs_value_bound(b.limbs@);
        lemma_limbs_value_bound(c.limbs@);
        lemma_mod_bound(x + y, p);
        lemma_mod_bound(y + z, p);
        Self::lemma_from_value((x + y) % p);
        Self::lemma_from_value((y + z) % p);
        lemma_add_mod_noop_right(z, x + y, p);
        lemma_add_mod_noop_right(x, y + z, p);
    }

    proof fn lemma_add_zero(a: Self) {
        lemma_limbs_value_bound(a.limbs@);
        Self::lemma_from_value(0);
        lemma_small_mod(a.value() as nat, Self::modulus_value() as nat);
        Self::lemma_is_from_value(a);
    }

    proof fn lemma_add_neg(a: Self) {
        let p = Self::modulus_value();
        let x = a.value();
        lemma_limbs_value_bound(a.limbs@);
        lemma_mod_bound(p - x, p);
        Self::lemma_from_value((p - x) % p);
        lemma_add_mod_noop_right(x, p - x, p);
        lemma_mod_self_0(p);
    }

    proof fn lemma_mul_commutative(a: Self, b: Self) {
        lemma_mul_is_commutative(a.value(), b.value());
    }

    proof fn lemma_mul_associative(a: Self, b: Self, c: Self) {
        let p = Self::modulus_value();
        let (x, y, z) = (a.value(), b.value(), c.value());
        lemma_limbs_value_bound(a.limbs@);
        lemma_limbs_value_bound(b.limbs@);
        lemma_limbs_value_bound(c.limbs@);
        lemma_mul_nonnegative(x, y);
        lemma_mul_nonnegative(y, z);
        lemma_mod_bound(x * y, p);
        lemma_mod_bound(y * z, p);
        Self::lemma_from_value((x * y) % p);
        Self::lemma_from_value((y * z) % p);
        lemma_mul_mod_noop_left(x * y, z, p);
        lemma_mul_mod_noop_right(x, y * z, p);
        lemma_mul_is_associative(x, y, z);
    }

    proof fn lemma_mul_one(a: Self) {
        lemma_limbs_value_bound(a.limbs@);
        Self::lemma_from_value(1);
        assert(a.value() * 1 == a.value());
        lemma_small_mod(a.value() as nat, Self::modulus_value() as nat);
        Self::lemma_is_from_value(a);
    }

    proof fn lemma_distributive(a: Self, b: Self, c: Self) {
        let p = Self::modulus_value();
        let (x, y, z) = (a.value(), b.value(), c.value());
        lemma_limbs_value_bound(a.limbs@);
        lemma_limbs_value_bound(b.limbs@);
        lemma_limbs_value_bound(c.limbs@);
        lemma_mul_nonnegative(x, y);
        lemma_mul_nonnegative(x, z);
        lemma_mod_bound(y + z, p);
        lemma_mod_bound(x * y, p);
        lemma_mod_bound(x * z, p);
        Self::lemma_from_value((y + z) % p);
        Self::lemma_from_value((x * y) % p);
        Self::lemma_from_value((x * z) % p);
        lemma_mul_mod_noop_right(x, y + z, p);
        lemma_add_mod_noop(x * y, x * z, p);
        lemma_mul_is_distributive_add(x, y, z);
    }

    proof fn lemma_mul_inverse(a: Self) {
        let p = Self::modulus_value();
        lemma_limbs_value_bound(a.limbs@);
        Self::lemma_from_value(0);
        Self::lemma_from_value(1);
        if a.value() == 0 {
            Self::lemma_value_injective(a, Self::zero_spec());
        }
        lemma_mod_inverse_exists(a.value() as nat, p as nat);
        Self::lemma_from_value(mod_inverse(a.value(), p));
    }

    proof fn lemma_lt_total(a: Self, b: Self) {
        if a.value() == b.value() {
            Self::lemma_value_injective(a, b);
        }
    }

    proof fn lemma_bytes_injective(a: Self, b: Self) {
        lemma_limbs_bytes_len(a.limbs@);
        if a.to_bytes_spec() == b.to_bytes_spec() {
            lemma_limbs_bytes_injective(a.limbs@, b.limbs@);
            assert(a.limbs =~= b.limbs);
        }
    }

    fn zero() -> (r: Self) {
        let limbs: [u64; N] = zero_limbs();
        let r = FpWide { limbs, parameters: PhantomData };
        proof {
            crate::fields::bigint::lemma_base_pow_positive(N as nat);
            lemma_limbs_of(0, N as nat);
            lemma_array_of::<N>(limbs_of(0, N as nat), N as nat);
            Self::lemma_value_injective(r, Self::zero_spec());
        }
        r
    }

    fn one() -> (r: Self) {
        let mut limbs: [u64; N] = zero_limbs();
        if N >= 1 {
            limbs = small_limbs(1);
        }
        let r = FpWide { limbs, parameters: PhantomData };
        proof {
            crate::fields::bigint::lemma_base_pow_positive(N as nat);
            if N >= 1 {
                crate::fields::bigint::lemma_base_pow_positive((N - 1) as nat);
                assert(base_pow(N as nat) > 1) by (nonlinear_arith)
                    requires
                        base_pow(N as nat) == crate::fields::bigint::limb_base() * base_pow(
                            (N - 1) as nat,
                        ),
                        base_pow((N - 1) as nat) > 0,
                        crate::fields::bigint::limb_base() == 0x1_0000_0000_0000_0000,
                ;
                lemma_limbs_of(1, N as nat);
                lemma_array_of::<N>(limbs_of(1, N as nat), N as nat);
                Self::lemma_value_injective(r, Self::one_spec());
            } else {
                assert(r.limbs =~= Self::one_spec().limbs);
            }
        }
        r
    }

    fn is_equal(&self, other: &Self) -> (b: bool) {
        let b = limbs_equal(&self.limbs, &other.limbs);
        proof {
            if b {
                assert(self.limbs =~= other.limbs);
            }
        }
        b
    }

    fn is_less_than(&self, other: &Self) -> (b: bool) {
        limbs_less(&self.limbs, &other.limbs)
    }

    fn add(&self, rhs: &Self) -> (r: Self) {
        let m = P::modulus();
        Self::wrap(add_mod(&self.limbs, &rhs.limbs, &m))
    }

    fn neg(&self) -> (r: Self) {
        let m = P::modulus();
        let zero: [u64; N] = zero_limbs();
        proof {
            let p = Self::modulus_value();
            lemma_mod_add_multiples_vanish(-self.value(), p);
        }
        Self::wrap(sub_mod(&zero, &self.limbs, &m))
    }

    fn mul(&self, rhs: &Self) -> (r: Self) {
        self.times(rhs)
    }

    fn inverse(&self) -> (r: Option<Self>) {
        let zero: [u64; N] = zero_limbs();
        if limbs_equal(&self.limbs, &zero) {
            proof {
                Self::lemma_from_value(0);
                Self::lemma_value_injective(*self, Self::zero_spec());
            }
            return None;
        }
        let m = P::modulus();
        let two: [u64; N] = small_limbs(2);
        let (e, _) = sub_borrow(&m, &two);
        let r = self.power(&e);
        proof {
            let p = Self::modulus_value();
            let x = self.value();
            lemma_limbs_value_bound(self.limbs@);
            Self::lemma_from_value(0);
            assert(*self != Self::zero_spec());
            lemma_fermat(x, p);
            assert(pow_mod(x, (p - 1) as nat, p) == (x * pow_mod(x, (p - 2) as nat, p)) % p);
            assert(is_mod_inverse(x, r.value(), p));
            lemma_mod_inverse_exists(x as nat, p as nat);
            lemma_mod_inverse_unique(x, r.value(), mod_inverse(x, p), p);
            Self::lemma_is_from_value(r);
        }
        Some(r)
    }

    fn sqrt(&self) -> (r: Option<Self>) {
        let m = P::modulus();
        let ghost p = Self::modulus_value();
        proof {
            lemma_limbs_value_bound(self.limbs@);
            lemma_limbs_value_bound(m@);
        }
        let cand = if !is_odd(&m) {
            proof {
                // an even prime is two
                if p > 2 {
                    assert(p % 2 != 0);
                }
            }
            *self
        } else {
            self.tonelli_shanks()
        };
        let sq = cand.times(&cand);
        if !limbs_equal(&sq.limbs, &self.limbs) {
            proof {
                assert forall|x: Self| x.wf() implies #[trigger] x.mul_spec(x) != *self by {
                    if x.mul_spec(x) == *self {
                        lemma_limbs_value_bound(x.limbs@);
                        lemma_mul_nonnegative(x.value(), x.value());
                        lemma_mod_bound(x.value() * x.value(), p);
                        Self::lemma_from_value((x.value() * x.value()) % p);
                        if p == 2 {
                            assert(self.value() == 0 || self.value() == 1);
                            assert(cand.value() * cand.value() == cand.value()) by (nonlinear_arith)
                                requires
                                    cand.value() == 0 || cand.value() == 1,
                            ;
                            lemma_small_mod(cand.value() as nat, 2);
                        } else {
                            assert((x.value() * x.value()) % p == self.value());
                            assert(is_square_mod(self.value(), p));
                        }
                    }
                }
            }
            return None;
        }
        let other = cand.neg();
        proof {
            // the negation is a root as well
            let c = cand.value();
            lemma_limbs_value_bound(cand.limbs@);
            lemma_mod_bound(p - c, p);
            Self::lemma_from_value((p - c) % p);
            Self::lemma_is_from_value(*self);
            Self::lemma_value_injective(sq, *self);
            if c == 0 {
                lemma_mod_self_0(p);
                Self::lemma_value_injective(other, cand);
            } else {
                lemma_small_mod((p - c) as nat, p as nat);
                assert((p - c) * (p - c) == c * c + p * (p - 2 * c)) by (nonlinear_arith);
                lemma_mod_multiples_vanish(p - 2 * c, c * c, p);
            }
        }
        if other.is_less_than(&cand) {
            proof {
                let c = cand.value();
                let o = other.value();
                lemma_mod_bound(p - o, p);
                lemma_small_mod(c as nat, p as nat);
                Self::lemma_is_from_value(cand);
            }
            Some(other)
        } else {
            Some(cand)
        }
    }

    fn frobenius_map(&self, power: usize) -> (r: Self) {
        *self
    }

    fn byte_size() -> (n: usize) {
        8 * N
    }

    fn write(&self, out: &mut Vec<u8>) {
        write_limbs(&self.limbs, out);
    }

    fn read(bytes: &[u8], start: usize) -> (r: Result<(Self, usize), ByteError>) {
        match read_limbs::<N>(bytes, start) {
            Err(e) => Err(e),
            Ok((limbs, next)) => {
                let m = P::modulus();
                if !limbs_less(&limbs, &m) {
                    assert forall|a: Self| a.wf() implies #[trigger] a.to_bytes_spec() != window(
                        bytes@,
                        start as int,
                        Self::byte_len() as int,
                    ) by {
                        if a.to_bytes_spec() == window(bytes@, start as int, Self::byte_len() as int) {
                            lemma_limbs_bytes_injective(a.limbs@, limbs@);
                        }
                    }
                    Err(ByteError::InvalidData)
                } else {
                    Ok((FpWide { limbs, parameters: PhantomData }, next))
                }
            },
        }
    }
}

/// The powers of the field are the powers modulo the modulus.
pub proof fn lemma_fpow_value<P: FpParameters<N>, const N: usize>(a: FpWide<P, N>, e: nat)
    requires
        a.wf(),
    ensures
        fpow(a, e).value() == pow_mod(a.value(), e, FpWide::<P, N>::modulus_value()),
        fpow(a, e).wf(),
    decreases e,
{
    let p = FpWide::<P, N>::modulus_value();
    lemma_limbs_value_bound(a.limbs@);
    if e == 0 {
        lemma_small_mod(1, p as nat);
        FpWide::<P, N>::lemma_from_value(1);
    } else {
        lemma_fpow_value::<P, N>(a, (e - 1) as nat);
        let r = fpow(a, (e - 1) as nat);
        lemma_limbs_value_bound(r.limbs@);
        lemma_mul_nonnegative(a.value(), r.value());
        lemma_mod_bound(a.value() * r.value(), p);
        FpWide::<P, N>::lemma_from_value((a.value() * r.value()) % p);
    }
}

/// Fermat's little theorem in the field: `a^(p - 1) = 1` for `a` other
/// than zero, where `p` is the modulus.
pub proof fn lemma_fermat_in_field<P: FpParameters<N>, const N: usize>(a: FpWide<P, N>)
    requires
        a.wf(),
        a != FpWide::<P, N>::zero_spec(),
    ensures
        fpow(a, (FpWide::<P, N>::modulus_value() - 1) as nat) == FpWide::<P, N>::one_spec(),
{
    let p = FpWide::<P, N>::modulus_value();
    lemma_limbs_value_bound(a.limbs@);
    if a.value() == 0 {
        FpWide::<P, N>::lemma_from_value(0);
        FpWide::<P, N>::lemma_value_injective(a, FpWide::<P, N>::zero_spec());
    }
    lemma_fermat(a.value(), p);
    lemma_fpow_value::<P, N>(a, (p - 1) as nat);
    FpWide::<P, N>::lemma_from_value(1);
    FpWide::<P, N>::lemma_value_injective(fpow(a, (p - 1) as nat), FpWide::<P, N>::one_spec());
}

/// The power of the characteristic is the identity, as the Frobenius map
/// is: `a^p = a`.
pub proof fn lemma_frobenius<P: FpParameters<N>, const N: usize>(a: FpWide<P, N>)
    requires
        a.wf(),
    ensures
        fpow(a, FpWide::<P, N>::modulus_value() as nat) == a,
        fpow(a, FpWide::<P, N>::modulus_value() as nat) == a.frobenius_spec(1),
{
    let p = FpWide::<P, N>::modulus_value();
    lemma_limbs_value_bound(a.limbs@);
    lemma_fpow_value::<P, N>(a, (p - 1) as nat);
    let r = fpow(a, (p - 1) as nat);
    if a.value() == 0 {
        lemma_small_mod(0, p as nat);
        assert(a.value() * r.value() == 0) by (nonlinear_arith)
            requires
                a.value() == 0,
        ;
        FpWide::<P, N>::lemma_from_value(0);
        FpWide::<P, N>::lemma_is_from_value(a);
    } else {
        FpWide::<P, N>::lemma_from_value(0);
        lemma_fermat_in_field::<P, N>(a);
        FpWide::<P, N>::lemma_mul_one(a);
    }
}

/// The powers of two of the field are the powers of two, reduced.
proof fn lemma_two_pow_value<P: FpParameters<N>, const N: usize>(i: nat)
    requires
        FpWide::<P, N>::valid(),
    ensures
        two_pow::<FpWide<P, N>>(i).value() == (pow2(i) as int) % FpWide::<P, N>::modulus_value(),
    decreases i,
{
    let p = FpWide::<P, N>::modulus_value();
    vstd::arithmetic::power2::lemma2_to64();
    if i == 0 {
        lemma_small_mod(1, p as nat);
        FpWide::<P, N>::lemma_from_value(1);
    } else {
        lemma_two_pow_value::<P, N>((i - 1) as nat);
        lemma_pow2_unfold(i);
        let h = pow2((i - 1) as nat) as int;
        lemma_add_mod_noop(h, h, p);
        lemma_mod_bound(h + h, p);
        FpWide::<P, N>::lemma_from_value((h + h) % p);
    }
}

/// The sum of the powers of two at the lowest `k` set bits of a residue
/// is the residue modulo `2^k`.
proof fn lemma_pack_value<P: FpParameters<N>, const N: usize>(s: Seq<u64>, k: nat)
    requires
        FpWide::<P, N>::valid(),
        s.len() == N,
        limbs_value(s) < FpWide::<P, N>::modulus_value(),
        k <= 64 * N,
    ensures
        pack_le::<FpWide<P, N>>(low_bits(s, k)).value() == limbs_value(s) % (pow2(k) as int),
    decreases k,
{
    let p = FpWide::<P, N>::modulus_value();
    let v = limbs_value(s);
    let bits = low_bits(s, k);
    lemma_limbs_value_bound(s);
    if k == 0 {
        vstd::arithmetic::power2::lemma2_to64();
        FpWide::<P, N>::lemma_from_value(0);
    } else {
        let j = (k - 1) as nat;
        lemma_pack_value::<P, N>(s, j);
        lemma_two_pow_value::<P, N>(j);
        assert(bits.drop_last() =~= low_bits(s, j));
        let bit = bits.last();
        let pj = pow2(j) as int;
        lemma_pow2_pos(j);
        lemma_pow2_unfold(k);
        lemma_limb_bit_value(s, j as int);
        assert(bit == ((v / pj) % 2 == 1));
        // v mod 2^k = 2^j * bit + v mod 2^j
        lemma_breakdown(v, pj, 2);
        lemma_mul_is_commutative(pj, 2);
        let low = v % pj;
        lemma_mod_bound(v, pj);
        lemma_mod_decreases(v as nat, pow2(k));
        lemma_mod_decreases(v as nat, pow2(j));
        FpWide::<P, N>::lemma_from_value(0);
        if bit {
            assert(pj * ((v / pj) % 2) == pj) by (nonlinear_arith)
                requires
                    (v / pj) % 2 == 1,
            ;
            lemma_add_mod_noop_right(low, pj, p);
            lemma_small_mod((low + pj) as nat, p as nat);
            FpWide::<P, N>::lemma_from_value(low + pj);
        } else {
            assert(pj * ((v / pj) % 2) == 0) by (nonlinear_arith)
                requires
                    (v / pj) % 2 == 0,
            ;
            lemma_small_mod(low as nat, p as nat);
            FpWide::<P, N>::lemma_from_value(low);
        }
    }
}

impl<P: FpParameters<N>, const N: usize> PrimeField for FpWide<P, N> {
    open spec fn repr_spec(self) -> Seq<u64> {
        self.limbs@
    }

    open spec fn characteristic_spec() -> Seq<u64> {
        P::modulus_spec()@
    }

    open spec fn num_limbs() -> nat {
        N as nat
    }

    proof fn lemma_limbs(a: Self) {
    }

    open spec fn size_in_bits_spec() -> nat {
        bit_length(Self::modulus_value() as nat)
    }

    proof fn lemma_size_in_bits() {
        lemma_limbs_value_bound(P::modulus_spec()@);
        lemma_base_pow_is_pow2(N as nat);
        lemma_bit_length_bound(Self::modulus_value() as nat, (64 * N) as nat);
    }

    proof fn lemma_pack_repr(a: Self) {
        let n = bit_length(Self::modulus_value() as nat);
        Self::lemma_size_in_bits();
        lemma_pack_value::<P, N>(a.limbs@, n);
        lemma_bit_length(Self::modulus_value() as nat);
        lemma_limbs_value_bound(a.limbs@);
        lemma_small_mod(a.value() as nat, pow2(n));
        Self::lemma_value_injective(pack_le::<Self>(low_bits(a.limbs@, n)), a);
    }

    fn size_in_bits() -> (n: usize) {
        let m = P::modulus();
        limbs_bit_length(&m)
    }

    fn into_repr(&self) -> (r: Vec<u64>) {
        limbs_vec(&self.limbs)
    }

    fn characteristic() -> (r: Vec<u64>) {
        let m = P::modulus();
        limbs_vec(&m)
    }
}

/// The limbs as a vector.
pub fn limbs_vec<const N: usize>(a: &[u64; N]) -> (r: Vec<u64>)
    ensures
        r@ == a@,
{
    let mut r: Vec<u64> = Vec::new();
    let mut i: usize = 0;
    while i < N
        invariant
            i <= N,
            r@ == a@.subrange(0, i as int),
        decreases N - i,
    {
        r.push(a[i]);
        assert(r@ =~= a@.subrange(0, i + 1));
        i += 1;
    }
    assert(a@.subrange(0, N as int) =~= a@);
    r
}

} // verus!
