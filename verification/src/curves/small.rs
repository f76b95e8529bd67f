//! Curves over a prime field of one limb, with their constants in the type.
use crate::curves::parameters::{valid, Parameters};
use crate::fields::arith::is_prime_u64;
use crate::fields::field::Field;
use crate::fields::fp::Fp;
use vstd::arithmetic::div_mod::lemma_small_mod;
use vstd::prelude::*;

verus! {

/// The curve `y^2 = x^3 + A x + B` over the integers modulo `Q`, with a
/// subgroup of prime order `R` generated by `(GX, GY)`, cofactor `H`, and
/// `HINV` the inverse of `H` modulo `R`.
#[derive(Clone, Copy)]
pub struct SmallCurve<
    const Q: u64,
    const R: u64,
    const A: u64,
    const B: u64,
    const GX: u64,
    const GY: u64,
    const H: u64,
    const HINV: u64,
> {}

impl<
    const Q: u64,
    const R: u64,
    const A: u64,
    const B: u64,
    const GX: u64,
    const GY: u64,
    const H: u64,
    const HINV: u64,
> Parameters for SmallCurve<Q, R, A, B, GX, GY, H, HINV> {
    type BaseField = Fp<Q>;

    type ScalarField = Fp<R>;

    open spec fn coeff_a_spec() -> Fp<Q> {
        Fp { v: A }
    }

    open spec fn coeff_b_spec() -> Fp<Q> {
        Fp { v: B }
    }

    open spec fn cofactor_spec() -> Seq<u64> {
        seq![H]
    }

    open spec fn cofactor_inv_spec() -> Fp<R> {
        Fp { v: HINV }
    }

    open spec fn generator_spec() -> (Fp<Q>, Fp<Q>) {
        (Fp { v: GX }, Fp { v: GY })
    }

    fn coeff_a() -> (r: Fp<Q>) {
        Fp { v: A }
    }

    fn coeff_b() -> (r: Fp<Q>) {
        Fp { v: B }
    }

    fn cofactor() -> (r: Vec<u64>) {
        let mut r: Vec<u64> = Vec::new();
        r.push(H);
        assert(r@ =~= seq![H]);
        r
    }

    fn cofactor_inv() -> (r: Fp<R>) {
        Fp { v: HINV }
    }

    fn affine_generator_coeffs() -> (r: (Fp<Q>, Fp<Q>)) {
        (Fp { v: GX }, Fp { v: GY })
    }
}

impl<
    const Q: u64,
    const R: u64,
    const A: u64,
    const B: u64,
    const GX: u64,
    const GY: u64,
    const H: u64,
    const HINV: u64,
> SmallCurve<Q, R, A, B, GX, GY, H, HINV> {
    /// Whether the constants describe a curve: `Q` is an odd prime, `R` is
    /// a prime, the coefficients and the coordinates of the generator are
    /// residues of `Q`, and the inverse of the cofactor is a residue of
    /// `R`.
    pub fn is_valid() -> (b: bool)
        ensures
            b == valid::<Self>(),
    {
        let q_prime = is_prime_u64(Q);
        let r_prime = is_prime_u64(R);
        proof {
            if q_prime {
                if Q == 2 {
                    assert((1 + 1) % 2 == 0);
                } else {
                    lemma_small_mod(1, Q as nat);
                    lemma_small_mod(2, Q as nat);
                }
            }
            assert(Self::cofactor_spec().len() == 1);
        }
        q_prime && r_prime && Q != 2 && A < Q && B < Q && GX < Q && GY < Q && HINV < R
    }
}

} // verus!
