//! Variables for the elements of the additive group of the field of the
//! circuit.  Sums of constant bases that bits pick are linear in the bits,
//! so these variables take no constraints.
use crate::algorithms::pedersen::{
    lemma_window_index, lesser, masked_window_sum, masked_windows_sum, symmetric_window_sum,
    symmetric_windows_sum, window_sum, windows_sum,
};
use crate::algorithms::pedersen_parameters::{row_wf, rows_view, rows_wf};
use crate::curves::group::Group;
use crate::curves::lawful::AdditiveGroup;
use crate::fields::closure::group_field_closed;
use crate::fields::field::{Field, PrimeField};
use crate::fields::laws::lemma_mul_zero;
use crate::gadgets::boolean::Boolean;
use crate::gadgets::fp::FpGadget;
use crate::gadgets::group::GroupGadget;
use crate::gadgets::r1cs::{ConstraintSystem, SynthesisError};
use crate::gadgets::uint8::{all_hold_in, values_of};
use vstd::prelude::*;

verus! {

broadcast use group_field_closed;

/// A variable for an element of the additive group of `F`.
pub struct AdditiveGroupGadget<F: PrimeField> {
    pub element: FpGadget<F>,
}

/// `a + (b - a) = b`.
pub proof fn lemma_add_difference<F: Field>(a: F, b: F)
    requires
        a.wf(),
        b.wf(),
    ensures
        a.add_spec(b.add_spec(a.neg_spec())) == b,
{
    let d = b.add_spec(a.neg_spec());
    F::lemma_add_commutative(a, d);
    F::lemma_add_associative(b, a.neg_spec(), a);
    F::lemma_add_commutative(a.neg_spec(), a);
    F::lemma_add_neg(a);
    F::lemma_add_zero(b);
}

/// The variable that is `if_set` where the bit is set, and `if_clear`
/// where it is not: `if_clear + bit * (if_set - if_clear)`.
pub fn select<F: PrimeField>(cs: &ConstraintSystem<F>, bit: &Boolean, if_set: &F, if_clear: &F) -> (r:
    FpGadget<F>)
    requires
        cs.wf(),
        bit.holds_in(cs),
        bit.holds_in_any(),
        if_set.wf(),
        if_clear.wf(),
    ensures
        r.holds_in(cs),
        r.value == Some(
            if bit.value_spec() {
                *if_set
            } else {
                *if_clear
            },
        ),
{
    let difference = if_set.add(&if_clear.neg());
    let set = bit.get_value().unwrap();
    proof {
        F::lemma_constants();
        bit.lemma_lc_value(cs, difference);
        F::lemma_mul_one(difference);
        lemma_mul_zero(difference);
        lemma_add_difference(*if_clear, *if_set);
        F::lemma_add_zero(*if_clear);
    }
    let term = FpGadget {
        value: Some(
            if set {
                difference
            } else {
                F::zero()
            },
        ),
        lc: bit.lc(ConstraintSystem::<F>::one(), difference),
    };
    FpGadget::constant(cs, *if_clear).add(cs, &term)
}

impl<F: PrimeField> GroupGadget<AdditiveGroup<F>, F> for AdditiveGroupGadget<F> {
    open spec fn value(&self) -> AdditiveGroup<F> {
        AdditiveGroup(self.element.value->0)
    }

    open spec fn holds_in(&self, cs: &ConstraintSystem<F>) -> bool {
        self.element.holds_in(cs)
    }

    /// Sums of these variables are linear combinations of wires that are
    /// there: nothing can fail.
    open spec fn never_fails() -> bool {
        true
    }

    proof fn lemma_holds_later(&self, cs: &ConstraintSystem<F>, later: &ConstraintSystem<F>) {
        self.element.lemma_holds_later(cs, later);
    }

    fn add(&self, cs: &mut ConstraintSystem<F>, other: &Self) -> (r: Result<Self, SynthesisError>) {
        Ok(AdditiveGroupGadget { element: self.element.add(cs, &other.element) })
    }

    fn multi_scalar_multiplication(
        cs: &mut ConstraintSystem<F>,
        bases: &Vec<Vec<AdditiveGroup<F>>>,
        bits: &Vec<Boolean>,
        window_size: usize,
    ) -> (r: Result<Self, SynthesisError>) {
        let ghost rows = rows_view(bases@);
        let ghost values = values_of(bits@);
        let total = bits.len();
        proof {
            F::lemma_constants();
            lemma_window_index(total as int, window_size as int, 0);
        }
        let zero = F::zero();
        let mut result = FpGadget::constant(cs, zero);
        let mut w: usize = 0;
        let mut first: usize = 0;
        while w < bases.len() && first < total
            invariant
                w <= bases@.len(),
                first <= total,
                total == bits@.len(),
                window_size >= 1,
                cs.wf(),
                all_hold_in(bits@, cs),
                values == values_of(bits@),
                zero == F::zero_spec(),
                zero.wf(),
                rows == rows_view(bases@),
                rows_wf(rows),
                first < total ==> first == w * window_size,
                first >= total ==> w >= (total + window_size - 1) / (window_size as int),
                w <= (total + window_size - 1) / (window_size as int),
                result.holds_in(cs),
                result.value->0 == windows_sum(rows, values, window_size as int, w as int).0,
            decreases bases@.len() - w,
        {
            let row = &bases[w];
            assert(row_wf(rows[w as int]));
            let left = total - first;
            let there = if left < window_size {
                left
            } else {
                window_size
            };
            let n = if there < row.len() {
                there
            } else {
                row.len()
            };
            let mut encoded = FpGadget::constant(cs, zero);
            let mut j: usize = 0;
            while j < n
                invariant
                    j <= n,
                    n <= row@.len(),
                    first + n <= total,
                    total == bits@.len(),
                    cs.wf(),
                    all_hold_in(bits@, cs),
                    values == values_of(bits@),
                    zero == F::zero_spec(),
                    zero.wf(),
                    row_wf(row@),
                    encoded.holds_in(cs),
                    encoded.value->0 == window_sum(row@, values, first as int, j as int).0,
                decreases n - j,
            {
                proof {
                    assert(row@[j as int].wf());
                    assert(bits@[first + j].holds_in(cs));
                    F::lemma_add_zero(encoded.value->0);
                }
                let term = select(cs, &bits[first + j], &row[j].0, &zero);
                encoded = encoded.add(cs, &term);
                j += 1;
            }
            result = result.add(cs, &encoded);
            proof {
                lemma_window_index(total as int, window_size as int, w as int);
                lemma_window_index(total as int, window_size as int, w + 1);
            }
            first = first + there;
            w += 1;
        }
        proof {
            lemma_window_index(total as int, window_size as int, w as int);
        }
        Ok(AdditiveGroupGadget { element: result })
    }

    fn symmetric_multi_scalar_multiplication(
        cs: &mut ConstraintSystem<F>,
        bases: &Vec<Vec<AdditiveGroup<F>>>,
        bits: &Vec<Boolean>,
        window_size: usize,
    ) -> (r: Result<Self, SynthesisError>) {
        let ghost rows = rows_view(bases@);
        let ghost values = values_of(bits@);
        let total = bits.len();
        proof {
            F::lemma_constants();
            lemma_window_index(total as int, window_size as int, 0);
        }
        let zero = F::zero();
        let mut result = FpGadget::constant(cs, zero);
        let mut w: usize = 0;
        let mut first: usize = 0;
        while w < bases.len() && first < total
            invariant
                w <= bases@.len(),
                first <= total,
                total == bits@.len(),
                window_size >= 1,
                cs.wf(),
                all_hold_in(bits@, cs),
                values == values_of(bits@),
                zero == F::zero_spec(),
                zero.wf(),
                rows == rows_view(bases@),
                rows_wf(rows),
                first < total ==> first == w * window_size,
                first >= total ==> w >= (total + window_size - 1) / (window_size as int),
                w <= (total + window_size - 1) / (window_size as int),
                result.holds_in(cs),
                result.value->0 == symmetric_windows_sum(rows, values, window_size as int, w as int).0,
            decreases bases@.len() - w,
        {
            let row = &bases[w];
            assert(row_wf(rows[w as int]));
            let left = total - first;
            let there = if left < window_size {
                left
            } else {
                window_size
            };
            let n = if there < row.len() {
                there
            } else {
                row.len()
            };
            let mut encoded = FpGadget::constant(cs, zero);
            let mut j: usize = 0;
            while j < n
                invariant
                    j <= n,
                    n <= row@.len(),
                    first + n <= total,
                    total == bits@.len(),
                    cs.wf(),
                    all_hold_in(bits@, cs),
                    values == values_of(bits@),
                    zero == F::zero_spec(),
                    zero.wf(),
                    row_wf(row@),
                    encoded.holds_in(cs),
                    encoded.value->0 == symmetric_window_sum(row@, values, first as int, j as int).0,
                decreases n - j,
            {
                proof {
                    assert(row@[j as int].wf());
                    assert(bits@[first + j].holds_in(cs));
                }
                let base = row[j].0;
                let term = select(cs, &bits[first + j], &base.neg(), &base);
                encoded = encoded.add(cs, &term);
                j += 1;
            }
            result = result.add(cs, &encoded);
            proof {
                lemma_window_index(total as int, window_size as int, w as int);
                lemma_window_index(total as int, window_size as int, w + 1);
            }
            first = first + there;
            w += 1;
        }
        proof {
            lemma_window_index(total as int, window_size as int, w as int);
        }
        Ok(AdditiveGroupGadget { element: result })
    }

    fn masked_multi_scalar_multiplication(
        cs: &mut ConstraintSystem<F>,
        bases: &Vec<Vec<AdditiveGroup<F>>>,
        bits: &Vec<Boolean>,
        mask_bases: &Vec<Vec<AdditiveGroup<F>>>,
        mask_bits: &Vec<Boolean>,
        window_size: usize,
    ) -> (r: Result<Self, SynthesisError>) {
        let ghost rows = rows_view(bases@);
        let ghost mask_rows = rows_view(mask_bases@);
        let ghost values = values_of(bits@);
        let ghost mask_values = values_of(mask_bits@);
        let total = if bits.len() < mask_bits.len() {
            bits.len()
        } else {
            mask_bits.len()
        };
        let num_rows = if bases.len() < mask_bases.len() {
            bases.len()
        } else {
            mask_bases.len()
        };
        proof {
            F::lemma_constants();
            lemma_window_index(total as int, window_size as int, 0);
        }
        let zero = F::zero();
        let mut result = FpGadget::constant(cs, zero);
        let mut w: usize = 0;
        let mut first: usize = 0;
        while w < num_rows && first < total
            invariant
                w <= num_rows,
                num_rows == lesser(bases@.len() as int, mask_bases@.len() as int),
                first <= total,
                total == lesser(bits@.len() as int, mask_bits@.len() as int),
                window_size >= 1,
                cs.wf(),
                all_hold_in(bits@, cs),
                all_hold_in(mask_bits@, cs),
                values == values_of(bits@),
                mask_values == values_of(mask_bits@),
                zero == F::zero_spec(),
                zero.wf(),
                rows == rows_view(bases@),
                mask_rows == rows_view(mask_bases@),
                rows_wf(rows),
                rows_wf(mask_rows),
                first < total ==> first == w * window_size,
                first >= total ==> w >= (total + window_size - 1) / (window_size as int),
                w <= (total + window_size - 1) / (window_size as int),
                result.holds_in(cs),
                result.value->0 == masked_windows_sum(
                    rows,
                    mask_rows,
                    values,
                    mask_values,
                    window_size as int,
                    w as int,
                ).0,
            decreases num_rows - w,
        {
            let row = &bases[w];
            let mask_row = &mask_bases[w];
            assert(row_wf(rows[w as int]));
            assert(row_wf(mask_rows[w as int]));
            let left = total - first;
            let there = if left < window_size {
                left
            } else {
                window_size
            };
            let row_len = if row.len() < mask_row.len() {
                row.len()
            } else {
                mask_row.len()
            };
            let n = if there < row_len {
                there
            } else {
                row_len
            };
            let mut encoded = FpGadget::constant(cs, zero);
            let mut j: usize = 0;
            while j < n
                invariant
                    j <= n,
                    n <= row@.len(),
                    n <= mask_row@.len(),
                    first + n <= total,
                    total <= bits@.len(),
                    total <= mask_bits@.len(),
                    cs.wf(),
                    all_hold_in(bits@, cs),
                    all_hold_in(mask_bits@, cs),
                    values == values_of(bits@),
                    mask_values == values_of(mask_bits@),
                    zero == F::zero_spec(),
                    zero.wf(),
                    row_wf(row@),
                    row_wf(mask_row@),
                    encoded.holds_in(cs),
                    encoded.value->0 == masked_window_sum(
                        row@,
                        mask_row@,
                        values,
                        mask_values,
                        first as int,
                        j as int,
                    ).0,
                decreases n - j,
            {
                let base = row[j].0;
                let mask_base = mask_row[j].0;
                proof {
                    assert(row@[j as int].wf());
                    assert(mask_row@[j as int].wf());
                    assert(bits@[first + j].holds_in(cs));
                    assert(mask_bits@[first + j].holds_in(cs));
                    let s = encoded.value->0;
                    F::lemma_add_zero(s);
                    F::lemma_add_zero(s.add_spec(base));
                    F::lemma_add_associative(s, base, base.neg_spec());
                    F::lemma_add_neg(base);
                }
                // the base where the bit is set, less the base where the
                // mask bit is set
                let plus = select(cs, &bits[first + j], &base, &zero);
                let minus = select(cs, &mask_bits[first + j], &base.neg(), &zero);
                let mask_term = select(cs, &mask_bits[first + j], &mask_base, &mask_base.neg());
                encoded = encoded.add(cs, &plus).add(cs, &minus).add(cs, &mask_term);
                j += 1;
            }
            result = result.add(cs, &encoded);
            proof {
                lemma_window_index(total as int, window_size as int, w as int);
                lemma_window_index(total as int, window_size as int, w + 1);
            }
            first = first + there;
            w += 1;
        }
        proof {
            lemma_window_index(total as int, window_size as int, w as int);
        }
        Ok(AdditiveGroupGadget { element: result })
    }
}

} // verus!
