//! The Pedersen commitment: the Pedersen hash of the input, to which the
//! bases of a further row are added at the set bits of the randomness.
use crate::algorithms::pedersen::{hash_spec, CRHError, PedersenCRH};
use crate::algorithms::pedersen_parameters::{
    base, is_power_table, params_bytes, read_params_spec, read_row, read_row_spec, row_bytes,
    row_wf, rows_view, write_row, PedersenCRHParameters, PedersenSize,
};
use crate::bits::{bits_be, BitIteratorBE};
use crate::bytes::ByteError;
use crate::curves::group::Group;
use crate::fields::field::{Field, PrimeField};
use vstd::prelude::*;

verus! {

/// The parameters of the Pedersen commitment.
pub struct PedersenCommitmentParameters<G: Group, S: PedersenSize> {
    pub bases: Vec<Vec<G>>,
    pub random_base: Vec<G>,
    pub crh: PedersenCRH<G, S>,
}

/// Why a commitment could not be computed.
#[derive(Clone, Copy, Debug, PartialEq, Eq, Structural)]
pub enum CommitmentError {
    /// The input has more bytes than the windows take bits.
    IncorrectInputLength,
    /// The hash of the input failed.
    CRHError(CRHError),
}

/// `acc` with the entries of the row added at the set ones of the first
/// `n` bits.
pub open spec fn random_sum<G: Group>(acc: G, row: Seq<G>, bits: Seq<bool>, n: int) -> G
    decreases n,
{
    if n <= 0 {
        acc
    } else {
        let s = random_sum(acc, row, bits, n - 1);
        if bits[n - 1] {
            s.add_spec(row[n - 1])
        } else {
            s
        }
    }
}

/// The bits of the randomness, lowest first.
pub open spec fn randomness_bits<F: PrimeField>(r: F) -> Seq<bool> {
    bits_be(r.repr_spec()).reverse()
}

impl<G: Group, S: PedersenSize> PedersenCommitmentParameters<G, S> {
    /// Every base is an element of the group.
    pub open spec fn wf(&self) -> bool {
        &&& crate::algorithms::pedersen_parameters::rows_wf(rows_view(self.bases@))
        &&& row_wf(self.random_base@)
        &&& self.crh.parameters.wf()
    }

    /// The encoding of the parameters: the rows of bases, the row for the
    /// randomness, and the parameters of the hash.
    pub open spec fn to_bytes_spec(&self) -> Seq<u8> {
        params_bytes(rows_view(self.bases@)) + row_bytes(self.random_base@) + params_bytes(
            self.crh.parameters.rows(),
        )
    }

    /// The parameters that the generators span: a row for each window from
    /// its generator, and the row for the randomness from the further one.
    pub fn setup(generators: &Vec<G>, random_generator: G) -> (r: Self)
        requires
            generators@.len() == S::NUM_WINDOWS,
            row_wf(generators@),
            random_generator.wf(),
        ensures
            r.wf(),
            r.crh.parameters.well_shaped(),
            rows_view(r.bases@) == r.crh.parameters.rows(),
            r.random_base@.len() == S::WINDOW_SIZE,
            is_power_table(r.random_base@),
            S::WINDOW_SIZE > 0 ==> r.random_base@[0] == random_generator,
            S::WINDOW_SIZE > 0 ==> forall|i: int|
                0 <= i < generators@.len() ==> (#[trigger] rows_view(r.bases@)[i])[0] == generators@[i],
    {
        let rows = PedersenCRHParameters::<G, S>::setup(generators);
        let random_base = base::<G>(S::WINDOW_SIZE, random_generator);
        let mut bases: Vec<Vec<G>> = Vec::new();
        let mut i: usize = 0;
        while i < rows.bases.len()
            invariant
                i <= rows.bases@.len(),
                bases@.len() == i,
                forall|k: int| 0 <= k < i ==> (#[trigger] bases@[k])@ == rows.bases@[k]@,
            decreases rows.bases@.len() - i,
        {
            let mut row: Vec<G> = Vec::new();
            let mut j: usize = 0;
            while j < rows.bases[i].len()
                invariant
                    i < rows.bases@.len(),
                    j <= rows.bases@[i as int]@.len(),
                    row@ == rows.bases@[i as int]@.subrange(0, j as int),
                decreases rows.bases@[i as int]@.len() - j,
            {
                row.push(rows.bases[i][j]);
                assert(row@ =~= rows.bases@[i as int]@.subrange(0, j + 1));
                j += 1;
            }
            assert(row@ =~= rows.bases@[i as int]@);
            bases.push(row);
            i += 1;
        }
        assert(rows_view(bases@) =~= rows.rows());
        let crh = PedersenCRH::from(rows);
        PedersenCommitmentParameters { bases, random_base, crh }
    }

    /// Appends the encoding of the parameters to `out`.
    pub fn write(&self, out: &mut Vec<u8>)
        requires
            self.wf(),
            self.bases@.len() <= u32::MAX,
            forall|i: int| 0 <= i < self.bases@.len() ==> (#[trigger] self.bases@[i])@.len() <= u32::MAX,
            self.random_base@.len() <= u32::MAX,
            self.crh.parameters.bases@.len() <= u32::MAX,
            forall|i: int|
                0 <= i < self.crh.parameters.bases@.len() ==> (
                #[trigger] self.crh.parameters.bases@[i])@.len() <= u32::MAX,
        ensures
            final(out)@ == old(out)@ + self.to_bytes_spec(),
    {
        let ghost start = out@;
        let mut i: usize = 0;
        crate::bytes::write_u32(out, self.bases.len() as u32);
        while i < self.bases.len()
            invariant
                i <= self.bases@.len(),
                self.wf(),
                forall|k: int| 0 <= k < self.bases@.len() ==> (#[trigger] self.bases@[k])@.len() <= u32::MAX,
                out@ == start + vstd::bytes::spec_u32_to_le_bytes(self.bases@.len() as u32)
                    + crate::algorithms::pedersen_parameters::rows_bytes(
                    rows_view(self.bases@),
                    i as int,
                ),
            decreases self.bases@.len() - i,
        {
            assert(row_wf(rows_view(self.bases@)[i as int]));
            write_row::<G>(&self.bases[i], out);
            assert(out@ =~= start + vstd::bytes::spec_u32_to_le_bytes(self.bases@.len() as u32)
                + crate::algorithms::pedersen_parameters::rows_bytes(rows_view(self.bases@), i + 1));
            i += 1;
        }
        write_row::<G>(&self.random_base, out);
        self.crh.parameters.write(out);
        assert(out@ =~= start + self.to_bytes_spec());
    }

    /// Decodes the parameters that are encoded at `start`, and says where
    /// their encoding ends; fails with the first error of the reading.
    pub fn read(bytes: &[u8], start: usize) -> (r: Result<(Self, usize), ByteError>)
        requires
            G::is_group(),
        ensures
            match read_params_spec::<G>(bytes@, start as int) {
                Err(e) => r is Err && r->Err_0 == e,
                Ok((rows, mid)) => match read_row_spec::<G>(bytes@, mid) {
                    Err(e) => r is Err && r->Err_0 == e,
                    Ok((random, last)) => match read_params_spec::<G>(bytes@, last) {
                        Err(e) => r is Err && r->Err_0 == e,
                        Ok((crh_rows, end)) => {
                            &&& r is Ok
                            &&& rows_view(r->Ok_0.0.bases@) == rows
                            &&& r->Ok_0.0.random_base@ == random
                            &&& r->Ok_0.0.crh.parameters.rows() == crh_rows
                            &&& r->Ok_0.1 == end
                            &&& r->Ok_0.0.wf()
                        },
                    },
                },
            },
    {
        let (rows, mid) = match PedersenCRHParameters::<G, S>::read(bytes, start) {
            Err(e) => {
                return Err(e);
            },
            Ok(v) => v,
        };
        let (random_base, last) = match read_row::<G>(bytes, mid) {
            Err(e) => {
                return Err(e);
            },
            Ok(v) => v,
        };
        let (crh_parameters, end) = match PedersenCRHParameters::<G, S>::read(bytes, last) {
            Err(e) => {
                return Err(e);
            },
            Ok(v) => v,
        };
        let crh = PedersenCRH::from(crh_parameters);
        Ok((PedersenCommitmentParameters { bases: rows.bases, random_base, crh }, end))
    }
}

/// The Pedersen commitment.
pub struct PedersenCommitment<G: Group, S: PedersenSize> {
    pub parameters: PedersenCommitmentParameters<G, S>,
}

impl<G: Group, S: PedersenSize> PedersenCommitment<G, S> {
    /// The commitment to `input` with the given randomness.  Fails with
    /// `IncorrectInputLength` exactly when the input has more bytes than
    /// the windows take bits, else with the error of the hash exactly
    /// when that fails.
    pub fn commit(&self, input: &[u8], randomness: &G::ScalarField) -> (r: Result<G, CommitmentError>)
        requires
            G::is_group(),
            self.parameters.wf(),
            randomness.wf(),
            S::WINDOW_SIZE >= 1,
            S::WINDOW_SIZE * S::NUM_WINDOWS <= usize::MAX,
            input@.len() * 8 <= usize::MAX,
        ensures
            r == (if input@.len() > S::WINDOW_SIZE * S::NUM_WINDOWS {
                Err::<G, CommitmentError>(CommitmentError::IncorrectInputLength)
            } else if input@.len() * 8 > S::WINDOW_SIZE * S::NUM_WINDOWS {
                Err(CommitmentError::CRHError(CRHError::IncorrectInputLength))
            } else if self.parameters.crh.parameters.rows().len() != S::NUM_WINDOWS {
                Err(CommitmentError::CRHError(CRHError::IncorrectParameterSize))
            } else {
                let bits = randomness_bits(*randomness);
                let n = if bits.len() < self.parameters.random_base@.len() {
                    bits.len() as int
                } else {
                    self.parameters.random_base@.len() as int
                };
                Ok(
                    random_sum(
                        hash_spec::<G, S>(self.parameters.crh.parameters.rows(), input@),
                        self.parameters.random_base@,
                        bits,
                        n,
                    ),
                )
            }),
    {
        // If the input is too long, return an error.
        if input.len() > S::WINDOW_SIZE * S::NUM_WINDOWS {
            return Err(CommitmentError::IncorrectInputLength);
        }
        let mut output = match self.parameters.crh.hash(input) {
            Ok(h) => h,
            Err(e) => {
                return Err(CommitmentError::CRHError(e));
            },
        };
        // Compute h^r.
        proof {
            <G::ScalarField as PrimeField>::lemma_limbs(*randomness);
        }
        let mut it = BitIteratorBE::new(randomness.into_repr());
        let ghost be = it.remaining();
        let mut scalar_bits: Vec<bool> = Vec::new();
        loop
            invariant_except_break
                it.wf(),
                scalar_bits@ + it.remaining() == be,
            ensures
                scalar_bits@ == be,
            decreases it.remaining().len(),
        {
            let ghost before = it.remaining();
            let ghost prev = scalar_bits@;
            match it.next() {
                None => {
                    assert(prev + before =~= prev);
                    break ;
                },
                Some(b) => {
                    scalar_bits.push(b);
                    assert(scalar_bits@ + it.remaining() =~= prev + before);
                },
            }
        }
        let ghost le = be.reverse();
        let total = scalar_bits.len();
        let n = if total < self.parameters.random_base.len() {
            total
        } else {
            self.parameters.random_base.len()
        };
        let ghost h = output;
        let mut i: usize = 0;
        while i < n
            invariant
                i <= n,
                n <= total,
                n <= self.parameters.random_base@.len(),
                total == scalar_bits@.len(),
                scalar_bits@ == be,
                le == be.reverse(),
                row_wf(self.parameters.random_base@),
                output == random_sum(h, self.parameters.random_base@, le, i as int),
                output.wf(),
            decreases n - i,
        {
            assert(self.parameters.random_base@[i as int].wf());
            let bit = scalar_bits[total - 1 - i];
            assert(bit == le[i as int]);
            if bit {
                output = output.add(&self.parameters.random_base[i]);
            }
            i += 1;
        }
        Ok(output)
    }
}

} // verus!
