//! The parameters of the Pedersen hash: for each window a row of bases,
//! each the double of the one before.
use crate::bytes::{read_u32, window, write_u32, ByteError};
use crate::curves::group::{read_spec, Group};
use vstd::bytes::*;
use vstd::prelude::*;

verus! {

/// The shape of the parameters: how many windows, and how many bits each
/// takes.
pub trait PedersenSize: Sized {
    const NUM_WINDOWS: usize;

    const WINDOW_SIZE: usize;
}

/// The rows of bases of a Pedersen hash.
pub struct PedersenCRHParameters<G: Group, S: PedersenSize> {
    pub bases: Vec<Vec<G>>,
    pub size_phantom: core::marker::PhantomData<S>,
}

/// The rows as sequences.
pub open spec fn rows_view<G: Group>(bases: Seq<Vec<G>>) -> Seq<Seq<G>> {
    Seq::new(bases.len(), |i: int| bases[i]@)
}

/// Every entry of the row is an element of the group.
pub open spec fn row_wf<G: Group>(row: Seq<G>) -> bool {
    forall|j: int| 0 <= j < row.len() ==> (#[trigger] row[j]).wf()
}

/// Every entry of every row is an element of the group.
pub open spec fn rows_wf<G: Group>(rows: Seq<Seq<G>>) -> bool {
    forall|i: int| 0 <= i < rows.len() ==> row_wf(#[trigger] rows[i])
}

/// Each entry of the row is the double of the one before:
/// `G, 2G, 4G, ...`.
pub open spec fn is_power_table<G: Group>(row: Seq<G>) -> bool {
    forall|j: int| 0 < j < row.len() ==> (#[trigger] row[j]) == row[j - 1].double_spec()
}

/// The encodings of the first `n` entries of the row.
pub open spec fn elems_bytes<G: Group>(row: Seq<G>, n: int) -> Seq<u8>
    decreases n,
{
    if n <= 0 {
        Seq::empty()
    } else {
        elems_bytes(row, n - 1) + row[n - 1].to_bytes_spec()
    }
}

/// The encoding of a row: its length, then its entries.
pub open spec fn row_bytes<G: Group>(row: Seq<G>) -> Seq<u8> {
    spec_u32_to_le_bytes(row.len() as u32) + elems_bytes(row, row.len() as int)
}

/// The encodings of the first `n` rows.
pub open spec fn rows_bytes<G: Group>(rows: Seq<Seq<G>>, n: int) -> Seq<u8>
    decreases n,
{
    if n <= 0 {
        Seq::empty()
    } else {
        rows_bytes(rows, n - 1) + row_bytes(rows[n - 1])
    }
}

/// The encoding of the parameters: the number of rows, then the rows.
pub open spec fn params_bytes<G: Group>(rows: Seq<Seq<G>>) -> Seq<u8> {
    spec_u32_to_le_bytes(rows.len() as u32) + rows_bytes(rows, rows.len() as int)
}

/// What reading `n` entries from `pos` gives: the entries and the place
/// after them, or the first error.
pub open spec fn read_elems_spec<G: Group>(bytes: Seq<u8>, pos: int, n: nat) -> Result<
    (Seq<G>, int),
    ByteError,
>
    decreases n,
{
    if n == 0 {
        Ok((Seq::empty(), pos))
    } else {
        match read_elems_spec::<G>(bytes, pos, (n - 1) as nat) {
            Err(e) => Err(e),
            Ok((row, mid)) => match read_spec::<G>(bytes, mid) {
                Err(e) => Err(e),
                Ok((g, next)) => Ok((row.push(g), next as int)),
            },
        }
    }
}

/// What reading a row from `pos` gives: its length is read, then as many
/// entries.
pub open spec fn read_row_spec<G: Group>(bytes: Seq<u8>, pos: int) -> Result<(Seq<G>, int), ByteError> {
    if pos + 4 > bytes.len() {
        Err(ByteError::UnexpectedEof)
    } else {
        read_elems_spec::<G>(bytes, pos + 4, spec_u32_from_le_bytes(window(bytes, pos, 4)) as nat)
    }
}

/// What reading `n` rows from `pos` gives.
pub open spec fn read_rows_spec<G: Group>(bytes: Seq<u8>, pos: int, n: nat) -> Result<
    (Seq<Seq<G>>, int),
    ByteError,
>
    decreases n,
{
    if n == 0 {
        Ok((Seq::empty(), pos))
    } else {
        match read_rows_spec::<G>(bytes, pos, (n - 1) as nat) {
            Err(e) => Err(e),
            Ok((rows, mid)) => match read_row_spec::<G>(bytes, mid) {
                Err(e) => Err(e),
                Ok((row, next)) => Ok((rows.push(row), next)),
            },
        }
    }
}

/// What reading parameters from `pos` gives: the number of rows is read,
/// then as many rows.
pub open spec fn read_params_spec<G: Group>(bytes: Seq<u8>, pos: int) -> Result<
    (Seq<Seq<G>>, int),
    ByteError,
> {
    if pos + 4 > bytes.len() {
        Err(ByteError::UnexpectedEof)
    } else {
        read_rows_spec::<G>(bytes, pos + 4, spec_u32_from_le_bytes(window(bytes, pos, 4)) as nat)
    }
}

/// An error on the way stays the outcome however many more entries are
/// asked for.
pub proof fn lemma_read_elems_error<G: Group>(bytes: Seq<u8>, pos: int, m: nat, n: nat)
    requires
        m <= n,
        read_elems_spec::<G>(bytes, pos, m) is Err,
    ensures
        read_elems_spec::<G>(bytes, pos, n) == read_elems_spec::<G>(bytes, pos, m),
    decreases n - m,
{
    if m < n {
        lemma_read_elems_error::<G>(bytes, pos, m, (n - 1) as nat);
    }
}

/// An error on the way stays the outcome however many more rows are asked
/// for.
pub proof fn lemma_read_rows_error<G: Group>(bytes: Seq<u8>, pos: int, m: nat, n: nat)
    requires
        m <= n,
        read_rows_spec::<G>(bytes, pos, m) is Err,
    ensures
        read_rows_spec::<G>(bytes, pos, n) == read_rows_spec::<G>(bytes, pos, m),
    decreases n - m,
{
    if m < n {
        lemma_read_rows_error::<G>(bytes, pos, m, (n - 1) as nat);
    }
}

/// The row `G, 2G, 4G, ...` of `num_powers` entries.
pub fn base<G: Group>(num_powers: usize, generator: G) -> (powers: Vec<G>)
    requires
        generator.wf(),
    ensures
        powers@.len() == num_powers,
        row_wf(powers@),
        is_power_table(powers@),
        num_powers > 0 ==> powers@[0] == generator,
{
    let mut powers: Vec<G> = Vec::new();
    let mut base = generator;
    let mut i: usize = 0;
    while i < num_powers
        invariant
            i <= num_powers,
            powers@.len() == i,
            base.wf(),
            i == 0 ==> base == generator,
            i > 0 ==> base == powers@[i - 1].double_spec(),
            row_wf(powers@),
            is_power_table(powers@),
            i > 0 ==> powers@[0] == generator,
        decreases num_powers - i,
    {
        powers.push(base);
        base.double_in_place();
        i += 1;
    }
    powers
}

/// Appends the encoding of a row to `out`.
pub fn write_row<G: Group>(row: &Vec<G>, out: &mut Vec<u8>)
    requires
        row_wf(row@),
        row@.len() <= u32::MAX,
    ensures
        final(out)@ == old(out)@ + row_bytes(row@),
{
    write_u32(out, row.len() as u32);
    let mut j: usize = 0;
    while j < row.len()
        invariant
            j <= row@.len(),
            row_wf(row@),
            out@ == old(out)@ + spec_u32_to_le_bytes(row@.len() as u32) + elems_bytes(row@, j as int),
        decreases row@.len() - j,
    {
        assert(row@[j as int].wf());
        row[j].write(out);
        assert(out@ =~= old(out)@ + spec_u32_to_le_bytes(row@.len() as u32) + elems_bytes(
            row@,
            j + 1,
        ));
        j += 1;
    }
    assert(out@ =~= old(out)@ + row_bytes(row@));
}

/// Reads a row at `start`.
#[verifier::loop_isolation(false)]
pub fn read_row<G: Group>(bytes: &[u8], start: usize) -> (r: Result<(Vec<G>, usize), ByteError>)
    requires
        G::is_group(),
    ensures
        match read_row_spec::<G>(bytes@, start as int) {
            Ok((row, end)) => r is Ok && r->Ok_0.0@ == row && r->Ok_0.1 == end && row_wf(row) && end
                <= bytes@.len(),
            Err(e) => r == Err::<(Vec<G>, usize), ByteError>(e),
        },
{
    let (base_len, first) = match read_u32(bytes, start) {
        Err(e) => {
            return Err(e);
        },
        Ok(v) => v,
    };
    let mut row: Vec<G> = Vec::new();
    let mut pos = first;
    let mut j: u32 = 0;
    while j < base_len
        invariant
            j <= base_len,
            pos <= bytes@.len(),
            row_wf(row@),
            read_elems_spec::<G>(bytes@, first as int, j as nat) == Ok::<(Seq<G>, int), ByteError>(
                (row@, pos as int),
            ),
        decreases base_len - j,
    {
        match G::read(bytes, pos) {
            Err(e) => {
                proof {
                    assert(read_elems_spec::<G>(bytes@, first as int, (j + 1) as nat) == Err::<
                        (Seq<G>, int),
                        ByteError,
                    >(e));
                    lemma_read_elems_error::<G>(bytes@, first as int, (j + 1) as nat, base_len as nat);
                }
                return Err(e);
            },
            Ok((g, next)) => {
                proof {
                    G::lemma_decode(g, window(bytes@, pos as int, G::byte_len() as int));
                }
                row.push(g);
                pos = next;
            },
        }
        j += 1;
    }
    Ok((row, pos))
}

impl<G: Group, S: PedersenSize> PedersenCRHParameters<G, S> {
    /// The rows of bases.
    pub open spec fn rows(&self) -> Seq<Seq<G>> {
        rows_view(self.bases@)
    }

    /// Every base is an element of the group.
    pub open spec fn wf(&self) -> bool {
        rows_wf(self.rows())
    }

    /// There is a row for each window, each row has a base for each bit of
    /// the window, and each base is the double of the one before.
    pub open spec fn well_shaped(&self) -> bool {
        &&& self.rows().len() == S::NUM_WINDOWS
        &&& forall|i: int|
            0 <= i < self.rows().len() ==> (#[trigger] self.rows()[i]).len() == S::WINDOW_SIZE
                && is_power_table(self.rows()[i])
    }

    /// The encoding of the parameters.
    pub open spec fn to_bytes_spec(&self) -> Seq<u8> {
        params_bytes(self.rows())
    }

    /// The parameters with the rows that the generators span: row `i` is
    /// `G_i, 2 G_i, 4 G_i, ...`.
    pub fn setup(generators: &Vec<G>) -> (r: Self)
        requires
            generators@.len() == S::NUM_WINDOWS,
            row_wf(generators@),
        ensures
            r.wf(),
            r.well_shaped(),
            S::WINDOW_SIZE > 0 ==> forall|i: int|
                0 <= i < generators@.len() ==> (#[trigger] r.rows()[i])[0] == generators@[i],
    {
        let mut bases: Vec<Vec<G>> = Vec::new();
        let mut i: usize = 0;
        while i < generators.len()
            invariant
                i <= generators@.len(),
                row_wf(generators@),
                bases@.len() == i,
                rows_wf(rows_view(bases@)),
                forall|k: int|
                    0 <= k < i ==> (#[trigger] rows_view(bases@)[k]).len() == S::WINDOW_SIZE
                        && is_power_table(rows_view(bases@)[k]),
                S::WINDOW_SIZE > 0 ==> forall|k: int|
                    0 <= k < i ==> (#[trigger] rows_view(bases@)[k])[0] == generators@[k],
            decreases generators@.len() - i,
        {
            assert(generators@[i as int].wf());
            let ghost prev = rows_view(bases@);
            let row = base::<G>(S::WINDOW_SIZE, generators[i]);
            bases.push(row);
            proof {
                assert(rows_view(bases@) =~= prev.push(row@));
                assert forall|k: int| 0 <= k < rows_view(bases@).len() implies row_wf(
                    #[trigger] rows_view(bases@)[k],
                ) by {
                    if k < i {
                        assert(row_wf(prev[k]));
                    }
                }
                assert forall|k: int| 0 <= k < i + 1 implies (#[trigger] rows_view(bases@)[k]).len()
                    == S::WINDOW_SIZE && is_power_table(rows_view(bases@)[k]) by {
                    if k < i {
                        assert(prev[k].len() == S::WINDOW_SIZE);
                    }
                }
                if S::WINDOW_SIZE > 0 {
                    assert forall|k: int| 0 <= k < i + 1 implies (#[trigger] rows_view(bases@)[k])[0]
                        == generators@[k] by {
                        if k < i {
                            assert(prev[k][0] == generators@[k]);
                        }
                    }
                }
            }
            i += 1;
        }
        PedersenCRHParameters { bases, size_phantom: core::marker::PhantomData }
    }

    /// The parameters with the given rows.
    pub fn from(bases: Vec<Vec<G>>) -> (r: Self)
        ensures
            r.bases == bases,
    {
        PedersenCRHParameters { bases, size_phantom: core::marker::PhantomData }
    }

    /// Appends the encoding of the parameters to `out`.
    pub fn write(&self, out: &mut Vec<u8>)
        requires
            self.wf(),
            self.bases@.len() <= u32::MAX,
            forall|i: int| 0 <= i < self.bases@.len() ==> (#[trigger] self.bases@[i])@.len() <= u32::MAX,
        ensures
            final(out)@ == old(out)@ + self.to_bytes_spec(),
    {
        write_u32(out, self.bases.len() as u32);
        let mut i: usize = 0;
        while i < self.bases.len()
            invariant
                i <= self.bases@.len(),
                self.wf(),
                forall|k: int| 0 <= k < self.bases@.len() ==> (#[trigger] self.bases@[k])@.len() <= u32::MAX,
                out@ == old(out)@ + spec_u32_to_le_bytes(self.bases@.len() as u32) + rows_bytes(
                    self.rows(),
                    i as int,
                ),
            decreases self.bases@.len() - i,
        {
            assert(row_wf(self.rows()[i as int]));
            write_row::<G>(&self.bases[i], out);
            assert(out@ =~= old(out)@ + spec_u32_to_le_bytes(self.bases@.len() as u32) + rows_bytes(
                self.rows(),
                i + 1,
            ));
            i += 1;
        }
        assert(out@ =~= old(out)@ + self.to_bytes_spec());
    }

    /// Decodes the parameters that are encoded at `start`, and says where
    /// their encoding ends; fails with the first error of the reading.
    #[verifier::loop_isolation(false)]
    pub fn read(bytes: &[u8], start: usize) -> (r: Result<(Self, usize), ByteError>)
        requires
            G::is_group(),
        ensures
            match read_params_spec::<G>(bytes@, start as int) {
                Ok((rows, end)) => r is Ok && r->Ok_0.0.rows() == rows && r->Ok_0.1 == end
                    && r->Ok_0.0.wf() && end <= bytes@.len(),
                Err(e) => r is Err && r->Err_0 == e,
            },
    {
        let (num_bases, first) = match read_u32(bytes, start) {
            Err(e) => {
                return Err(e);
            },
            Ok(v) => v,
        };
        let mut bases: Vec<Vec<G>> = Vec::new();
        let mut pos = first;
        let mut i: u32 = 0;
        assert(rows_view(bases@) =~= Seq::<Seq<G>>::empty());
        while i < num_bases
            invariant
                i <= num_bases,
                pos <= bytes@.len(),
                rows_wf(rows_view(bases@)),
                read_rows_spec::<G>(bytes@, first as int, i as nat) == Ok::<
                    (Seq<Seq<G>>, int),
                    ByteError,
                >((rows_view(bases@), pos as int)),
            decreases num_bases - i,
        {
            let ghost prev = rows_view(bases@);
            match read_row::<G>(bytes, pos) {
                Err(e) => {
                    proof {
                        assert(read_rows_spec::<G>(bytes@, first as int, (i + 1) as nat) == Err::<
                            (Seq<Seq<G>>, int),
                            ByteError,
                        >(e));
                        lemma_read_rows_error::<G>(
                            bytes@,
                            first as int,
                            (i + 1) as nat,
                            num_bases as nat,
                        );
                    }
                    return Err(e);
                },
                Ok((row, next)) => {
                    bases.push(row);
                    proof {
                        assert(rows_view(bases@) =~= prev.push(row@));
                        assert forall|k: int| 0 <= k < rows_view(bases@).len() implies row_wf(
                            #[trigger] rows_view(bases@)[k],
                        ) by {
                            if k < prev.len() {
                                assert(row_wf(prev[k]));
                            }
                        }
                    }
                    pos = next;
                },
            }
            i += 1;
        }
        Ok((PedersenCRHParameters { bases, size_phantom: core::marker::PhantomData }, pos))
    }
}

} // verus!
