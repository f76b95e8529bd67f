//! The records of the ledger.
use crate::bytes::{copy_window, read_u64, window, write_all, write_u64, ByteError};
use crate::curves::group::{read_spec, Group, ProjectiveCurve};
use crate::dpc::variable_length_integer::{
    read_variable_length_integer, read_variable_length_integer_spec, variable_length_integer,
    variable_length_integer_spec,
};
use crate::fields::field::Field;
use crate::hexadecimal::{
    first_invalid, hex_decode, hex_decoding, hex_encode, hex_encoding, hex_value, HexError,
};
use vstd::bytes::*;
use vstd::prelude::*;
use vstd::string::StringSliceAdditionalSpecFns;

verus! {

/// Why a record could not be read.
#[derive(Clone, Copy, Debug, PartialEq, Eq)]
pub enum RecordError {
    /// The text is no hexadecimal text.
    Hex(HexError),
    /// The bytes are no record.
    Bytes(ByteError),
}

/// The payload of a record: 32 bytes.
#[derive(Clone, Copy, Debug, PartialEq, Eq)]
pub struct Payload(pub [u8; 32]);

/// A record: an owner, a value and a payload, the programs that guard its
/// birth and death, and the commitment that binds them.  The owner is a
/// point of the curve `G`; the nonce and the commitment are coordinates,
/// and the randomness of the commitment is a scalar.
pub struct Record<G: ProjectiveCurve> {
    pub owner: G,
    pub is_dummy: bool,
    pub value: u64,
    pub payload: Payload,
    pub birth_program_id: Vec<u8>,
    pub death_program_id: Vec<u8>,
    pub serial_number_nonce: G::BaseField,
    pub commitment: G::BaseField,
    pub commitment_randomness: G::ScalarField,
}

/// The byte that stands for a flag.
pub open spec fn flag_byte(b: bool) -> u8 {
    if b {
        1
    } else {
        0
    }
}

/// The identifier of the program that guards records by default: the
/// encoding of the zero of the field of the coordinates.
pub fn default_program_id<G: ProjectiveCurve>() -> (r: Vec<u8>)
    requires
        G::BaseField::is_field(),
    ensures
        r@ == G::BaseField::zero_spec().to_bytes_spec(),
{
    proof {
        G::BaseField::lemma_constants();
    }
    let mut out: Vec<u8> = Vec::new();
    G::BaseField::zero().write(&mut out);
    assert(out@ =~= G::BaseField::zero_spec().to_bytes_spec());
    out
}

/// Where a flag at `pos` ends: it is one byte, 0 or 1.
pub open spec fn flag_end(bytes: Seq<u8>, pos: int) -> Result<int, ByteError> {
    if pos >= bytes.len() {
        Err(ByteError::UnexpectedEof)
    } else if bytes[pos] > 1 {
        Err(ByteError::InvalidData)
    } else {
        Ok(pos + 1)
    }
}

/// Where `n` bytes at `pos` end.
pub open spec fn fixed_end(bytes: Seq<u8>, pos: int, n: int) -> Result<int, ByteError> {
    if pos + n > bytes.len() {
        Err(ByteError::UnexpectedEof)
    } else {
        Ok(pos + n)
    }
}

/// Where bytes at `pos` end that are written behind their number.
pub open spec fn sized_end(bytes: Seq<u8>, pos: int) -> Result<int, ByteError> {
    match read_variable_length_integer_spec(bytes, pos) {
        Err(e) => Err(e),
        Ok((n, first)) => fixed_end(bytes, first as int, n as int),
    }
}

/// Where the field element at `pos` ends.
pub open spec fn field_end<F: Field>(bytes: Seq<u8>, pos: int) -> Result<int, ByteError> {
    if pos + F::byte_len() > bytes.len() {
        Err(ByteError::UnexpectedEof)
    } else if exists|a: F| a.wf() && #[trigger] a.to_bytes_spec() == window(bytes, pos, F::byte_len() as int) {
        Ok(pos + F::byte_len())
    } else {
        Err(ByteError::InvalidData)
    }
}

/// Where the group element at `pos` ends.
pub open spec fn group_end<G: Group>(bytes: Seq<u8>, pos: int) -> Result<int, ByteError> {
    match read_spec::<G>(bytes, pos) {
        Err(e) => Err(e),
        Ok((_, next)) => Ok(next as int),
    }
}

/// Where the record at `start` ends, or the error of its first part that
/// cannot be read: the owner, the flag, the value, the payload, the two
/// identifiers, the nonce, the commitment and its randomness.
pub open spec fn record_end<G: ProjectiveCurve>(bytes: Seq<u8>, start: int) -> Result<int, ByteError> {
    match group_end::<G>(bytes, start) {
        Err(e) => Err(e),
        Ok(at1) => match flag_end(bytes, at1) {
            Err(e) => Err(e),
            Ok(at2) => match fixed_end(bytes, at2, 8) {
                Err(e) => Err(e),
                Ok(at3) => match fixed_end(bytes, at3, 32) {
                    Err(e) => Err(e),
                    Ok(at4) => match sized_end(bytes, at4) {
                        Err(e) => Err(e),
                        Ok(at6) => match sized_end(bytes, at6) {
                            Err(e) => Err(e),
                            Ok(at8) => match field_end::<G::BaseField>(bytes, at8) {
                                Err(e) => Err(e),
                                Ok(at9) => match field_end::<G::BaseField>(bytes, at9) {
                                    Err(e) => Err(e),
                                    Ok(at10) => field_end::<G::ScalarField>(bytes, at10),
                                },
                            },
                        },
                    },
                },
            },
        },
    }
}

/// Reads a flag at `pos`: one byte that is 0 or 1.
pub fn read_flag(bytes: &[u8], pos: usize) -> (r: Result<(bool, usize), ByteError>)
    ensures
        match flag_end(bytes@, pos as int) {
            Ok(end) => r is Ok && r->Ok_0.1 == end && bytes@[pos as int] == flag_byte(r->Ok_0.0),
            Err(e) => r == Err::<(bool, usize), ByteError>(e),
        },
{
    if pos >= bytes.len() {
        return Err(ByteError::UnexpectedEof);
    }
    let flag = bytes[pos];
    if flag > 1 {
        return Err(ByteError::InvalidData);
    }
    Ok((flag == 1, pos + 1))
}

/// Reads a payload at `pos`: 32 bytes.
pub fn read_payload(bytes: &[u8], pos: usize) -> (r: Result<(Payload, usize), ByteError>)
    ensures
        match fixed_end(bytes@, pos as int, 32) {
            Ok(end) => r is Ok && r->Ok_0.1 == end && r->Ok_0.0.0@ == bytes@.subrange(pos as int, end),
            Err(e) => r == Err::<(Payload, usize), ByteError>(e),
        },
{
    if bytes.len() < 32 || pos > bytes.len() - 32 {
        return Err(ByteError::UnexpectedEof);
    }
    let len = bytes.len();
    let mut payload = [0u8;32];
    let mut i: usize = 0;
    while i < 32
        invariant
            i <= 32,
            pos + 32 <= len,
            len == bytes@.len(),
            forall|k: int| 0 <= k < i ==> payload@[k] == bytes@[pos + k],
        decreases 32 - i,
    {
        payload[i] = bytes[pos + i];
        i += 1;
    }
    assert(payload@ =~= bytes@.subrange(pos as int, pos + 32));
    Ok((Payload(payload), pos + 32))
}

/// Reads bytes at `pos`: their number as a variable-length integer, then
/// the bytes.
pub fn read_sized_bytes(bytes: &[u8], pos: usize) -> (r: Result<(Vec<u8>, usize), ByteError>)
    ensures
        match sized_end(bytes@, pos as int) {
            Ok(end) => {
                &&& r is Ok
                &&& r->Ok_0.1 == end
                &&& pos < end <= bytes@.len()
                &&& bytes@.subrange(pos as int, end) == variable_length_integer_spec(
                    r->Ok_0.0@.len() as u64,
                ) + r->Ok_0.0@
            },
            Err(e) => r == Err::<(Vec<u8>, usize), ByteError>(e),
        },
{
    let len = bytes.len();
    let (size, first) = match read_variable_length_integer(bytes, pos) {
        Err(e) => {
            return Err(e);
        },
        Ok(v) => v,
    };
    proof {
        crate::dpc::transactions::lemma_variable_length_integer_window(bytes@, pos as int);
    }
    if bytes.len() - first < size {
        return Err(ByteError::UnexpectedEof);
    }
    let v = copy_window(bytes, first, size);
    assert(bytes@.subrange(pos as int, first + size) =~= bytes@.subrange(pos as int, first as int)
        + v@);
    Ok((v, first + size))
}

/// Reads a field element at `pos`.
pub fn read_field<F: Field>(bytes: &[u8], pos: usize) -> (r: Result<(F, usize), ByteError>)
    requires
        F::is_field(),
    ensures
        match field_end::<F>(bytes@, pos as int) {
            Ok(end) => {
                &&& r is Ok
                &&& r->Ok_0.1 == end
                &&& end <= bytes@.len()
                &&& r->Ok_0.0.wf()
                &&& r->Ok_0.0.to_bytes_spec() == bytes@.subrange(pos as int, end)
            },
            Err(e) => r == Err::<(F, usize), ByteError>(e),
        },
{
    F::read(bytes, pos)
}

/// Reads a group element at `pos`.
pub fn read_group<G: Group>(bytes: &[u8], pos: usize) -> (r: Result<(G, usize), ByteError>)
    requires
        G::is_group(),
    ensures
        match group_end::<G>(bytes@, pos as int) {
            Ok(end) => {
                &&& r is Ok
                &&& r->Ok_0.1 == end
                &&& end <= bytes@.len()
                &&& r->Ok_0.0.wf()
                &&& r->Ok_0.0.to_bytes_spec() == bytes@.subrange(pos as int, end)
            },
            Err(e) => r == Err::<(G, usize), ByteError>(e),
        },
{
    let len = bytes.len();
    let r = G::read(bytes, pos);
    proof {
        G::lemma_decode(G::zero_spec(), window(bytes@, pos as int, G::byte_len() as int));
    }
    r
}

impl<G: ProjectiveCurve> Record<G> {
    /// The parts of the record are elements of their group and fields,
    /// and the identifiers are short enough for their lengths to be
    /// written.
    pub open spec fn wf(&self) -> bool {
        &&& self.owner.wf()
        &&& self.serial_number_nonce.wf()
        &&& self.commitment.wf()
        &&& self.commitment_randomness.wf()
    }

    /// The encoding of the record.
    pub open spec fn to_bytes_spec(&self) -> Seq<u8> {
        self.owner.to_bytes_spec() + seq![flag_byte(self.is_dummy)] + spec_u64_to_le_bytes(self.value)
            + self.payload.0@ + variable_length_integer_spec(self.birth_program_id@.len() as u64)
            + self.birth_program_id@ + variable_length_integer_spec(
            self.death_program_id@.len() as u64,
        ) + self.death_program_id@ + self.serial_number_nonce.to_bytes_spec()
            + self.commitment.to_bytes_spec() + self.commitment_randomness.to_bytes_spec()
    }

    pub fn owner(&self) -> (r: &G)
        ensures
            *r == self.owner,
    {
        &self.owner
    }

    pub fn is_dummy(&self) -> (r: bool)
        ensures
            r == self.is_dummy,
    {
        self.is_dummy
    }

    pub fn value(&self) -> (r: u64)
        ensures
            r == self.value,
    {
        self.value
    }

    pub fn payload(&self) -> (r: &Payload)
        ensures
            *r == self.payload,
    {
        &self.payload
    }

    pub fn birth_program_id(&self) -> (r: &Vec<u8>)
        ensures
            *r == self.birth_program_id,
    {
        &self.birth_program_id
    }

    pub fn death_program_id(&self) -> (r: &Vec<u8>)
        ensures
            *r == self.death_program_id,
    {
        &self.death_program_id
    }

    pub fn serial_number_nonce(&self) -> (r: &G::BaseField)
        ensures
            *r == self.serial_number_nonce,
    {
        &self.serial_number_nonce
    }

    pub fn commitment(&self) -> (r: G::BaseField)
        ensures
            r == self.commitment,
    {
        self.commitment
    }

    pub fn commitment_randomness(&self) -> (r: G::ScalarField)
        ensures
            r == self.commitment_randomness,
    {
        self.commitment_randomness
    }

    /// Appends the encoding of the record to `out`.
    pub fn write(&self, out: &mut Vec<u8>)
        requires
            self.wf(),
        ensures
            final(out)@ == old(out)@ + self.to_bytes_spec(),
    {
        self.owner.write(out);
        out.push(if self.is_dummy { 1 } else { 0 });
        write_u64(out, self.value);
        let mut i: usize = 0;
        let ghost before = out@;
        while i < 32
            invariant
                i <= 32,
                out@ == before + self.payload.0@.subrange(0, i as int),
            decreases 32 - i,
        {
            out.push(self.payload.0[i]);
            assert(out@ =~= before + self.payload.0@.subrange(0, i + 1));
            i += 1;
        }
        assert(self.payload.0@.subrange(0, 32) =~= self.payload.0@);
        let birth_len = variable_length_integer(self.birth_program_id.len() as u64);
        write_all(out, &birth_len);
        write_all(out, &self.birth_program_id);
        let death_len = variable_length_integer(self.death_program_id.len() as u64);
        write_all(out, &death_len);
        write_all(out, &self.death_program_id);
        self.serial_number_nonce.write(out);
        self.commitment.write(out);
        self.commitment_randomness.write(out);
        assert(out@ =~= old(out)@ + self.to_bytes_spec());
    }

    /// Decodes the record that is encoded at `start`, and says where its
    /// encoding ends: what is read is a record whose encoding is the
    /// bytes that were read.  Fails with the error of the first part that
    /// cannot be read.
    #[verifier::rlimit(80)]
    #[verifier::spinoff_prover]
    pub fn read(bytes: &[u8], start: usize) -> (r: Result<(Self, usize), ByteError>)
        requires
            G::is_group(),
            G::BaseField::is_field(),
            <G::ScalarField as Field>::is_field(),
        ensures
            match record_end::<G>(bytes@, start as int) {
                Ok(end) => {
                    &&& r is Ok
                    &&& r->Ok_0.1 == end
                    &&& start <= end <= bytes@.len()
                    &&& r->Ok_0.0.wf()
                    &&& r->Ok_0.0.to_bytes_spec() == bytes@.subrange(start as int, end)
                },
                Err(e) => r == Err::<(Self, usize), ByteError>(e),
            },
    {
        let ghost b = bytes@;
        let len = bytes.len();
        let (owner, at1) = match read_group::<G>(bytes, start) {
            Err(e) => {
                return Err(e);
            },
            Ok(v) => v,
        };
        let ghost e1 = owner.to_bytes_spec();
        let (is_dummy, at2) = match read_flag(bytes, at1) {
            Err(e) => {
                return Err(e);
            },
            Ok(v) => v,
        };
        let ghost e2 = e1 + seq![flag_byte(is_dummy)];
        assert(b.subrange(start as int, at2 as int) =~= e2);
        let (value, at3) = match read_u64(bytes, at2) {
            Err(e) => {
                return Err(e);
            },
            Ok(v) => v,
        };
        proof {
            lemma_auto_spec_u64_to_from_le_bytes();
        }
        let ghost e3 = e2 + spec_u64_to_le_bytes(value);
        assert(b.subrange(start as int, at3 as int) =~= e3);
        let (payload, at4) = match read_payload(bytes, at3) {
            Err(e) => {
                return Err(e);
            },
            Ok(v) => v,
        };
        let ghost e4 = e3 + payload.0@;
        assert(b.subrange(start as int, at4 as int) =~= e4);
        let (birth_program_id, at6) = match read_sized_bytes(bytes, at4) {
            Err(e) => {
                return Err(e);
            },
            Ok(v) => v,
        };
        let ghost e6 = e4 + variable_length_integer_spec(birth_program_id@.len() as u64)
            + birth_program_id@;
        assert(b.subrange(start as int, at6 as int) =~= e4 + b.subrange(at4 as int, at6 as int));
        assert(e4 + (variable_length_integer_spec(birth_program_id@.len() as u64) + birth_program_id@)
            =~= e6);
        assert(b.subrange(start as int, at6 as int) =~= e6);
        let (death_program_id, at8) = match read_sized_bytes(bytes, at6) {
            Err(e) => {
                return Err(e);
            },
            Ok(v) => v,
        };
        let ghost e8 = e6 + variable_length_integer_spec(death_program_id@.len() as u64)
            + death_program_id@;
        assert(b.subrange(start as int, at8 as int) =~= e6 + b.subrange(at6 as int, at8 as int));
        assert(e6 + (variable_length_integer_spec(death_program_id@.len() as u64) + death_program_id@)
            =~= e8);
        assert(b.subrange(start as int, at8 as int) =~= e8);
        let (serial_number_nonce, at9) = match read_field::<G::BaseField>(bytes, at8) {
            Err(e) => {
                return Err(e);
            },
            Ok(v) => v,
        };
        let ghost e9 = e8 + serial_number_nonce.to_bytes_spec();
        assert(b.subrange(start as int, at9 as int) =~= e9);
        let (commitment, at10) = match read_field::<G::BaseField>(bytes, at9) {
            Err(e) => {
                return Err(e);
            },
            Ok(v) => v,
        };
        let ghost e10 = e9 + commitment.to_bytes_spec();
        assert(b.subrange(start as int, at10 as int) =~= e10);
        let (commitment_randomness, at11) = match read_field::<G::ScalarField>(bytes, at10) {
            Err(e) => {
                return Err(e);
            },
            Ok(v) => v,
        };
        let ghost e11 = e10 + commitment_randomness.to_bytes_spec();
        assert(b.subrange(start as int, at11 as int) =~= e11);
        let record = Record {
            owner,
            is_dummy,
            value,
            payload,
            birth_program_id,
            death_program_id,
            serial_number_nonce,
            commitment,
            commitment_randomness,
        };
        assert(record.to_bytes_spec() == e11);
        Ok((record, at11))
    }

    /// The record that the hexadecimal text spells.  Fails with the error
    /// of the text where that is no hexadecimal text, else with the error
    /// of reading the bytes that it spells; bytes behind the record are
    /// passed over.
    pub fn from_str(record: &str) -> (r: Result<Self, RecordError>)
        requires
            G::is_group(),
            G::BaseField::is_field(),
            <G::ScalarField as Field>::is_field(),
        ensures
            ({
                let text = record.spec_bytes();
                let spelled = text.len() % 2 == 0 && forall|j: int|
                    0 <= j < text.len() ==> hex_value(#[trigger] text[j]) is Some;
                match r {
                    Ok(rec) => {
                        &&& spelled
                        &&& record_end::<G>(hex_decoding(text), 0) is Ok
                        &&& rec.wf()
                        &&& rec.to_bytes_spec() == hex_decoding(text).subrange(
                            0,
                            record_end::<G>(hex_decoding(text), 0)->Ok_0,
                        )
                    },
                    Err(RecordError::Hex(HexError::OddLength)) => text.len() % 2 == 1,
                    Err(RecordError::Hex(HexError::InvalidHexCharacter { c, index })) => {
                        &&& text.len() % 2 == 0
                        &&& first_invalid(text, index as int)
                        &&& c == text[index as int] as char
                    },
                    Err(RecordError::Hex(HexError::InvalidStringLength)) => false,
                    Err(RecordError::Bytes(e)) => spelled && record_end::<G>(hex_decoding(text), 0) == Err::<
                        int,
                        ByteError,
                    >(e),
                }
            }),
    {
        let bytes = match hex_decode(record.as_bytes()) {
            Err(e) => {
                return Err(RecordError::Hex(e));
            },
            Ok(b) => b,
        };
        match Self::read(bytes.as_slice(), 0) {
            Err(e) => Err(RecordError::Bytes(e)),
            Ok((rec, _)) => Ok(rec),
        }
    }

    /// The encoding of the record as hexadecimal text.
    pub fn to_hex_string(&self) -> (r: String)
        requires
            self.wf(),
        ensures
            r@ == hex_encoding(self.to_bytes_spec()),
    {
        let mut out: Vec<u8> = Vec::new();
        self.write(&mut out);
        assert(out@ =~= self.to_bytes_spec());
        hex_encode(&out)
    }
}

} // verus!
