use snarkvm_core::bytes::ByteError;
use snarkvm_core::curves::short_weierstrass_jacobian::GroupProjective;
use snarkvm_core::curves::small::SmallCurve;
use snarkvm_core::dpc::record::{
    default_program_id, read_field, read_flag, read_group, read_payload, read_sized_bytes, Payload, Record,
    RecordError,
};
use snarkvm_core::fields::field::Field;
use snarkvm_core::fields::fp::Fp;
use snarkvm_core::hexadecimal::HexError;

type P = SmallCurve<10009, 3391, 0, 3, 350, 1676, 3, 2261>;
type G = GroupProjective<P>;

fn sample() -> Record<G> {
    let mut payload = [0u8; 32];
    payload[0] = 0xab;
    payload[31] = 0xcd;
    Record {
        owner: G::prime_subgroup_generator().mul(&Fp::<3391>::from_u64(77)),
        is_dummy: true,
        value: 1_000_000_007,
        payload: Payload(payload),
        birth_program_id: vec![1, 2, 3],
        death_program_id: (0..300).map(|i| (i % 251) as u8).collect(),
        serial_number_nonce: Fp::<10009>::from_u64(42),
        commitment: Fp::<10009>::from_u64(10008),
        commitment_randomness: Fp::<3391>::from_u64(3390),
    }
}

fn same(a: &Record<G>, b: &Record<G>) -> bool {
    (a.owner.x, a.owner.y, a.owner.z) == (b.owner.x, b.owner.y, b.owner.z)
        && a.is_dummy == b.is_dummy
        && a.value == b.value
        && a.payload == b.payload
        && a.birth_program_id == b.birth_program_id
        && a.death_program_id == b.death_program_id
        && a.serial_number_nonce == b.serial_number_nonce
        && a.commitment == b.commitment
        && a.commitment_randomness == b.commitment_randomness
}

#[test]
fn record_bytes_layout() {
    let record = sample();
    let mut out = Vec::new();
    record.write(&mut out);
    // owner, flag, value, payload, two sized identifiers, three elements
    assert_eq!(out.len(), 24 + 1 + 8 + 32 + (1 + 3) + (3 + 300) + 8 + 8 + 8);
    assert_eq!(out[24], 1);
    assert_eq!(&out[25..33], &1_000_000_007u64.to_le_bytes());
    assert_eq!((out[33], out[64]), (0xab, 0xcd));
    assert_eq!(&out[65..69], &[3, 1, 2, 3]);
    assert_eq!(&out[69..72], &[0xfd, 44, 1]);
    assert_eq!(&out[out.len() - 8..], &3390u64.to_le_bytes());
}

#[test]
fn record_bytes_round_trip() {
    let record = sample();
    let mut out = vec![5u8; 3];
    record.write(&mut out);
    out.push(99);
    let (back, end) = Record::<G>::read(&out, 3).unwrap();
    assert_eq!(end, out.len() - 1);
    assert!(same(&record, &back));
    for cut in [3usize, 10, 27, 28, 40, 70, 100, out.len() - 2] {
        assert_eq!(Record::<G>::read(&out[..cut], 3).err(), Some(ByteError::UnexpectedEof), "cut at {}", cut);
    }
    let mut bad = out.clone();
    bad[3 + 24] = 2;
    assert_eq!(Record::<G>::read(&bad, 3).err(), Some(ByteError::InvalidData));
    let mut bad = out.clone();
    let n = bad.len();
    bad[n - 9..n - 1].copy_from_slice(&3391u64.to_le_bytes());
    assert_eq!(Record::<G>::read(&bad, 3).err(), Some(ByteError::InvalidData));
}

#[test]
fn record_getters() {
    let record = sample();
    assert_eq!(record.owner().x, record.owner.x);
    assert!(record.is_dummy());
    assert_eq!(record.value(), 1_000_000_007);
    assert_eq!(record.payload().0[0], 0xab);
    assert_eq!(record.birth_program_id(), &vec![1, 2, 3]);
    assert_eq!(record.death_program_id().len(), 300);
    assert_eq!(record.serial_number_nonce().value(), 42);
    assert_eq!(record.commitment().value(), 10008);
    assert_eq!(record.commitment_randomness().value(), 3390);
    assert_eq!(default_program_id::<G>(), vec![0u8; 8]);
}

#[test]
fn record_hex_round_trip() {
    let record = sample();
    let text = record.to_hex_string();
    let mut bytes = Vec::new();
    record.write(&mut bytes);
    assert_eq!(text.len(), 2 * bytes.len());
    assert_eq!(&text[48..50], "01");
    assert_eq!(&text[66..68], "ab");
    assert!(text.chars().all(|c| c.is_ascii_digit() || ('a'..='f').contains(&c)));
    let back = Record::<G>::from_str(&text).unwrap();
    assert!(same(&record, &back));
    let upper = Record::<G>::from_str(&text.to_uppercase()).unwrap();
    assert!(same(&record, &upper));
}

#[test]
fn record_from_str_errors() {
    let text = sample().to_hex_string();
    assert_eq!(Record::<G>::from_str(&text[1..]).err(), Some(RecordError::Hex(HexError::OddLength)));
    let mut bad = text.clone();
    bad.replace_range(4..5, "g");
    assert_eq!(
        Record::<G>::from_str(&bad).err(),
        Some(RecordError::Hex(HexError::InvalidHexCharacter { c: 'g', index: 4 }))
    );
    assert_eq!(
        Record::<G>::from_str(&text[..text.len() - 2]).err(),
        Some(RecordError::Bytes(ByteError::UnexpectedEof))
    );
    assert_eq!(Record::<G>::from_str("").err(), Some(RecordError::Bytes(ByteError::UnexpectedEof)));
}

#[test]
fn record_parts_readers() {
    assert_eq!(read_flag(&[0, 1, 2], 0), Ok((false, 1)));
    assert_eq!(read_flag(&[0, 1, 2], 1), Ok((true, 2)));
    assert_eq!(read_flag(&[0, 1, 2], 2), Err(ByteError::InvalidData));
    assert_eq!(read_flag(&[0, 1, 2], 3), Err(ByteError::UnexpectedEof));
    let bytes: Vec<u8> = (0..40).collect();
    let (p, next) = read_payload(&bytes, 8).unwrap();
    assert_eq!((p.0[0], p.0[31], next), (8, 39, 40));
    assert_eq!(read_payload(&bytes, 9).err(), Some(ByteError::UnexpectedEof));
    assert_eq!(read_sized_bytes(&[9, 2, 7, 8, 9], 1), Ok((vec![7, 8], 4)));
    assert_eq!(read_sized_bytes(&[9, 0], 1), Ok((vec![], 2)));
    assert_eq!(read_sized_bytes(&[9, 3, 7, 8], 1), Err(ByteError::UnexpectedEof));
    assert_eq!(read_sized_bytes(&[9, 0xfd, 1, 0], 1), Err(ByteError::InvalidData));
}

#[test]
fn record_read_fails_at_the_first_part_that_cannot_be_read() {
    let mut bytes = Vec::new();
    sample().write(&mut bytes);
    assert_eq!(bytes.len(), 396);
    // every proper prefix ends inside some part
    for cut in [0usize, 23, 24, 30, 64, 65, 68, 70, 371, 379, 387, 395] {
        assert_eq!(Record::<G>::read(&bytes[..cut], 0).err(), Some(ByteError::UnexpectedEof));
    }
    let (_, end) = Record::<G>::read(&bytes, 0).unwrap();
    assert_eq!(end, 396);
    // bytes behind the record are not read
    let mut longer = vec![0xeeu8; 5];
    longer.extend_from_slice(&bytes);
    longer.push(0x77);
    let (rec, end) = Record::<G>::read(&longer, 5).unwrap();
    assert_eq!(end, 401);
    assert!(same(&rec, &sample()));
    // a flag that is neither 0 nor 1
    let mut bad = bytes.clone();
    bad[24] = 2;
    assert_eq!(Record::<G>::read(&bad, 0).err(), Some(ByteError::InvalidData));
    // a length that is not in its shortest form
    let mut bad = bytes.clone();
    bad[65] = 0xfd;
    bad[66] = 5;
    bad[67] = 0;
    assert_eq!(Record::<G>::read(&bad, 0).err(), Some(ByteError::InvalidData));
    // a length that takes more bytes than there are
    bad[67] = 2;
    assert_eq!(Record::<G>::read(&bad, 0).err(), Some(ByteError::UnexpectedEof));
    // a nonce that is no residue
    let mut bad = bytes.clone();
    bad[372..380].copy_from_slice(&10009u64.to_le_bytes());
    assert_eq!(Record::<G>::read(&bad, 0).err(), Some(ByteError::InvalidData));
    // a randomness that is no residue of the order
    let mut bad = bytes.clone();
    bad[388..396].copy_from_slice(&3391u64.to_le_bytes());
    assert_eq!(Record::<G>::read(&bad, 0).err(), Some(ByteError::InvalidData));
    // the same through the text
    let text = hex::encode(&bad);
    assert_eq!(Record::<G>::from_str(&text).err(), Some(RecordError::Bytes(ByteError::InvalidData)));
    assert_eq!(
        Record::<G>::from_str(&text[..100]).err(),
        Some(RecordError::Bytes(ByteError::UnexpectedEof))
    );
    assert_eq!(
        Record::<G>::from_str("0g").err(),
        Some(RecordError::Hex(HexError::InvalidHexCharacter { c: 'g', index: 1 }))
    );
}

#[test]
fn field_and_group_readers() {
    let bytes = 42u64.to_le_bytes().to_vec();
    assert_eq!(read_field::<Fp<10009>>(&bytes, 0), Ok((Fp::<10009>::from_u64(42), 8)));
    assert_eq!(read_field::<Fp<10009>>(&bytes, 1), Err(ByteError::UnexpectedEof));
    assert_eq!(read_field::<Fp<41>>(&bytes, 0), Err(ByteError::InvalidData));
    let g = G::prime_subgroup_generator();
    let mut bytes = vec![0u8];
    g.write(&mut bytes);
    let (back, end) = read_group::<G>(&bytes, 1).ok().unwrap();
    assert_eq!(end, 25);
    assert!(back.eq(&g));
    assert_eq!(read_group::<G>(&bytes, 2).err(), Some(ByteError::UnexpectedEof));
}
