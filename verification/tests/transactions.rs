use snarkvm_core::bytes::ByteError;
use snarkvm_core::dpc::errors::TransactionError;
use snarkvm_core::dpc::transactions::{has_duplicates, TransactionScheme, Transactions};
use snarkvm_core::dpc::variable_length_integer::{read_variable_length_integer, variable_length_integer};

#[derive(Clone, Debug, PartialEq, Eq)]
struct Tx {
    network: u8,
    serial_numbers: Vec<Vec<u8>>,
    commitments: Vec<Vec<u8>>,
    memo: Vec<u8>,
    broken_id: bool,
}

impl Tx {
    fn new(network: u8, sns: &[u8], cms: &[u8], memo: u8) -> Self {
        Tx {
            network,
            serial_numbers: sns.iter().map(|b| vec![*b, 7]).collect(),
            commitments: cms.iter().map(|b| vec![*b, 9, 9]).collect(),
            memo: vec![memo; 4],
            broken_id: false,
        }
    }
}

fn write_list(out: &mut Vec<u8>, list: &Vec<Vec<u8>>) {
    out.push(list.len() as u8);
    for item in list {
        out.push(item.len() as u8);
        out.extend_from_slice(item);
    }
}

fn read_list(bytes: &[u8], pos: &mut usize) -> Result<Vec<Vec<u8>>, ByteError> {
    let n = *bytes.get(*pos).ok_or(ByteError::UnexpectedEof)? as usize;
    *pos += 1;
    let mut list = Vec::new();
    for _ in 0..n {
        let len = *bytes.get(*pos).ok_or(ByteError::UnexpectedEof)? as usize;
        *pos += 1;
        if *pos + len > bytes.len() {
            return Err(ByteError::UnexpectedEof);
        }
        list.push(bytes[*pos..*pos + len].to_vec());
        *pos += len;
    }
    Ok(list)
}

impl TransactionScheme for Tx {
    fn transaction_id_spec(&self) -> Result<[u8; 32], TransactionError> {
        unreachable!()
    }

    fn network_id_spec(&self) -> u8 {
        unreachable!()
    }

    fn old_serial_numbers_spec(&self) -> vstd::seq::Seq<vstd::seq::Seq<u8>> {
        unreachable!()
    }

    fn new_commitments_spec(&self) -> vstd::seq::Seq<vstd::seq::Seq<u8>> {
        unreachable!()
    }

    fn memorandum_spec(&self) -> vstd::seq::Seq<u8> {
        unreachable!()
    }

    fn to_bytes_spec(&self) -> vstd::seq::Seq<u8> {
        unreachable!()
    }

    fn read_end_spec(_: vstd::seq::Seq<u8>, _: vstd::prelude::int) -> Result<vstd::prelude::int, ByteError> {
        unreachable!()
    }

    fn transaction_id(&self) -> Result<[u8; 32], TransactionError> {
        if self.broken_id {
            return Err(TransactionError::InvalidTransactionId);
        }
        let mut id = [0u8; 32];
        id[0] = self.network;
        id[1] = self.memo[0];
        id[2] = self.serial_numbers.len() as u8;
        Ok(id)
    }

    fn network_id(&self) -> u8 {
        self.network
    }

    fn old_serial_numbers(&self) -> Vec<Vec<u8>> {
        self.serial_numbers.clone()
    }

    fn new_commitments(&self) -> Vec<Vec<u8>> {
        self.commitments.clone()
    }

    fn memorandum(&self) -> Vec<u8> {
        self.memo.clone()
    }

    fn write(&self, out: &mut Vec<u8>) {
        out.push(self.network);
        write_list(out, &self.serial_numbers);
        write_list(out, &self.commitments);
        out.extend_from_slice(&self.memo);
    }

    fn read(bytes: &[u8], start: usize) -> Result<(Self, usize), ByteError> {
        let mut pos = start;
        let network = *bytes.get(pos).ok_or(ByteError::UnexpectedEof)?;
        if network > 100 {
            return Err(ByteError::InvalidData);
        }
        pos += 1;
        let serial_numbers = read_list(bytes, &mut pos)?;
        let commitments = read_list(bytes, &mut pos)?;
        if pos + 4 > bytes.len() {
            return Err(ByteError::UnexpectedEof);
        }
        let memo = bytes[pos..pos + 4].to_vec();
        Ok((Tx { network, serial_numbers, commitments, memo, broken_id: false }, pos + 4))
    }
}

#[test]
fn new_is_empty_and_push_appends() {
    let mut txs = Transactions::<Tx>::new();
    assert_eq!(txs.0.len(), 0);
    let a = Tx::new(1, &[1], &[2], 3);
    let b = Tx::new(1, &[4], &[5], 6);
    txs.push(a.clone());
    txs.push(b.clone());
    assert_eq!(txs.0, vec![a, b]);
}

#[test]
fn from_clones_in_order() {
    let a = Tx::new(1, &[1], &[2], 3);
    let b = Tx::new(1, &[4], &[5], 6);
    let txs = Transactions::from(&[a.clone(), b.clone()]);
    assert_eq!(txs.0, vec![a, b]);
    assert_eq!(Transactions::<Tx>::from(&[]).0.len(), 0);
}

#[test]
fn transaction_ids_in_order_or_first_error() {
    let a = Tx::new(1, &[1, 2], &[2], 3);
    let b = Tx::new(2, &[4], &[5], 6);
    let txs = Transactions::from(&[a.clone(), b.clone()]);
    let ids = txs.to_transaction_ids().unwrap();
    assert_eq!(ids.len(), 2);
    assert_eq!(&ids[0][..3], &[1, 3, 2]);
    assert_eq!(&ids[1][..3], &[2, 6, 1]);
    let mut broken = b.clone();
    broken.broken_id = true;
    let txs = Transactions::from(&[a, broken, b]);
    assert_eq!(txs.to_transaction_ids(), Err(TransactionError::InvalidTransactionId));
    assert_eq!(Transactions::<Tx>::new().to_transaction_ids(), Ok(vec![]));
}

#[test]
fn serialize_gives_the_bytes_of_each() {
    let a = Tx::new(1, &[1], &[2], 3);
    let b = Tx::new(2, &[], &[5, 6], 7);
    let txs = Transactions::from(&[a, b]);
    let bytes = txs.serialize().unwrap();
    assert_eq!(bytes[0], vec![1, 1, 2, 1, 7, 1, 3, 2, 9, 9, 3, 3, 3, 3]);
    assert_eq!(bytes[1], vec![2, 0, 2, 3, 5, 9, 9, 3, 6, 9, 9, 7, 7, 7, 7]);
}

#[test]
fn serialize_as_str_gives_lower_case_hex() {
    let a = Tx::new(171, &[1], &[2], 255);
    let txs = Transactions::from(&[a]);
    let text = txs.serialize_as_str().unwrap();
    assert_eq!(text, vec!["ab01020107010302090 9ffffffff".replace(' ', "")]);
    assert_eq!(Transactions::<Tx>::new().serialize_as_str().unwrap().len(), 0);
}

#[test]
fn conflicts_on_other_network() {
    let txs = Transactions::from(&[Tx::new(1, &[1], &[2], 3)]);
    assert!(txs.conflicts(&Tx::new(2, &[10], &[20], 30)));
    assert!(!txs.conflicts(&Tx::new(1, &[10], &[20], 30)));
}

#[test]
fn conflicts_on_duplicates_within_the_transaction() {
    let txs = Transactions::<Tx>::new();
    assert!(txs.conflicts(&Tx::new(1, &[5, 6, 5], &[20], 30)));
    assert!(txs.conflicts(&Tx::new(1, &[5], &[20, 21, 21], 30)));
    assert!(!txs.conflicts(&Tx::new(1, &[5, 6, 7], &[20, 21, 22], 30)));
}

#[test]
fn conflicts_on_shared_memo_serial_number_or_commitment() {
    let txs = Transactions::from(&[Tx::new(1, &[1, 2], &[3, 4], 5), Tx::new(1, &[6], &[7], 8)]);
    assert!(txs.conflicts(&Tx::new(1, &[10], &[20], 8)));
    assert!(txs.conflicts(&Tx::new(1, &[10, 2], &[20], 30)));
    assert!(txs.conflicts(&Tx::new(1, &[10], &[20, 7], 30)));
    assert!(!txs.conflicts(&Tx::new(1, &[10], &[20], 30)));
    // a serial number of one is no commitment of the other
    assert!(!txs.conflicts(&Tx::new(1, &[3], &[1], 30)));
}

#[test]
fn has_duplicates_finds_a_second_occurrence() {
    assert!(!has_duplicates(&vec![]));
    assert!(!has_duplicates(&vec![vec![1u8], vec![2u8], vec![1u8, 0]]));
    assert!(has_duplicates(&vec![vec![1u8], vec![2u8], vec![1u8]]));
    assert!(has_duplicates(&vec![vec![], vec![]]));
}

#[test]
fn transactions_bytes_round_trip() {
    let a = Tx::new(1, &[1], &[2], 3);
    let b = Tx::new(2, &[], &[5, 6], 7);
    let txs = Transactions::from(&[a.clone(), b.clone()]);
    let mut out = vec![0xEE];
    txs.write(&mut out);
    assert_eq!(out[1], 2);
    let (back, end) = Transactions::<Tx>::read(&out, 1).unwrap();
    assert_eq!(end, out.len());
    assert_eq!(back.0, vec![a, b]);
    // cut short
    assert_eq!(Transactions::<Tx>::read(&out[..out.len() - 1], 1).err(), Some(ByteError::UnexpectedEof));
    assert_eq!(Transactions::<Tx>::read(&out, out.len()).err(), Some(ByteError::UnexpectedEof));
    // the error of a transaction comes through
    let mut bad = out.clone();
    bad[2] = 200;
    assert_eq!(Transactions::<Tx>::read(&bad, 1).err(), Some(ByteError::InvalidData));
    // the empty list
    let mut out = Vec::new();
    Transactions::<Tx>::new().write(&mut out);
    assert_eq!(out, vec![0]);
    assert_eq!(Transactions::<Tx>::read(&out, 0).unwrap().1, 1);
}

#[test]
fn variable_length_integer_exact_encodings() {
    assert_eq!(variable_length_integer(0), vec![0]);
    assert_eq!(variable_length_integer(252), vec![252]);
    assert_eq!(variable_length_integer(253), vec![0xfd, 253, 0]);
    assert_eq!(variable_length_integer(65535), vec![0xfd, 255, 255]);
    assert_eq!(variable_length_integer(65536), vec![0xfe, 0, 0, 1, 0]);
    assert_eq!(variable_length_integer(4294967295), vec![0xfe, 255, 255, 255, 255]);
    assert_eq!(variable_length_integer(4294967296), vec![0xff, 0, 0, 0, 0, 1, 0, 0, 0]);
    assert_eq!(variable_length_integer(u64::MAX), vec![0xff; 9]);
}

#[test]
fn variable_length_integer_round_trip() {
    for v in [0u64, 1, 252, 253, 254, 65535, 65536, 70000, 4294967295, 4294967296, 1 << 40] {
        let mut bytes = vec![9u8, 9];
        bytes.extend(variable_length_integer(v));
        let end = bytes.len();
        bytes.push(3);
        assert_eq!(read_variable_length_integer(&bytes, 2), Ok((v as usize, end)));
    }
}

#[test]
fn variable_length_integer_rejects_longer_forms_and_short_input() {
    assert_eq!(read_variable_length_integer(&[], 0), Err(ByteError::UnexpectedEof));
    assert_eq!(read_variable_length_integer(&[1], 1), Err(ByteError::UnexpectedEof));
    assert_eq!(read_variable_length_integer(&[0xfd, 1], 0), Err(ByteError::UnexpectedEof));
    assert_eq!(read_variable_length_integer(&[0xfe, 1, 2, 3], 0), Err(ByteError::UnexpectedEof));
    assert_eq!(read_variable_length_integer(&[0xff, 1, 2, 3, 4, 5, 6, 7], 0), Err(ByteError::UnexpectedEof));
    assert_eq!(read_variable_length_integer(&[0xfd, 252, 0], 0), Err(ByteError::InvalidData));
    assert_eq!(read_variable_length_integer(&[0xfe, 255, 255, 0, 0], 0), Err(ByteError::InvalidData));
    assert_eq!(
        read_variable_length_integer(&[0xff, 255, 255, 255, 255, 0, 0, 0, 0], 0),
        Err(ByteError::InvalidData)
    );
}

#[test]
fn the_default_list_is_empty() {
    let txs = Transactions::<Tx>::default();
    assert_eq!(txs.0.len(), 0);
    let mut out = Vec::new();
    txs.write(&mut out);
    assert_eq!(out, vec![0u8]);
}
