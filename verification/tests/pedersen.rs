use rand::rngs::StdRng;
use rand::{Rng, SeedableRng};
use snarkvm_core::algorithms::commitment::{CommitmentError, PedersenCommitment, PedersenCommitmentParameters};
use snarkvm_core::algorithms::pedersen::{extend_mask, CRHError, PedersenCRH, PedersenCompressedCRH};
use snarkvm_core::algorithms::pedersen_parameters::{base, PedersenCRHParameters, PedersenSize};
use snarkvm_core::bytes::ByteError;
use snarkvm_core::curves::short_weierstrass_jacobian::GroupProjective;
use snarkvm_core::curves::small::SmallCurve;
use snarkvm_core::dpc::instantiated::{
    AccountWindow, Components, EncryptedRecordWindow, InnerSNARKVkHashWindow, LocalDataCRHWindow,
    LocalDataCommitmentWindow, ProgramVkHashWindow, RecordWindow, SnNonceWindow, TwoToOneWindow,
    NUM_INPUT_RECORDS, NUM_OUTPUT_RECORDS,
};
use snarkvm_core::fields::field::Field;
use snarkvm_core::fields::fp::Fp;

type P = SmallCurve<10009, 3391, 0, 3, 350, 1676, 3, 2261>;
type G = GroupProjective<P>;
type Fr = Fp<3391>;

#[derive(Clone, Debug, PartialEq, Eq)]
struct Size;

impl PedersenSize for Size {
    const NUM_WINDOWS: usize = 8;
    const WINDOW_SIZE: usize = 32;
}

#[derive(Clone, Debug, PartialEq, Eq)]
struct Odd;

impl PedersenSize for Odd {
    const NUM_WINDOWS: usize = 3;
    const WINDOW_SIZE: usize = 5;
}

fn generators(seed: u64, n: usize) -> Vec<G> {
    let mut rng = StdRng::seed_from_u64(seed);
    (0..n)
        .map(|_| G::prime_subgroup_generator().mul(&Fr::from_u64(1 + rng.gen::<u64>() % 3390)))
        .collect()
}

fn setup(seed: u64) -> PedersenCRHParameters<G, Size> {
    PedersenCRHParameters::<G, Size>::setup(&generators(seed, 8))
}

#[test]
fn window_sizes_of_the_ledger() {
    assert_eq!((AccountWindow::NUM_WINDOWS, AccountWindow::WINDOW_SIZE), (8, 192));
    assert_eq!((EncryptedRecordWindow::NUM_WINDOWS, EncryptedRecordWindow::WINDOW_SIZE), (48, 44));
    assert_eq!((InnerSNARKVkHashWindow::NUM_WINDOWS, InnerSNARKVkHashWindow::WINDOW_SIZE), (296, 63));
    assert_eq!((LocalDataCommitmentWindow::NUM_WINDOWS, LocalDataCommitmentWindow::WINDOW_SIZE), (8, 129));
    assert_eq!((LocalDataCRHWindow::NUM_WINDOWS, LocalDataCRHWindow::WINDOW_SIZE), (16, 32));
    assert_eq!((ProgramVkHashWindow::NUM_WINDOWS, ProgramVkHashWindow::WINDOW_SIZE), (144, 63));
    assert_eq!((RecordWindow::NUM_WINDOWS, RecordWindow::WINDOW_SIZE), (8, 233));
    assert_eq!((SnNonceWindow::NUM_WINDOWS, SnNonceWindow::WINDOW_SIZE), (32, 63));
    assert_eq!((TwoToOneWindow::NUM_WINDOWS, TwoToOneWindow::WINDOW_SIZE), (8, 32));
    assert_eq!((NUM_INPUT_RECORDS, NUM_OUTPUT_RECORDS), (2, 2));
    let _ = Components;
}

#[test]
fn rows_are_tables_of_doubles() {
    let gens = generators(1, 8);
    let params = PedersenCRHParameters::<G, Size>::setup(&gens);
    assert_eq!(params.bases.len(), 8);
    for (row, g) in params.bases.iter().zip(gens.iter()) {
        assert_eq!(row.len(), 32);
        assert!(row[0].eq(g));
        for j in 1..32 {
            assert!(row[j].eq(&row[j - 1].double()));
        }
    }
    let row = base::<G>(5, gens[0]);
    assert_eq!(row.len(), 5);
    assert!(row[4].eq(&gens[0].mul(&Fr::from_u64(16))));
    assert_eq!(base::<G>(0, gens[0]).len(), 0);
}

#[test]
fn setup_is_deterministic() {
    let mut a = Vec::new();
    setup(42).write(&mut a);
    let mut b = Vec::new();
    setup(42).write(&mut b);
    assert_eq!(a, b);
    let mut c = Vec::new();
    setup(43).write(&mut c);
    assert_ne!(a, c);
}

#[test]
fn hash_of_zero_bytes_is_the_identity() {
    let crh = PedersenCRH::from(setup(2));
    let out = crh.hash(&[0u8; 32]).unwrap();
    assert!(out.is_zero());
    assert!(crh.hash(&[]).unwrap().is_zero());
}

#[test]
fn hash_of_one_bit_is_the_first_base() {
    let crh = PedersenCRH::from(setup(3));
    let mut input = [0u8; 32];
    input[0] = 1;
    let out = crh.hash(&input).unwrap();
    assert!(out.eq(&crh.parameters.bases[0][0]));
    // bit 9 is bit 1 of byte 1; bit 32 is the first of the second window
    input[0] = 0;
    input[1] = 2;
    input[4] = 1;
    let out = crh.hash(&input).unwrap();
    assert!(out.eq(&crh.parameters.bases[0][9].add(&crh.parameters.bases[1][0])));
}

#[test]
fn hash_equals_naive_scalar_multiplication() {
    let gens = generators(4, 8);
    let crh = PedersenCRH::from(PedersenCRHParameters::<G, Size>::setup(&gens));
    let mut rng = StdRng::seed_from_u64(5);
    for _ in 0..10 {
        let input: Vec<u8> = (0..32).map(|_| rng.gen()).collect();
        let out = crh.hash(&input).unwrap();
        let mut naive = G::zero();
        for (i, g) in gens.iter().enumerate() {
            let s = u32::from_le_bytes([input[4 * i], input[4 * i + 1], input[4 * i + 2], input[4 * i + 3]]);
            naive = naive.add(&g.mul(&Fr::from_u64(s as u64)));
        }
        assert!(out.eq(&naive));
    }
}

#[test]
fn hash_is_deterministic_and_ignores_zero_padding() {
    let crh = PedersenCRH::from(setup(6));
    let input = vec![7u8, 200, 13];
    let a = crh.hash(&input).unwrap();
    let b = crh.hash(&input).unwrap();
    assert_eq!((a.x, a.y, a.z), (b.x, b.y, b.z));
    let mut padded = input.clone();
    for _ in 0..29 {
        padded.push(0);
        let c = crh.hash(&padded).unwrap();
        assert_eq!((a.x, a.y, a.z), (c.x, c.y, c.z));
    }
    let other = crh.hash(&[7u8, 200, 14]).unwrap();
    assert!(!a.eq(&other));
}

#[test]
fn hash_rejects_long_input_and_wrong_parameters() {
    let crh = PedersenCRH::from(setup(7));
    assert!(crh.hash(&[0u8; 32]).is_ok());
    assert_eq!(crh.hash(&[0u8; 33]).err(), Some(CRHError::IncorrectInputLength));
    let short = PedersenCRH::<G, Size>::from(PedersenCRHParameters::from(setup(7).bases[..7].to_vec()));
    assert_eq!(short.hash(&[1u8; 4]).err(), Some(CRHError::IncorrectParameterSize));
    assert_eq!(short.hash(&[0u8; 33]).err(), Some(CRHError::IncorrectInputLength));
}

#[test]
fn hash_with_windows_that_do_not_fill_bytes() {
    // 15 bits of windows: the input is padded to one byte, so that the
    // second window has three bits and the third none
    let gens = generators(8, 3);
    let crh = PedersenCRH::from(PedersenCRHParameters::<G, Odd>::setup(&gens));
    let out = crh.hash(&[0b1010_0101]).unwrap();
    let expected = gens[0].mul(&Fr::from_u64(0b00101)).add(&gens[1].mul(&Fr::from_u64(0b101)));
    assert!(out.eq(&expected));
    assert_eq!(crh.hash(&[1, 1]).err(), Some(CRHError::IncorrectInputLength));
}

#[test]
fn compressed_hash_is_the_affine_x_coordinate() {
    let params = setup(9);
    let crh = PedersenCRH::from(PedersenCRHParameters::<G, Size>::from(params.bases.clone()));
    let compressed = PedersenCompressedCRH::from(params);
    let input = [3u8, 1, 4, 1, 5];
    let x = compressed.hash(&input).unwrap();
    assert_eq!(x, crh.hash(&input).unwrap().into_affine().x);
    assert_eq!(compressed.hash(&[0u8; 40]).err(), Some(CRHError::IncorrectInputLength));
}

#[test]
fn parameters_bytes_round_trip() {
    let params = setup(10);
    let mut out = vec![1u8, 2, 3];
    params.write(&mut out);
    assert_eq!(out.len(), 3 + 4 + 8 * (4 + 32 * 24));
    assert_eq!(&out[3..7], &[8, 0, 0, 0]);
    assert_eq!(&out[7..11], &[32, 0, 0, 0]);
    let (back, end) = PedersenCRHParameters::<G, Size>::read(&out, 3).unwrap();
    assert_eq!(end, out.len());
    assert_eq!(back.bases.len(), 8);
    for (a, b) in back.bases.iter().zip(params.bases.iter()) {
        assert_eq!(a.len(), b.len());
        for (p, q) in a.iter().zip(b.iter()) {
            assert_eq!((p.x, p.y, p.z), (q.x, q.y, q.z));
        }
    }
    assert_eq!(
        PedersenCRHParameters::<G, Size>::read(&out[..out.len() - 1], 3).err(),
        Some(ByteError::UnexpectedEof)
    );
    assert_eq!(PedersenCRHParameters::<G, Size>::read(&out[..5], 3).err(), Some(ByteError::UnexpectedEof));
    // a coordinate that is no field element
    let mut bad = out.clone();
    for b in bad[11..19].iter_mut() {
        *b = 255;
    }
    assert_eq!(PedersenCRHParameters::<G, Size>::read(&bad, 3).err(), Some(ByteError::InvalidData));
    // no rows at all
    let (empty, end) = PedersenCRHParameters::<G, Size>::read(&[0, 0, 0, 0], 0).unwrap();
    assert_eq!((empty.bases.len(), end), (0, 4));
}

#[test]
fn commitment_adds_the_randomness_row() {
    let gens = generators(11, 8);
    let h = generators(12, 1)[0];
    let params = PedersenCommitmentParameters::<G, Size>::setup(&gens, h);
    assert_eq!(params.random_base.len(), 32);
    assert!(params.random_base[0].eq(&h));
    let commitment = PedersenCommitment { parameters: params };
    let input = [9u8, 8, 7];
    let hash = commitment.parameters.crh.hash(&input).unwrap();
    for r in [0u64, 1, 2, 3, 1000, 3390] {
        let out = commitment.commit(&input, &Fr::from_u64(r)).unwrap();
        assert!(out.eq(&hash.add(&h.mul(&Fr::from_u64(r)))));
    }
    assert_eq!(
        commitment.commit(&[0u8; 33], &Fr::from_u64(1)).err(),
        Some(CommitmentError::CRHError(CRHError::IncorrectInputLength))
    );
    assert_eq!(
        commitment.commit(&[0u8; 257], &Fr::from_u64(1)).err(),
        Some(CommitmentError::IncorrectInputLength)
    );
}

#[test]
fn commitment_parameters_bytes_round_trip() {
    let params = PedersenCommitmentParameters::<G, Size>::setup(&generators(13, 8), generators(14, 1)[0]);
    let mut out = Vec::new();
    params.write(&mut out);
    assert_eq!(out.len(), 2 * (4 + 8 * (4 + 32 * 24)) + 4 + 32 * 24);
    let (back, end) = PedersenCommitmentParameters::<G, Size>::read(&out, 0).unwrap();
    assert_eq!(end, out.len());
    let mut again = Vec::new();
    back.write(&mut again);
    assert_eq!(out, again);
    assert_eq!(
        PedersenCommitmentParameters::<G, Size>::read(&out[..out.len() - 3], 0).err(),
        Some(ByteError::UnexpectedEof)
    );
}

#[test]
fn extended_mask_doubles_every_bit() {
    assert_eq!(extend_mask(&[]), Vec::<u8>::new());
    // 0 => 01, 1 => 10, lowest bit first: 0b0000_0000 gives 0b1010_1010 twice
    assert_eq!(extend_mask(&[0]), vec![0b1010_1010, 0b1010_1010]);
    assert_eq!(extend_mask(&[255]), vec![0b0101_0101, 0b0101_0101]);
    assert_eq!(extend_mask(&[0b0000_0001]), vec![0b1010_1001, 0b1010_1010]);
    assert_eq!(extend_mask(&[0b1000_0000, 3]), vec![0b1010_1010, 0b0110_1010, 0b1010_0101, 0b1010_1010]);
}

#[test]
fn masked_hash_equals_the_hash() {
    let crh = PedersenCRH::from(setup(15));
    let mask_parameters = setup(16);
    let mut rng = StdRng::seed_from_u64(17);
    for len in [0usize, 1, 2, 8, 16] {
        let mask: Vec<u8> = (0..len).map(|_| rng.gen()).collect();
        let input: Vec<u8> = (0..2 * len).map(|_| rng.gen()).collect();
        let masked = crh.hash_masked(&input, &mask_parameters, &mask).unwrap();
        let plain = crh.hash(&input).unwrap();
        assert!(masked.eq(&plain), "mask of {} bytes", len);
    }
}

#[test]
fn masked_hash_rejects_lengths_that_do_not_match() {
    let crh = PedersenCRH::from(setup(18));
    let mask_parameters = setup(19);
    assert_eq!(crh.hash_masked(&[1, 2, 3], &mask_parameters, &[1]).err(), Some(CRHError::IncorrectInputLength));
    assert_eq!(crh.hash_masked(&[1], &mask_parameters, &[1]).err(), Some(CRHError::IncorrectInputLength));
    assert_eq!(
        crh.hash_masked(&[0u8; 34], &mask_parameters, &[0u8; 17]).err(),
        Some(CRHError::IncorrectInputLength)
    );
    assert!(crh.hash_masked(&[0u8; 32], &mask_parameters, &[0u8; 16]).is_ok());
}
