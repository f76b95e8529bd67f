//! The window sizes of the Pedersen hashes and commitments of the ledger.
use crate::algorithms::pedersen_parameters::PedersenSize;
use vstd::prelude::*;

verus! {

/// The number of records that a transaction consumes.
pub const NUM_INPUT_RECORDS: usize = 2;

/// The number of records that a transaction creates.
pub const NUM_OUTPUT_RECORDS: usize = 2;

#[derive(Clone, Copy, Debug, PartialEq, Eq, Hash)]
pub struct AccountWindow;

impl PedersenSize for AccountWindow {
    const NUM_WINDOWS: usize = 8;

    const WINDOW_SIZE: usize = 192;
}

#[derive(Clone, Copy, Debug, PartialEq, Eq, Hash)]
pub struct EncryptedRecordWindow;

impl PedersenSize for EncryptedRecordWindow {
    const NUM_WINDOWS: usize = 48;

    const WINDOW_SIZE: usize = 44;
}

#[derive(Clone, Copy, Debug, PartialEq, Eq, Hash)]
pub struct InnerSNARKVkHashWindow;

impl PedersenSize for InnerSNARKVkHashWindow {
    const NUM_WINDOWS: usize = 296;

    const WINDOW_SIZE: usize = 63;
}

#[derive(Clone, Copy, Debug, PartialEq, Eq, Hash)]
pub struct LocalDataCommitmentWindow;

impl PedersenSize for LocalDataCommitmentWindow {
    const NUM_WINDOWS: usize = 8;

    const WINDOW_SIZE: usize = 129;
}

#[derive(Clone, Copy, Debug, PartialEq, Eq, Hash)]
pub struct LocalDataCRHWindow;

impl PedersenSize for LocalDataCRHWindow {
    const NUM_WINDOWS: usize = 16;

    const WINDOW_SIZE: usize = 32;
}

#[derive(Clone, Copy, Debug, PartialEq, Eq, Hash)]
pub struct ProgramVkHashWindow;

impl PedersenSize for ProgramVkHashWindow {
    const NUM_WINDOWS: usize = 144;

    const WINDOW_SIZE: usize = 63;
}

#[derive(Clone, Copy, Debug, PartialEq, Eq, Hash)]
pub struct RecordWindow;

impl PedersenSize for RecordWindow {
    const NUM_WINDOWS: usize = 8;

    const WINDOW_SIZE: usize = 233;
}

#[derive(Clone, Copy, Debug, PartialEq, Eq, Hash)]
pub struct SnNonceWindow;

impl PedersenSize for SnNonceWindow {
    const NUM_WINDOWS: usize = 32;

    const WINDOW_SIZE: usize = 63;
}

#[derive(Clone, Copy, Debug, PartialEq, Eq, Hash)]
pub struct TwoToOneWindow;

impl PedersenSize for TwoToOneWindow {
    const NUM_WINDOWS: usize = 8;

    const WINDOW_SIZE: usize = 32;
}

/// The component set of the ledger.
#[derive(Clone, Copy, Debug, PartialEq, Eq, Hash)]
pub struct Components;

} // verus!
