//! The errors of the transaction layer.
use crate::bytes::ByteError;
use vstd::prelude::*;

verus! {

/// Why an operation on transactions failed.
#[derive(Clone, Copy, Debug, PartialEq, Eq, Structural)]
pub enum TransactionError {
    /// The identifier of a transaction could not be computed.
    InvalidTransactionId,
    /// A transaction could not be written to or read from bytes.
    Bytes(ByteError),
}

} // verus!
