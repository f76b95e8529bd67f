//! The ledger's transactions and records, which consume the hashes and
//! commitments.
pub mod errors;
pub mod instantiated;
pub mod record;
pub mod transactions;
pub mod variable_length_integer;
