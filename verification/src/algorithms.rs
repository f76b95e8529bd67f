//! The Pedersen hash and commitment.
pub mod commitment;
pub mod pedersen;
pub mod pedersen_laws;
pub mod pedersen_parameters;
