//! The Fiat-Shamir transform over an algebraic sponge, natively and in a
//! circuit.
pub mod duplex;
pub mod fiat_shamir;
pub mod fiat_shamir_constraints;
pub mod nonnative;
pub mod params;
pub mod poseidon;
pub mod sponge;
