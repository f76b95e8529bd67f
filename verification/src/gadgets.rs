//! Circuits: the constraint system and the variables that are built on it.
pub mod additive;
pub mod boolean;
pub mod div;
pub mod fp;
pub mod group;
pub mod pedersen;
pub mod r1cs;
pub mod rca;
pub mod uint8;
