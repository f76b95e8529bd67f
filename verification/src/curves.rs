//! Elliptic curves in short Weierstrass form, in Jacobian and in projective
//! coordinates.
pub mod bls12_377;
pub mod bw6_761;
pub mod group;
pub mod jacobian_laws;
pub mod lawful;
pub mod parameters;
pub mod projective_laws;
pub mod short_weierstrass_jacobian;
pub mod short_weierstrass_projective;
pub mod small;
