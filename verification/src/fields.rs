//! Finite fields: the capability set that curves are written against,
//! prime fields whose modulus fits one 64-bit limb or takes several, and
//! quadratic extensions.
pub mod arith;
pub mod bigint;
pub mod closure;
pub mod fermat;
pub mod field;
pub mod fp;
pub mod fp2;
pub mod fp_wide;
pub mod laws;
pub mod limbs;
pub mod pack;
pub mod pow;
pub mod roots;
pub mod tonelli;
