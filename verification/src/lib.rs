//! Arithmetic on scalars modulo the order of the curve25519 base point,
//! `l = 2^252 + 27742317777372353535851937790883648493`.

pub mod digits;
pub mod laws;
pub mod limbs;
pub mod modular;
pub mod naf;
pub mod narrow;
pub mod scalar;
