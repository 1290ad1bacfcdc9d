//! Block ciphers of the MiMC family over the binary fields GF(2^n), with the
//! field arithmetic they are built from, verified with Verus.

pub mod baseline;
pub mod cipher;
pub mod codec;
pub mod element_laws;
pub mod error;
pub mod experiments;
pub mod field;
pub mod field_laws;
pub mod mimc;
pub mod mimc_5;
pub mod mimc_general;
pub mod number;
pub mod polynomial;
pub mod random;
