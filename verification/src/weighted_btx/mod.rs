//! Weighted batched threshold encryption: its errors and its ciphertext proofs.
pub mod error;
pub mod schnorr;

pub use error::{Error, Result};
pub use schnorr::SchnorrProof;
