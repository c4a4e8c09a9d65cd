//! Index-free batched threshold encryption.
//!
//! A ciphertext carries no batch slot: its place in an ordered batch is chosen
//! when the batch is put together. Decryption has four phases: the precomputation
//! of a batch, partial decryption, the combination of shares, and opening.
pub mod decryption;
pub mod encryption;
pub mod error;
pub mod laws;
pub mod schnorr;
pub mod setup;

pub use decryption::{
    combine_shares, combine_shares_checked, open_batch, partial_decrypt, precompute_batch,
    validate_batch, verify_combined_share, verify_decryption_share, BatchPrecomputation,
    DecryptionShare, MiddleProductKernel, ValidatedBatch,
};
pub use encryption::{encrypt, encrypt_with_rng, Ciphertext};
pub use error::{Error, Result};
pub use setup::{
    keygen, keygen_with_rng, EncryptionKey, KeyMaterial, KeygenConfig, PublicDecryptionKey,
    ServerSecretKey,
};
