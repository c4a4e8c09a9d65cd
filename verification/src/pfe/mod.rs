//! Batched threshold encryption from partial fractions.
//!
//! A batch fills all slots, whose number is a power of two. Decryption validates
//! the batch, combines the servers' shares into one point and opens every slot
//! with three pairings and two convolutions over the slots' roots of unity.
pub mod decryption;
pub mod dleq;
pub mod encryption;
pub mod error;
pub mod laws;
pub mod setup;

pub use decryption::{
    combine_shares, combine_shares_checked, open_batch, partial_decrypt, precompute_batch,
    validate_batch, verify_combined_share, verify_decryption_share, BatchPrecomputation,
    DecryptionShare, PartialFractionKernel, ValidatedBatch,
};
pub use encryption::{encrypt, encrypt_with_rng, Ciphertext};
pub use error::{Error, Result};
pub use setup::{
    keygen, keygen_with_rng, EncryptionKey, KeyMaterial, KeygenConfig, PublicDecryptionKey,
    ServerSecretKey,
};
