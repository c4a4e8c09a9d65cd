//! Weighted batched threshold encryption with the source groups exchanged.
//!
//! The points of a secret sharing are spread over the parties by weight, while the
//! share of a party for a whole batch stays one element of the second source
//! group. Validation, partial decryption, acceptance of shares, preparation and
//! opening are separate phases.
pub mod decryption;
pub mod encryption;
pub mod laws;
pub mod schnorr;
pub mod setup;

pub use crate::weighted_btx::error::{Error, Result};
pub use decryption::{
    accept_decryption_shares, decrypt, open_batch, partial_decrypt, precompute_batch,
    prepare_decryption, validate_batch, verify_decryption_share, AcceptedDecryptionShares,
    BatchPrecomputation, DecryptionPrecomputation, DecryptionShare, ValidatedBatch,
};
pub use encryption::{encrypt, encrypt_with_rng, Ciphertext};
pub use setup::{
    keygen, keygen_with_rng, EncryptionKey, KeyMaterial, KeygenConfig, PartySecretKey,
    PublicDecryptionKey,
};
