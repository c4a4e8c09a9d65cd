//! Weighted batch threshold encryption with indices.
//!
//! A ciphertext chooses its index when it is made. Weighted virtual shares keep
//! the response of a party to one point of the first source group, and the cross
//! terms are computed directly or by a middle product, whichever is cheaper.
pub mod decryption;
pub mod dleq;
pub mod encryption;
pub mod error;
pub mod laws;
pub mod setup;

pub use decryption::{
    accept_decryption_shares, decrypt, open_batch, partial_decrypt, precompute_batch,
    prepare_decryption, validate_batch, verify_decryption_share, AcceptedDecryptionShares,
    BatchPrecomputation, DecryptionPrecomputation, DecryptionShare, IndexedMiddleProductKernel,
    ValidatedBatch,
};
pub use encryption::{encrypt, encrypt_with_rng, Ciphertext};
pub use error::{Error, Result};
pub use setup::{
    keygen, keygen_with_rng, setup, setup_with_rng, KeyMaterial, KeygenConfig, MasterPublicKey,
    PartySecretKey, PublicParameters,
};
