//! Batched threshold encryption over arkworks.
//!
//! Ciphertexts take their slots from the order of a batch. A batch is decrypted slot by slot
//! or, with fewer pairings, by transforms; on top of it, `fo` encrypts byte strings in such a
//! way that a helper's decryption can be checked without pairings.
pub mod ark;
pub mod crs;
pub mod decryption;
pub mod encryption;
pub mod fo;
pub mod keys;
pub mod laws;
pub mod msm;
pub mod transcript;

pub use keys::{
    Ciphertext, DecryptionKey, EncryptionKey, PartialDecryption, SchnorrProof, SecretKey,
};
