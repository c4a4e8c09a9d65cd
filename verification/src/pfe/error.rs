//! What can go wrong.
use vstd::prelude::*;
use vstd::string::StringExecFns;

use crate::text::{decimal, push_number};

verus! {

#[derive(Clone, Copy, Debug, PartialEq, Eq, Structural)]
pub enum Error {
    BatchIsEmpty,
    InvalidBatchSize(usize),
    InvalidCommittee { server_count: usize, threshold: usize },
    InvalidProof,
    InvalidServerIndex(usize),
    InvalidShare,
    InsufficientShares { supplied: usize, required: usize },
    DuplicateServerIndex(usize),
    MismatchedBatchSize { expected: usize, actual: usize },
    /// Rejection sampling ran out of candidates.
    SamplingFailed,
}

pub type Result<T> = core::result::Result<T, Error>;

impl Error {
    /// The message of an error.
    pub open spec fn text(self) -> Seq<char> {
        match self {
            Error::BatchIsEmpty => "the ciphertext batch is empty"@,
            Error::InvalidBatchSize(size) => "PFE batch size "@ + decimal(size as nat)
                + " must be a supported power of two"@,
            Error::InvalidCommittee { server_count, threshold } =>
                "invalid committee: corruption threshold "@ + decimal(threshold as nat)
                + " must be smaller than server count "@ + decimal(server_count as nat),
            Error::InvalidProof => "a ciphertext proof is invalid"@,
            Error::InvalidServerIndex(index) => "invalid server index "@ + decimal(index as nat),
            Error::InvalidShare => "decryption share verification failed"@,
            Error::InsufficientShares { supplied, required } =>
                "insufficient decryption shares: supplied "@ + decimal(supplied as nat)
                + ", require "@ + decimal(required as nat),
            Error::DuplicateServerIndex(index) => "duplicate server index "@
                + decimal(index as nat),
            Error::MismatchedBatchSize { expected, actual } =>
                "mismatched batch size: expected "@ + decimal(expected as nat) + ", got "@
                + decimal(actual as nat),
            Error::SamplingFailed => "rejection sampling found no candidate"@,
        }
    }

    /// The message of an error, for people.
    pub fn message(&self) -> (message: String)
        ensures
            message@ == self.text(),
    {
        match self {
            Error::BatchIsEmpty => String::from_str("the ciphertext batch is empty"),
            Error::InvalidBatchSize(size) => {
                let mut text = String::from_str("PFE batch size ");
                push_number(&mut text, *size);
                text.append(" must be a supported power of two");
                text
            },
            Error::InvalidCommittee { server_count, threshold } => {
                let mut text = String::from_str("invalid committee: corruption threshold ");
                push_number(&mut text, *threshold);
                text.append(" must be smaller than server count ");
                push_number(&mut text, *server_count);
                text
            },
            Error::InvalidProof => String::from_str("a ciphertext proof is invalid"),
            Error::InvalidServerIndex(index) => {
                let mut text = String::from_str("invalid server index ");
                push_number(&mut text, *index);
                text
            },
            Error::InvalidShare => String::from_str("decryption share verification failed"),
            Error::InsufficientShares { supplied, required } => {
                let mut text = String::from_str("insufficient decryption shares: supplied ");
                push_number(&mut text, *supplied);
                text.append(", require ");
                push_number(&mut text, *required);
                text
            },
            Error::DuplicateServerIndex(index) => {
                let mut text = String::from_str("duplicate server index ");
                push_number(&mut text, *index);
                text
            },
            Error::MismatchedBatchSize { expected, actual } => {
                let mut text = String::from_str("mismatched batch size: expected ");
                push_number(&mut text, *expected);
                text.append(", got ");
                push_number(&mut text, *actual);
                text
            },
            Error::SamplingFailed => String::from_str("rejection sampling found no candidate"),
        }
    }
}

} // verus!
