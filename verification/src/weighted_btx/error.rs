//! What can go wrong.
use vstd::prelude::*;
use vstd::string::StringExecFns;

use crate::text::{decimal, decimal_list, push_list, push_number};

verus! {

#[derive(Clone, Debug, PartialEq, Eq)]
pub enum Error {
    BatchIsEmpty,
    BatchTooLarge { batch_size: usize, max_batch_size: usize },
    InvalidBatchSize(usize),
    EmptyCommittee,
    InvalidPartyWeight { party_index: usize, weight: usize },
    TotalWeightOverflow,
    ParameterSizeOverflow,
    InvalidEvaluationDomain { total_weight: usize },
    InvalidInterpolationSet,
    InvalidCommittee { party_count: usize, total_weight: usize, threshold_weight: usize },
    InvalidPartyIndex(usize),
    InvalidPower { power: usize, max_power: usize },
    /// The rejected parties are those whose shares were rejected before the
    /// weight was found to fall short.
    InsufficientWeight { accepted: usize, required: usize, rejected_parties: Vec<usize> },
    WeightOverflow,
    TooManyShares { supplied: usize, party_count: usize },
    DuplicatePartyIndex(usize),
    MismatchedBatchSize { expected: usize, actual: usize },
    MismatchedBatchDigest,
    MismatchedSetup,
    MismatchedCommittee,
    /// Rejection sampling ran out of candidates.
    SamplingFailed,
}

pub type Result<T> = core::result::Result<T, Error>;

impl Error {
    /// The message of an error.
    pub open spec fn text(self) -> Seq<char> {
        match self {
            Error::BatchIsEmpty => "the ciphertext batch is empty"@,
            Error::BatchTooLarge { batch_size, max_batch_size } => "batch size "@
                + decimal(batch_size as nat) + " exceeds the configured maximum "@
                    + decimal(max_batch_size as nat),
            Error::InvalidBatchSize(size) => "batch size "@ + decimal(size as nat)
                + " cannot be represented by the FFT domain"@,
            Error::EmptyCommittee => "the weighted committee is empty"@,
            Error::InvalidPartyWeight { party_index, weight } => "party "@
                + decimal(party_index as nat) + " has invalid weight "@ + decimal(weight as nat)
                    + "; every party must have positive weight"@,
            Error::TotalWeightOverflow => "the sum of the party weights overflows usize"@,
            Error::ParameterSizeOverflow =>
                "the configured public-key dimensions overflow addressable memory"@,
            Error::InvalidEvaluationDomain { total_weight } => "total weight "@
                + decimal(total_weight as nat)
                    + " cannot be represented by a radix-2 scalar-field domain"@,
            Error::InvalidInterpolationSet =>
                "the interpolation points must be nonempty and distinct"@,
            Error::InvalidCommittee { party_count, total_weight, threshold_weight } =>
                "invalid weighted committee of "@ + decimal(party_count as nat)
                    + " parties: threshold weight "@ + decimal(threshold_weight as nat)
                    + " must be smaller than total weight "@ + decimal(total_weight as nat),
            Error::InvalidPartyIndex(index) => "invalid party index "@ + decimal(index as nat),
            Error::InvalidPower { power, max_power } => "invalid key power "@
                + decimal(power as nat) + "; the supported positive magnitude is 1 through "@
                    + decimal(max_power as nat),
            Error::InsufficientWeight { accepted, required, rejected_parties } => {
                let start = "insufficient decryption weight: accepted "@ + decimal(accepted as nat)
                    + ", require "@ + decimal(required as nat);
                if rejected_parties@.len() > 0 {
                    start + "; rejected parties "@ + decimal_list(rejected_parties@)
                } else {
                    start
                }
            },
            Error::WeightOverflow => "accepted decryption weight overflows usize"@,
            Error::TooManyShares { supplied, party_count } =>
                "too many decryption shares: supplied "@ + decimal(supplied as nat) + " for "@
                    + decimal(party_count as nat) + " parties"@,
            Error::DuplicatePartyIndex(index) => "duplicate party index "@ + decimal(index as nat),
            Error::MismatchedBatchSize { expected, actual } =>
                "mismatched batch size: expected "@ + decimal(expected as nat) + ", got "@
                    + decimal(actual as nat),
            Error::MismatchedBatchDigest =>
                "decryption material belongs to a different ciphertext batch"@,
            Error::MismatchedSetup => "cryptographic material belongs to a different setup"@,
            Error::MismatchedCommittee =>
                "decryption material belongs to a different accepted committee"@,
            Error::SamplingFailed => "rejection sampling found no candidate"@,
        }
    }

    /// The message of an error, for people.
    pub fn message(&self) -> (message: String)
        ensures
            message@ == self.text(),
    {
        match self {
            Error::BatchIsEmpty => String::from_str("the ciphertext batch is empty"),
            Error::BatchTooLarge { batch_size, max_batch_size } => {
                let mut text = String::from_str("batch size ");
                push_number(&mut text, *batch_size);
                text.append(" exceeds the configured maximum ");
                push_number(&mut text, *max_batch_size);
                text
            },
            Error::InvalidBatchSize(size) => {
                let mut text = String::from_str("batch size ");
                push_number(&mut text, *size);
                text.append(" cannot be represented by the FFT domain");
                text
            },
            Error::EmptyCommittee => String::from_str("the weighted committee is empty"),
            Error::InvalidPartyWeight { party_index, weight } => {
                let mut text = String::from_str("party ");
                push_number(&mut text, *party_index);
                text.append(" has invalid weight ");
                push_number(&mut text, *weight);
                text.append("; every party must have positive weight");
                text
            },
            Error::TotalWeightOverflow => String::from_str(
                "the sum of the party weights overflows usize",
            ),
            Error::ParameterSizeOverflow => String::from_str(
                "the configured public-key dimensions overflow addressable memory",
            ),
            Error::InvalidEvaluationDomain { total_weight } => {
                let mut text = String::from_str("total weight ");
                push_number(&mut text, *total_weight);
                text.append(" cannot be represented by a radix-2 scalar-field domain");
                text
            },
            Error::InvalidInterpolationSet => String::from_str(
                "the interpolation points must be nonempty and distinct",
            ),
            Error::InvalidCommittee { party_count, total_weight, threshold_weight } => {
                let mut text = String::from_str("invalid weighted committee of ");
                push_number(&mut text, *party_count);
                text.append(" parties: threshold weight ");
                push_number(&mut text, *threshold_weight);
                text.append(" must be smaller than total weight ");
                push_number(&mut text, *total_weight);
                text
            },
            Error::InvalidPartyIndex(index) => {
                let mut text = String::from_str("invalid party index ");
                push_number(&mut text, *index);
                text
            },
            Error::InvalidPower { power, max_power } => {
                let mut text = String::from_str("invalid key power ");
                push_number(&mut text, *power);
                text.append("; the supported positive magnitude is 1 through ");
                push_number(&mut text, *max_power);
                text
            },
            Error::InsufficientWeight { accepted, required, rejected_parties } => {
                let mut text = String::from_str("insufficient decryption weight: accepted ");
                push_number(&mut text, *accepted);
                text.append(", require ");
                push_number(&mut text, *required);
                if rejected_parties.len() > 0 {
                    text.append("; rejected parties ");
                    push_list(&mut text, rejected_parties);
                }
                text
            },
            Error::WeightOverflow => String::from_str("accepted decryption weight overflows usize"),
            Error::TooManyShares { supplied, party_count } => {
                let mut text = String::from_str("too many decryption shares: supplied ");
                push_number(&mut text, *supplied);
                text.append(" for ");
                push_number(&mut text, *party_count);
                text.append(" parties");
                text
            },
            Error::DuplicatePartyIndex(index) => {
                let mut text = String::from_str("duplicate party index ");
                push_number(&mut text, *index);
                text
            },
            Error::MismatchedBatchSize { expected, actual } => {
                let mut text = String::from_str("mismatched batch size: expected ");
                push_number(&mut text, *expected);
                text.append(", got ");
                push_number(&mut text, *actual);
                text
            },
            Error::MismatchedBatchDigest => String::from_str(
                "decryption material belongs to a different ciphertext batch",
            ),
            Error::MismatchedSetup => String::from_str(
                "cryptographic material belongs to a different setup",
            ),
            Error::MismatchedCommittee => String::from_str(
                "decryption material belongs to a different accepted committee",
            ),
            Error::SamplingFailed => String::from_str("rejection sampling found no candidate"),
        }
    }
}

} // verus!
