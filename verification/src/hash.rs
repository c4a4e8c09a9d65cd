//! SHA-256, and the scalars that are drawn from it.
use sha2::Digest;
use vstd::prelude::*;

use crate::algebra::residue::order;
use crate::bytes::{append, append_le, le_bytes, le_value, lemma_le_value_bound};
use crate::curve::{gt_compressed, Element, Fr, GtElement};

verus! {

/// The SHA-256 digest of a byte string.
pub uninterp spec fn sha256(data: Seq<u8>) -> Seq<u8>;

/// `Digest::digest` of `sha2::Sha256`: 32 bytes that the data determine.
#[verifier::external_body]
fn sha256_digest(data: &[u8]) -> (digest: [u8; 32])
    ensures
        digest@ == sha256(data@),
{
    sha2::Sha256::digest(data).into()
}

/// The SHA-256 digest of a byte string.
pub fn digest(data: &[u8]) -> (digest: [u8; 32])
    ensures
        digest@ == sha256(data@),
{
    sha256_digest(data)
}

/// The number that the digest of a transcript and a counter writes.
pub open spec fn candidate(transcript: Seq<u8>, counter: int) -> int {
    le_value(sha256(transcript + le_bytes(counter, 4)))
}

/// The first candidate, from `counter` on, that is a canonical scalar.
pub open spec fn challenge_from(transcript: Seq<u8>, counter: int) -> Option<int>
    decreases 0x1_0000_0000 - counter,
{
    if counter >= 0x1_0000_0000 {
        None
    } else if candidate(transcript, counter) < order() {
        Some(candidate(transcript, counter))
    } else {
        challenge_from(transcript, counter + 1)
    }
}

/// The scalar that a transcript gives by rejection sampling, without bias: the
/// first digest below the order, over the 32-bit counters. There is none where
/// every counter is rejected.
pub open spec fn challenge(transcript: Seq<u8>) -> Option<int> {
    challenge_from(transcript, 0)
}

/// A challenge is a canonical scalar.
pub proof fn lemma_challenge_range(transcript: Seq<u8>, counter: int)
    requires
        0 <= counter,
    ensures
        challenge_from(transcript, counter) matches Some(c) ==> 0 <= c < order(),
    decreases 0x1_0000_0000 - counter,
{
    if counter < 0x1_0000_0000 {
        lemma_le_value_bound(sha256(transcript + le_bytes(counter, 4)));
        lemma_challenge_range(transcript, counter + 1);
    }
}

/// The scalar that a transcript gives by rejection sampling.
pub fn hash_to_scalar(transcript: &Vec<u8>) -> (result: Option<Fr>)
    ensures
        result is Some <==> challenge(transcript@) is Some,
        result matches Some(scalar) ==> challenge(transcript@) == Some(scalar@),
{
    let mut counter: u64 = 0;
    while counter < 0x1_0000_0000
        invariant
            counter <= 0x1_0000_0000,
            challenge(transcript@) == challenge_from(transcript@, counter as int),
        decreases 0x1_0000_0000 - counter,
    {
        let mut data: Vec<u8> = Vec::new();
        append(&mut data, transcript.as_slice());
        append_le(&mut data, counter, 4);
        proof {
            assert(data@ =~= transcript@ + le_bytes(counter as int, 4));
        }
        let block = digest(data.as_slice());
        if let Some(scalar) = Fr::from_bytes_le(&block) {
            return Some(scalar);
        }
        counter = counter + 1;
    }
    None
}

/// The encoding of a target-group element: one zero byte for the identity, else
/// a one and the compressed element.
pub open spec fn gt_encoding(log: int) -> Seq<u8> {
    if log == 0 {
        seq![0u8]
    } else {
        seq![1u8] + gt_compressed(log)
    }
}

/// Appends the encoding of a target-group element.
pub fn append_gt(element: &GtElement, output: &mut Vec<u8>)
    ensures
        final(output)@ == old(output)@ + gt_encoding(element@),
{
    let ghost start = output@;
    if *element == GtElement::zero() {
        output.push(0);
        assert(output@ =~= start + gt_encoding(element@));
    } else {
        output.push(1);
        let encoding = element.to_compressed();
        append(output, encoding.as_slice());
        assert(output@ =~= start + gt_encoding(element@));
    }
}

/// A challenge is read off the digest of its transcript with a counter behind it: the first,
/// over the 32-bit counters, that is below the order. There is none only where no digest is.
pub proof fn law_challenge_is_a_digest(transcript: Seq<u8>)
    ensures
        match challenge(transcript) {
            Some(c) => exists|counter: int|
                {
                    &&& 0 <= counter < 0x1_0000_0000
                    &&& c == le_value(sha256(transcript + #[trigger] le_bytes(counter, 4)))
                    &&& 0 <= c < order()
                    &&& forall|earlier: int|
                        0 <= earlier < counter ==> le_value(
                            sha256(transcript + #[trigger] le_bytes(earlier, 4)),
                        ) >= order()
                },
            None => forall|counter: int|
                0 <= counter < 0x1_0000_0000 ==> le_value(
                    sha256(transcript + #[trigger] le_bytes(counter, 4)),
                ) >= order(),
        },
{
    lemma_challenge_search(transcript, 0);
}

proof fn lemma_challenge_search(transcript: Seq<u8>, from: int)
    requires
        0 <= from <= 0x1_0000_0000,
        forall|earlier: int|
            0 <= earlier < from ==> le_value(
                sha256(transcript + #[trigger] le_bytes(earlier, 4)),
            ) >= order(),
    ensures
        match challenge_from(transcript, from) {
            Some(c) => exists|counter: int|
                {
                    &&& 0 <= counter < 0x1_0000_0000
                    &&& c == le_value(sha256(transcript + #[trigger] le_bytes(counter, 4)))
                    &&& 0 <= c < order()
                    &&& forall|earlier: int|
                        0 <= earlier < counter ==> le_value(
                            sha256(transcript + #[trigger] le_bytes(earlier, 4)),
                        ) >= order()
                },
            None => forall|counter: int|
                0 <= counter < 0x1_0000_0000 ==> le_value(
                    sha256(transcript + #[trigger] le_bytes(counter, 4)),
                ) >= order(),
        },
    decreases 0x1_0000_0000 - from,
{
    if from < 0x1_0000_0000 {
        let value = candidate(transcript, from);
        lemma_le_value_bound(sha256(transcript + le_bytes(from, 4)));
        assert(value == le_value(sha256(transcript + le_bytes(from, 4))));
        if value >= order() {
            assert forall|earlier: int| 0 <= earlier < from + 1 implies le_value(
                sha256(transcript + #[trigger] le_bytes(earlier, 4)),
            ) >= order() by {}
            lemma_challenge_search(transcript, from + 1);
        }
    }
}

} // verus!
