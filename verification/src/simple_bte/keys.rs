//! Keys, ciphertexts and the challenge of their proofs.
use vstd::prelude::*;
use vstd::string::{is_ascii_spec_bytes, StringSliceAdditionalSpecFns};

use crate::algebra::residue::{cong, lemma_reduce, order};
use crate::bytes::le_value;
use crate::fft::is_domain_size;
use crate::simple_bte::ark::{ark_g1_bytes, ark_gt_bytes, ArkDomain, ArkG1, ArkG2, ArkGt, ArkScalar};
use crate::simple_bte::transcript::{transcript_output, ChallengeTranscript};

verus! {

/// Published for anyone to encrypt.
#[derive(Clone, Copy, Debug)]
pub struct EncryptionKey {
    /// The power `batch_size + 1` of the secret, in the target group.
    pub e: ArkGt,
}

/// Public parameters for verification, combining and decryption.
#[derive(Clone, Debug)]
pub struct DecryptionKey {
    pub batch_size: usize,
    pub num_parties: usize,
    pub threshold: usize,
    /// The powers `0..=2 * batch_size` of the secret; the power `batch_size + 1` is the
    /// identity.
    pub powers_of_h_affine: Vec<ArkG2>,
    /// For every party, its shares in the second source group.
    pub verification_keys: Vec<Vec<ArkG2>>,
    /// The power of two that is next to twice the batch size.
    pub fft_size: usize,
    pub fft_domain: ArkDomain,
    /// The transform of the circular vector of powers.
    pub fft_h: Vec<ArkG2>,
}

/// The key of one party.
#[derive(Clone, Debug)]
pub struct SecretKey {
    /// The shares of the powers `1..=batch_size` of the secret.
    pub shares: Vec<ArkScalar>,
    /// Counted from one.
    pub party_index: usize,
}

#[derive(Clone, Copy, Debug)]
pub struct Ciphertext {
    pub ct1: ArkG1,
    pub ct2: ArkGt,
    /// A proof of knowledge of the logarithm of `ct1`.
    pub proof: SchnorrProof,
}

/// The share that one party gives for a batch.
#[derive(Clone, Copy, Debug)]
pub struct PartialDecryption {
    pub value: ArkG1,
    /// Counted from one.
    pub party_index: usize,
}

#[derive(Clone, Copy, Debug)]
pub struct SchnorrProof {
    pub commitment: ArkG1,
    pub response: ArkScalar,
}

impl DecryptionKey {
    /// What every key satisfies.
    pub open spec fn wf(&self) -> bool {
        &&& 1 <= self.batch_size
        &&& 2 * self.batch_size <= self.fft_size
        &&& is_domain_size(self.fft_size as int)
        &&& self.fft_domain.spec_size() == self.fft_size
        &&& self.powers_of_h_affine@.len() == 2 * self.batch_size + 1
        &&& self.verification_keys@.len() == self.num_parties
        &&& forall|j: int|
            0 <= j < self.num_parties ==> (#[trigger] self.verification_keys@[j])@.len()
                == self.batch_size
        &&& self.fft_h@.len() == self.fft_size
    }
}

/// What the challenge of a proof is drawn from.
pub open spec fn schnorr_log(ct1: int, ct2: int, commitment: int) -> Seq<(Seq<u8>, Seq<u8>)> {
    seq![
        (Seq::<u8>::empty(), "simple-bte-schnorr".spec_bytes()),
        ("ct1".spec_bytes(), ark_g1_bytes(ct1)),
        ("ct2".spec_bytes(), ark_gt_bytes(ct2)),
        ("commitment".spec_bytes(), ark_g1_bytes(commitment)),
    ]
}

/// The challenge of a proof.
pub open spec fn challenge_of(ct1: int, ct2: int, commitment: int) -> int {
    le_value(transcript_output(schnorr_log(ct1, ct2, commitment), "challenge".spec_bytes()))
        % order()
}

/// A challenge is a residue.
pub proof fn lemma_challenge_range(ct1: int, ct2: int, commitment: int)
    ensures
        0 <= challenge_of(ct1, ct2, commitment) < order(),
{
    lemma_reduce(
        le_value(transcript_output(schnorr_log(ct1, ct2, commitment), "challenge".spec_bytes())),
    );
}

impl Ciphertext {
    /// The challenge of the proof.
    pub open spec fn challenge(self) -> int {
        challenge_of(self.ct1@, self.ct2@, self.proof.commitment@)
    }

    /// What the response must be the logarithm of.
    pub open spec fn proof_side(self) -> int {
        self.proof.commitment@ + self.ct1@ * self.challenge()
    }

    /// Whether the proof holds.
    pub open spec fn is_valid(self) -> bool {
        cong(self.proof.response@, self.proof_side())
    }

    /// Whether the components are those of a message: the second one hides it behind
    /// the key's element times the logarithm of the first one.
    pub open spec fn encrypts(self, ek: EncryptionKey, message: int) -> bool {
        self.ct2@ == (message + ek.e@ * self.ct1@) % order()
    }
}

/// The challenge of a proof.
pub fn schnorr_challenge(ct1: &ArkG1, ct2: &ArkGt, commitment: &ArkG1) -> (challenge: ArkScalar)
    ensures
        challenge@ == challenge_of(ct1@, ct2@, commitment@),
{
    proof {
        reveal_strlit("simple-bte-schnorr");
        is_ascii_spec_bytes("simple-bte-schnorr");
    }
    let mut transcript = ChallengeTranscript::new("simple-bte-schnorr".as_bytes());
    let first = ct1.serialize_compressed();
    transcript.append_message("ct1".as_bytes(), first.as_slice());
    let second = ct2.serialize_compressed();
    transcript.append_message("ct2".as_bytes(), second.as_slice());
    let third = commitment.serialize_compressed();
    transcript.append_message("commitment".as_bytes(), third.as_slice());
    assert(transcript@ =~= schnorr_log(ct1@, ct2@, commitment@));
    let bytes = transcript.challenge_bytes("challenge".as_bytes());
    ArkScalar::from_le_bytes_mod_order(bytes.as_slice())
}

/// The challenge of a proof is what a transcript gives for a record of messages, and that
/// record determines the encodings of both components and of the commitment.
pub proof fn law_challenge_is_bound(a: (int, int, int), b: (int, int, int))
    ensures
        exists|s: Seq<(Seq<u8>, Seq<u8>)>, t: Seq<(Seq<u8>, Seq<u8>)>, label: Seq<u8>|
            {
                &&& challenge_of(a.0, a.1, a.2) == le_value(#[trigger] transcript_output(s, label))
                    % order()
                &&& challenge_of(b.0, b.1, b.2) == le_value(#[trigger] transcript_output(t, label))
                    % order()
                &&& label == "challenge".spec_bytes()
                &&& s == seq![
                    (Seq::<u8>::empty(), "simple-bte-schnorr".spec_bytes()),
                    ("ct1".spec_bytes(), ark_g1_bytes(a.0)),
                    ("ct2".spec_bytes(), ark_gt_bytes(a.1)),
                    ("commitment".spec_bytes(), ark_g1_bytes(a.2)),
                ]
                &&& s == t ==> {
                    &&& ark_g1_bytes(a.0) == ark_g1_bytes(b.0)
                    &&& ark_gt_bytes(a.1) == ark_gt_bytes(b.1)
                    &&& ark_g1_bytes(a.2) == ark_g1_bytes(b.2)
                }
            },
{
    let (s, t) = (schnorr_log(a.0, a.1, a.2), schnorr_log(b.0, b.1, b.2));
    let label = "challenge".spec_bytes();
    if s == t {
        assert(s[1].1 == t[1].1 && s[2].1 == t[2].1 && s[3].1 == t[3].1);
    }
    assert(challenge_of(a.0, a.1, a.2) == le_value(transcript_output(s, label)) % order());
    assert(challenge_of(b.0, b.1, b.2) == le_value(transcript_output(t, label)) % order());
}

} // verus!
