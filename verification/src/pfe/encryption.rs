//! Encryption to any slot of a batch.
use vstd::prelude::*;

use crate::algebra::residue::{lemma_cong_add, lemma_reduce, lemma_reduced, order};
use crate::bytes::{append, le_bytes, le_value, lemma_le_digits, lemma_same_parts};
use crate::curve::{g1_compressed, Element, Fr, G1Point, GtElement, ScalarRng, SystemRng, G1};
use crate::encoding::{is_g1_sized, is_gt_sized, lemma_same_gt, lemma_same_scalar};
use crate::hash::{append_gt, challenge, gt_encoding, law_challenge_is_a_digest, sha256};
use crate::pfe::dleq::{challenge_of, transcript, DleqProof};
use crate::pfe::error::{Error, Result};
use crate::pfe::setup::EncryptionKey;

verus! {

#[derive(Clone, Copy, Debug)]
pub struct Ciphertext {
    pub first: G1Point,
    pub second: G1Point,
    pub third: GtElement,
    pub proof: DleqProof,
}

/// Whether an outcome is that of encrypting a message with the given randomness and
/// nonce: a ciphertext, or a failure where the proof has no challenge.
pub open spec fn is_encryption(
    encryption_key: &EncryptionKey,
    message: int,
    randomness: int,
    nonce: int,
    result: Result<Ciphertext>,
) -> bool {
    let base = encryption_key.relation_base@;
    let second = (base * randomness) % order();
    let commitment = (base * nonce) % order();
    match challenge_of(base, randomness, second, nonce, commitment) {
        Some(c) => result matches Ok(ciphertext) && ciphertext.first@ == randomness
            && ciphertext.encrypts(encryption_key, message) && ciphertext.is_valid(
            encryption_key,
        ) && ciphertext.proof.first_commitment@ == nonce
            && ciphertext.proof.second_commitment@ == commitment
            && ciphertext.proof.response@ == (nonce + c * randomness) % order(),
        None => result == Err::<Ciphertext, Error>(Error::SamplingFailed),
    }
}

/// The encryption of a message with the given randomness and nonce. It fails
/// where the proof has no challenge.
pub fn encrypt_with_scalars(
    encryption_key: &EncryptionKey,
    message: GtElement,
    randomness: Fr,
    nonce: Fr,
) -> (result: Result<Ciphertext>)
    ensures
        is_encryption(encryption_key, message@, randomness@, nonce@, result),
{
    let first = G1::generator().times(randomness).to_affine();
    let second = G1::from_affine(encryption_key.relation_base).times(randomness).to_affine();
    let mask = encryption_key.masking_base.times(randomness);
    let third = message.plus(mask);
    proof {
        randomness.lemma_range();
        lemma_reduced(randomness@);
        assert(1 * randomness@ == randomness@);
        lemma_reduce(encryption_key.relation_base@ * randomness@);
        lemma_reduce(encryption_key.masking_base@ * randomness@);
        lemma_cong_add(message@, message@, mask@, encryption_key.masking_base@ * randomness@);
    }
    match DleqProof::create_with_nonce(
        encryption_key.relation_base,
        randomness,
        first,
        second,
        nonce,
    ) {
        Some(made) => Ok(Ciphertext { first, second, third, proof: made }),
        None => Err(Error::SamplingFailed),
    }
}

/// Whether an outcome is that of encrypting a message with what a source drew: the randomness
/// and then the nonce, and nothing else.
pub open spec fn is_drawn_encryption(
    encryption_key: &EncryptionKey,
    message: int,
    draws: Seq<int>,
    result: Result<Ciphertext>,
) -> bool {
    &&& draws.len() == 2
    &&& 0 <= draws[0] < order()
    &&& 0 <= draws[1] < order()
    &&& is_encryption(encryption_key, message, draws[0], draws[1], result)
}

/// The encryption of a message with scalars drawn from `rng`.
pub fn encrypt_with_rng<R: ScalarRng>(
    encryption_key: &EncryptionKey,
    message: GtElement,
    rng: &mut R,
) -> (result: Result<Ciphertext>)
    ensures
        result matches Ok(ciphertext) ==> ciphertext.encrypts(encryption_key, message@)
            && ciphertext.is_valid(encryption_key),
        ({
            let randomness = final(rng).drawn()[old(rng).drawn().len() as int];
            let nonce = final(rng).drawn().last();
            &&& final(rng).drawn() == old(rng).drawn() + seq![randomness, nonce]
            &&& 0 <= randomness < order()
            &&& 0 <= nonce < order()
            &&& is_encryption(encryption_key, message@, randomness, nonce, result)
        }),
{
    let ghost start = rng.drawn();
    let randomness = rng.random_scalar();
    let nonce = rng.random_scalar();
    proof {
        assert(rng.drawn() =~= start + seq![randomness@, nonce@]);
        randomness.lemma_range();
        nonce.lemma_range();
    }
    encrypt_with_scalars(encryption_key, message, randomness, nonce)
}

/// The encryption of a message with the system's randomness: the first two scalars that its
/// source yields.
pub fn encrypt(encryption_key: &EncryptionKey, message: GtElement) -> (result: Result<Ciphertext>)
    ensures
        result matches Ok(ciphertext) ==> ciphertext.encrypts(encryption_key, message@)
            && ciphertext.is_valid(encryption_key),
        exists|randomness: int, nonce: int|
            0 <= randomness < order() && 0 <= nonce < order() && #[trigger] is_encryption(
                encryption_key,
                message@,
                randomness,
                nonce,
                result,
            ),
        exists|rng: SystemRng|
            is_drawn_encryption(
                encryption_key,
                message@,
                #[trigger] rng.scalar_record(),
                result,
            ),
{
    let mut rng = SystemRng::new();
    let result = encrypt_with_rng(encryption_key, message, &mut rng);
    assert(is_drawn_encryption(encryption_key, message@, rng.scalar_record(), result));
    result
}

impl Ciphertext {
    /// Whether the proof holds.
    pub open spec fn is_valid(self, encryption_key: &EncryptionKey) -> bool {
        self.proof.accepts(encryption_key.relation_base@, self.first@, self.second@)
    }

    /// Whether the components are those of a message: the second and the mask of
    /// the third are the key's bases times the logarithm of the first.
    pub open spec fn encrypts(self, encryption_key: &EncryptionKey, message: int) -> bool {
        &&& self.second@ == (encryption_key.relation_base@ * self.first@) % order()
        &&& self.third@ == (message + encryption_key.masking_base@ * self.first@) % order()
    }

    /// The canonical encoding, which a batch's digest is made of.
    pub open spec fn canonical(self) -> Seq<u8> {
        g1_compressed(self.first@) + g1_compressed(self.second@) + gt_encoding(self.third@)
            + le_bytes(self.proof.response@, 32) + g1_compressed(self.proof.first_commitment@)
            + g1_compressed(self.proof.second_commitment@)
    }

    /// Appends the canonical encoding.
    pub fn append_canonical(&self, output: &mut Vec<u8>)
        ensures
            final(output)@ == old(output)@ + self.canonical(),
    {
        let ghost start = output@;
        let first = self.first.to_compressed();
        append(output, first.as_slice());
        let second = self.second.to_compressed();
        append(output, second.as_slice());
        append_gt(&self.third, output);
        let response = self.proof.response.to_bytes_le();
        append(output, response.as_slice());
        let first_commitment = self.proof.first_commitment.to_compressed();
        append(output, first_commitment.as_slice());
        let second_commitment = self.proof.second_commitment.to_compressed();
        append(output, second_commitment.as_slice());
        assert(output@ =~= start + self.canonical());
    }

    pub fn verify(&self, encryption_key: &EncryptionKey) -> (result: bool)
        ensures
            result == self.is_valid(encryption_key),
    {
        self.proof.verify(encryption_key.relation_base, self.first, self.second)
    }
}

/// What a ciphertext hides its message with is the first scalar that the source drew, and what
/// its proof commits to is the second: both can be read off the ciphertext. There is no
/// ciphertext only where a transcript has no challenge, that is, no digest below the order.
pub proof fn law_ciphertext_follows_its_draws(
    encryption_key: &EncryptionKey,
    message: int,
    draws: Seq<int>,
    result: Result<Ciphertext>,
)
    requires
        is_drawn_encryption(encryption_key, message, draws, result),
    ensures
        match result {
            Ok(ciphertext) => {
                &&& draws == seq![ciphertext.first@, ciphertext.proof.first_commitment@]
                &&& ciphertext.second@ == (encryption_key.relation_base@ * draws[0]) % order()
                &&& ciphertext.third@ == (message + encryption_key.masking_base@ * draws[0])
                    % order()
            },
            Err(error) => error == Error::SamplingFailed && exists|transcript: Seq<u8>|
                #![trigger challenge(transcript)]
                forall|counter: int|
                    0 <= counter < 0x1_0000_0000 ==> le_value(
                        sha256(transcript + #[trigger] le_bytes(counter, 4)),
                    ) >= order(),
        },
{
    match result {
        Ok(ciphertext) => {
            assert(draws =~= seq![ciphertext.first@, ciphertext.proof.first_commitment@]);
        },
        Err(_) => {
            let transcript = transcript(
                encryption_key.relation_base@,
                draws[0],
                (encryption_key.relation_base@ * draws[0]) % order(),
                draws[1],
                (encryption_key.relation_base@ * draws[1]) % order(),
            );
            law_challenge_is_a_digest(transcript);
            assert(challenge(transcript) is None);
        },
    }
}

/// Encryptions with different first draws have different first components.
pub proof fn law_other_draws_give_other_ciphertexts(
    encryption_key: &EncryptionKey,
    messages: (int, int),
    draws: (Seq<int>, Seq<int>),
    ciphertexts: (Ciphertext, Ciphertext),
)
    requires
        is_drawn_encryption(encryption_key, messages.0, draws.0, Ok(ciphertexts.0)),
        is_drawn_encryption(encryption_key, messages.1, draws.1, Ok(ciphertexts.1)),
    ensures
        ciphertexts.0.first@ == ciphertexts.1.first@ <==> draws.0[0] == draws.1[0],
        ciphertexts.0.proof.first_commitment@ == ciphertexts.1.proof.first_commitment@
            <==> draws.0[1]
            == draws.1[1],
{
    law_ciphertext_follows_its_draws(encryption_key, messages.0, draws.0, Ok(ciphertexts.0));
    law_ciphertext_follows_its_draws(encryption_key, messages.1, draws.1, Ok(ciphertexts.1));
}

impl Ciphertext {
    /// Whether all components have encodings of their lengths.
    pub open spec fn is_sized(self) -> bool {
        &&& is_g1_sized(self.first@)
        &&& is_g1_sized(self.second@)
        &&& is_gt_sized(self.third@)
        &&& is_g1_sized(self.proof.first_commitment@)
        &&& is_g1_sized(self.proof.second_commitment@)
    }

    /// Encodings of ciphertexts with something behind them are the same only where all
    /// components are.
    pub proof fn lemma_same_canonical(self, x: Seq<u8>, other: Self, y: Seq<u8>)
        requires
            self.is_sized(),
            other.is_sized(),
            self.canonical() + x == other.canonical() + y,
        ensures
            g1_compressed(self.first@) == g1_compressed(other.first@),
            g1_compressed(self.second@) == g1_compressed(other.second@),
            gt_encoding(self.third@) == gt_encoding(other.third@),
            self.proof.response@ == other.proof.response@,
            g1_compressed(self.proof.first_commitment@)
                == g1_compressed(other.proof.first_commitment@),
            g1_compressed(self.proof.second_commitment@)
                == g1_compressed(other.proof.second_commitment@),
            x == y,
            self.canonical().len() == other.canonical().len(),
    {
        let (a0, b0) = (g1_compressed(self.first@), g1_compressed(other.first@));
        let (a1, b1) = (g1_compressed(self.second@), g1_compressed(other.second@));
        let (a2, b2) = (gt_encoding(self.third@), gt_encoding(other.third@));
        let (a3, b3) = (le_bytes(self.proof.response@, 32), le_bytes(other.proof.response@, 32));
        let (a4, b4) = (
            g1_compressed(self.proof.first_commitment@),
            g1_compressed(other.proof.first_commitment@),
        );
        let (a5, b5) = (
            g1_compressed(self.proof.second_commitment@),
            g1_compressed(other.proof.second_commitment@),
        );
        self.proof.response.lemma_range();
        other.proof.response.lemma_range();
        lemma_le_digits(self.proof.response@, 32);
        lemma_le_digits(other.proof.response@, 32);
        let (x5, y5) = (a5 + x, b5 + y);
        let (x4, y4) = (a4 + x5, b4 + y5);
        let (x3, y3) = (a3 + x4, b3 + y4);
        let (x2, y2) = (a2 + x3, b2 + y3);
        let (x1, y1) = (a1 + x2, b1 + y2);
        let (x0, y0) = (a0 + x1, b0 + y1);
        assert(self.canonical() + x =~= x0);
        assert(other.canonical() + y =~= y0);
        lemma_same_parts(a0, x1, b0, y1);
        lemma_same_parts(a1, x2, b1, y2);
        lemma_same_gt(self.third@, x3, other.third@, y3);
        lemma_same_parts(a3, x4, b3, y4);
        lemma_same_scalar(self.proof.response@, other.proof.response@);
        lemma_same_parts(a4, x5, b4, y5);
        lemma_same_parts(a5, x, b5, y);
    }
}

} // verus!
