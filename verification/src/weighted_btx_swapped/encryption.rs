//! Encryption to a slot that is chosen later.
use vstd::prelude::*;

use crate::algebra::residue::{lemma_cong_add, lemma_reduce, lemma_reduced, order};
use crate::bytes::{append, le_bytes, le_value, lemma_le_digits, lemma_same_parts};
use crate::curve::{g2_compressed, Element, Fr, G2Point, GtElement, ScalarRng, SystemRng, G2};
use crate::encoding::{is_g2_sized, is_gt_sized, lemma_same_gt, lemma_same_scalar};
use crate::hash::{append_gt, challenge, gt_encoding, law_challenge_is_a_digest, sha256};
use crate::weighted_btx::error::{Error, Result};
use crate::weighted_btx_swapped::schnorr::{challenge_of, transcript, SchnorrProof};
use crate::weighted_btx_swapped::setup::EncryptionKey;

verus! {

#[derive(Clone, Copy, Debug)]
pub struct Ciphertext {
    pub first: G2Point,
    pub second: GtElement,
    pub proof: SchnorrProof,
}

/// Whether an outcome is that of encrypting a message with the given randomness and
/// nonce: a ciphertext, or a failure where the proof has no challenge.
pub open spec fn is_encryption(
    encryption_key: &EncryptionKey,
    message: int,
    randomness: int,
    nonce: int,
    result: Result<Ciphertext>,
) -> bool {
    let second = (message + encryption_key.element@ * randomness) % order();
    match challenge_of(randomness, second, encryption_key.setup_id@, nonce) {
        Some(c) => result matches Ok(ciphertext) && ciphertext.first@ == randomness
            && ciphertext.second@ == second && ciphertext.proof.commitment@ == nonce
            && ciphertext.proof.response@ == (nonce + c * randomness) % order()
            && ciphertext.is_valid(encryption_key.setup_id@),
        None => result == Err::<Ciphertext, Error>(Error::SamplingFailed),
    }
}

/// The encryption of a message with the given randomness and nonce. It fails
/// where the proof has no challenge.
pub fn encrypt_with_scalars(
    encryption_key: &EncryptionKey,
    message: GtElement,
    randomness: Fr,
    nonce: Fr,
) -> (result: Result<Ciphertext>)
    ensures
        is_encryption(encryption_key, message@, randomness@, nonce@, result),
{
    let first = G2::generator().times(randomness);
    let mask = encryption_key.element.times(randomness);
    let second = message.plus(mask);
    proof {
        randomness.lemma_range();
        lemma_reduced(randomness@);
        assert(1 * randomness@ == randomness@);
        lemma_reduce(encryption_key.element@ * randomness@);
        lemma_cong_add(message@, message@, mask@, encryption_key.element@ * randomness@);
    }
    match SchnorrProof::create_with_nonce(
        randomness,
        first,
        &second,
        encryption_key.setup_id,
        nonce,
    ) {
        Some(made) => Ok(Ciphertext { first: first.to_affine(), second, proof: made }),
        None => Err(Error::SamplingFailed),
    }
}

/// Whether an outcome is that of encrypting a message with what a source drew: the randomness
/// and then the nonce, and nothing else.
pub open spec fn is_drawn_encryption(
    encryption_key: &EncryptionKey,
    message: int,
    draws: Seq<int>,
    result: Result<Ciphertext>,
) -> bool {
    &&& draws.len() == 2
    &&& 0 <= draws[0] < order()
    &&& 0 <= draws[1] < order()
    &&& is_encryption(encryption_key, message, draws[0], draws[1], result)
}

/// The encryption of a message with scalars drawn from `rng`.
pub fn encrypt_with_rng<R: ScalarRng>(
    encryption_key: &EncryptionKey,
    message: GtElement,
    rng: &mut R,
) -> (result: Result<Ciphertext>)
    ensures
        result matches Ok(ciphertext) ==> ciphertext.encrypts(encryption_key, message@)
            && ciphertext.is_valid(encryption_key.setup_id@),
        ({
            let randomness = final(rng).drawn()[old(rng).drawn().len() as int];
            let nonce = final(rng).drawn().last();
            &&& final(rng).drawn() == old(rng).drawn() + seq![randomness, nonce]
            &&& 0 <= randomness < order()
            &&& 0 <= nonce < order()
            &&& is_encryption(encryption_key, message@, randomness, nonce, result)
        }),
{
    let ghost start = rng.drawn();
    let randomness = rng.random_scalar();
    let nonce = rng.random_scalar();
    proof {
        assert(rng.drawn() =~= start + seq![randomness@, nonce@]);
        randomness.lemma_range();
        nonce.lemma_range();
    }
    encrypt_with_scalars(encryption_key, message, randomness, nonce)
}

/// The encryption of a message with the system's randomness: the first two scalars that its
/// source yields.
pub fn encrypt(encryption_key: &EncryptionKey, message: GtElement) -> (result: Result<Ciphertext>)
    ensures
        result matches Ok(ciphertext) ==> ciphertext.encrypts(encryption_key, message@)
            && ciphertext.is_valid(encryption_key.setup_id@),
        exists|randomness: int, nonce: int|
            0 <= randomness < order() && 0 <= nonce < order() && #[trigger] is_encryption(
                encryption_key,
                message@,
                randomness,
                nonce,
                result,
            ),
        exists|rng: SystemRng|
            is_drawn_encryption(
                encryption_key,
                message@,
                #[trigger] rng.scalar_record(),
                result,
            ),
{
    let mut rng = SystemRng::new();
    let result = encrypt_with_rng(encryption_key, message, &mut rng);
    assert(is_drawn_encryption(encryption_key, message@, rng.scalar_record(), result));
    result
}

impl Ciphertext {
    /// Whether the proof holds under a setup.
    pub open spec fn is_valid(self, setup_id: Seq<u8>) -> bool {
        self.proof.accepts(self.first@, self.second@, setup_id)
    }

    /// Whether the components are those of a message: the second one hides it
    /// behind the key's element times the logarithm of the first one.
    pub open spec fn encrypts(self, encryption_key: &EncryptionKey, message: int) -> bool {
        self.second@ == (message + encryption_key.element@ * self.first@) % order()
    }

    /// The canonical encoding, which a batch's digest is made of.
    pub open spec fn canonical(self) -> Seq<u8> {
        g2_compressed(self.first@) + gt_encoding(self.second@) + g2_compressed(
            self.proof.commitment@,
        ) + le_bytes(self.proof.response@, 32)
    }

    /// Appends the canonical encoding.
    pub fn append_canonical(&self, output: &mut Vec<u8>)
        ensures
            final(output)@ == old(output)@ + self.canonical(),
    {
        let ghost start = output@;
        let first = self.first.to_compressed();
        append(output, first.as_slice());
        append_gt(&self.second, output);
        let commitment = self.proof.commitment.to_affine().to_compressed();
        append(output, commitment.as_slice());
        let response = self.proof.response.to_bytes_le();
        append(output, response.as_slice());
        assert(output@ =~= start + self.canonical());
    }

    pub fn verify_for_setup(&self, setup_id: [u8; 32]) -> (result: bool)
        ensures
            result == self.is_valid(setup_id@),
    {
        self.proof.verify(G2::from_affine(self.first), &self.second, setup_id)
    }
}

/// What a ciphertext hides its message with is the first scalar that the source drew, and what
/// its proof commits to is the second: both can be read off the ciphertext. There is no
/// ciphertext only where a transcript has no challenge, that is, no digest below the order.
pub proof fn law_ciphertext_follows_its_draws(
    encryption_key: &EncryptionKey,
    message: int,
    draws: Seq<int>,
    result: Result<Ciphertext>,
)
    requires
        is_drawn_encryption(encryption_key, message, draws, result),
    ensures
        match result {
            Ok(ciphertext) => {
                &&& draws == seq![ciphertext.first@, ciphertext.proof.commitment@]
                &&& ciphertext.second@ == (message + encryption_key.element@ * draws[0]) % order()
            },
            Err(error) => error == Error::SamplingFailed && exists|transcript: Seq<u8>|
                #![trigger challenge(transcript)]
                forall|counter: int|
                    0 <= counter < 0x1_0000_0000 ==> le_value(
                        sha256(transcript + #[trigger] le_bytes(counter, 4)),
                    ) >= order(),
        },
{
    match result {
        Ok(ciphertext) => {
            assert(draws =~= seq![ciphertext.first@, ciphertext.proof.commitment@]);
        },
        Err(_) => {
            let transcript = transcript(
                draws[0],
                (message + encryption_key.element@ * draws[0]) % order(),
                encryption_key.setup_id@,
                draws[1],
            );
            law_challenge_is_a_digest(transcript);
            assert(challenge(transcript) is None);
        },
    }
}

/// Encryptions with different first draws have different first components.
pub proof fn law_other_draws_give_other_ciphertexts(
    encryption_key: &EncryptionKey,
    messages: (int, int),
    draws: (Seq<int>, Seq<int>),
    ciphertexts: (Ciphertext, Ciphertext),
)
    requires
        is_drawn_encryption(encryption_key, messages.0, draws.0, Ok(ciphertexts.0)),
        is_drawn_encryption(encryption_key, messages.1, draws.1, Ok(ciphertexts.1)),
    ensures
        ciphertexts.0.first@ == ciphertexts.1.first@ <==> draws.0[0] == draws.1[0],
        ciphertexts.0.proof.commitment@ == ciphertexts.1.proof.commitment@ <==> draws.0[1]
            == draws.1[1],
{
    law_ciphertext_follows_its_draws(encryption_key, messages.0, draws.0, Ok(ciphertexts.0));
    law_ciphertext_follows_its_draws(encryption_key, messages.1, draws.1, Ok(ciphertexts.1));
}

impl Ciphertext {
    /// Whether all components have encodings of their lengths.
    pub open spec fn is_sized(self) -> bool {
        &&& is_g2_sized(self.first@)
        &&& is_gt_sized(self.second@)
        &&& is_g2_sized(self.proof.commitment@)
    }

    /// Encodings of ciphertexts with something behind them are the same only where all
    /// components are.
    pub proof fn lemma_same_canonical(self, x: Seq<u8>, other: Self, y: Seq<u8>)
        requires
            self.is_sized(),
            other.is_sized(),
            self.canonical() + x == other.canonical() + y,
        ensures
            g2_compressed(self.first@) == g2_compressed(other.first@),
            gt_encoding(self.second@) == gt_encoding(other.second@),
            g2_compressed(self.proof.commitment@) == g2_compressed(other.proof.commitment@),
            self.proof.response@ == other.proof.response@,
            x == y,
            self.canonical().len() == other.canonical().len(),
    {
        let (a0, b0) = (g2_compressed(self.first@), g2_compressed(other.first@));
        let (a1, b1) = (gt_encoding(self.second@), gt_encoding(other.second@));
        let (a2, b2) = (
            g2_compressed(self.proof.commitment@),
            g2_compressed(other.proof.commitment@),
        );
        let (a3, b3) = (le_bytes(self.proof.response@, 32), le_bytes(other.proof.response@, 32));
        self.proof.response.lemma_range();
        other.proof.response.lemma_range();
        lemma_le_digits(self.proof.response@, 32);
        lemma_le_digits(other.proof.response@, 32);
        let (x3, y3) = (a3 + x, b3 + y);
        let (x2, y2) = (a2 + x3, b2 + y3);
        let (x1, y1) = (a1 + x2, b1 + y2);
        let (x0, y0) = (a0 + x1, b0 + y1);
        assert(self.canonical() + x =~= x0);
        assert(other.canonical() + y =~= y0);
        lemma_same_parts(a0, x1, b0, y1);
        lemma_same_gt(self.second@, x2, other.second@, y2);
        lemma_same_parts(a2, x3, b2, y3);
        lemma_same_parts(a3, x, b3, y);
        lemma_same_scalar(self.proof.response@, other.proof.response@);
    }
}

} // verus!
