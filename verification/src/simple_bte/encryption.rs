//! Encryption to a slot that is chosen later.
use vstd::prelude::*;

use crate::algebra::residue::{lemma_cong_add, lemma_reduce, lemma_reduced, order};
use crate::simple_bte::ark::{ArkG1, ArkGt, ArkScalar, RandomSource};
use crate::simple_bte::keys::{schnorr_challenge, Ciphertext, EncryptionKey, SchnorrProof};

verus! {

/// The encryption of a message with the given randomness and nonce.
pub fn encrypt_with_scalars(ek: &EncryptionKey, message: &ArkGt, k: ArkScalar, r: ArkScalar) -> (ct:
    Ciphertext)
    ensures
        ct.ct1@ == k@,
        ct.encrypts(*ek, message@),
        ct.proof.commitment@ == r@,
        ct.proof.response@ == (r@ + ct.challenge() * k@) % order(),
        ct.is_valid(),
{
    let ct1 = ArkG1::generator().times(k);
    let mask = ek.e.times(k);
    let ct2 = message.plus(mask);
    let commitment = ArkG1::generator().times(r);
    let challenge = schnorr_challenge(&ct1, &ct2, &commitment);
    let product = challenge.times(k);
    let response = r.plus(product);
    proof {
        k.lemma_range();
        r.lemma_range();
        lemma_reduced(k@);
        lemma_reduced(r@);
        assert(1 * k@ == k@ && 1 * r@ == r@);
        lemma_reduce(ek.e@ * k@);
        lemma_cong_add(message@, message@, mask@, ek.e@ * k@);
        let c = challenge@;
        lemma_reduce(c * k@);
        lemma_cong_add(r@, r@, product@, c * k@);
        lemma_reduce(r@ + product@);
        assert(k@ * c == c * k@) by (nonlinear_arith);
    }
    Ciphertext { ct1, ct2, proof: SchnorrProof { commitment, response } }
}

/// The encryption of a message with scalars drawn from `rng`: the randomness and the nonce.
pub fn encrypt<R: RandomSource>(
    ek: &EncryptionKey,
    message: &ArkGt,
    rng: &mut R,
) -> (ct: Ciphertext)
    ensures
        ct.encrypts(*ek, message@),
        ct.is_valid(),
        final(rng).drawn_scalars() == old(rng).drawn_scalars() + seq![
            ct.ct1@,
            ct.proof.commitment@,
        ],
        ct.proof.response@ == (ct.proof.commitment@ + ct.challenge() * ct.ct1@) % order(),
        final(rng).drawn_keys() == old(rng).drawn_keys(),
{
    let ghost start = rng.drawn_scalars();
    let k = rng.random_ark_scalar();
    let r = rng.random_ark_scalar();
    assert(rng.drawn_scalars() =~= start + seq![k@, r@]);
    encrypt_with_scalars(ek, message, k, r)
}

} // verus!
