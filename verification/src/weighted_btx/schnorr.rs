//! Schnorr proofs that a ciphertext is well formed.
//!
//! The challenge is the hash of both components of the ciphertext, so that
//! neither can be changed under a proof, and of the identifier of the setup, which
//! the ciphertext does not carry.
use vstd::prelude::*;
use vstd::string::StringSliceAdditionalSpecFns;

use crate::algebra::primality::lemma_cancel_nonzero;
use crate::algebra::residue::{
    cong, lemma_cong_add, lemma_cong_sub, lemma_reduce, lemma_reduced, order,
};
use crate::bytes::{append, lemma_same_parts};
use crate::curve::{g1_compressed, Element, Fr, GtElement, ScalarRng, G1};
use crate::encoding::is_g1_sized;
use crate::hash::{append_gt, challenge, gt_encoding, hash_to_scalar, lemma_challenge_range};

verus! {

/// What the challenge is the hash of: the setup, the generator, the two components
/// of the ciphertext and the commitment, behind the name of the protocol.
pub open spec fn transcript(
    first: int,
    second: int,
    setup_id: Seq<u8>,
    commitment: int,
) -> Seq<u8> {
    "WEIGHTED-BTX-SCHNORR-BLS12381-v1".spec_bytes() + setup_id + g1_compressed(1)
        + g1_compressed(first) + gt_encoding(
        second,
    ) + g1_compressed(commitment)
}

/// The challenge of a ciphertext and a commitment.
pub open spec fn challenge_of(
    first: int,
    second: int,
    setup_id: Seq<u8>,
    commitment: int,
) -> Option<int> {
    challenge(transcript(first, second, setup_id, commitment))
}

/// A proof of knowledge of the logarithm of a ciphertext's first component.
#[derive(Clone, Copy, Debug)]
pub struct SchnorrProof {
    pub commitment: G1,
    pub response: Fr,
}

fn challenge_scalar(
    first: G1,
    second: &GtElement,
    setup_id: [u8; 32],
    commitment: G1,
) -> (result: Option<Fr>)
    ensures
        result is Some <==> challenge_of(first@, second@, setup_id@, commitment@) is Some,
        result matches Some(scalar) ==> challenge_of(first@, second@, setup_id@, commitment@)
            == Some(
            scalar@,
        ),
{
    let mut bytes: Vec<u8> = Vec::new();
    append(&mut bytes, "WEIGHTED-BTX-SCHNORR-BLS12381-v1".as_bytes());
    append(&mut bytes, setup_id.as_slice());
    let generator_bytes = G1::generator().to_affine().to_compressed();
    append(&mut bytes, generator_bytes.as_slice());
    let first_bytes = first.to_affine().to_compressed();
    append(&mut bytes, first_bytes.as_slice());
    append_gt(second, &mut bytes);
    let commitment_bytes = commitment.to_affine().to_compressed();
    append(&mut bytes, commitment_bytes.as_slice());
    proof {
        assert(bytes@ =~= transcript(first@, second@, setup_id@, commitment@));
    }
    hash_to_scalar(&bytes)
}

impl SchnorrProof {
    /// Whether the proof holds of a ciphertext: its challenge exists, and the
    /// response is the commitment plus the challenge times the first component.
    pub open spec fn accepts(self, first: int, second: int, setup_id: Seq<u8>) -> bool {
        match challenge_of(first, second, setup_id, self.commitment@) {
            Some(c) => cong(self.response@, self.commitment@ + first * c),
            None => false,
        }
    }

    /// The proof made with the given nonce; there is none where the transcript
    /// has no challenge.
    pub fn create_with_nonce(
        randomness: Fr,
        first: G1,
        second: &GtElement,
        setup_id: [u8; 32],
        nonce: Fr,
    ) -> (result: Option<Self>)
        ensures
            result is Some <==> challenge_of(first@, second@, setup_id@, nonce@) is Some,
            result matches Some(made) ==> {
                &&& made.commitment@ == nonce@
                &&& made.response@ == (nonce@ + challenge_of(first@, second@, setup_id@, nonce@)->0
                    * randomness@) % order()
            },
            first@ == randomness@ ==> (result matches Some(made)
                ==> made.accepts(first@, second@, setup_id@)),
    {
        let commitment = G1::generator().times(nonce);
        proof {
            nonce.lemma_range();
            lemma_reduced(nonce@);
            assert(1 * nonce@ == nonce@);
        }
        let challenge = challenge_scalar(first, second, setup_id, commitment)?;
        let product = challenge.times(randomness);
        let response = nonce.plus(product);
        proof {
            lemma_reduce(challenge@ * randomness@);
            lemma_cong_add(nonce@, nonce@, product@, challenge@ * randomness@);
            lemma_reduce(nonce@ + product@);
            assert(challenge@ * randomness@ == randomness@ * challenge@) by (nonlinear_arith);
        }
        Some(SchnorrProof { commitment, response })
    }

    /// A proof with a nonce drawn from `rng`, as [`SchnorrProof::create_with_nonce`] makes it.
    pub fn create<R: ScalarRng>(
        randomness: Fr,
        first: G1,
        second: &GtElement,
        setup_id: [u8; 32],
        rng: &mut R,
    ) -> (result: Option<Self>)
        ensures
            ({
                let nonce = final(rng).drawn().last();
                &&& final(rng).drawn() == old(rng).drawn().push(nonce)
                &&& match challenge_of(first@, second@, setup_id@, nonce) {
                    Some(c) => result matches Some(made) && made.commitment@ == nonce
                        && made.response@ == (nonce + c * randomness@) % order(),
                    None => result is None,
                }
            }),
            first@ == randomness@ ==> (result matches Some(made)
                ==> made.accepts(first@, second@, setup_id@)),
    {
        let nonce = rng.random_scalar();
        Self::create_with_nonce(randomness, first, second, setup_id, nonce)
    }

    pub fn verify(&self, first: G1, second: &GtElement, setup_id: [u8; 32]) -> (result: bool)
        ensures
            result == self.accepts(first@, second@, setup_id@),
    {
        match challenge_scalar(first, second, setup_id, self.commitment) {
            Some(challenge) => {
                let left = G1::generator().times(self.response);
                let product = first.times(challenge);
                let right = self.commitment.plus(product);
                proof {
                    assert(1 * self.response@ == self.response@);
                    lemma_reduce(first@ * challenge@);
                    lemma_cong_add(
                        self.commitment@,
                        self.commitment@,
                        product@,
                        first@ * challenge@,
                    );
                }
                left == right
            },
            None => false,
        }
    }
}

/// A proof that holds of one statement holds of another ciphertext or setup exactly where
/// the other has a challenge and, times it, the first component is what it is for the one.
pub proof fn law_acceptance_of_another_statement(
    made: SchnorrProof,
    first: int,
    second: int,
    setup_id: Seq<u8>,
    other_first: int,
    other_second: int,
    other_setup_id: Seq<u8>,
)
    requires
        made.accepts(first, second, setup_id),
    ensures
        ({
            let c = challenge_of(first, second, setup_id, made.commitment@)->0;
            made.accepts(other_first, other_second, other_setup_id) <==> (challenge_of(
                other_first,
                other_second,
                other_setup_id,
                made.commitment@,
            ) matches Some(d) && cong(other_first * d, first * c))
        }),
{
    let n = made.commitment@;
    let c = challenge_of(first, second, setup_id, n)->0;
    if challenge_of(other_first, other_second, other_setup_id, n) is Some {
        let d = challenge_of(other_first, other_second, other_setup_id, n)->0;
        let (x, y) = (first * c, other_first * d);
        if cong(y, x) {
            lemma_cong_add(n, n, y, x);
        }
        if cong(n + y, n + x) {
            lemma_cong_sub(n + y, n + x, n, n);
        }
    }
}

/// A proof that holds holds of another second component or setup only where the challenge is the
/// same, unless the first component is the identity.
pub proof fn law_changed_statement_needs_the_challenge(
    made: SchnorrProof,
    first: int,
    second: int,
    setup_id: Seq<u8>,
    other_second: int,
    other_setup_id: Seq<u8>,
)
    requires
        made.accepts(first, second, setup_id),
        !cong(first, 0),
    ensures
        made.accepts(first, other_second, other_setup_id) <==> challenge_of(
            first,
            other_second,
            other_setup_id,
            made.commitment@,
        ) == challenge_of(first, second, setup_id, made.commitment@),
{
    let n = made.commitment@;
    law_acceptance_of_another_statement(
        made,
        first,
        second,
        setup_id,
        first,
        other_second,
        other_setup_id,
    );
    lemma_challenge_range(transcript(first, second, setup_id, n), 0);
    lemma_challenge_range(transcript(first, other_second, other_setup_id, n), 0);
    if made.accepts(first, other_second, other_setup_id) {
        let c = challenge_of(first, second, setup_id, n)->0;
        let d = challenge_of(first, other_second, other_setup_id, n)->0;
        lemma_cancel_nonzero(first, d, c);
        lemma_reduced(c);
        lemma_reduced(d);
    }
}

/// A proof that holds does not once its response is changed.
pub proof fn law_changed_response_is_refused(
    made: SchnorrProof,
    changed: SchnorrProof,
    first: int,
    second: int,
    setup_id: Seq<u8>,
)
    requires
        made.accepts(first, second, setup_id),
        changed.commitment@ == made.commitment@,
        changed.response@ != made.response@,
    ensures
        !changed.accepts(first, second, setup_id),
{
    changed.response.lemma_range();
    made.response.lemma_range();
    lemma_reduced(changed.response@);
    lemma_reduced(made.response@);
}

/// The challenge of a proof is drawn from some string, and that string determines both
/// components of the ciphertext, the setup and the commitment: two challenges are drawn from
/// the same string only where all have the same encodings.
pub proof fn law_challenge_is_bound(
    first_a: int,
    second_a: int,
    setup_a: Seq<u8>,
    commitment_a: int,
    first_b: int,
    second_b: int,
    setup_b: Seq<u8>,
    commitment_b: int,
)
    requires
        is_g1_sized(first_a),
        is_g1_sized(first_b),
        is_g1_sized(commitment_a),
        is_g1_sized(commitment_b),
        setup_a.len() == setup_b.len() == 32,
    ensures
        exists|s: Seq<u8>, t: Seq<u8>|
            {
                &&& challenge_of(first_a, second_a, setup_a, commitment_a)
                    == #[trigger] challenge(s)
                &&& challenge_of(first_b, second_b, setup_b, commitment_b)
                    == #[trigger] challenge(t)
                &&& s == "WEIGHTED-BTX-SCHNORR-BLS12381-v1".spec_bytes() + setup_a
                    + g1_compressed(1)
                    + g1_compressed(first_a) + gt_encoding(second_a) + g1_compressed(commitment_a)
                &&& s == t ==> {
                    &&& g1_compressed(first_a) == g1_compressed(first_b)
                    &&& gt_encoding(second_a) == gt_encoding(second_b)
                    &&& setup_a == setup_b
                    &&& g1_compressed(commitment_a) == g1_compressed(commitment_b)
                }
            },
{
    let tag = "WEIGHTED-BTX-SCHNORR-BLS12381-v1".spec_bytes();
    let g = g1_compressed(1);
    let s = transcript(first_a, second_a, setup_a, commitment_a);
    let t = transcript(first_b, second_b, setup_b, commitment_b);
    if s == t {
        let (ha, hb) = (tag + setup_a + g, tag + setup_b + g);
        let (fa, fb) = (g1_compressed(first_a), g1_compressed(first_b));
        let (ea, eb) = (gt_encoding(second_a), gt_encoding(second_b));
        lemma_same_parts(
            ha + fa + ea,
            g1_compressed(commitment_a),
            hb + fb + eb,
            g1_compressed(commitment_b),
        );
        lemma_same_parts(ha + fa, ea, hb + fb, eb);
        lemma_same_parts(ha, fa, hb, fb);
        lemma_same_parts(tag + setup_a, g, tag + setup_b, g);
        lemma_same_parts(tag, setup_a, tag, setup_b);
    }
    assert(challenge_of(first_a, second_a, setup_a, commitment_a) == challenge(s));
    assert(challenge_of(first_b, second_b, setup_b, commitment_b) == challenge(t));
}

/// A commitment is answered by one response: where a proof holds, another with its commitment
/// holds if and only if it has its response.
pub proof fn law_response_is_determined(
    made: SchnorrProof,
    other: SchnorrProof,
    first: int,
    second: int,
    setup_id: Seq<u8>,
)
    requires
        made.accepts(first, second, setup_id),
        other.commitment@ == made.commitment@,
    ensures
        other.accepts(first, second, setup_id) <==> other.response@ == made.response@,
{
    made.response.lemma_range();
    other.response.lemma_range();
    lemma_reduced(made.response@);
    lemma_reduced(other.response@);
}

/// Two proofs with one commitment and different challenges give the logarithm of the first
/// component: their responses differ by it times the difference of the challenges.
pub proof fn law_two_answers_give_the_logarithm(
    made: (SchnorrProof, SchnorrProof),
    first: int,
    seconds: (int, int),
    setups: (Seq<u8>, Seq<u8>),
)
    requires
        made.0.accepts(first, seconds.0, setups.0),
        made.1.accepts(first, seconds.1, setups.1),
        made.0.commitment@ == made.1.commitment@,
        challenge_of(first, seconds.0, setups.0, made.0.commitment@) != challenge_of(
            first,
            seconds.1, setups.1,
            made.1.commitment@,
        ),
    ensures
        ({
            let c = challenge_of(first, seconds.0, setups.0, made.0.commitment@)->0;
            let d = challenge_of(first, seconds.1, setups.1, made.1.commitment@)->0;
            &&& c != d
            &&& cong(made.0.response@ - made.1.response@, first * (c - d))
        }),
{
    let c = challenge_of(first, seconds.0, setups.0, made.0.commitment@)->0;
    let d = challenge_of(first, seconds.1, setups.1, made.1.commitment@)->0;
    let k = made.0.commitment@;
    lemma_cong_sub(made.0.response@, k + first * c, made.1.response@, k + first * d);
    assert((k + first * c) - (k + first * d) == first * (c - d)) by (nonlinear_arith);
}

} // verus!
