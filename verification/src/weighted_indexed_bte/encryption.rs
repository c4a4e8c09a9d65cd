//! Encryption to an index.
//!
//! The two points of a ciphertext come with a proof that they use the same scalar,
//! which also binds the index and the masked payload.
use vstd::prelude::*;
use vstd::string::StringSliceAdditionalSpecFns;

use crate::algebra::residue::{lemma_cong_mul, lemma_reduce, lemma_reduced, order};
use crate::bytes::{
    append, append_u64, bytes_equal, le_bytes, le_value, lemma_le_digits, lemma_same_digits,
    lemma_same_parts,
};
use crate::curve::{g1_compressed, pair, Element, Fr, G1Point, GtElement, ScalarRng, SystemRng, G1};
use crate::encoding::{is_g1_sized, lemma_same_scalar};
use crate::hash::{append_gt, challenge, digest, gt_encoding, law_challenge_is_a_digest, sha256};
use crate::sampling::{
    drawn_since, is_nonzero_draw, law_nonzero_draws, law_only_zeros_exhaust_a_source,
    lemma_drawn_since_start, sample_nonzero,
};
use crate::weighted_indexed_bte::dleq::{
    challenge_of, transcript, DleqProof, Pairs, ProofPurpose, Statement,
};
use crate::weighted_indexed_bte::error::{Error, Result};
use crate::weighted_indexed_bte::setup::{MasterPublicKey, PublicParameters};

verus! {

#[derive(Clone, Debug, PartialEq, Eq)]
pub struct Ciphertext {
    pub first: G1Point,
    pub punctured: G1Point,
    pub index: usize,
    pub masked_message: Vec<u8>,
    pub proof: DleqProof,
}

/// What the blocks of a mask are the digests of, before the number of the block.
pub open spec fn mask_prefix(mask: int, setup_id: Seq<u8>, index: int, len: int) -> Seq<u8> {
    "WEIGHTED-INDEXED-BTE-MASK-KDF-BLS12381-v1".spec_bytes() + setup_id + le_bytes(index, 8)
        + le_bytes(len, 8) + le_bytes(gt_encoding(mask).len() as int, 8) + gt_encoding(mask)
}

/// Byte `place` of the mask.
pub open spec fn mask_byte(mask: int, setup_id: Seq<u8>, index: int, len: int, place: int) -> u8 {
    sha256(mask_prefix(mask, setup_id, index, len) + le_bytes(place / 32, 8))[place % 32]
}

/// A byte string under a mask: every byte is combined with that of the mask.
pub open spec fn masked(mask: int, setup_id: Seq<u8>, index: int, input: Seq<u8>) -> Seq<u8> {
    Seq::new(
        input.len(),
        |place: int|
            input[place] ^ mask_byte(mask, setup_id, index, input.len() as int, place),
    )
}

/// Masking twice gives back what was masked, for strings of any length.
pub proof fn law_masking_is_involutive(mask: int, setup_id: Seq<u8>, index: int, input: Seq<u8>)
    ensures
        masked(mask, setup_id, index, masked(mask, setup_id, index, input)) == input,
{
    let once = masked(mask, setup_id, index, input);
    let twice = masked(mask, setup_id, index, once);
    assert forall|place: int| 0 <= place < input.len() implies #[trigger] twice[place]
        == input[place] by {
        let a = input[place];
        let b = mask_byte(mask, setup_id, index, input.len() as int, place);
        assert((a ^ b) ^ b == a) by (bit_vector);
    }
    assert(twice =~= input);
}

/// The string that a block of a mask is the digest of determines the element, the setup, the
/// index, the length and the number of the block.
proof fn lemma_mask_string(
    a: int,
    setup_a: Seq<u8>,
    index_a: int,
    len_a: int,
    block_a: int,
    b: int,
    setup_b: Seq<u8>,
    index_b: int,
    len_b: int,
    block_b: int,
)
    requires
        setup_a.len() == setup_b.len(),
        0 <= index_a < 0x1_0000_0000_0000_0000,
        0 <= index_b < 0x1_0000_0000_0000_0000,
        0 <= len_a < 0x1_0000_0000_0000_0000,
        0 <= len_b < 0x1_0000_0000_0000_0000,
        0 <= block_a < 0x1_0000_0000_0000_0000,
        0 <= block_b < 0x1_0000_0000_0000_0000,
        mask_prefix(a, setup_a, index_a, len_a) + le_bytes(block_a, 8) == mask_prefix(
            b,
            setup_b,
            index_b,
            len_b,
        ) + le_bytes(block_b, 8),
    ensures
        gt_encoding(a) == gt_encoding(b),
        setup_a == setup_b,
        index_a == index_b,
        len_a == len_b,
        block_a == block_b,
{
    let tag = "WEIGHTED-INDEXED-BTE-MASK-KDF-BLS12381-v1".spec_bytes();
    let (ea, eb) = (gt_encoding(a), gt_encoding(b));
    let (na, nb) = (ea.len() as int, eb.len() as int);
    lemma_le_digits(block_a, 8);
    lemma_le_digits(block_b, 8);
    lemma_le_digits(index_a, 8);
    lemma_le_digits(index_b, 8);
    lemma_le_digits(len_a, 8);
    lemma_le_digits(len_b, 8);
    lemma_le_digits(na, 8);
    lemma_le_digits(nb, 8);
    lemma_same_parts(
        mask_prefix(a, setup_a, index_a, len_a),
        le_bytes(block_a, 8),
        mask_prefix(b, setup_b, index_b, len_b),
        le_bytes(block_b, 8),
    );
    lemma_same_digits(block_a, block_b);
    // all parts but the last have their lengths
    let head_a = tag + setup_a + le_bytes(index_a, 8) + le_bytes(len_a, 8) + le_bytes(na, 8);
    let head_b = tag + setup_b + le_bytes(index_b, 8) + le_bytes(len_b, 8) + le_bytes(nb, 8);
    lemma_same_parts(head_a, ea, head_b, eb);
    lemma_same_parts(
        tag + setup_a + le_bytes(index_a, 8) + le_bytes(len_a, 8),
        le_bytes(na, 8),
        tag + setup_b + le_bytes(index_b, 8) + le_bytes(len_b, 8),
        le_bytes(nb, 8),
    );
    lemma_same_parts(
        tag + setup_a + le_bytes(index_a, 8),
        le_bytes(len_a, 8),
        tag + setup_b + le_bytes(index_b, 8),
        le_bytes(len_b, 8),
    );
    lemma_same_digits(len_a, len_b);
    lemma_same_parts(
        tag + setup_a,
        le_bytes(index_a, 8),
        tag + setup_b,
        le_bytes(index_b, 8),
    );
    lemma_same_digits(index_a, index_b);
    lemma_same_parts(tag, setup_a, tag, setup_b);
}

/// Every byte of a masked string is combined with a byte of the digest of some string, and
/// that string determines what the mask is for: two masked bytes are combined with digests of
/// the same string only where the target-group elements have the same encoding, the setups,
/// the indices and the lengths are the same, and the bytes stand in the same block.
pub proof fn law_mask_is_bound(
    a: int,
    setup_a: Seq<u8>,
    index_a: int,
    input_a: Seq<u8>,
    place_a: int,
    b: int,
    setup_b: Seq<u8>,
    index_b: int,
    input_b: Seq<u8>,
    place_b: int,
)
    requires
        setup_a.len() == setup_b.len() == 32,
        0 <= index_a < 0x1_0000_0000_0000_0000,
        0 <= index_b < 0x1_0000_0000_0000_0000,
        input_a.len() < 0x1_0000_0000_0000_0000,
        input_b.len() < 0x1_0000_0000_0000_0000,
        0 <= place_a < input_a.len(),
        0 <= place_b < input_b.len(),
    ensures
        exists|s: Seq<u8>, t: Seq<u8>|
            {
                &&& masked(a, setup_a, index_a, input_a)[place_a] == input_a[place_a]
                    ^ #[trigger] sha256(s)[place_a % 32]
                &&& masked(b, setup_b, index_b, input_b)[place_b] == input_b[place_b]
                    ^ #[trigger] sha256(t)[place_b % 32]
                &&& s == "WEIGHTED-INDEXED-BTE-MASK-KDF-BLS12381-v1".spec_bytes() + setup_a
                    + le_bytes(index_a, 8) + le_bytes(input_a.len() as int, 8) + le_bytes(
                    gt_encoding(a).len() as int,
                    8,
                ) + gt_encoding(a) + le_bytes(place_a / 32, 8)
                &&& s == t ==> {
                    &&& gt_encoding(a) == gt_encoding(b)
                    &&& setup_a == setup_b
                    &&& index_a == index_b
                    &&& input_a.len() == input_b.len()
                    &&& place_a / 32 == place_b / 32
                }
            },
{
    let (na, nb) = (input_a.len() as int, input_b.len() as int);
    let s = mask_prefix(a, setup_a, index_a, na) + le_bytes(place_a / 32, 8);
    let t = mask_prefix(b, setup_b, index_b, nb) + le_bytes(place_b / 32, 8);
    if s == t {
        lemma_mask_string(
            a,
            setup_a,
            index_a,
            na,
            place_a / 32,
            b,
            setup_b,
            index_b,
            nb,
            place_b / 32,
        );
    }
    assert(masked(a, setup_a, index_a, input_a)[place_a] == input_a[place_a] ^ sha256(s)[place_a
        % 32]);
    assert(masked(b, setup_b, index_b, input_b)[place_b] == input_b[place_b] ^ sha256(t)[place_b
        % 32]);
}

/// Unmasking with another element than the one that a string was masked with, where the two
/// have different encodings, leaves every byte combined with bytes of the digests of two
/// different strings.
pub proof fn law_other_element_does_not_unmask(
    a: int,
    b: int,
    setup_id: Seq<u8>,
    index: int,
    input: Seq<u8>,
    place: int,
)
    requires
        setup_id.len() == 32,
        0 <= index < 0x1_0000_0000_0000_0000,
        0 <= place < input.len() < 0x1_0000_0000_0000_0000,
        gt_encoding(a) != gt_encoding(b),
    ensures
        exists|s: Seq<u8>, t: Seq<u8>|
            s != t && masked(b, setup_id, index, masked(a, setup_id, index, input))[place] == (
            input[place] ^ #[trigger] sha256(s)[place % 32]) ^ #[trigger] sha256(t)[place % 32],
{
    let once = masked(a, setup_id, index, input);
    law_mask_is_bound(a, setup_id, index, input, place, b, setup_id, index, once, place);
    let (s, t) = choose|s: Seq<u8>, t: Seq<u8>|
        {
            &&& once[place] == input[place] ^ #[trigger] sha256(s)[place % 32]
            &&& masked(b, setup_id, index, once)[place] == once[place]
                ^ #[trigger] sha256(t)[place % 32]
            &&& s == t ==> gt_encoding(a) == gt_encoding(b)
        };
    assert(s != t);
}

/// Combines a byte string with the mask that a target-group element gives in a
/// setup and at an index.
pub fn xor_with_mask(mask: &GtElement, setup_id: [u8; 32], index: usize, input: &[u8]) -> (output:
    Vec<u8>)
    ensures
        output@ == masked(mask@, setup_id@, index as int, input@),
{
    let mut encoded: Vec<u8> = Vec::new();
    append_gt(mask, &mut encoded);
    let mut prefix: Vec<u8> = Vec::new();
    append(&mut prefix, "WEIGHTED-INDEXED-BTE-MASK-KDF-BLS12381-v1".as_bytes());
    append(&mut prefix, setup_id.as_slice());
    append_u64(&mut prefix, index as u64);
    append_u64(&mut prefix, input.len() as u64);
    append_u64(&mut prefix, encoded.len() as u64);
    append(&mut prefix, encoded.as_slice());
    let ghost base = mask_prefix(mask@, setup_id@, index as int, input@.len() as int);
    proof {
        assert(encoded@ =~= gt_encoding(mask@));
        assert(prefix@ =~= base);
    }
    let mut output: Vec<u8> = Vec::new();
    let ghost target = masked(mask@, setup_id@, index as int, input@);
    let mut counter: u64 = 0;
    while output.len() < input.len()
        invariant
            prefix@ == base,
            base == mask_prefix(mask@, setup_id@, index as int, input@.len() as int),
            target == masked(mask@, setup_id@, index as int, input@),
            output@.len() == 32 * counter || output@.len() == input@.len(),
            output@.len() <= 32 * counter,
            output@.len() <= input@.len(),
            forall|i: int| 0 <= i < output@.len() ==> #[trigger] output@[i] == target[i],
        decreases input@.len() - output@.len(),
    {
        let mut data: Vec<u8> = Vec::new();
        append(&mut data, prefix.as_slice());
        append_u64(&mut data, counter);
        proof {
            assert(data@ =~= base + le_bytes(counter as int, 8));
        }
        let block = digest(data.as_slice());
        let mut place: usize = 0;
        while place < 32 && output.len() < input.len()
            invariant
                place <= 32,
                output@.len() == 32 * counter + place,
                output@.len() <= input@.len(),
                base == mask_prefix(mask@, setup_id@, index as int, input@.len() as int),
                target == masked(mask@, setup_id@, index as int, input@),
                block@ == sha256(base + le_bytes(counter as int, 8)),
                forall|i: int| 0 <= i < output@.len() ==> #[trigger] output@[i] == target[i],
            decreases 32 - place,
        {
            let at = output.len();
            proof {
                assert(at as int / 32 == counter && at as int % 32 == place);
            }
            output.push(input[at] ^ block[place]);
            place = place + 1;
        }
        counter = counter + 1;
    }
    assert(output@ =~= target);
    output
}

/// What the proof of a ciphertext is about, besides its points.
pub open spec fn client_context_of(index: int, masked_message: Seq<u8>) -> Seq<u8> {
    "WEIGHTED-INDEXED-BTE-CLIENT-CONTEXT-v1".spec_bytes() + le_bytes(index, 8) + le_bytes(
        masked_message.len() as int,
        8,
    ) + masked_message
}

/// What the proof of a ciphertext is about, besides its points: the index and
/// the masked payload.
pub fn client_proof_context(index: usize, masked_message: &[u8]) -> (context: Vec<u8>)
    ensures
        context@ == client_context_of(index as int, masked_message@),
{
    let mut context: Vec<u8> = Vec::new();
    append(&mut context, "WEIGHTED-INDEXED-BTE-CLIENT-CONTEXT-v1".as_bytes());
    append_u64(&mut context, index as u64);
    append_u64(&mut context, masked_message.len() as u64);
    append(&mut context, masked_message);
    proof {
        assert(context@ =~= client_context_of(index as int, masked_message@));
    }
    context
}

/// The difference of two numbers, where an `isize` can hold it with either sign.
pub fn signed_difference(left: usize, right: usize) -> (result: Result<isize>)
    ensures
        match result {
            Ok(difference) => difference == left - right && right - left <= isize::MAX,
            Err(error) => (left - right > isize::MAX || right - left > isize::MAX) && error
                == Error::ParameterSizeOverflow,
        },
{
    if left >= right {
        let difference: usize = left - right;
        if difference <= isize::MAX as usize {
            Ok(difference as isize)
        } else {
            Err(Error::ParameterSizeOverflow)
        }
    } else {
        let difference: usize = right - left;
        if difference <= isize::MAX as usize {
            Ok(-(difference as isize))
        } else {
            Err(Error::ParameterSizeOverflow)
        }
    }
}

/// The index whose key masks a payload: any other than the ciphertext's own.
pub open spec fn auxiliary_index(index: int) -> int {
    if index == 0 {
        1
    } else {
        0
    }
}

/// Why an encryption is refused, where it is.
pub open spec fn encryption_defect(
    parameters: &PublicParameters,
    public_key: &MasterPublicKey,
    index: usize,
) -> Option<Error> {
    let auxiliary = auxiliary_index(index as int);
    if parameters.crs_id@ != public_key.crs_id@ {
        Some(Error::MismatchedSetup)
    } else if index >= parameters.index_space_size || index >= public_key.index_space_size {
        Some(Error::InvalidCiphertextIndex(index))
    } else if index - auxiliary > isize::MAX {
        Some(Error::ParameterSizeOverflow)
    } else {
        parameters.centered_defect(index - auxiliary)
    }
}

/// The logarithm of the mask of a payload: that of the auxiliary index's delta,
/// times the centered power at the distance of the indices, times the randomness.
pub open spec fn mask_of(
    parameters: &PublicParameters,
    public_key: &MasterPublicKey,
    index: int,
    randomness: int,
) -> int {
    let auxiliary = auxiliary_index(index);
    (public_key.deltas@[auxiliary]@ * randomness * parameters.centered_log(index - auxiliary))
        % order()
}

impl Ciphertext {
    /// The pairs of points that the proof is about.
    pub open spec fn statement(&self, public_key: &MasterPublicKey) -> Statement {
        Statement {
            first_base: 1,
            first_target: self.first@,
            second_base: public_key.deltas@[self.index as int]@,
            second_target: self.punctured@,
        }
    }

    /// Whether the index lies in the index space and the proof holds.
    pub open spec fn is_valid(&self, public_key: &MasterPublicKey) -> bool {
        &&& self.index < public_key.index_space_size
        &&& self.proof.accepts(
            ProofPurpose::Client,
            public_key.setup_id@,
            client_context_of(self.index as int, self.masked_message@),
            self.statement(public_key),
        )
    }

    /// Whether the second point is the delta of the index times the logarithm of the first.
    pub open spec fn is_consistent(&self, public_key: &MasterPublicKey) -> bool {
        self.punctured@ == (public_key.deltas@[self.index as int]@ * self.first@) % order()
    }

    /// Whether this is an encryption of the message at its index.
    pub open spec fn encrypts(
        &self,
        parameters: &PublicParameters,
        public_key: &MasterPublicKey,
        message: Seq<u8>,
    ) -> bool {
        &&& self.is_consistent(public_key)
        &&& self.masked_message@ == masked(
            mask_of(parameters, public_key, self.index as int, self.first@),
            public_key.setup_id@,
            self.index as int,
            message,
        )
    }

    /// The canonical encoding, which a batch's digest is made of.
    pub open spec fn canonical(&self) -> Seq<u8> {
        g1_compressed(self.first@) + g1_compressed(self.punctured@) + le_bytes(
            self.index as int,
            8,
        ) + le_bytes(self.masked_message@.len() as int, 8) + self.masked_message@
            + self.proof.canonical()
    }

    /// Checks the index and the proof.
    pub fn verify(&self, public_key: &MasterPublicKey) -> (result: bool)
        requires
            public_key.wf(),
        ensures
            result == self.is_valid(public_key),
    {
        if self.index >= public_key.index_space_size() {
            return false;
        }
        let indexed_delta = match public_key.delta(self.index) {
            Ok(delta) => delta,
            Err(_) => {
                return false;
            },
        };
        let context = client_proof_context(self.index, self.masked_message.as_slice());
        self.proof.verify(
            ProofPurpose::Client,
            public_key.setup_id(),
            context.as_slice(),
            Pairs {
                first_base: G1Point::generator(),
                first_target: self.first,
                second_base: indexed_delta,
                second_target: self.punctured,
            },
        )
    }

    /// Appends the canonical encoding.
    pub fn append_canonical(&self, output: &mut Vec<u8>)
        ensures
            final(output)@ == old(output)@ + self.canonical(),
    {
        let ghost start = output@;
        let first = self.first.to_compressed();
        append(output, first.as_slice());
        let punctured = self.punctured.to_compressed();
        append(output, punctured.as_slice());
        append_u64(output, self.index as u64);
        append_u64(output, self.masked_message.len() as u64);
        append(output, self.masked_message.as_slice());
        self.proof.append_canonical(output);
        assert(output@ =~= start + self.canonical());
    }

    /// The size of the canonical encoding: two points, two numbers, the payload
    /// and two scalars.
    pub fn serialized_size(&self) -> (result: usize)
        requires
            self.masked_message@.len() + 176 <= usize::MAX,
        ensures
            result == 2 * 48 + 8 + 8 + self.masked_message@.len() + 2 * 32,
    {
        2 * 48 + 8 + 8 + self.masked_message.len() + DleqProof::SERIALIZED_SIZE
    }
}

/// Whether an outcome is that of encrypting a message to an index with the given
/// randomness and nonce: the defect, a ciphertext, or a failure where the proof has
/// no challenge.
pub open spec fn is_encryption(
    parameters: &PublicParameters,
    public_key: &MasterPublicKey,
    message: Seq<u8>,
    index: usize,
    randomness: int,
    nonce: int,
    result: Result<Ciphertext>,
) -> bool {
    match encryption_defect(parameters, public_key, index) {
        Some(defect) => result == Err::<Ciphertext, Error>(defect),
        None => match result {
            Ok(ciphertext) => {
                &&& ciphertext.first@ == randomness
                &&& ciphertext.index == index
                &&& ciphertext.encrypts(parameters, public_key, message)
                &&& ciphertext.is_valid(public_key)
                &&& ciphertext.proof.response@ == (nonce + ciphertext.proof.challenge@
                    * randomness) % order()
            },
            Err(error) => error == Error::SamplingFailed && challenge_of(
                ProofPurpose::Client,
                public_key.setup_id@,
                client_context_of(
                    index as int,
                    masked(
                        mask_of(parameters, public_key, index as int, randomness),
                        public_key.setup_id@,
                        index as int,
                        message,
                    ),
                ),
                (Statement {
                    first_base: 1,
                    first_target: randomness,
                    second_base: public_key.deltas@[index as int]@,
                    second_target: (public_key.deltas@[index as int]@ * randomness) % order(),
                }),
                nonce,
                (public_key.deltas@[index as int]@ * nonce) % order(),
            ) is None,
        },
    }
}

/// The encryption of a message to an index with the given randomness and nonce.
pub fn encrypt_with_scalars(
    parameters: &PublicParameters,
    public_key: &MasterPublicKey,
    message: &[u8],
    index: usize,
    randomness: Fr,
    nonce: Fr,
) -> (result: Result<Ciphertext>)
    requires
        parameters.wf(),
        public_key.wf(),
    ensures
        is_encryption(parameters, public_key, message@, index, randomness@, nonce@, result),
{
    if !bytes_equal(parameters.crs_id.as_slice(), public_key.crs_id.as_slice()) {
        return Err(Error::MismatchedSetup);
    }
    if index >= parameters.index_space_size() || index >= public_key.index_space_size() {
        return Err(Error::InvalidCiphertextIndex(index));
    }
    let auxiliary: usize = if index == 0 {
        1
    } else {
        0
    };
    let offset = signed_difference(index, auxiliary)?;
    let centered_power = parameters.centered_power(offset)?;
    let auxiliary_delta = public_key.delta(auxiliary)?;
    let indexed_delta = public_key.delta(index)?;
    let first = G1::generator().times(randomness).to_affine();
    let punctured = G1::from_affine(indexed_delta).times(randomness).to_affine();
    let pairing_left = G1::from_affine(auxiliary_delta).times(randomness).to_affine();
    let mask = pair(pairing_left, centered_power);
    let masked_message = xor_with_mask(&mask, public_key.setup_id(), index, message);
    let context = client_proof_context(index, masked_message.as_slice());
    proof {
        randomness.lemma_range();
        lemma_reduced(randomness@);
        assert(1 * randomness@ == randomness@);
        nonce.lemma_range();
        lemma_reduced(nonce@);
        assert(1 * nonce@ == nonce@);
        lemma_reduce(indexed_delta@ * randomness@);
        lemma_reduce(auxiliary_delta@ * randomness@);
        lemma_cong_mul(
            pairing_left@,
            auxiliary_delta@ * randomness@,
            centered_power@,
            centered_power@,
        );
    }
    match DleqProof::create_with_nonce(
        ProofPurpose::Client,
        public_key.setup_id(),
        context.as_slice(),
        Pairs {
            first_base: G1Point::generator(),
            first_target: first,
            second_base: indexed_delta,
            second_target: punctured,
        },
        randomness,
        nonce,
    ) {
        Some(made) => Ok(Ciphertext { first, punctured, index, masked_message, proof: made }),
        None => Err(Error::SamplingFailed),
    }
}

/// Whether an outcome is that of encrypting a message to an index with some randomness.
pub open spec fn is_encryption_outcome(
    parameters: &PublicParameters,
    public_key: &MasterPublicKey,
    message: Seq<u8>,
    index: usize,
    result: Result<Ciphertext>,
) -> bool {
    match encryption_defect(parameters, public_key, index) {
        Some(defect) => result == Err::<Ciphertext, Error>(defect),
        None => match result {
            Ok(ciphertext) => {
                &&& ciphertext.index == index
                &&& ciphertext.first@ != 0
                &&& ciphertext.encrypts(parameters, public_key, message)
                &&& ciphertext.is_valid(public_key)
            },
            Err(error) => error == Error::SamplingFailed,
        },
    }
}

/// Whether an outcome is that of encrypting a message to an index with what a source drew: the
/// draws for the randomness, which is not zero, and then the nonce.
pub open spec fn is_drawn_encryption(
    parameters: &PublicParameters,
    public_key: &MasterPublicKey,
    message: Seq<u8>,
    index: usize,
    draws: Seq<int>,
    result: Result<Ciphertext>,
) -> bool {
    if encryption_defect(parameters, public_key, index) is Some {
        result == Err::<Ciphertext, Error>(encryption_defect(parameters, public_key, index)->0)
            && draws.len() == 0
    } else if is_nonzero_draw(draws, None) {
        result == Err::<Ciphertext, Error>(Error::SamplingFailed)
    } else {
        let randomness = draws[draws.len() - 2];
        &&& 2 <= draws.len()
        &&& is_nonzero_draw(draws.drop_last(), Some(randomness))
        &&& is_encryption(
            parameters,
            public_key,
            message,
            index,
            randomness,
            draws.last(),
            result,
        )
    }
}

/// The encryption of a message to an index with scalars drawn from `rng`: the randomness,
/// which is not zero, and the nonce. Nothing is drawn where the encryption is refused.
pub fn encrypt_with_rng<R: ScalarRng>(
    parameters: &PublicParameters,
    public_key: &MasterPublicKey,
    message: &[u8],
    index: usize,
    rng: &mut R,
) -> (result: Result<Ciphertext>)
    requires
        parameters.wf(),
        public_key.wf(),
    ensures
        is_encryption_outcome(parameters, public_key, message@, index, result),
        old(rng).drawn().is_prefix_of(final(rng).drawn()),
        is_drawn_encryption(
            parameters,
            public_key,
            message@,
            index,
            drawn_since(old(rng).drawn(), final(rng).drawn()),
            result,
        ),
{
    if let Some(error) = refuse(parameters, public_key, index) {
        return Err(error);
    }
    let ghost start = rng.drawn();
    let randomness = match sample_nonzero(rng) {
        Some(randomness) => randomness,
        None => {
            return Err(Error::SamplingFailed);
        },
    };
    let ghost sampled = drawn_since(start, rng.drawn());
    let nonce = rng.random_scalar();
    proof {
        let draws = drawn_since(start, rng.drawn());
        assert(draws =~= sampled.push(nonce@));
        assert(draws.drop_last() =~= sampled);
        assert(draws[draws.len() - 2] == randomness@);
    }
    encrypt_with_scalars(parameters, public_key, message, index, randomness, nonce)
}

/// Why an encryption is refused, where it is.
fn refuse(parameters: &PublicParameters, public_key: &MasterPublicKey, index: usize) -> (result:
    Option<Error>)
    requires
        parameters.wf(),
        public_key.wf(),
    ensures
        result == encryption_defect(parameters, public_key, index),
{
    if !bytes_equal(parameters.crs_id.as_slice(), public_key.crs_id.as_slice()) {
        return Some(Error::MismatchedSetup);
    }
    if index >= parameters.index_space_size() || index >= public_key.index_space_size() {
        return Some(Error::InvalidCiphertextIndex(index));
    }
    let auxiliary: usize = if index == 0 {
        1
    } else {
        0
    };
    match signed_difference(index, auxiliary) {
        Ok(offset) => match parameters.centered_power(offset) {
            Ok(_) => None,
            Err(error) => Some(error),
        },
        Err(error) => Some(error),
    }
}

/// The encryption of a message to an index with the system's randomness.
pub fn encrypt(
    parameters: &PublicParameters,
    public_key: &MasterPublicKey,
    message: &[u8],
    index: usize,
) -> (result: Result<Ciphertext>)
    requires
        parameters.wf(),
        public_key.wf(),
    ensures
        is_encryption_outcome(parameters, public_key, message@, index, result),
        exists|rng: SystemRng|
            is_drawn_encryption(
                parameters,
                public_key,
                message@,
                index,
                #[trigger] rng.scalar_record(),
                result,
            ),
{
    let mut rng = SystemRng::new();
    let result = encrypt_with_rng(parameters, public_key, message, index, &mut rng);
    proof {
        let record = rng.scalar_record();
        lemma_drawn_since_start(record);
        assert(is_drawn_encryption(parameters, public_key, message@, index, record, result));
    }
    result
}

/// An index is encrypted to where it is in the index space of parameters and a key that belong
/// together: nothing else is refused.
pub proof fn law_accepted_encryption(
    parameters: &PublicParameters,
    public_key: &MasterPublicKey,
    index: usize,
)
    requires
        parameters.wf(),
        public_key.wf(),
    ensures
        encryption_defect(parameters, public_key, index) is None <==> parameters.crs_id@
            == public_key.crs_id@ && index < parameters.index_space_size && index
            < public_key.index_space_size,
        encryption_defect(parameters, public_key, index) matches Some(error) ==> error == if
            parameters.crs_id@ != public_key.crs_id@ {
            Error::MismatchedSetup
        } else {
            Error::InvalidCiphertextIndex(index)
        },
{
}

/// What a ciphertext hides its payload with is the first draw that is not zero, and the nonce
/// of its proof is the draw behind it. There is no ciphertext for an accepted index only where
/// the source yields `u64::MAX` zeros or a transcript has no challenge.
pub proof fn law_ciphertext_follows_its_draws(
    parameters: &PublicParameters,
    public_key: &MasterPublicKey,
    message: Seq<u8>,
    index: usize,
    draws: Seq<int>,
    result: Result<Ciphertext>,
)
    requires
        is_drawn_encryption(parameters, public_key, message, index, draws, result),
        encryption_defect(parameters, public_key, index) is None,
    ensures
        match result {
            Ok(ciphertext) => {
                &&& draws.len() >= 2
                &&& draws[draws.len() - 2] != 0
                &&& forall|i: int| 0 <= i < draws.len() - 2 ==> #[trigger] draws[i] == 0
                &&& ciphertext.first@ == draws[draws.len() - 2]
                &&& ciphertext.proof.response@ == (draws.last() + ciphertext.proof.challenge@
                    * ciphertext.first@) % order()
            },
            Err(error) => {
                &&& error == Error::SamplingFailed
                &&& {
                    ||| draws.len() == u64::MAX && forall|i: int|
                        0 <= i < draws.len() ==> #[trigger] draws[i] == 0
                    ||| exists|transcript: Seq<u8>|
                        #![trigger challenge(transcript)]
                        forall|counter: int|
                            0 <= counter < 0x1_0000_0000 ==> le_value(
                                sha256(transcript + #[trigger] le_bytes(counter, 4)),
                            ) >= order()
                }
            },
        },
{
    if is_nonzero_draw(draws, None) {
        law_only_zeros_exhaust_a_source(draws, 1);
    } else {
        let randomness = draws[draws.len() - 2];
        let nonce = draws.last();
        let shorter = draws.drop_last();
        law_nonzero_draws(shorter, randomness, Seq::empty(), 0);
        assert(shorter.len() > 0);
        assert forall|i: int| 0 <= i < draws.len() - 2 implies #[trigger] draws[i] == 0 by {
            assert(shorter[i] == 0);
        }
        if result is Err {
            let delta = public_key.deltas@[index as int]@;
            let transcript = transcript(
                ProofPurpose::Client,
                public_key.setup_id@,
                client_context_of(
                    index as int,
                    masked(
                        mask_of(parameters, public_key, index as int, randomness),
                        public_key.setup_id@,
                        index as int,
                        message,
                    ),
                ),
                (Statement {
                    first_base: 1,
                    first_target: randomness,
                    second_base: delta,
                    second_target: (delta * randomness) % order(),
                }),
                nonce,
                (delta * nonce) % order(),
            );
            law_challenge_is_a_digest(transcript);
            assert(challenge(transcript) is None);
        }
    }
}

/// Encryptions with different randomness have different first components.
pub proof fn law_other_draws_give_other_ciphertexts(
    parameters: &PublicParameters,
    public_key: &MasterPublicKey,
    messages: (Seq<u8>, Seq<u8>),
    indices: (usize, usize),
    draws: (Seq<int>, Seq<int>),
    ciphertexts: (Ciphertext, Ciphertext),
)
    requires
        is_drawn_encryption(
            parameters,
            public_key,
            messages.0,
            indices.0,
            draws.0,
            Ok(ciphertexts.0),
        ),
        is_drawn_encryption(
            parameters,
            public_key,
            messages.1,
            indices.1,
            draws.1,
            Ok(ciphertexts.1),
        ),
    ensures
        ciphertexts.0.first@ == ciphertexts.1.first@ <==> draws.0[draws.0.len() - 2]
            == draws.1[draws.1.len() - 2],
{
}

impl Ciphertext {
    /// Whether all components have encodings of their lengths.
    pub open spec fn is_sized(self) -> bool {
        &&& is_g1_sized(self.first@)
        &&& is_g1_sized(self.punctured@)
    }

    /// Encodings of ciphertexts with something behind them are the same only where all
    /// components are.
    pub proof fn lemma_same_canonical(self, x: Seq<u8>, other: Self, y: Seq<u8>)
        requires
            self.is_sized(),
            other.is_sized(),
            self.canonical() + x == other.canonical() + y,
        ensures
            g1_compressed(self.first@) == g1_compressed(other.first@),
            g1_compressed(self.punctured@) == g1_compressed(other.punctured@),
            self.index == other.index,
            self.masked_message@ == other.masked_message@,
            self.proof.challenge@ == other.proof.challenge@,
            self.proof.response@ == other.proof.response@,
            x == y,
            self.canonical().len() == other.canonical().len(),
    {
        let (a0, b0) = (g1_compressed(self.first@), g1_compressed(other.first@));
        let (a1, b1) = (g1_compressed(self.punctured@), g1_compressed(other.punctured@));
        let (a2, b2) = (le_bytes(self.index as int, 8), le_bytes(other.index as int, 8));
        let (m, n) = (self.masked_message@, other.masked_message@);
        assert(m.len() == self.masked_message.len() && n.len() == other.masked_message.len());
        let (a3, b3) = (le_bytes(m.len() as int, 8), le_bytes(n.len() as int, 8));
        let (p, q) = (self.proof, other.proof);
        let (a5, b5) = (le_bytes(p.challenge@, 32), le_bytes(q.challenge@, 32));
        let (a6, b6) = (le_bytes(p.response@, 32), le_bytes(q.response@, 32));
        p.challenge.lemma_range();
        p.response.lemma_range();
        q.challenge.lemma_range();
        q.response.lemma_range();
        lemma_le_digits(self.index as int, 8);
        lemma_le_digits(other.index as int, 8);
        lemma_le_digits(m.len() as int, 8);
        lemma_le_digits(n.len() as int, 8);
        lemma_le_digits(p.challenge@, 32);
        lemma_le_digits(q.challenge@, 32);
        lemma_le_digits(p.response@, 32);
        lemma_le_digits(q.response@, 32);
        let (x6, y6) = (a6 + x, b6 + y);
        let (x5, y5) = (a5 + x6, b5 + y6);
        let (x4, y4) = (m + x5, n + y5);
        let (x3, y3) = (a3 + x4, b3 + y4);
        let (x2, y2) = (a2 + x3, b2 + y3);
        let (x1, y1) = (a1 + x2, b1 + y2);
        assert(self.canonical() + x =~= a0 + x1);
        assert(other.canonical() + y =~= b0 + y1);
        lemma_same_parts(a0, x1, b0, y1);
        lemma_same_parts(a1, x2, b1, y2);
        lemma_same_parts(a2, x3, b2, y3);
        lemma_same_digits(self.index as int, other.index as int);
        lemma_same_parts(a3, x4, b3, y4);
        lemma_same_digits(m.len() as int, n.len() as int);
        lemma_same_parts(m, x5, n, y5);
        lemma_same_parts(a5, x6, b5, y6);
        lemma_same_scalar(p.challenge@, q.challenge@);
        lemma_same_parts(a6, x, b6, y);
        lemma_same_scalar(p.response@, q.response@);
    }
}

/// What the proof of a ciphertext is about determines the index and the masked payload.
pub proof fn law_client_context_is_bound(
    index_a: int,
    payload_a: Seq<u8>,
    index_b: int,
    payload_b: Seq<u8>,
)
    requires
        0 <= index_a < 0x1_0000_0000_0000_0000,
        0 <= index_b < 0x1_0000_0000_0000_0000,
        payload_a.len() < 0x1_0000_0000_0000_0000,
        payload_b.len() < 0x1_0000_0000_0000_0000,
    ensures
        client_context_of(index_a, payload_a) == client_context_of(index_b, payload_b) ==> index_a
            == index_b && payload_a == payload_b,
        client_context_of(index_a, payload_a)
            == "WEIGHTED-INDEXED-BTE-CLIENT-CONTEXT-v1".spec_bytes()
            + le_bytes(index_a, 8) + le_bytes(payload_a.len() as int, 8) + payload_a,
{
    let tag = "WEIGHTED-INDEXED-BTE-CLIENT-CONTEXT-v1".spec_bytes();
    if client_context_of(index_a, payload_a) == client_context_of(index_b, payload_b) {
        let (ia, ib) = (le_bytes(index_a, 8), le_bytes(index_b, 8));
        let (na, nb) = (le_bytes(payload_a.len() as int, 8), le_bytes(payload_b.len() as int, 8));
        lemma_le_digits(index_a, 8);
        lemma_le_digits(index_b, 8);
        lemma_le_digits(payload_a.len() as int, 8);
        lemma_le_digits(payload_b.len() as int, 8);
        assert(tag + ia + na + payload_a =~= (tag + ia) + (na + payload_a));
        assert(tag + ib + nb + payload_b =~= (tag + ib) + (nb + payload_b));
        lemma_same_parts(tag + ia, na + payload_a, tag + ib, nb + payload_b);
        lemma_same_parts(tag, ia, tag, ib);
        lemma_same_parts(na, payload_a, nb, payload_b);
        lemma_same_digits(index_a, index_b);
    }
}

/// The encoding of a ciphertext is as long as its size says: two points, an index, a length, the
/// payload and two scalars.
pub proof fn law_size_of_the_encoding(ciphertext: Ciphertext)
    requires
        ciphertext.is_sized(),
    ensures
        ciphertext.canonical().len() == 2 * 48 + 8 + 8 + ciphertext.masked_message@.len() + 2 * 32,
{
    lemma_le_digits(ciphertext.index as int, 8);
    lemma_le_digits(ciphertext.masked_message@.len() as int, 8);
    ciphertext.proof.challenge.lemma_range();
    ciphertext.proof.response.lemma_range();
    lemma_le_digits(ciphertext.proof.challenge@, 32);
    lemma_le_digits(ciphertext.proof.response@, 32);
}

/// A ciphertext hides its payload: every byte is combined with one of the digests of the setup,
/// the index, the length, the block and the element that the randomness gives, which is the
/// auxiliary index's point paired with the power at the distance of the indices.
pub proof fn law_ciphertext_hides_its_message(
    parameters: &PublicParameters,
    public_key: &MasterPublicKey,
    ciphertext: &Ciphertext,
    message: Seq<u8>,
)
    requires
        ciphertext.encrypts(parameters, public_key, message),
    ensures
        ({
            let index = ciphertext.index as int;
            let auxiliary: int = if index == 0 {
                1
            } else {
                0
            };
            let element = (public_key.deltas@[auxiliary]@ * ciphertext.first@ * parameters.h_log(
                parameters.index_space_size + 1 + (index - auxiliary),
            )) % order();
            &&& ciphertext.masked_message@.len() == message.len()
            &&& forall|i: int|
                0 <= i < message.len() ==> #[trigger] ciphertext.masked_message@[i] == message[i]
                    ^ sha256(
                    "WEIGHTED-INDEXED-BTE-MASK-KDF-BLS12381-v1".spec_bytes() + public_key.setup_id@
                        + le_bytes(index, 8) + le_bytes(message.len() as int, 8) + le_bytes(
                        gt_encoding(element).len() as int,
                        8,
                    ) + gt_encoding(element) + le_bytes(i / 32, 8),
                )[i % 32]
        }),
{
}

} // verus!
