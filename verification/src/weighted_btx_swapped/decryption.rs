//! Validation of batches, acceptance of shares, middle products and opening.
use vstd::prelude::*;
use vstd::slice::slice_subrange;
use vstd::string::StringSliceAdditionalSpecFns;

use crate::algebra::lagrange::weights;
use crate::algebra::residue::{
    cong, lemma_cong_add, lemma_cong_diff, lemma_cong_mul, lemma_cong_sub, lemma_one, lemma_reduce,
    lemma_reduced, order,
};
use crate::algebra::sums::{
    dot, lemma_sum_cong, lemma_sum_ext, lemma_sum_scale, lemma_sum_swap, products, sum,
};
use crate::bytes::{
    append, append_u64, bytes_equal, le_bytes, lemma_le_digits, lemma_same_digits, lemma_same_parts,
};
use crate::curve::{
    g2_compressed, multi_pairing, views, Element, Fr, G1Point, G2Point, GtElement, SystemRng, G1,
    G2,
};
use crate::encoding::{append_numbers, law_numbers_encoding, lemma_same_items, numbers_encoding};
use crate::fft::Radix2Domain;
use crate::hash::{digest, gt_encoding, sha256};
use crate::interpolation::{
    is_root_prefix, is_selection, lagrange_at_zero, root_points, selected_points,
};
use crate::middle::{cross_term, cross_terms_swapped, kernel_entries, transform_kernel_g1};
use crate::numbers::numbers_equal;
use crate::points::{
    append_points, batch_normalize_g1, batch_normalize_g2, g1_multi_exp_affine,
    g1_multi_exp_affine_indexed, picked, power_range, powers_of, slice_of, zeros,
};
use crate::sampling::{are_nonzero_draws, draw_nonzero, kept, lemma_drawn_since_start};
use crate::slots::{
    lemma_selected, lemma_valid_before, selected_terms, valid_before, valid_slots, valid_total,
};
use crate::weighted::{
    cell, first_unknown, has_domain, is_share_domain, is_table, is_transform_error,
    lemma_none_unknown, lemma_offset_order, lemma_offset_step, lemma_position_order,
    lemma_position_step, lemma_table_push, offset, position_offset, select_virtual,
    transform_domain, virtual_indices,
};
use crate::weighted_btx::error::{Error, Result};
use crate::weighted_btx_swapped::encryption::Ciphertext;
use crate::weighted_btx_swapped::setup::{PartySecretKey, PublicDecryptionKey};

verus! {

/// An ordered batch whose proofs were checked once.
#[derive(Clone, Debug)]
pub struct ValidatedBatch {
    pub setup_id: [u8; 32],
    pub batch_size: usize,
    pub digest: [u8; 32],
    pub valid: Vec<bool>,
    pub first_affine: Vec<G2Point>,
    pub first_projective: Vec<G2>,
}

/// The share of one party for a whole batch.
#[derive(Clone, Copy, Debug)]
pub struct DecryptionShare {
    pub party_index: usize,
    pub sigma: G2,
    pub batch_digest: [u8; 32],
    pub setup_id: [u8; 32],
}

/// Checked shares whose weight is enough.
#[derive(Clone, Debug)]
pub struct AcceptedDecryptionShares {
    pub setup_id: [u8; 32],
    pub batch_size: usize,
    pub digest: [u8; 32],
    pub accepted_weight: usize,
    pub shares: Vec<DecryptionShare>,
    pub rejected_parties: Vec<usize>,
}

/// What depends on the accepted parties and the batch size alone.
#[derive(Clone, Debug)]
pub struct DecryptionPrecomputation {
    pub setup_id: [u8; 32],
    pub context_id: [u8; 32],
    pub batch_size: usize,
    pub accepted_weight: usize,
    pub party_indices: Vec<usize>,
    pub transform_size: usize,
    pub domain: Radix2Domain,
    pub transformed_kernel: Vec<G1Point>,
    /// A table with one row for every slot, which holds the keys of the parties.
    pub opening_keys: Vec<G1Point>,
}

/// The cross terms of one batch.
#[derive(Clone, Debug)]
pub struct BatchPrecomputation {
    pub context_id: [u8; 32],
    pub batch_size: usize,
    pub digest: [u8; 32],
    pub beta: Vec<GtElement>,
}

/// The canonical encodings of ciphertexts, one after the other.
pub open spec fn canonical_all(ciphertexts: Seq<Ciphertext>) -> Seq<u8>
    decreases ciphertexts.len(),
{
    if ciphertexts.len() == 0 {
        Seq::empty()
    } else {
        canonical_all(ciphertexts.drop_last()) + ciphertexts.last().canonical()
    }
}

/// The digest of an ordered batch.
pub open spec fn batch_digest_of(ciphertexts: Seq<Ciphertext>) -> Seq<u8> {
    sha256(
        "WEIGHTED-BTX-SWAPPED-ORDERED-BATCH-v1".spec_bytes() + le_bytes(
            ciphertexts.len() as int,
            8,
        ) + canonical_all(ciphertexts),
    )
}

fn batch_digest(ciphertexts: &[Ciphertext]) -> (result: [u8; 32])
    ensures
        result@ == batch_digest_of(ciphertexts@),
{
    let mut bytes: Vec<u8> = Vec::new();
    append(&mut bytes, "WEIGHTED-BTX-SWAPPED-ORDERED-BATCH-v1".as_bytes());
    append_u64(&mut bytes, ciphertexts.len() as u64);
    let ghost header = "WEIGHTED-BTX-SWAPPED-ORDERED-BATCH-v1".spec_bytes() + le_bytes(
        ciphertexts@.len() as int,
        8,
    );
    let mut index: usize = 0;
    proof {
        assert(bytes@ =~= header + canonical_all(ciphertexts@.take(0)));
    }
    while index < ciphertexts.len()
        invariant
            index <= ciphertexts@.len(),
            bytes@ == header + canonical_all(ciphertexts@.take(index as int)),
        decreases ciphertexts@.len() - index,
    {
        ciphertexts[index].append_canonical(&mut bytes);
        index = index + 1;
        proof {
            let now = ciphertexts@.take(index as int);
            assert(now.drop_last() =~= ciphertexts@.take(index - 1));
            assert(now.last() == ciphertexts@[index - 1]);
            assert(bytes@ =~= header + canonical_all(now));
        }
    }
    assert(ciphertexts@.take(index as int) =~= ciphertexts@);
    digest(bytes.as_slice())
}

/// The identifier of a committee and a batch size under a setup.
pub open spec fn context_id_of(setup_id: Seq<u8>, batch_size: int, parties: Seq<usize>) -> Seq<u8> {
    sha256(
        "WEIGHTED-BTX-SWAPPED-DECRYPTION-CONTEXT-v1".spec_bytes() + setup_id + le_bytes(
            batch_size,
            8,
        ) + le_bytes(parties.len() as int, 8) + numbers_encoding(parties),
    )
}

fn decryption_context_id(setup_id: [u8; 32], batch_size: usize, parties: &Vec<usize>) -> (result: [u8;
    32])
    ensures
        result@ == context_id_of(setup_id@, batch_size as int, parties@),
{
    let mut bytes: Vec<u8> = Vec::new();
    append(&mut bytes, "WEIGHTED-BTX-SWAPPED-DECRYPTION-CONTEXT-v1".as_bytes());
    append(&mut bytes, setup_id.as_slice());
    append_u64(&mut bytes, batch_size as u64);
    append_u64(&mut bytes, parties.len() as u64);
    append_numbers(&mut bytes, parties.as_slice());
    proof {
        assert(bytes@ =~= "WEIGHTED-BTX-SWAPPED-DECRYPTION-CONTEXT-v1".spec_bytes() + setup_id@
            + le_bytes(batch_size as int, 8) + le_bytes(parties@.len() as int, 8)
            + numbers_encoding(parties@));
    }
    digest(bytes.as_slice())
}

/// Why a batch size is refused, where it is.
pub open spec fn batch_size_defect(decryption_key: &PublicDecryptionKey, batch_size: usize) -> Option<
    Error,
> {
    if batch_size == 0 {
        Some(Error::BatchIsEmpty)
    } else if batch_size > decryption_key.max_batch_size {
        Some(
            Error::BatchTooLarge { batch_size, max_batch_size: decryption_key.max_batch_size },
        )
    } else {
        None
    }
}

fn validate_batch_size(decryption_key: &PublicDecryptionKey, batch_size: usize) -> (result: Result<
    (),
>)
    ensures
        match result {
            Ok(()) => batch_size_defect(decryption_key, batch_size) is None,
            Err(error) => batch_size_defect(decryption_key, batch_size) == Some(error),
        },
{
    if batch_size == 0 {
        return Err(Error::BatchIsEmpty);
    }
    if batch_size > decryption_key.max_batch_size() {
        return Err(
            Error::BatchTooLarge { batch_size, max_batch_size: decryption_key.max_batch_size() },
        );
    }
    Ok(())
}

impl ValidatedBatch {
    /// What every batch satisfies.
    pub open spec fn wf(&self) -> bool {
        &&& 1 <= self.batch_size
        &&& self.valid@.len() == self.batch_size
        &&& self.first_affine@.len() == self.batch_size
        &&& views(self.first_affine@) == views(self.first_projective@)
        &&& forall|i: int|
            0 <= i < self.batch_size && !self.valid@[i] ==> (#[trigger] self.first_affine@[i])@
                == 0
    }

    /// The first components, with nothing in the slots that are not valid.
    pub open spec fn firsts(&self) -> Seq<int> {
        views(self.first_affine@)
    }

    /// Whether this is the batch of the ciphertexts under a setup: a slot is valid
    /// where its proof holds, and is empty otherwise.
    pub open spec fn is_batch_of(&self, setup_id: Seq<u8>, ciphertexts: Seq<Ciphertext>) -> bool {
        &&& self.wf()
        &&& self.setup_id@ == setup_id
        &&& self.batch_size == ciphertexts.len()
        &&& self.digest@ == batch_digest_of(ciphertexts)
        &&& forall|i: int|
            0 <= i < ciphertexts.len() ==> #[trigger] self.valid@[i] == ciphertexts[i].is_valid(
                setup_id,
            )
        &&& forall|i: int|
            0 <= i < ciphertexts.len() ==> (#[trigger] self.first_affine@[i])@ == (
            if self.valid@[i] {
                ciphertexts[i].first@
            } else {
                0
            })
    }

    /// The ordered batch, with every proof checked.
    pub fn verify(decryption_key: &PublicDecryptionKey, ciphertexts: &[Ciphertext]) -> (result:
        Result<Self>)
        ensures
            match result {
                Ok(batch) => batch_size_defect(decryption_key, ciphertexts@.len() as usize) is None
                    && batch.is_batch_of(decryption_key.setup_id@, ciphertexts@),
                Err(error) => batch_size_defect(decryption_key, ciphertexts@.len() as usize)
                    == Some(error),
            },
    {
        Self::from_ciphertexts(decryption_key, ciphertexts)
    }

    fn from_ciphertexts(decryption_key: &PublicDecryptionKey, ciphertexts: &[Ciphertext]) -> (result:
        Result<Self>)
        ensures
            match result {
                Ok(batch) => batch_size_defect(decryption_key, ciphertexts@.len() as usize) is None
                    && batch.is_batch_of(decryption_key.setup_id@, ciphertexts@),
                Err(error) => batch_size_defect(decryption_key, ciphertexts@.len() as usize)
                    == Some(error),
            },
    {
        validate_batch_size(decryption_key, ciphertexts.len())?;
        let setup_id = decryption_key.setup_id();
        let mut valid: Vec<bool> = Vec::new();
        let mut first_affine: Vec<G2Point> = Vec::new();
        let mut first_projective: Vec<G2> = Vec::new();
        while valid.len() < ciphertexts.len()
            invariant
                valid@.len() == first_affine@.len() == first_projective@.len()
                    <= ciphertexts@.len(),
                forall|i: int|
                    0 <= i < valid@.len() ==> #[trigger] valid@[i] == ciphertexts@[i].is_valid(
                        setup_id@,
                    ),
                forall|i: int|
                    0 <= i < valid@.len() ==> (#[trigger] first_affine@[i])@ == (if valid@[i] {
                        ciphertexts@[i].first@
                    } else {
                        0
                    }),
                forall|i: int|
                    0 <= i < valid@.len() ==> (#[trigger] first_projective@[i])@
                        == first_affine@[i]@,
            decreases ciphertexts@.len() - valid@.len(),
        {
            let ciphertext = ciphertexts[valid.len()];
            // An invalid slot stays, as an identity: powers and offsets go by the place.
            let is_valid = ciphertext.verify_for_setup(setup_id);
            let first = if is_valid {
                ciphertext.first
            } else {
                G2Point::identity()
            };
            valid.push(is_valid);
            first_affine.push(first);
            first_projective.push(G2::from_affine(first));
        }
        assert(views(first_affine@) =~= views(first_projective@));
        Ok(
            ValidatedBatch {
                setup_id,
                batch_size: ciphertexts.len(),
                digest: batch_digest(ciphertexts),
                valid,
                first_affine,
                first_projective,
            },
        )
    }

    pub fn batch_size(&self) -> (result: usize)
        ensures
            result == self.batch_size,
    {
        self.batch_size
    }

    pub fn setup_id(&self) -> (result: [u8; 32])
        ensures
            result == self.setup_id,
    {
        self.setup_id
    }

    pub fn digest(&self) -> (result: [u8; 32])
        ensures
            result == self.digest,
    {
        self.digest
    }

    pub fn valid_mask(&self) -> (result: &Vec<bool>)
        ensures
            *result == self.valid,
    {
        &self.valid
    }

    /// How many slots are valid.
    pub fn valid_count(&self) -> (result: usize)
        ensures
            result == valid_total(self.valid@),
    {
        valid_slots(&self.valid).len()
    }
}

/// The ordered batch, with every proof checked.
pub fn validate_batch(decryption_key: &PublicDecryptionKey, ciphertexts: &[Ciphertext]) -> (result:
    Result<ValidatedBatch>)
    ensures
        match result {
            Ok(batch) => batch_size_defect(decryption_key, ciphertexts@.len() as usize) is None
                && batch.is_batch_of(decryption_key.setup_id@, ciphertexts@),
            Err(error) => batch_size_defect(decryption_key, ciphertexts@.len() as usize) == Some(
                error,
            ),
        },
{
    ValidatedBatch::from_ciphertexts(decryption_key, ciphertexts)
}

/// The numbers of the parties of shares.
pub open spec fn share_parties(shares: Seq<DecryptionShare>) -> Seq<usize> {
    Seq::new(shares.len(), |i: int| shares[i].party_index)
}

pub open spec fn share_sigmas(shares: Seq<DecryptionShare>) -> Seq<int> {
    Seq::new(shares.len(), |i: int| shares[i].sigma@)
}

impl AcceptedDecryptionShares {
    pub fn accepted_weight(&self) -> (result: usize)
        ensures
            result == self.accepted_weight,
    {
        self.accepted_weight
    }

    pub fn party_count(&self) -> (result: usize)
        ensures
            result == self.shares@.len(),
    {
        self.shares.len()
    }

    pub fn party_indices(&self) -> (result: Vec<usize>)
        ensures
            result@ == share_parties(self.shares@),
    {
        let mut result: Vec<usize> = Vec::new();
        while result.len() < self.shares.len()
            invariant
                result@.len() <= self.shares@.len(),
                forall|i: int|
                    0 <= i < result@.len() ==> #[trigger] result@[i] == self.shares@[i].party_index,
            decreases self.shares@.len() - result@.len(),
        {
            result.push(self.shares[result.len()].party_index);
        }
        assert(result@ =~= share_parties(self.shares@));
        result
    }

    pub fn rejected_parties(&self) -> (result: &Vec<usize>)
        ensures
            *result == self.rejected_parties,
    {
        &self.rejected_parties
    }

    pub fn shares(&self) -> (result: &Vec<DecryptionShare>)
        ensures
            *result == self.shares,
    {
        &self.shares
    }
}

impl DecryptionPrecomputation {
    pub fn batch_size(&self) -> (result: usize)
        ensures
            result == self.batch_size,
    {
        self.batch_size
    }

    pub fn accepted_weight(&self) -> (result: usize)
        ensures
            result == self.accepted_weight,
    {
        self.accepted_weight
    }

    pub fn party_count(&self) -> (result: usize)
        ensures
            result == self.party_indices@.len(),
    {
        self.party_indices.len()
    }

    pub fn transform_size(&self) -> (result: usize)
        ensures
            result == self.transform_size,
    {
        self.transform_size
    }
}

impl DecryptionShare {
    /// Whether this is what a party makes of a batch: the sum of the first
    /// components, each times the power of the party's secret for its slot.
    pub open spec fn is_share_of(self, party_key: &PartySecretKey, batch: &ValidatedBatch) -> bool {
        &&& self.party_index == party_key.party_index
        &&& self.batch_digest@ == batch.digest@
        &&& self.setup_id@ == party_key.setup_id@
        &&& self.sigma@ == dot(
            batch.firsts(),
            power_range(party_key.q@, 1, batch.batch_size as int),
        ) % order()
    }
}

/// The share of a party for a batch.
pub fn partial_decrypt(party_key: &PartySecretKey, batch: &ValidatedBatch) -> (result: Result<
    DecryptionShare,
>)
    requires
        batch.wf(),
        party_key.max_batch_size < usize::MAX,
    ensures
        match result {
            Ok(share) => batch.setup_id@ == party_key.setup_id@ && batch.batch_size
                <= party_key.max_batch_size && share.is_share_of(party_key, batch),
            Err(error) => if batch.setup_id@ != party_key.setup_id@ {
                error == Error::MismatchedSetup
            } else {
                batch.batch_size > party_key.max_batch_size && error == (Error::BatchTooLarge {
                    batch_size: batch.batch_size,
                    max_batch_size: party_key.max_batch_size,
                })
            },
        },
{
    if !bytes_equal(batch.setup_id.as_slice(), party_key.setup_id.as_slice()) {
        return Err(Error::MismatchedSetup);
    }
    if batch.batch_size > party_key.max_batch_size() {
        return Err(
            Error::BatchTooLarge {
                batch_size: batch.batch_size,
                max_batch_size: party_key.max_batch_size(),
            },
        );
    }
    let powers = powers_of(party_key.secret_scalar(), batch.batch_size + 1);
    assert(views(powers@).len() == powers@.len());
    let scalars = slice_of(&powers, 1, batch.batch_size + 1);
    proof {
        assert(views(scalars@) =~= power_range(party_key.q@, 1, batch.batch_size as int)) by {
            assert forall|i: int| 0 <= i < batch.batch_size implies #[trigger] scalars@[i]@
                == power_range(party_key.q@, 1, batch.batch_size as int)[i] by {
                assert(views(powers@)[i + 1] == power_range(
                    party_key.q@,
                    0,
                    batch.batch_size + 1,
                )[i + 1]);
                assert(0 + (i + 1) == 1 + i);
            }
        }
        assert(views(batch.first_projective@).len() == batch.first_projective@.len());
    }
    let sigma = G2::multi_exp(batch.first_projective.as_slice(), scalars.as_slice());
    Ok(
        DecryptionShare {
            party_index: party_key.party_index,
            sigma,
            batch_digest: batch.digest,
            setup_id: party_key.setup_id(),
        },
    )
}

/// The logarithms of the powers of a party's secret.
pub open spec fn key_logs(decryption_key: &PublicDecryptionKey, party: int) -> Seq<int> {
    Seq::new(
        decryption_key.max_batch_size as nat,
        |i: int| decryption_key.verification_log(party, i + 1),
    )
}

/// What the share of a party should be: the sum of the first components, each
/// times the power of the party's secret for its slot.
pub open spec fn expected_sigma(
    decryption_key: &PublicDecryptionKey,
    batch: &ValidatedBatch,
    party: int,
) -> int {
    dot(batch.firsts(), key_logs(decryption_key, party))
}

/// Whether a share was made for a batch under a setup.
pub open spec fn is_candidate(
    decryption_key: &PublicDecryptionKey,
    batch: &ValidatedBatch,
    share: DecryptionShare,
) -> bool {
    share.batch_digest@ == batch.digest@ && share.setup_id@ == decryption_key.setup_id@
}

/// Whether a share's point is the one that it should be.
pub open spec fn passes(
    decryption_key: &PublicDecryptionKey,
    batch: &ValidatedBatch,
    share: DecryptionShare,
) -> bool {
    cong(share.sigma@, expected_sigma(decryption_key, batch, share.party_index as int))
}

/// The outcome of the check of one share.
pub open spec fn share_check(
    decryption_key: &PublicDecryptionKey,
    batch: &ValidatedBatch,
    share: DecryptionShare,
) -> core::result::Result<bool, Error> {
    match batch_size_defect(decryption_key, batch.batch_size) {
        Some(error) => Err(error),
        None => if batch.setup_id@ != decryption_key.setup_id@ {
            Err(Error::MismatchedSetup)
        } else if !is_candidate(decryption_key, batch, share) {
            Ok(false)
        } else if share.party_index >= decryption_key.party_weights@.len() {
            Err(Error::InvalidPartyIndex(share.party_index))
        } else {
            Ok(passes(decryption_key, batch, share))
        },
    }
}

/// Whether the pairings of the points of the valid slots with `keys`, added up,
/// are the pairing of `sigma` with the generator.
fn check_sigma(batch: &ValidatedBatch, slots: &Vec<usize>, keys: Vec<G1Point>, sigma: G2, Ghost(
    b,
): Ghost<Seq<int>>) -> (result: bool)
    requires
        batch.wf(),
        slots@ == valid_before(batch.valid@, batch.batch_size as int),
        keys@.len() == slots@.len(),
        forall|i: int| 0 <= i < slots@.len() ==> (#[trigger] keys@[i])@ == b[slots@[i] as int],
    ensures
        result == cong(sigma@, dot(batch.firsts(), b)),
{
    let ghost a = batch.firsts();
    let ghost n = slots@.len() as int;
    let mut keys = keys;
    let mut points: Vec<G2Point> = Vec::new();
    proof {
        lemma_valid_before(batch.valid@, batch.batch_size as int);
    }
    while points.len() < slots.len()
        invariant
            batch.wf(),
            slots@ == valid_before(batch.valid@, batch.batch_size as int),
            forall|i: int| 0 <= i < slots@.len() ==> (#[trigger] slots@[i]) < batch.batch_size,
            points@.len() <= slots@.len(),
            a == batch.firsts(),
            forall|i: int|
                0 <= i < points@.len() ==> (#[trigger] points@[i])@ == a[slots@[i] as int],
        decreases slots@.len() - points@.len(),
    {
        let slot = slots[points.len()];
        points.push(batch.first_affine[slot]);
    }
    let negative = G2::zero().minus(sigma);
    points.push(negative.to_affine());
    keys.push(G1Point::generator());
    let total = multi_pairing(keys.as_slice(), points.as_slice());
    proof {
        let f = products(views(keys@), views(points@));
        let g = selected_terms(a, b, slots@);
        assert forall|i: int| 0 <= i < n implies #[trigger] f(i) == g(i) by {
            vstd::arithmetic::mul::lemma_mul_is_commutative(
                b[slots@[i] as int],
                a[slots@[i] as int],
            );
        }
        lemma_sum_ext(f, g, 0, n);
        assert forall|i: int| 0 <= i < batch.batch_size && !batch.valid@[i] implies #[trigger] a[i]
            == 0 by {
            assert(batch.first_affine@[i]@ == 0);
        }
        lemma_selected(a, b, batch.valid@, batch.batch_size as int);
        let s = sum(f, 0, n);
        assert(s == dot(a, b));
        assert(f(n) == 1 * negative@);
        assert(dot(views(keys@), views(points@)) == s + negative@);
        lemma_reduce(0 - sigma@);
        lemma_cong_add(s, s, negative@, 0 - sigma@);
        assert(cong(s + negative@, s - sigma@));
        lemma_cong_diff(s, sigma@);
        lemma_one();
    }
    total == GtElement::zero()
}

/// Checks one share with one product of pairings.
pub fn verify_decryption_share(
    decryption_key: &PublicDecryptionKey,
    batch: &ValidatedBatch,
    share: &DecryptionShare,
) -> (result: Result<bool>)
    requires
        decryption_key.wf(),
        batch.wf(),
    ensures
        result == share_check(decryption_key, batch, *share),
{
    validate_batch_size(decryption_key, batch.batch_size)?;
    if !bytes_equal(batch.setup_id.as_slice(), decryption_key.setup_id.as_slice()) {
        return Err(Error::MismatchedSetup);
    }
    if !bytes_equal(share.batch_digest.as_slice(), batch.digest.as_slice()) || !bytes_equal(
        share.setup_id.as_slice(),
        decryption_key.setup_id.as_slice(),
    ) {
        return Ok(false);
    }
    if share.party_index >= decryption_key.party_count() {
        return Err(Error::InvalidPartyIndex(share.party_index));
    }
    let slots = valid_slots(&batch.valid);
    let ghost logs = key_logs(decryption_key, share.party_index as int);
    let mut keys: Vec<G1Point> = Vec::new();
    while keys.len() < slots.len()
        invariant
            decryption_key.wf(),
            batch.batch_size <= decryption_key.max_batch_size,
            share.party_index < decryption_key.party_weights@.len(),
            logs == key_logs(decryption_key, share.party_index as int),
            keys@.len() <= slots@.len(),
            forall|i: int| 0 <= i < slots@.len() ==> (#[trigger] slots@[i]) < batch.batch_size,
            forall|i: int|
                0 <= i < keys@.len() ==> (#[trigger] keys@[i])@ == logs[slots@[i] as int],
        decreases slots@.len() - keys@.len(),
    {
        let slot = slots[keys.len()];
        keys.push(decryption_key.verification_key(share.party_index, slot + 1)?);
    }
    Ok(check_sigma(batch, &slots, keys, share.sigma, Ghost(logs)))
}

/// The scalars that the shares are weighted with: nothing for one that was made
/// for another batch or setup.
pub open spec fn effective(
    decryption_key: &PublicDecryptionKey,
    batch: &ValidatedBatch,
    shares: Seq<DecryptionShare>,
    challenges: Seq<int>,
) -> Seq<int> {
    Seq::new(
        shares.len(),
        |k: int|
            if is_candidate(decryption_key, batch, shares[k]) {
                challenges[k]
            } else {
                0
            },
    )
}

/// What the shares should be.
pub open spec fn expected_sigmas(
    decryption_key: &PublicDecryptionKey,
    batch: &ValidatedBatch,
    shares: Seq<DecryptionShare>,
) -> Seq<int> {
    Seq::new(
        shares.len(),
        |k: int| expected_sigma(decryption_key, batch, shares[k].party_index as int),
    )
}

/// Whether the weighted sum of the shares is the one that it should be.
pub open spec fn aggregate_holds(
    decryption_key: &PublicDecryptionKey,
    batch: &ValidatedBatch,
    shares: Seq<DecryptionShare>,
    challenges: Seq<int>,
) -> bool {
    let c = effective(decryption_key, batch, shares, challenges);
    cong(
        dot(share_sigmas(shares), c),
        dot(expected_sigmas(decryption_key, batch, shares), c),
    )
}

/// Checks all shares at once: their sum, weighted with the challenges, against
/// the sums of the parties' powers weighted in the same way.
fn verify_decryption_shares_batched(
    decryption_key: &PublicDecryptionKey,
    batch: &ValidatedBatch,
    shares: &[DecryptionShare],
    scalars: &Vec<Fr>,
    Ghost(challenges): Ghost<Seq<int>>,
) -> (result: bool)
    requires
        decryption_key.wf(),
        batch.wf(),
        batch.batch_size <= decryption_key.max_batch_size,
        forall|k: int|
            0 <= k < shares@.len() ==> (#[trigger] shares@[k]).party_index
                < decryption_key.party_weights@.len(),
        views(scalars@) == effective(decryption_key, batch, shares@, challenges),
    ensures
        result == aggregate_holds(decryption_key, batch, shares@, challenges),
{
    let ghost c = views(scalars@);
    let count = shares.len();
    assert(c.len() == scalars@.len());
    assert(c.len() == effective(decryption_key, batch, shares@, challenges).len());
    let mut sigmas: Vec<G2> = Vec::new();
    let mut parties: Vec<usize> = Vec::new();
    while sigmas.len() < count
        invariant
            count == shares@.len(),
            sigmas@.len() == parties@.len() <= count,
            forall|k: int| 0 <= k < sigmas@.len() ==> (#[trigger] sigmas@[k])@ == shares@[k].sigma@,
            forall|k: int|
                0 <= k < sigmas@.len() ==> #[trigger] parties@[k] == shares@[k].party_index,
        decreases count - sigmas@.len(),
    {
        let share = shares[sigmas.len()];
        sigmas.push(share.sigma);
        parties.push(share.party_index);
    }
    assert(views(sigmas@) =~= share_sigmas(shares@));
    let aggregate_sigma = G2::multi_exp(sigmas.as_slice(), scalars.as_slice());
    let slots = valid_slots(&batch.valid);
    let ghost b = aggregate_keys(decryption_key, shares@, c);
    let mut keys: Vec<G1> = Vec::new();
    while keys.len() < slots.len()
        invariant
            decryption_key.wf(),
            batch.batch_size <= decryption_key.max_batch_size,
            count == shares@.len() == scalars@.len() == parties@.len(),
            c == views(scalars@),
            b == aggregate_keys(decryption_key, shares@, c),
            forall|k: int|
                0 <= k < count ==> (#[trigger] parties@[k]) == shares@[k].party_index && parties@[k]
                    < decryption_key.party_weights@.len(),
            forall|k: int|
                0 <= k < shares@.len() ==> (#[trigger] shares@[k]).party_index
                    < decryption_key.party_weights@.len(),
            keys@.len() <= slots@.len(),
            forall|i: int| 0 <= i < slots@.len() ==> (#[trigger] slots@[i]) < batch.batch_size,
            forall|i: int|
                0 <= i < keys@.len() ==> (#[trigger] keys@[i])@ == b[slots@[i] as int],
        decreases slots@.len() - keys@.len(),
    {
        let slot = slots[keys.len()];
        let row = match decryption_key.verification_power(slot + 1) {
            Ok(row) => row,
            Err(_) => {
                return false;
            },
        };
        proof {
            assert(picked(views(row@), parties@) =~= slot_keys(decryption_key, shares@, slot as int))
                by {
                assert forall|k: int| 0 <= k < count implies #[trigger] picked(
                    views(row@),
                    parties@,
                )[k] == slot_keys(decryption_key, shares@, slot as int)[k] by {
                    assert(shares@[k].party_index < decryption_key.party_weights@.len());
                    assert(parties@[k] == shares@[k].party_index);
                }
            }
        }
        keys.push(
            g1_multi_exp_affine_indexed(row.as_slice(), parties.as_slice(), scalars.as_slice()),
        );
    }
    let affine = batch_normalize_g1(&keys);
    proof {
        assert(views(affine@).len() == affine@.len());
        assert forall|i: int| 0 <= i < slots@.len() implies (#[trigger] affine@[i])@
            == b[slots@[i] as int] by {
            assert(views(affine@)[i] == keys@[i]@);
        }
    }
    let result = check_sigma(batch, &slots, affine, aggregate_sigma, Ghost(b));
    proof {
        lemma_aggregate(decryption_key, batch, shares@, c);
        lemma_reduce(dot(share_sigmas(shares@), c));
    }
    result
}

/// The powers of the secrets of the shares' parties for one slot.
pub open spec fn slot_keys(
    decryption_key: &PublicDecryptionKey,
    shares: Seq<DecryptionShare>,
    slot: int,
) -> Seq<int> {
    Seq::new(
        shares.len(),
        |k: int| decryption_key.verification_log(shares[k].party_index as int, slot + 1),
    )
}

/// For every slot, the weighted sum of the powers of the secrets of the shares' parties.
pub open spec fn aggregate_keys(
    decryption_key: &PublicDecryptionKey,
    shares: Seq<DecryptionShare>,
    c: Seq<int>,
) -> Seq<int> {
    Seq::new(
        decryption_key.max_batch_size as nat,
        |slot: int| dot(slot_keys(decryption_key, shares, slot), c) % order(),
    )
}

/// The weighted sum over the slots of the weighted sums over the shares is that
/// of what the shares should be.
proof fn lemma_aggregate(
    decryption_key: &PublicDecryptionKey,
    batch: &ValidatedBatch,
    shares: Seq<DecryptionShare>,
    c: Seq<int>,
)
    requires
        batch.wf(),
        batch.batch_size <= decryption_key.max_batch_size,
        c.len() == shares.len(),
    ensures
        cong(
            dot(batch.firsts(), aggregate_keys(decryption_key, shares, c)),
            dot(expected_sigmas(decryption_key, batch, shares), c),
        ),
{
    let a = batch.firsts();
    let b = aggregate_keys(decryption_key, shares, c);
    let e = expected_sigmas(decryption_key, batch, shares);
    let n = a.len() as int;
    let m = shares.len() as int;
    let t = |i: int, k: int| a[i] * (slot_keys(decryption_key, shares, i)[k] * c[k]);
    let rows = |i: int| sum(|k: int| t(i, k), 0, m);
    let columns = |k: int| sum(|i: int| t(i, k), 0, n);
    let outer = products(a, b);
    assert forall|i: int| 0 <= i < n implies cong(#[trigger] outer(i), rows(i)) by {
        let keys = slot_keys(decryption_key, shares, i);
        lemma_reduce(dot(keys, c));
        lemma_cong_mul(a[i], a[i], b[i], dot(keys, c));
        let row = |k: int| t(i, k);
        lemma_sum_scale(a[i], products(keys, c), row, 0, m);
    }
    lemma_sum_cong(outer, rows, 0, n);
    lemma_sum_swap(t, n, m);
    let target = products(e, c);
    assert forall|k: int| 0 <= k < m implies #[trigger] columns(k) == target(k) by {
        let logs = key_logs(decryption_key, shares[k].party_index as int);
        let column = |i: int| t(i, k);
        assert forall|i: int| 0 <= i < n implies #[trigger] column(i) == c[k] * products(a, logs)(
            i,
        ) by {
            let (x, y, z) = (a[i], logs[i], c[k]);
            assert(slot_keys(decryption_key, shares, i)[k] == y);
            assert(x * (y * z) == z * (x * y)) by (nonlinear_arith);
        }
        lemma_sum_scale(c[k], products(a, logs), column, 0, n);
        assert(columns(k) == sum(column, 0, n));
        assert(c[k] * e[k] == e[k] * c[k]) by (nonlinear_arith);
    }
    lemma_sum_ext(columns, target, 0, m);
}

/// Whether a party has a share.
pub open spec fn has_share(shares: Seq<DecryptionShare>, party: int) -> bool {
    exists|k: int| 0 <= k < shares.len() && (#[trigger] shares[k]).party_index == party
}

/// The share of a party.
pub open spec fn share_of(shares: Seq<DecryptionShare>, party: int) -> DecryptionShare {
    shares[choose|k: int| 0 <= k < shares.len() && (#[trigger] shares[k]).party_index == party]
}

/// The accepted shares of the parties before `party`, in the order of the parties.
pub open spec fn accepted_before(
    shares: Seq<DecryptionShare>,
    ok: spec_fn(DecryptionShare) -> bool,
    party: int,
) -> Seq<DecryptionShare>
    decreases party,
{
    if party <= 0 {
        Seq::empty()
    } else {
        let rest = accepted_before(shares, ok, party - 1);
        if has_share(shares, party - 1) && ok(share_of(shares, party - 1)) {
            rest.push(share_of(shares, party - 1))
        } else {
            rest
        }
    }
}

/// The parties before `party` whose shares are not accepted, in order.
pub open spec fn rejected_before(
    shares: Seq<DecryptionShare>,
    ok: spec_fn(DecryptionShare) -> bool,
    party: int,
) -> Seq<usize>
    decreases party,
{
    if party <= 0 {
        Seq::empty()
    } else {
        let rest = rejected_before(shares, ok, party - 1);
        if has_share(shares, party - 1) && !ok(share_of(shares, party - 1)) {
            rest.push((party - 1) as usize)
        } else {
            rest
        }
    }
}

/// The weight of the accepted shares of the parties before `party`.
pub open spec fn weight_before(
    party_weights: Seq<usize>,
    shares: Seq<DecryptionShare>,
    ok: spec_fn(DecryptionShare) -> bool,
    party: int,
) -> int
    decreases party,
{
    if party <= 0 {
        0
    } else {
        let rest = weight_before(party_weights, shares, ok, party - 1);
        if has_share(shares, party - 1) && ok(share_of(shares, party - 1)) {
            rest + party_weights[party - 1]
        } else {
            rest
        }
    }
}

/// Why share `i` is refused, where it is.
pub open spec fn share_defect(party_count: int, shares: Seq<DecryptionShare>, i: int) -> Option<
    Error,
> {
    let index = shares[i].party_index;
    if index >= party_count {
        Some(Error::InvalidPartyIndex(index))
    } else if exists|j: int| 0 <= j < i && (#[trigger] shares[j]).party_index == index {
        Some(Error::DuplicatePartyIndex(index))
    } else {
        None
    }
}

/// Why the first refused share, from `from` on, is refused.
pub open spec fn first_defect(party_count: int, shares: Seq<DecryptionShare>, from: int) -> Option<
    Error,
>
    decreases shares.len() - from,
{
    if from >= shares.len() {
        None
    } else {
        match share_defect(party_count, shares, from) {
            Some(error) => Some(error),
            None => first_defect(party_count, shares, from + 1),
        }
    }
}

/// Why a set of shares is refused before any of them is checked, where it is.
pub open spec fn shares_defect(
    decryption_key: &PublicDecryptionKey,
    batch: &ValidatedBatch,
    shares: Seq<DecryptionShare>,
) -> Option<Error> {
    let party_count = decryption_key.party_weights@.len() as int;
    if batch_size_defect(decryption_key, batch.batch_size) is Some {
        batch_size_defect(decryption_key, batch.batch_size)
    } else if batch.setup_id@ != decryption_key.setup_id@ {
        Some(Error::MismatchedSetup)
    } else if shares.len() > party_count {
        Some(
            Error::TooManyShares {
                supplied: shares.len() as usize,
                party_count: party_count as usize,
            },
        )
    } else {
        first_defect(party_count, shares, 0)
    }
}

/// Which shares are accepted: those made for this batch and setup, all of them
/// where they pass the check at once, else those that pass their own check.
pub open spec fn acceptance(
    decryption_key: &PublicDecryptionKey,
    batch: &ValidatedBatch,
    shares: Seq<DecryptionShare>,
    challenges: Seq<int>,
) -> spec_fn(DecryptionShare) -> bool {
    |share: DecryptionShare|
        is_candidate(decryption_key, batch, share) && (aggregate_holds(
            decryption_key,
            batch,
            shares,
            challenges,
        ) || passes(decryption_key, batch, share))
}

/// Whether an outcome is that of accepting the shares with the challenges: the
/// accepted shares in the order of their parties, or why there are none.
pub open spec fn is_acceptance(
    decryption_key: &PublicDecryptionKey,
    batch: &ValidatedBatch,
    shares: Seq<DecryptionShare>,
    challenges: Seq<int>,
    result: Result<AcceptedDecryptionShares>,
) -> bool {
    let ok = acceptance(decryption_key, batch, shares, challenges);
    let party_count = decryption_key.party_weights@.len() as int;
    let weight = weight_before(decryption_key.party_weights@, shares, ok, party_count);
    match shares_defect(decryption_key, batch, shares) {
        Some(defect) => result == Err::<AcceptedDecryptionShares, Error>(defect),
        None => match result {
            Ok(accepted) => {
                &&& weight > decryption_key.threshold_weight
                &&& accepted.setup_id@ == decryption_key.setup_id@
                &&& accepted.batch_size == batch.batch_size
                &&& accepted.digest@ == batch.digest@
                &&& accepted.accepted_weight == weight
                &&& accepted.shares@ == accepted_before(shares, ok, party_count)
                &&& accepted.rejected_parties@ == rejected_before(shares, ok, party_count)
            },
            Err(error) => {
                &&& weight <= decryption_key.threshold_weight
                &&& error matches Error::InsufficientWeight {
                    accepted,
                    required,
                    rejected_parties,
                } && accepted == weight && required == decryption_key.threshold_weight + 1
                    && rejected_parties@ == rejected_before(shares, ok, party_count)
            },
        },
    }
}

/// Whether a party's share, of those before `end`, stands at the place, or there is none.
spec fn is_place(place: Option<usize>, shares: Seq<DecryptionShare>, end: int, party: int) -> bool {
    if place is Some {
        place->0 < end && shares[place->0 as int].party_index == party
    } else {
        forall|k: int| 0 <= k < end ==> (#[trigger] shares[k]).party_index != party
    }
}

/// Where no two shares are of one party, a share is that of its party.
pub proof fn lemma_share_of(shares: Seq<DecryptionShare>, k: int)
    requires
        0 <= k < shares.len(),
        forall|i: int, j: int|
            0 <= i < j < shares.len() ==> (#[trigger] shares[i]).party_index != (
            #[trigger] shares[j]).party_index,
    ensures
        has_share(shares, shares[k].party_index as int),
        share_of(shares, shares[k].party_index as int) == shares[k],
{
    let party = shares[k].party_index as int;
    let other = choose|i: int| 0 <= i < shares.len() && (#[trigger] shares[i]).party_index == party;
    assert(shares[k].party_index == party);
    if other < k {
        assert(shares[other].party_index != shares[k].party_index);
    } else if k < other {
        assert(shares[k].party_index != shares[other].party_index);
    }
}

/// Accepts shares with the given challenges, one for each share.
pub fn accept_with_challenges(
    decryption_key: &PublicDecryptionKey,
    batch: &ValidatedBatch,
    shares: &[DecryptionShare],
    challenges: &Vec<Fr>,
) -> (result: Result<AcceptedDecryptionShares>)
    requires
        decryption_key.wf(),
        batch.wf(),
        challenges@.len() >= shares@.len(),
    ensures
        is_acceptance(decryption_key, batch, shares@, views(challenges@), result),
{
    validate_batch_size(decryption_key, batch.batch_size)?;
    if !bytes_equal(batch.setup_id.as_slice(), decryption_key.setup_id.as_slice()) {
        return Err(Error::MismatchedSetup);
    }
    let party_count = decryption_key.party_count();
    if shares.len() > party_count {
        return Err(Error::TooManyShares { supplied: shares.len(), party_count });
    }
    let ghost chs = views(challenges@);
    // Where the share of every party stands, and the scalars that weigh the shares.
    let mut places: Vec<Option<usize>> = Vec::new();
    while places.len() < party_count
        invariant
            places@.len() <= party_count,
            forall|p: int| 0 <= p < places@.len() ==> (#[trigger] places@[p]) is None,
        decreases party_count - places@.len(),
    {
        places.push(None);
    }
    let mut scalars: Vec<Fr> = Vec::new();
    while scalars.len() < shares.len()
        invariant
            party_count == decryption_key.party_weights@.len(),
            places@.len() == party_count,
            scalars@.len() <= shares@.len() <= challenges@.len(),
            chs == views(challenges@),
            batch_size_defect(decryption_key, batch.batch_size) is None,
            batch.setup_id@ == decryption_key.setup_id@,
            shares@.len() <= party_count,
            first_defect(party_count as int, shares@, 0) == first_defect(
                party_count as int,
                shares@,
                scalars@.len() as int,
            ),
            forall|k: int|
                0 <= k < scalars@.len() ==> (#[trigger] shares@[k]).party_index < party_count
                    && places@[shares@[k].party_index as int] == Some(k as usize),
            forall|p: int|
                0 <= p < party_count ==> is_place(
                    #[trigger] places@[p],
                    shares@,
                    scalars@.len() as int,
                    p,
                ),
            forall|k: int|
                0 <= k < scalars@.len() ==> (#[trigger] scalars@[k])@ == effective(
                    decryption_key,
                    batch,
                    shares@,
                    chs,
                )[k],
        decreases shares@.len() - scalars@.len(),
    {
        let index = scalars.len();
        let share = shares[index];
        assert(first_defect(party_count as int, shares@, index as int) == match share_defect(
            party_count as int,
            shares@,
            index as int,
        ) {
            Some(error) => Some(error),
            None => first_defect(party_count as int, shares@, index + 1),
        });
        if share.party_index >= party_count {
            return Err(Error::InvalidPartyIndex(share.party_index));
        }
        if places[share.party_index].is_some() {
            proof {
                let k = places@[share.party_index as int]->0 as int;
                assert(shares@[k].party_index == share.party_index);
            }
            return Err(Error::DuplicatePartyIndex(share.party_index));
        }
        places.set(share.party_index, Some(index));
        if bytes_equal(share.batch_digest.as_slice(), batch.digest.as_slice()) && bytes_equal(
            share.setup_id.as_slice(),
            decryption_key.setup_id.as_slice(),
        ) {
            scalars.push(challenges[index]);
        } else {
            scalars.push(Fr::zero());
        }
    }
    proof {
        assert(views(scalars@) =~= effective(decryption_key, batch, shares@, chs));
        assert forall|i: int, j: int| 0 <= i < j < shares@.len() implies (
        #[trigger] shares@[i]).party_index != (#[trigger] shares@[j]).party_index by {
            assert(places@[shares@[i].party_index as int] == Some(i as usize));
            assert(places@[shares@[j].party_index as int] == Some(j as usize));
        }
    }
    let ghost ok = acceptance(decryption_key, batch, shares@, chs);
    let aggregate_valid = verify_decryption_shares_batched(
        decryption_key,
        batch,
        shares,
        &scalars,
        Ghost(chs),
    );
    let mut accepted: Vec<DecryptionShare> = Vec::new();
    let mut rejected_parties: Vec<usize> = Vec::new();
    let mut accepted_weight: usize = 0;
    let mut party: usize = 0;
    while party < party_count
        invariant
            decryption_key.wf(),
            batch.wf(),
            party <= party_count == decryption_key.party_weights@.len(),
            batch_size_defect(decryption_key, batch.batch_size) is None,
            batch.setup_id@ == decryption_key.setup_id@,
            places@.len() == party_count,
            aggregate_valid == aggregate_holds(decryption_key, batch, shares@, chs),
            ok == acceptance(decryption_key, batch, shares@, chs),
            forall|p: int|
                0 <= p < party_count ==> is_place(
                    #[trigger] places@[p],
                    shares@,
                    shares@.len() as int,
                    p,
                ),
            forall|i: int, j: int|
                0 <= i < j < shares@.len() ==> (#[trigger] shares@[i]).party_index != (
                #[trigger] shares@[j]).party_index,
            accepted@ == accepted_before(shares@, ok, party as int),
            rejected_parties@ == rejected_before(shares@, ok, party as int),
            accepted_weight == weight_before(
                decryption_key.party_weights@,
                shares@,
                ok,
                party as int,
            ),
            accepted_weight <= offset(decryption_key.party_weights@, party as int),
        decreases party_count - party,
    {
        proof {
            lemma_offset_step(decryption_key.party_weights@, party as int);
            lemma_offset_order(
                decryption_key.party_weights@,
                party + 1,
                party_count as int,
            );
        }
        if let Some(place) = places[party] {
            let share = shares[place];
            proof {
                assert(places@[party as int] == Some(place));
                lemma_share_of(shares@, place as int);
            }
            let candidate = bytes_equal(
                share.batch_digest.as_slice(),
                batch.digest.as_slice(),
            ) && bytes_equal(share.setup_id.as_slice(), decryption_key.setup_id.as_slice());
            let is_accepted = if !candidate {
                false
            } else if aggregate_valid {
                true
            } else {
                match verify_decryption_share(decryption_key, batch, &share) {
                    Ok(valid) => valid,
                    Err(_) => false,
                }
            };
            assert(is_accepted == ok(share));
            if is_accepted {
                accepted.push(share);
                accepted_weight = accepted_weight + decryption_key.party_weights[party];
            } else {
                rejected_parties.push(party);
            }
        } else {
            assert(places@[party as int] is None);
        }
        party = party + 1;
    }
    if accepted_weight <= decryption_key.threshold_weight() {
        return Err(
            Error::InsufficientWeight {
                accepted: accepted_weight,
                required: decryption_key.required_weight(),
                rejected_parties,
            },
        );
    }
    Ok(
        AcceptedDecryptionShares {
            setup_id: decryption_key.setup_id(),
            batch_size: batch.batch_size,
            digest: batch.digest,
            accepted_weight,
            shares: accepted,
            rejected_parties,
        },
    )
}

/// Whether an outcome is that of accepting the shares with what a source drew: the challenges
/// are the draws that are not zero, and it fails only where they ran out.
pub open spec fn is_drawn_acceptance(
    decryption_key: &PublicDecryptionKey,
    batch: &ValidatedBatch,
    shares: Seq<DecryptionShare>,
    draws: Seq<int>,
    result: Result<AcceptedDecryptionShares>,
) -> bool {
    let challenges = kept(draws);
    ||| are_nonzero_draws(draws, shares.len() as int, None) && result == Err::<
        AcceptedDecryptionShares,
        Error,
    >(Error::SamplingFailed)
    ||| {
        &&& are_nonzero_draws(draws, shares.len() as int, Some(challenges))
        &&& forall|k: int|
            0 <= k < challenges.len() ==> 0 < #[trigger] challenges[k] < order()
        &&& is_acceptance(decryption_key, batch, shares, challenges, result)
    }
}

/// Whether an outcome is that of accepting the shares with challenges that the system's
/// source drew, none of them zero. A set that is refused unchecked is refused in any case.
pub open spec fn is_accept_outcome(
    decryption_key: &PublicDecryptionKey,
    batch: &ValidatedBatch,
    shares: Seq<DecryptionShare>,
    result: Result<AcceptedDecryptionShares>,
) -> bool {
    match shares_defect(decryption_key, batch, shares) {
        Some(defect) => result == Err::<AcceptedDecryptionShares, Error>(defect),
        None => exists|rng: SystemRng|
            is_drawn_acceptance(
                decryption_key,
                batch,
                shares,
                #[trigger] rng.scalar_record(),
                result,
            ),
    }
}

/// Why a set of shares is refused before any of them is checked, where it is.
fn refuse_shares(
    decryption_key: &PublicDecryptionKey,
    batch: &ValidatedBatch,
    shares: &[DecryptionShare],
) -> (result: Option<Error>)
    requires
        decryption_key.wf(),
        batch.wf(),
    ensures
        result == shares_defect(decryption_key, batch, shares@),
{
    if let Err(error) = validate_batch_size(decryption_key, batch.batch_size) {
        return Some(error);
    }
    if !bytes_equal(batch.setup_id.as_slice(), decryption_key.setup_id.as_slice()) {
        return Some(Error::MismatchedSetup);
    }
    let party_count = decryption_key.party_count();
    if shares.len() > party_count {
        return Some(Error::TooManyShares { supplied: shares.len(), party_count });
    }
    let mut seen: Vec<bool> = Vec::new();
    while seen.len() < party_count
        invariant
            seen@.len() <= party_count,
            forall|p: int| 0 <= p < seen@.len() ==> !#[trigger] seen@[p],
        decreases party_count - seen@.len(),
    {
        seen.push(false);
    }
    let mut index: usize = 0;
    while index < shares.len()
        invariant
            party_count == decryption_key.party_weights@.len(),
            seen@.len() == party_count,
            index <= shares@.len(),
            shares_defect(decryption_key, batch, shares@) == first_defect(
                party_count as int,
                shares@,
                index as int,
            ),
            forall|p: int|
                0 <= p < party_count ==> (#[trigger] seen@[p] <==> exists|j: int|
                    0 <= j < index && (#[trigger] shares@[j]).party_index == p),
        decreases shares@.len() - index,
    {
        let party_index = shares[index].party_index;
        assert(shares@[index as int].party_index == party_index);
        if party_index >= party_count {
            return Some(Error::InvalidPartyIndex(party_index));
        }
        if seen[party_index] {
            return Some(Error::DuplicatePartyIndex(party_index));
        }
        let ghost before = seen@;
        seen.set(party_index, true);
        index = index + 1;
        proof {
            assert forall|p: int| 0 <= p < party_count implies (#[trigger] seen@[p]
                <==> exists|j: int|
                0 <= j < index && (#[trigger] shares@[j]).party_index == p) by {
                assert(before[p] <==> exists|j: int|
                    0 <= j < index - 1 && (#[trigger] shares@[j]).party_index == p);
                if p == party_index {
                    assert(shares@[index - 1].party_index == p);
                }
            }
        }
    }
    None
}

/// Accepts the shares that were made for the batch and pass their check, in the
/// order of their parties. All are checked at once, with random challenges; where
/// that fails, one by one.
pub fn accept_decryption_shares(
    decryption_key: &PublicDecryptionKey,
    batch: &ValidatedBatch,
    shares: &[DecryptionShare],
) -> (result: Result<AcceptedDecryptionShares>)
    requires
        decryption_key.wf(),
        batch.wf(),
    ensures
        is_accept_outcome(decryption_key, batch, shares@, result),
{
    if let Some(error) = refuse_shares(decryption_key, batch, shares) {
        return Err(error);
    }
    let mut rng = SystemRng::new();
    let drawn = draw_nonzero(&mut rng, shares.len());
    let ghost draws = rng.scalar_record();
    proof {
        lemma_drawn_since_start(draws);
    }
    let challenges = match drawn {
        Some(challenges) => challenges,
        None => {
            assert(is_drawn_acceptance(
                decryption_key,
                batch,
                shares@,
                rng.scalar_record(),
                Err::<AcceptedDecryptionShares, Error>(Error::SamplingFailed),
            ));
            return Err(Error::SamplingFailed);
        },
    };
    proof {
        let chs = views(challenges@);
        assert forall|k: int| 0 <= k < chs.len() implies 0 < #[trigger] chs[k] < order() by {
            assert(challenges@[k]@ != 0);
            challenges@[k].lemma_range();
        }
    }
    let result = accept_with_challenges(decryption_key, batch, shares, &challenges);
    proof {
        assert(is_acceptance(decryption_key, batch, shares@, kept(draws), result));
        assert(is_drawn_acceptance(
            decryption_key,
            batch,
            shares@,
            rng.scalar_record(),
            result,
        ));
    }
    result
}

/// The virtual shares of parties.
pub open spec fn selected_of(decryption_key: &PublicDecryptionKey, parties: Seq<usize>) -> Seq<
    usize,
> {
    virtual_indices(decryption_key.party_weights@, parties)
}

/// The weights of the interpolation at zero from the virtual shares of parties.
pub open spec fn lambda_of(decryption_key: &PublicDecryptionKey, parties: Seq<usize>) -> Seq<int> {
    weights(
        selected_points(
            views(decryption_key.evaluation_domain@),
            selected_of(decryption_key, parties),
        ),
    )
}

/// All virtual shares over a power of their owners' secrets.
pub open spec fn negative_row(decryption_key: &PublicDecryptionKey, power: int) -> Seq<int> {
    Seq::new(
        decryption_key.total_weight as nat,
        |i: int| decryption_key.negative_log(i, power),
    )
}

/// The selected virtual shares times a power of their owners' secrets.
pub open spec fn positive_selection(
    decryption_key: &PublicDecryptionKey,
    parties: Seq<usize>,
    power: int,
) -> Seq<int> {
    Seq::new(
        selected_of(decryption_key, parties).len(),
        |k: int|
            decryption_key.positive_log(
                selected_of(decryption_key, parties)[k] as int,
                power,
            ),
    )
}

/// The opening key of the party at a position for a slot: the party's virtual
/// shares over the slot's power, each times its weight, added up.
pub open spec fn opening_key(
    decryption_key: &PublicDecryptionKey,
    parties: Seq<usize>,
    slot: int,
    position: int,
) -> int {
    let party = parties[position] as int;
    let party_weights = decryption_key.party_weights@;
    let start = position_offset(party_weights, parties, position);
    let begin = offset(party_weights, party);
    let count = party_weights[party];
    dot(
        negative_row(decryption_key, slot + 1).subrange(begin, begin + count),
        lambda_of(decryption_key, parties).subrange(start, start + count),
    ) % order()
}

pub open spec fn opening_table(decryption_key: &PublicDecryptionKey, parties: Seq<usize>) -> spec_fn(
    int,
    int,
) -> int {
    |slot: int, position: int| opening_key(decryption_key, parties, slot, position)
}

pub open spec fn opening_row(
    decryption_key: &PublicDecryptionKey,
    parties: Seq<usize>,
    slot: int,
) -> spec_fn(int) -> int {
    |position: int| opening_key(decryption_key, parties, slot, position)
}

/// The kernel of the middle product: nothing at zero, at `d` the sum of the
/// opening keys of slot `d - 1`, and at `-d` the selected virtual shares times
/// the power `d`, each times its weight, added up.
pub open spec fn prepared_kernel(
    decryption_key: &PublicDecryptionKey,
    parties: Seq<usize>,
    batch_size: int,
    transform_size: int,
) -> Seq<int> {
    Seq::new(
        transform_size as nat,
        |d: int|
            if 1 <= d < batch_size {
                sum(
                    opening_row(decryption_key, parties, d - 1),
                    0,
                    parties.len() as int,
                ) % order()
            } else if 1 <= transform_size - d < batch_size {
                dot(
                    positive_selection(decryption_key, parties, transform_size - d),
                    lambda_of(decryption_key, parties),
                ) % order()
            } else {
                0
            },
    )
}

impl DecryptionPrecomputation {
    /// What every precomputation satisfies.
    pub open spec fn wf(&self) -> bool {
        &&& 1 <= self.batch_size
        &&& 2 * self.batch_size <= self.transform_size
        &&& self.domain.wf()
        &&& self.domain.spec_size() == self.transform_size
        &&& self.transformed_kernel@.len() == self.transform_size
        &&& self.opening_keys@.len() == self.batch_size * self.party_indices@.len()
    }

    /// The kernel before it was transformed.
    pub open spec fn entries(&self) -> Seq<int> {
        kernel_entries(self.domain, views(self.transformed_kernel@))
    }

    /// The opening keys of a slot.
    pub open spec fn opening_logs(&self, slot: int) -> Seq<int> {
        Seq::new(
            self.party_indices@.len(),
            |p: int|
                cell(
                    views(self.opening_keys@),
                    self.party_indices@.len() as int,
                    slot,
                    p,
                ),
        )
    }

    /// Whether this was prepared for the parties, under a key, for a batch size.
    pub open spec fn is_prepared(
        &self,
        decryption_key: &PublicDecryptionKey,
        parties: Seq<usize>,
        batch_size: usize,
    ) -> bool {
        &&& self.wf()
        &&& self.setup_id@ == decryption_key.setup_id@
        &&& self.batch_size == batch_size
        &&& self.party_indices@ == parties
        &&& self.context_id@ == context_id_of(
            decryption_key.setup_id@,
            batch_size as int,
            parties,
        )
        &&& is_share_domain(self.transform_size as int, 2 * batch_size)
        &&& is_table(
            views(self.opening_keys@),
            parties.len() as int,
            batch_size as int,
            opening_table(decryption_key, parties),
        )
        &&& self.entries() == prepared_kernel(
            decryption_key,
            parties,
            batch_size as int,
            self.transform_size as int,
        )
    }
}

/// Whether an outcome is that of preparing for accepted shares.
pub open spec fn is_preparation(
    decryption_key: &PublicDecryptionKey,
    accepted: &AcceptedDecryptionShares,
    result: Result<DecryptionPrecomputation>,
) -> bool {
    let parties = share_parties(accepted.shares@);
    let unknown = first_unknown(parties, decryption_key.party_weights@.len() as int, 0);
    let selected = selected_of(decryption_key, parties);
    match batch_size_defect(decryption_key, accepted.batch_size) {
        Some(defect) => result == Err::<DecryptionPrecomputation, Error>(defect),
        None => if accepted.setup_id@ != decryption_key.setup_id@ {
            result == Err::<DecryptionPrecomputation, Error>(Error::MismatchedSetup)
        } else if accepted.accepted_weight <= decryption_key.threshold_weight {
            result matches Err(Error::InsufficientWeight {
                accepted: weight,
                required,
                rejected_parties,
            }) && weight == accepted.accepted_weight && required == decryption_key.threshold_weight
                + 1 && rejected_parties@.len() == 0
        } else if unknown is Some {
            result == Err::<DecryptionPrecomputation, Error>(Error::InvalidPartyIndex(unknown->0))
        } else if !is_selection(decryption_key.total_weight as int, selected) {
            result == Err::<DecryptionPrecomputation, Error>(Error::InvalidInterpolationSet)
        } else if accepted.batch_size * parties.len() > usize::MAX {
            result == Err::<DecryptionPrecomputation, Error>(
                Error::InvalidBatchSize(accepted.batch_size),
            )
        } else if !has_domain(2 * accepted.batch_size) {
            result matches Err(Error::InvalidBatchSize(size)) && is_transform_error(
                accepted.batch_size as int,
                size as int,
            )
        } else {
            result matches Ok(precomputation) && precomputation.accepted_weight
                == accepted.accepted_weight && precomputation.is_prepared(
                decryption_key,
                parties,
                accepted.batch_size,
            )
        },
    }
}

/// The opening keys of one slot.
fn opening_keys_for_slot(
    decryption_key: &PublicDecryptionKey,
    parties: &Vec<usize>,
    starts: &Vec<usize>,
    coefficients: &Vec<Fr>,
    slot: usize,
) -> (keys: Vec<G1>)
    requires
        decryption_key.wf(),
        slot < decryption_key.max_batch_size,
        forall|i: int|
            0 <= i < parties@.len() ==> (#[trigger] parties@[i])
                < decryption_key.party_weights@.len(),
        starts@.len() == parties@.len() + 1,
        forall|i: int|
            0 <= i <= parties@.len() ==> #[trigger] starts@[i] == position_offset(
                decryption_key.party_weights@,
                parties@,
                i,
            ),
        views(coefficients@) == lambda_of(decryption_key, parties@),
        coefficients@.len() == position_offset(
            decryption_key.party_weights@,
            parties@,
            parties@.len() as int,
        ),
    ensures
        keys@.len() == parties@.len(),
        forall|p: int|
            0 <= p < parties@.len() ==> (#[trigger] keys@[p])@ == opening_key(
                decryption_key,
                parties@,
                slot as int,
                p,
            ),
{
    let ghost party_weights = decryption_key.party_weights@;
    let points = match decryption_key.negative_power(slot + 1) {
        Ok(row) => row,
        Err(_) => Vec::new(),
    };
    let ghost logs = negative_row(decryption_key, slot + 1);
    assert(views(points@) =~= logs);
    let mut keys: Vec<G1> = Vec::new();
    let party_count = decryption_key.party_count();
    while keys.len() < parties.len()
        invariant
            decryption_key.wf(),
            party_count == decryption_key.party_weights@.len(),
            party_weights == decryption_key.party_weights@,
            forall|i: int|
                0 <= i < parties@.len() ==> (#[trigger] parties@[i]) < party_weights.len(),
            starts@.len() == parties@.len() + 1,
            forall|i: int|
                0 <= i <= parties@.len() ==> #[trigger] starts@[i] == position_offset(
                    party_weights,
                    parties@,
                    i,
                ),
            views(coefficients@) == lambda_of(decryption_key, parties@),
            coefficients@.len() == position_offset(
                party_weights,
                parties@,
                parties@.len() as int,
            ),
            points@.len() == decryption_key.total_weight,
            views(points@) == logs,
            logs == negative_row(decryption_key, slot + 1),
            keys@.len() <= parties@.len(),
            forall|p: int|
                0 <= p < keys@.len() ==> (#[trigger] keys@[p])@ == opening_key(
                    decryption_key,
                    parties@,
                    slot as int,
                    p,
                ),
        decreases parties@.len() - keys@.len(),
    {
        let position = keys.len();
        let party = parties[position];
        let begin = decryption_key.party_offsets[party];
        let end = decryption_key.party_offsets[party + 1];
        let start = starts[position];
        let stop = starts[position + 1];
        proof {
            lemma_offset_step(party_weights, party as int);
            lemma_offset_order(party_weights, party + 1, party_weights.len() as int);
            lemma_position_step(party_weights, parties@, position as int);
            lemma_position_order(party_weights, parties@, position + 1);
        }
        let bases = slice_subrange(points.as_slice(), begin, end);
        let scalars = slice_subrange(coefficients.as_slice(), start, stop);
        proof {
            assert(views(bases@) =~= logs.subrange(begin as int, end as int));
            assert(views(scalars@) =~= lambda_of(decryption_key, parties@).subrange(
                start as int,
                stop as int,
            ));
        }
        keys.push(g1_multi_exp_affine(bases, scalars));
    }
    keys
}

/// The sum of points.
fn sum_points(points: &Vec<G1>) -> (result: G1)
    ensures
        cong(result@, sum(|i: int| points@[i]@, 0, points@.len() as int)),
{
    let ghost f = |i: int| points@[i]@;
    let mut result = G1::zero();
    let mut index: usize = 0;
    while index < points.len()
        invariant
            index <= points@.len(),
            f == (|i: int| points@[i]@),
            cong(result@, sum(f, 0, index as int)),
        decreases points@.len() - index,
    {
        proof {
            let p = points@[index as int]@;
            lemma_cong_add(result@, sum(f, 0, index as int), p, p);
            lemma_reduce(result@ + p);
            assert(sum(f, 0, index + 1) == sum(f, 0, index as int) + f(index as int));
        }
        result = result.plus(points[index]);
        index = index + 1;
    }
    result
}

/// Builds what depends on the accepted parties and the batch size alone, which
/// can be used for every batch of that size and those parties.
pub fn prepare_decryption(
    decryption_key: &PublicDecryptionKey,
    accepted: &AcceptedDecryptionShares,
) -> (result: Result<DecryptionPrecomputation>)
    requires
        decryption_key.wf(),
    ensures
        is_preparation(decryption_key, accepted, result),
{
    validate_batch_size(decryption_key, accepted.batch_size)?;
    if !bytes_equal(accepted.setup_id.as_slice(), decryption_key.setup_id.as_slice()) {
        return Err(Error::MismatchedSetup);
    }
    if accepted.accepted_weight <= decryption_key.threshold_weight() {
        return Err(
            Error::InsufficientWeight {
                accepted: accepted.accepted_weight,
                required: decryption_key.required_weight(),
                rejected_parties: Vec::new(),
            },
        );
    }
    let batch_size = accepted.batch_size;
    let party_indices = accepted.party_indices();
    let ghost parties = party_indices@;
    let ghost party_weights = decryption_key.party_weights@;
    let context_id = decryption_context_id(
        decryption_key.setup_id(),
        batch_size,
        &party_indices,
    );
    let (selected, starts) = match select_virtual(
        &decryption_key.party_offsets,
        &party_indices,
        Ghost(party_weights),
    ) {
        Ok(found) => found,
        Err(party) => {
            return Err(Error::InvalidPartyIndex(party));
        },
    };
    proof {
        lemma_none_unknown(parties, party_weights.len() as int, 0);
        let size = decryption_key.domain_size as int;
        assert(views(decryption_key.evaluation_domain@).len()
            == decryption_key.evaluation_domain@.len());
        assert(views(decryption_key.evaluation_domain@) == root_points(
            size,
            views(decryption_key.evaluation_domain@).len() as int,
        ));
        assert(is_root_prefix(views(decryption_key.evaluation_domain@)));
    }
    let coefficients = match lagrange_at_zero(
        decryption_key.domain_points(),
        selected.as_slice(),
    ) {
        Some(coefficients) => coefficients,
        None => {
            return Err(Error::InvalidInterpolationSet);
        },
    };
    let ghost lambda = lambda_of(decryption_key, parties);
    proof {
        assert(views(coefficients@) == lambda);
        assert(views(coefficients@).len() == coefficients@.len());
        assert(parties.take(parties.len() as int) =~= parties);
    }
    if batch_size.checked_mul(party_indices.len()).is_none() {
        return Err(Error::InvalidBatchSize(batch_size));
    }
    let domain = match transform_domain(batch_size) {
        Ok(domain) => domain,
        Err(size) => {
            return Err(Error::InvalidBatchSize(size));
        },
    };
    let transform_size = domain.size();
    let ghost m = transform_size as int;
    let ghost target = prepared_kernel(decryption_key, parties, batch_size as int, m);
    let mut kernel: Vec<G1> = zeros(transform_size);
    let mut opening_keys: Vec<G1Point> = Vec::new();
    let mut slot: usize = 0;
    while slot < batch_size
        invariant
            decryption_key.wf(),
            parties == party_indices@,
            party_weights == decryption_key.party_weights@,
            slot <= batch_size <= decryption_key.max_batch_size,
            2 * batch_size <= m == transform_size == kernel@.len(),
            target == prepared_kernel(decryption_key, parties, batch_size as int, m),
            forall|i: int| 0 <= i < parties.len() ==> (#[trigger] parties[i]) < party_weights.len(),
            starts@.len() == parties.len() + 1,
            forall|i: int|
                0 <= i <= parties.len() ==> #[trigger] starts@[i] == position_offset(
                    party_weights,
                    parties,
                    i,
                ),
            views(coefficients@) == lambda_of(decryption_key, parties),
            coefficients@.len() == position_offset(party_weights, parties, parties.len() as int),
            is_table(
                views(opening_keys@),
                parties.len() as int,
                slot as int,
                opening_table(decryption_key, parties),
            ),
            forall|d: int|
                0 <= d < m ==> (#[trigger] kernel@[d])@ == (if 1 <= d <= slot && d < batch_size {
                    target[d]
                } else {
                    0
                }),
        decreases batch_size - slot,
    {
        let keys = opening_keys_for_slot(
            decryption_key,
            &party_indices,
            &starts,
            &coefficients,
            slot,
        );
        // The sum of a slot's opening keys is the kernel's entry for the next distance.
        if slot + 1 < batch_size {
            let entry = sum_points(&keys);
            proof {
                let f = |i: int| keys@[i]@;
                let g = opening_row(decryption_key, parties, slot as int);
                assert forall|p: int| 0 <= p < parties.len() implies #[trigger] f(p) == g(p) by {
                    assert(keys@[p]@ == opening_key(decryption_key, parties, slot as int, p));
                }
                lemma_sum_ext(f, g, 0, parties.len() as int);
                entry.lemma_range();
                lemma_reduced(entry@);
                assert(target[slot + 1] == entry@);
            }
            kernel.set(slot + 1, entry);
        }
        let affine = batch_normalize_g1(&keys);
        let ghost before = views(opening_keys@);
        append_points(&mut opening_keys, &affine);
        proof {
            let next = views(affine@);
            assert(next.len() == parties.len());
            assert forall|p: int| 0 <= p < parties.len() implies #[trigger] next[p]
                == opening_table(decryption_key, parties)(slot as int, p) by {
                assert(views(keys@)[p] == keys@[p]@);
            }
            lemma_table_push(
                before,
                next,
                parties.len() as int,
                slot as int,
                opening_table(decryption_key, parties),
            );
        }
        slot = slot + 1;
    }
    let mut distance: usize = 1;
    while distance < batch_size
        invariant
            decryption_key.wf(),
            parties == party_indices@,
            1 <= distance <= batch_size <= decryption_key.max_batch_size,
            2 * batch_size <= m == transform_size == kernel@.len(),
            target == prepared_kernel(decryption_key, parties, batch_size as int, m),
            selected@ == selected_of(decryption_key, parties),
            is_selection(decryption_key.total_weight as int, selected@),
            views(coefficients@) == lambda_of(decryption_key, parties),
            coefficients@.len() == selected@.len(),
            forall|d: int|
                0 <= d < m ==> (#[trigger] kernel@[d])@ == (if 1 <= d < batch_size || 1 <= m - d
                    < distance {
                    target[d]
                } else {
                    0
                }),
        decreases batch_size - distance,
    {
        let row = decryption_key.positive_power(distance)?;
        assert(picked(views(row@), selected@) =~= positive_selection(
            decryption_key,
            parties,
            distance as int,
        ));
        let entry = g1_multi_exp_affine_indexed(
            row.as_slice(),
            selected.as_slice(),
            coefficients.as_slice(),
        );
        assert(target[m - distance] == entry@);
        kernel.set(transform_size - distance, entry);
        distance = distance + 1;
    }
    assert(views(kernel@) =~= target);
    let transformed_kernel = transform_kernel_g1(&domain, kernel);
    proof {
        assert(views(opening_keys@).len() == opening_keys@.len());
    }
    Ok(
        DecryptionPrecomputation {
            setup_id: decryption_key.setup_id(),
            context_id,
            batch_size,
            accepted_weight: accepted.accepted_weight,
            party_indices,
            transform_size,
            domain,
            transformed_kernel,
            opening_keys,
        },
    )
}

/// What a precomputation and a batch that do not fit are refused with.
pub open spec fn precomputation_defect(
    precomputation: &DecryptionPrecomputation,
    batch: &ValidatedBatch,
) -> Option<Error> {
    if precomputation.batch_size != batch.batch_size {
        Some(
            Error::MismatchedBatchSize {
                expected: precomputation.batch_size,
                actual: batch.batch_size,
            },
        )
    } else if precomputation.setup_id@ != batch.setup_id@ {
        Some(Error::MismatchedSetup)
    } else {
        None
    }
}

fn ensure_precomputation_batch(
    precomputation: &DecryptionPrecomputation,
    batch: &ValidatedBatch,
) -> (result: Result<()>)
    ensures
        match result {
            Ok(()) => precomputation_defect(precomputation, batch) is None,
            Err(error) => precomputation_defect(precomputation, batch) == Some(error),
        },
{
    if precomputation.batch_size != batch.batch_size {
        return Err(
            Error::MismatchedBatchSize {
                expected: precomputation.batch_size,
                actual: batch.batch_size,
            },
        );
    }
    if !bytes_equal(precomputation.setup_id.as_slice(), batch.setup_id.as_slice()) {
        return Err(Error::MismatchedSetup);
    }
    Ok(())
}

/// The cross term of a slot: the sum, over all slots, of the first component
/// there times the kernel's entry at the distance; nothing where the slot is not valid.
pub open spec fn beta_of(
    precomputation: &DecryptionPrecomputation,
    batch: &ValidatedBatch,
    slot: int,
) -> int {
    if batch.valid@[slot] {
        cross_term(batch.firsts(), precomputation.entries(), slot) % order()
    } else {
        0
    }
}

/// The cross terms of all slots.
pub fn precompute_batch(
    precomputation: &DecryptionPrecomputation,
    batch: &ValidatedBatch,
) -> (result: Result<BatchPrecomputation>)
    requires
        precomputation.wf(),
        batch.wf(),
    ensures
        match result {
            Ok(cross) => {
                &&& precomputation_defect(precomputation, batch) is None
                &&& cross.context_id@ == precomputation.context_id@
                &&& cross.batch_size == batch.batch_size
                &&& cross.digest@ == batch.digest@
                &&& cross.beta@.len() == batch.batch_size
                &&& forall|i: int|
                    0 <= i < batch.batch_size ==> (#[trigger] cross.beta@[i])@ == beta_of(
                        precomputation,
                        batch,
                        i,
                    )
            },
            Err(error) => precomputation_defect(precomputation, batch) == Some(error),
        },
{
    ensure_precomputation_batch(precomputation, batch)?;
    proof {
        assert(views(batch.first_projective@).len() == batch.first_projective@.len());
    }
    let mut beta = cross_terms_swapped(
        &precomputation.domain,
        &batch.first_projective,
        &precomputation.transformed_kernel,
    );
    beta.truncate(batch.batch_size);
    let ghost full = beta@;
    let mut slot: usize = 0;
    while slot < batch.batch_size
        invariant
            batch.wf(),
            slot <= batch.batch_size == beta@.len() == full.len(),
            forall|i: int|
                0 <= i < batch.batch_size ==> (#[trigger] full[i])@ == cross_term(
                    batch.firsts(),
                    precomputation.entries(),
                    i,
                ) % order(),
            forall|i: int| slot <= i < batch.batch_size ==> #[trigger] beta@[i] == full[i],
            forall|i: int|
                0 <= i < slot ==> (#[trigger] beta@[i])@ == beta_of(precomputation, batch, i),
        decreases batch.batch_size - slot,
    {
        if !batch.valid[slot] {
            beta.set(slot, GtElement::zero());
        } else {
            assert(beta@[slot as int] == full[slot as int]);
        }
        slot = slot + 1;
    }
    Ok(
        BatchPrecomputation {
            context_id: precomputation.context_id,
            batch_size: batch.batch_size,
            digest: batch.digest,
            beta,
        },
    )
}

/// Why opening is refused, where it is.
pub open spec fn opening_defect(
    precomputation: &DecryptionPrecomputation,
    accepted: &AcceptedDecryptionShares,
    batch: &ValidatedBatch,
    ciphertexts: Seq<Ciphertext>,
    cross: &BatchPrecomputation,
) -> Option<Error> {
    if precomputation_defect(precomputation, batch) is Some {
        precomputation_defect(precomputation, batch)
    } else if accepted.batch_size != batch.batch_size {
        Some(
            Error::MismatchedBatchSize {
                expected: batch.batch_size,
                actual: accepted.batch_size,
            },
        )
    } else if accepted.digest@ != batch.digest@ {
        Some(Error::MismatchedBatchDigest)
    } else if ciphertexts.len() != batch.batch_size {
        Some(
            Error::MismatchedBatchSize {
                expected: batch.batch_size,
                actual: ciphertexts.len() as usize,
            },
        )
    } else if batch_digest_of(ciphertexts) != batch.digest@ {
        Some(Error::MismatchedBatchDigest)
    } else if cross.batch_size != batch.batch_size || cross.digest@ != batch.digest@ {
        Some(Error::MismatchedBatchDigest)
    } else if cross.context_id@ != precomputation.context_id@ {
        Some(Error::MismatchedCommittee)
    } else if accepted.setup_id@ != precomputation.setup_id@ {
        Some(Error::MismatchedSetup)
    } else if share_parties(accepted.shares@) != precomputation.party_indices@ {
        Some(Error::MismatchedCommittee)
    } else {
        None
    }
}

/// What a slot opens to: its second component, without the pairings of the
/// shares with their parties' opening keys, and with the slot's cross term.
pub open spec fn opened_log(second: int, opening: Seq<int>, sigmas: Seq<int>, beta: int) -> int {
    (second - dot(opening, sigmas) + beta) % order()
}

/// Whether an outcome is that of opening a batch.
pub open spec fn is_opening(
    precomputation: &DecryptionPrecomputation,
    accepted: &AcceptedDecryptionShares,
    batch: &ValidatedBatch,
    ciphertexts: Seq<Ciphertext>,
    cross: &BatchPrecomputation,
    result: Result<Vec<Option<GtElement>>>,
) -> bool {
    match result {
        Ok(opened) => {
            &&& opening_defect(precomputation, accepted, batch, ciphertexts, cross) is None
            &&& opened@.len() == batch.batch_size
            &&& forall|i: int|
                0 <= i < batch.batch_size ==> match #[trigger] opened@[i] {
                    Some(message) => batch.valid@[i] && message@ == opened_log(
                        ciphertexts[i].second@,
                        precomputation.opening_logs(i),
                        share_sigmas(accepted.shares@),
                        cross.beta@[i]@,
                    ),
                    None => !batch.valid@[i],
                }
        },
        Err(error) => opening_defect(precomputation, accepted, batch, ciphertexts, cross) == Some(
            error,
        ),
    }
}

/// Opens all valid slots of a batch.
pub fn open_batch(
    precomputation: &DecryptionPrecomputation,
    accepted: &AcceptedDecryptionShares,
    batch: &ValidatedBatch,
    ciphertexts: &[Ciphertext],
    cross: &BatchPrecomputation,
) -> (result: Result<Vec<Option<GtElement>>>)
    requires
        precomputation.wf(),
        batch.wf(),
        cross.beta@.len() == cross.batch_size,
    ensures
        is_opening(precomputation, accepted, batch, ciphertexts@, cross, result),
{
    ensure_precomputation_batch(precomputation, batch)?;
    if accepted.batch_size != batch.batch_size {
        return Err(
            Error::MismatchedBatchSize {
                expected: batch.batch_size,
                actual: accepted.batch_size,
            },
        );
    }
    if !bytes_equal(accepted.digest.as_slice(), batch.digest.as_slice()) {
        return Err(Error::MismatchedBatchDigest);
    }
    if ciphertexts.len() != batch.batch_size {
        return Err(
            Error::MismatchedBatchSize {
                expected: batch.batch_size,
                actual: ciphertexts.len(),
            },
        );
    }
    let ciphertexts_digest = batch_digest(ciphertexts);
    if !bytes_equal(ciphertexts_digest.as_slice(), batch.digest.as_slice()) {
        return Err(Error::MismatchedBatchDigest);
    }
    if cross.batch_size != batch.batch_size || !bytes_equal(
        cross.digest.as_slice(),
        batch.digest.as_slice(),
    ) {
        return Err(Error::MismatchedBatchDigest);
    }
    if !bytes_equal(cross.context_id.as_slice(), precomputation.context_id.as_slice()) {
        return Err(Error::MismatchedCommittee);
    }
    if !bytes_equal(accepted.setup_id.as_slice(), precomputation.setup_id.as_slice()) {
        return Err(Error::MismatchedSetup);
    }
    let accepted_indices = accepted.party_indices();
    if !numbers_equal(&accepted_indices, &precomputation.party_indices) {
        return Err(Error::MismatchedCommittee);
    }
    let mut sigmas: Vec<G2> = Vec::new();
    while sigmas.len() < accepted.shares.len()
        invariant
            sigmas@.len() <= accepted.shares@.len(),
            forall|k: int|
                0 <= k < sigmas@.len() ==> (#[trigger] sigmas@[k])@ == accepted.shares@[k].sigma@,
        decreases accepted.shares@.len() - sigmas@.len(),
    {
        sigmas.push(accepted.shares[sigmas.len()].sigma);
    }
    assert(views(sigmas@) =~= share_sigmas(accepted.shares@));
    let share_affine = batch_normalize_g2(&sigmas);
    let party_count = share_affine.len();
    proof {
        assert(views(share_affine@).len() == share_affine@.len());
        assert(share_parties(accepted.shares@).len() == accepted.shares@.len());
    }
    let mut opened: Vec<Option<GtElement>> = Vec::new();
    while opened.len() < batch.batch_size
        invariant
            precomputation.wf(),
            batch.wf(),
            precomputation.batch_size == batch.batch_size == ciphertexts@.len(),
            cross.beta@.len() == batch.batch_size,
            party_count == share_affine@.len() == precomputation.party_indices@.len(),
            views(share_affine@) == share_sigmas(accepted.shares@),
            opened@.len() <= batch.batch_size,
            forall|i: int|
                0 <= i < opened@.len() ==> match #[trigger] opened@[i] {
                    Some(message) => batch.valid@[i] && message@ == opened_log(
                        ciphertexts@[i].second@,
                        precomputation.opening_logs(i),
                        share_sigmas(accepted.shares@),
                        cross.beta@[i]@,
                    ),
                    None => !batch.valid@[i],
                },
        decreases batch.batch_size - opened@.len(),
    {
        let slot = opened.len();
        if batch.valid[slot] {
            let keys = crate::weighted_btx_swapped::setup::row(
                &precomputation.opening_keys,
                party_count,
                batch.batch_size,
                slot,
            );
            assert(views(keys@) =~= precomputation.opening_logs(slot as int));
            let alpha = multi_pairing(keys.as_slice(), share_affine.as_slice());
            let difference = ciphertexts[slot].second.minus(alpha);
            let message = difference.plus(cross.beta[slot]);
            proof {
                let s = slot as int;
                let d = dot(views(keys@), views(share_affine@));
                let second = ciphertexts@[s].second@;
                let beta = cross.beta@[s]@;
                lemma_reduce(d);
                lemma_cong_sub(second, second, alpha@, d);
                lemma_reduce(second - alpha@);
                lemma_cong_add(difference@, second - d, beta, beta);
            }
            opened.push(Some(message));
        } else {
            opened.push(None);
        }
    }
    Ok(opened)
}

/// Whether an outcome is that of all phases, one after the other.
pub open spec fn is_decryption(
    decryption_key: &PublicDecryptionKey,
    ciphertexts: Seq<Ciphertext>,
    shares: Seq<DecryptionShare>,
    result: Result<Vec<Option<GtElement>>>,
) -> bool {
    match batch_size_defect(decryption_key, ciphertexts.len() as usize) {
        Some(defect) => result == Err::<Vec<Option<GtElement>>, Error>(defect),
        None => exists|batch: ValidatedBatch, acceptance: Result<AcceptedDecryptionShares>|
            batch.is_batch_of(decryption_key.setup_id@, ciphertexts) && #[trigger]
                is_accept_outcome(decryption_key, &batch, shares, acceptance) && match acceptance {
                Err(error) => result == Err::<Vec<Option<GtElement>>, Error>(error),
                Ok(accepted) => is_finish(decryption_key, &accepted, &batch, ciphertexts, result),
            },
    }
}

/// Whether an outcome is that of the phases after acceptance.
pub open spec fn is_finish(
    decryption_key: &PublicDecryptionKey,
    accepted: &AcceptedDecryptionShares,
    batch: &ValidatedBatch,
    ciphertexts: Seq<Ciphertext>,
    result: Result<Vec<Option<GtElement>>>,
) -> bool {
    exists|preparation: Result<DecryptionPrecomputation>|
        #[trigger] is_preparation(decryption_key, accepted, preparation) && match preparation {
            Err(error) => result == Err::<Vec<Option<GtElement>>, Error>(error),
            Ok(fixed) => is_last_phase(&fixed, accepted, batch, ciphertexts, result),
        }
}

/// Whether an outcome is that of the phases after preparation.
pub open spec fn is_last_phase(
    fixed: &DecryptionPrecomputation,
    accepted: &AcceptedDecryptionShares,
    batch: &ValidatedBatch,
    ciphertexts: Seq<Ciphertext>,
    result: Result<Vec<Option<GtElement>>>,
) -> bool {
    exists|cross: BatchPrecomputation| #[trigger]
        is_crossed(fixed, accepted, batch, ciphertexts, result, &cross)
}

/// Whether an outcome is that of opening with the batch's cross terms.
pub open spec fn is_crossed(
    fixed: &DecryptionPrecomputation,
    accepted: &AcceptedDecryptionShares,
    batch: &ValidatedBatch,
    ciphertexts: Seq<Ciphertext>,
    result: Result<Vec<Option<GtElement>>>,
    cross: &BatchPrecomputation,
) -> bool {
    &&& cross.context_id@ == fixed.context_id@
    &&& cross.batch_size == batch.batch_size
    &&& cross.digest@ == batch.digest@
    &&& cross.beta@.len() == batch.batch_size
    &&& forall|i: int|
        0 <= i < batch.batch_size ==> (#[trigger] cross.beta@[i])@ == beta_of(fixed, batch, i)
    &&& is_opening(fixed, accepted, batch, ciphertexts, cross, result)
}

/// All phases, one after the other.
pub fn decrypt(
    decryption_key: &PublicDecryptionKey,
    ciphertexts: &[Ciphertext],
    shares: &[DecryptionShare],
) -> (result: Result<Vec<Option<GtElement>>>)
    requires
        decryption_key.wf(),
    ensures
        is_decryption(decryption_key, ciphertexts@, shares@, result),
{
    validate_batch_size(decryption_key, ciphertexts.len())?;
    let batch = validate_batch(decryption_key, ciphertexts)?;
    let acceptance = accept_decryption_shares(decryption_key, &batch, shares);
    let ghost acceptance_spec = acceptance;
    assert(is_accept_outcome(decryption_key, &batch, shares@, acceptance_spec));
    let accepted = match acceptance {
        Ok(accepted) => accepted,
        Err(error) => {
            return Err(error);
        },
    };
    let preparation = prepare_decryption(decryption_key, &accepted);
    let ghost preparation_spec = preparation;
    assert(is_preparation(decryption_key, &accepted, preparation_spec));
    let fixed = match preparation {
        Ok(fixed) => fixed,
        Err(error) => {
            assert(is_finish(
                decryption_key,
                &accepted,
                &batch,
                ciphertexts@,
                Err::<Vec<Option<GtElement>>, Error>(error),
            ));
            return Err(error);
        },
    };
    let cross = match precompute_batch(&fixed, &batch) {
        Ok(cross) => cross,
        Err(error) => {
            return Err(error);
        },
    };
    let result = open_batch(&fixed, &accepted, &batch, ciphertexts, &cross);
    proof {
        assert(is_crossed(&fixed, &accepted, &batch, ciphertexts@, result, &cross));
        assert(is_finish(decryption_key, &accepted, &batch, ciphertexts@, result));
    }
    result
}

/// The encodings of a batch, one after the other.
proof fn lemma_canonical_flat(ciphertexts: Seq<Ciphertext>)
    ensures
        canonical_all(ciphertexts) == ciphertexts.map_values(
            |c: Ciphertext| c.canonical(),
        ).flatten(),
    decreases ciphertexts.len(),
{
    let f = |c: Ciphertext| c.canonical();
    let items = ciphertexts.map_values(f);
    if ciphertexts.len() > 0 {
        lemma_canonical_flat(ciphertexts.drop_last());
        let rest = ciphertexts.drop_last().map_values(f);
        assert(items =~= rest.push(f(ciphertexts.last())));
        rest.lemma_flatten_push(f(ciphertexts.last()));
    } else {
        assert(items.flatten() =~= Seq::<u8>::empty());
    }
}

/// The identifier of a batch is the digest of its name, its length and the encodings of its
/// ciphertexts in their order.
pub proof fn law_batch_digest(ciphertexts: Seq<Ciphertext>)
    ensures
        batch_digest_of(ciphertexts) == sha256(
            "WEIGHTED-BTX-SWAPPED-ORDERED-BATCH-v1".spec_bytes()
                + le_bytes(ciphertexts.len() as int, 8)
                + ciphertexts.map_values(
                |c: Ciphertext| g2_compressed(c.first@) + gt_encoding(c.second@)
                    + g2_compressed(c.proof.commitment@) + le_bytes(c.proof.response@, 32),
            ).flatten(),
        ),
{
    lemma_canonical_flat(ciphertexts);
    assert(ciphertexts.map_values(|c: Ciphertext| c.canonical()) =~= ciphertexts.map_values(
        |c: Ciphertext| g2_compressed(c.first@) + gt_encoding(c.second@)
            + g2_compressed(c.proof.commitment@) + le_bytes(c.proof.response@, 32),
    ));
}

/// The identifier of a batch is the digest of some string, and that string determines the
/// batch: two batches are identified by the digest of the same string only where they are as
/// long and their ciphertexts, in their order, have the same components.
pub proof fn law_batch_digest_is_bound(a: Seq<Ciphertext>, b: Seq<Ciphertext>)
    requires
        a.len() < 0x1_0000_0000_0000_0000,
        b.len() < 0x1_0000_0000_0000_0000,
        forall|i: int| 0 <= i < a.len() ==> (#[trigger] a[i]).is_sized(),
        forall|i: int| 0 <= i < b.len() ==> (#[trigger] b[i]).is_sized(),
    ensures
        exists|s: Seq<u8>, t: Seq<u8>|
            {
                &&& batch_digest_of(a) == #[trigger] sha256(s)
                &&& batch_digest_of(b) == #[trigger] sha256(t)
                &&& s == t ==> a.len() == b.len() && forall|i: int|
                    #![trigger a[i]]
                    #![trigger b[i]]
                    0 <= i < a.len() ==> {
                            &&& g2_compressed(a[i].first@) == g2_compressed(b[i].first@)
                            &&& gt_encoding(a[i].second@) == gt_encoding(b[i].second@)
                            &&& g2_compressed(a[i].proof.commitment@)
                                == g2_compressed(b[i].proof.commitment@)
                            &&& a[i].proof.response@ == b[i].proof.response@
                    }
            },
{
    let tag = "WEIGHTED-BTX-SWAPPED-ORDERED-BATCH-v1".spec_bytes();
    let (la, lb) = (le_bytes(a.len() as int, 8), le_bytes(b.len() as int, 8));
    let s = tag + la + canonical_all(a);
    let t = tag + lb + canonical_all(b);
    if s == t {
        lemma_le_digits(a.len() as int, 8);
        lemma_le_digits(b.len() as int, 8);
        lemma_same_parts(tag + la, canonical_all(a), tag + lb, canonical_all(b));
        lemma_same_parts(tag, la, tag, lb);
        lemma_same_digits(a.len() as int, b.len() as int);
        lemma_canonical_flat(a);
        lemma_canonical_flat(b);
        let f = |c: Ciphertext| c.canonical();
        let (u, v) = (a.map_values(f), b.map_values(f));
        assert forall|i: int, x: Seq<u8>, y: Seq<u8>|
            0 <= i < u.len() && #[trigger] (u[i] + x) == #[trigger] (v[i]
                + y) implies u[i].len() == v[i].len() by {
            a[i].lemma_same_canonical(x, b[i], y);
        }
        lemma_same_items(u, v);
        assert forall|i: int|
            #![trigger a[i]]
            #![trigger b[i]]
            0 <= i < a.len() implies {
                &&& g2_compressed(a[i].first@) == g2_compressed(b[i].first@)
                &&& gt_encoding(a[i].second@) == gt_encoding(b[i].second@)
                &&& g2_compressed(a[i].proof.commitment@) == g2_compressed(b[i].proof.commitment@)
                &&& a[i].proof.response@ == b[i].proof.response@
            } by {
            assert(u[i] == v[i]);
            a[i].lemma_same_canonical(Seq::empty(), b[i], Seq::empty());
        }
    }
    assert(batch_digest_of(a) == sha256(s));
    assert(batch_digest_of(b) == sha256(t));
}

/// The identifier of a committee and a batch size is the digest of some string, and that
/// string determines the setup, the batch size and the parties.
pub proof fn law_context_id_is_bound(
    setup_a: Seq<u8>,
    size_a: int,
    parties_a: Seq<usize>,
    setup_b: Seq<u8>,
    size_b: int,
    parties_b: Seq<usize>,
)
    requires
        setup_a.len() == setup_b.len(),
        0 <= size_a < 0x1_0000_0000_0000_0000,
        0 <= size_b < 0x1_0000_0000_0000_0000,
        parties_a.len() < 0x1_0000_0000_0000_0000,
        parties_b.len() < 0x1_0000_0000_0000_0000,
    ensures
        exists|s: Seq<u8>, t: Seq<u8>|
            {
                &&& context_id_of(setup_a, size_a, parties_a) == #[trigger] sha256(s)
                &&& context_id_of(setup_b, size_b, parties_b) == #[trigger] sha256(t)
                &&& s == t ==> setup_a == setup_b && size_a == size_b && parties_a == parties_b
                &&& s == "WEIGHTED-BTX-SWAPPED-DECRYPTION-CONTEXT-v1".spec_bytes() + setup_a
                    + le_bytes(size_a, 8) + le_bytes(parties_a.len() as int, 8) + numbers_encoding(
                    parties_a,
                )
            },
{
    let tag = "WEIGHTED-BTX-SWAPPED-DECRYPTION-CONTEXT-v1".spec_bytes();
    let (ca, cb) = (le_bytes(size_a, 8), le_bytes(size_b, 8));
    let (na, nb) = (le_bytes(parties_a.len() as int, 8), le_bytes(parties_b.len() as int, 8));
    let (pa, pb) = (numbers_encoding(parties_a), numbers_encoding(parties_b));
    let s = tag + setup_a + ca + na + pa;
    let t = tag + setup_b + cb + nb + pb;
    if s == t {
        lemma_le_digits(size_a, 8);
        lemma_le_digits(size_b, 8);
        lemma_le_digits(parties_a.len() as int, 8);
        lemma_le_digits(parties_b.len() as int, 8);
        law_numbers_encoding(parties_a, parties_b);
        lemma_same_parts(tag + setup_a + ca + na, pa, tag + setup_b + cb + nb, pb);
        lemma_same_parts(tag + setup_a + ca, na, tag + setup_b + cb, nb);
        lemma_same_parts(tag + setup_a, ca, tag + setup_b, cb);
        lemma_same_parts(tag, setup_a, tag, setup_b);
        lemma_same_digits(size_a, size_b);
    }
    assert(context_id_of(setup_a, size_a, parties_a) == sha256(s));
    assert(context_id_of(setup_b, size_b, parties_b) == sha256(t));
}

/// A list of shares is refused at the first that no party of the committee has given, or whose
/// party has given one before it; where there is none, it is not refused.
pub proof fn law_first_share_that_is_refused(
    party_count: int,
    shares: Seq<DecryptionShare>,
    from: int,
)
    requires
        0 <= from <= shares.len(),
    ensures
        match first_defect(party_count, shares, from) {
            None => forall|i: int|
                #![trigger shares[i]]
                from <= i < shares.len() ==> {
                    &&& shares[i].party_index < party_count
                    &&& forall|j: int|
                        0 <= j < i ==> (#[trigger] shares[j]).party_index != shares[i].party_index
                },
            Some(error) => exists|i: int|
                #![trigger shares[i]]
                {
                    let index = shares[i].party_index;
                    &&& from <= i < shares.len()
                    &&& first_defect(party_count, shares.take(i), from) is None
                    &&& if index >= party_count {
                        error == Error::InvalidPartyIndex(index)
                    } else {
                        &&& error == Error::DuplicatePartyIndex(index)
                        &&& exists|j: int|
                            0 <= j < i && (#[trigger] shares[j]).party_index == index
                    }
                },
        },
    decreases shares.len() - from,
{
    if from < shares.len() {
        match share_defect(party_count, shares, from) {
            Some(error) => {
                assert(first_defect(party_count, shares.take(from), from) is None);
                assert(shares[from].party_index == shares[from].party_index);
            },
            None => {
                law_first_share_that_is_refused(party_count, shares, from + 1);
                match first_defect(party_count, shares, from + 1) {
                    Some(error) => {
                        let i = choose|i: int|
                            #![trigger shares[i]]
                            {
                                let index = shares[i].party_index;
                                &&& from + 1 <= i < shares.len()
                                &&& first_defect(party_count, shares.take(i), from + 1) is None
                                &&& if index >= party_count {
                                    error == Error::InvalidPartyIndex(index)
                                } else {
                                    &&& error == Error::DuplicatePartyIndex(index)
                                    &&& exists|j: int|
                                        0 <= j < i && (#[trigger] shares[j]).party_index == index
                                }
                            };
                        let before = shares.take(i);
                        assert(before[from] == shares[from]);
                        assert forall|j: int| 0 <= j < from implies #[trigger] before[j]
                            == shares[j] by {}
                        assert(share_defect(party_count, before, from) is None);
                        assert(first_defect(party_count, before, from) is None);
                    },
                    None => {},
                }
            },
        }
    }
}

/// A batch has at least one ciphertext and no more than the key is for.
pub proof fn law_accepted_batch_size(decryption_key: &PublicDecryptionKey, batch_size: usize)
    ensures
        batch_size_defect(decryption_key, batch_size) is None <==> 1 <= batch_size
            <= decryption_key.max_batch_size,
        batch_size_defect(decryption_key, batch_size) matches Some(error) ==> error == if batch_size
            == 0 {
            Error::BatchIsEmpty
        } else {
            Error::BatchTooLarge { batch_size, max_batch_size: decryption_key.max_batch_size }
        },
{
}

/// Shares are considered where the batch is one of the key's setup and size, there are no more
/// than parties, and they are from different parties of the committee, and only there.
pub proof fn law_considered_shares(
    decryption_key: &PublicDecryptionKey,
    batch: &ValidatedBatch,
    shares: Seq<DecryptionShare>,
)
    ensures
        shares_defect(decryption_key, batch, shares) is None <==> {
            &&& 1 <= batch.batch_size <= decryption_key.max_batch_size
            &&& batch.setup_id@ == decryption_key.setup_id@
            &&& shares.len() <= decryption_key.party_weights@.len()
            &&& forall|i: int|
                #![trigger shares[i]]
                0 <= i < shares.len() ==> {
                    &&& shares[i].party_index < decryption_key.party_weights@.len()
                    &&& forall|j: int|
                        0 <= j < i ==> (#[trigger] shares[j]).party_index != shares[i].party_index
                }
        },
{
    law_first_share_that_is_refused(decryption_key.party_weights@.len() as int, shares, 0);
}

/// A batch is opened where everything is of its setup, its size and its digest, and the
/// accepted shares are those of the committee that was prepared for: nothing else is refused.
pub proof fn law_accepted_opening(
    precomputation: &DecryptionPrecomputation,
    accepted: &AcceptedDecryptionShares,
    batch: &ValidatedBatch,
    ciphertexts: Seq<Ciphertext>,
    cross: &BatchPrecomputation,
)
    ensures
        opening_defect(precomputation, accepted, batch, ciphertexts, cross) is None <==> {
            &&& precomputation.batch_size == batch.batch_size
            &&& accepted.batch_size == batch.batch_size
            &&& cross.batch_size == batch.batch_size
            &&& ciphertexts.len() == batch.batch_size
            &&& precomputation.setup_id@ == batch.setup_id@
            &&& accepted.setup_id@ == batch.setup_id@
            &&& accepted.digest@ == batch.digest@
            &&& cross.digest@ == batch.digest@
            &&& batch_digest_of(ciphertexts) == batch.digest@
            &&& cross.context_id@ == precomputation.context_id@
            &&& accepted.shares@.len() == precomputation.party_indices@.len()
            &&& forall|k: int|
                0 <= k < accepted.shares@.len() ==> (#[trigger] accepted.shares@[k]).party_index
                    == precomputation.party_indices@[k]
        },
{
    let parties = share_parties(accepted.shares@);
    assert(parties.len() == accepted.shares@.len());
    if parties.len() == precomputation.party_indices@.len() && (forall|k: int|
        0 <= k < accepted.shares@.len() ==> (#[trigger] accepted.shares@[k]).party_index
            == precomputation.party_indices@[k]) {
        assert(parties =~= precomputation.party_indices@);
    }
    if parties == precomputation.party_indices@ {
        assert forall|k: int|
            0 <= k < accepted.shares@.len() implies (#[trigger] accepted.shares@[k]).party_index
            == precomputation.party_indices@[k] by {
            assert(parties[k] == precomputation.party_indices@[k]);
        }
    }
}

/// Shares that are not considered have the fault that they are refused for.
pub proof fn law_refused_shares(
    decryption_key: &PublicDecryptionKey,
    batch: &ValidatedBatch,
    shares: Seq<DecryptionShare>,
)
    ensures
        ({
            let parties = decryption_key.party_weights@.len();
            match shares_defect(decryption_key, batch, shares) {
                None => true,
                Some(Error::BatchIsEmpty) => batch.batch_size == 0,
                Some(Error::BatchTooLarge { batch_size, max_batch_size }) => batch_size
                    == batch.batch_size && max_batch_size == decryption_key.max_batch_size
                    && batch_size > max_batch_size,
                Some(Error::MismatchedSetup) => batch.setup_id@ != decryption_key.setup_id@,
                Some(Error::TooManyShares { supplied, party_count }) => shares.len() > parties
                    && supplied == shares.len() as usize && party_count == parties as usize,
                Some(Error::InvalidPartyIndex(index)) => index >= parties && exists|i: int|
                    0 <= i < shares.len() && (#[trigger] shares[i]).party_index == index,
                Some(Error::DuplicatePartyIndex(index)) => exists|i: int, j: int|
                    0 <= i < j < shares.len() && (#[trigger] shares[i]).party_index == index && (
                    #[trigger] shares[j]).party_index == index,
                Some(_) => false,
            }
        }),
{
    law_first_share_that_is_refused(decryption_key.party_weights@.len() as int, shares, 0);
}

/// An opening that is refused has the fault that it is refused for.
pub proof fn law_refused_opening(
    precomputation: &DecryptionPrecomputation,
    accepted: &AcceptedDecryptionShares,
    batch: &ValidatedBatch,
    ciphertexts: Seq<Ciphertext>,
    cross: &BatchPrecomputation,
)
    requires
        ciphertexts.len() <= usize::MAX,
    ensures
        match opening_defect(precomputation, accepted, batch, ciphertexts, cross) {
            None => true,
            Some(Error::MismatchedBatchSize { expected, actual }) => {
                &&& expected != actual
                &&& {
                    ||| expected == precomputation.batch_size && actual == batch.batch_size
                    ||| expected == batch.batch_size && actual == accepted.batch_size
                    ||| expected == batch.batch_size && actual == ciphertexts.len()
                }
            },
            Some(Error::MismatchedSetup) => precomputation.setup_id@ != batch.setup_id@
                || accepted.setup_id@ != precomputation.setup_id@,
            Some(Error::MismatchedBatchDigest) => accepted.digest@ != batch.digest@
                || batch_digest_of(ciphertexts) != batch.digest@ || cross.digest@ != batch.digest@
                || cross.batch_size != batch.batch_size,
            Some(Error::MismatchedCommittee) => cross.context_id@ != precomputation.context_id@
                || share_parties(accepted.shares@) != precomputation.party_indices@,
            Some(_) => false,
        },
{
}

/// What is prepared for a committee carries the identifier of the setup, the batch size and the
/// parties.
pub proof fn law_preparation_carries_its_context(
    precomputation: &DecryptionPrecomputation,
    decryption_key: &PublicDecryptionKey,
    parties: Seq<usize>,
    batch_size: usize,
)
    requires
        precomputation.is_prepared(decryption_key, parties, batch_size),
    ensures
        precomputation.setup_id@ == decryption_key.setup_id@,
        precomputation.batch_size == batch_size,
        precomputation.party_indices@ == parties,
        precomputation.context_id@ == context_id_of(
            decryption_key.setup_id@,
            batch_size as int,
            parties,
        ),
{
}

/// Terms are computed ahead for a batch where what was prepared is for its size and its setup,
/// and only there; a wrong size is named first.
pub proof fn law_accepted_precomputation(
    precomputation: &DecryptionPrecomputation,
    batch: &ValidatedBatch,
)
    ensures
        precomputation_defect(precomputation, batch) is None <==> precomputation.batch_size
            == batch.batch_size && precomputation.setup_id@ == batch.setup_id@,
        precomputation_defect(precomputation, batch) matches Some(error) ==> error == if
            precomputation.batch_size != batch.batch_size {
            Error::MismatchedBatchSize {
                expected: precomputation.batch_size,
                actual: batch.batch_size,
            }
        } else {
            Error::MismatchedSetup
        },
{
}

} // verus!
