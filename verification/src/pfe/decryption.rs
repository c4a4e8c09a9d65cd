//! Validation of batches, threshold decryption, the convolutions and opening.
use vstd::arithmetic::power::{lemma_pow_multiplies, pow};
use vstd::arithmetic::power2::{lemma_pow2_pos, pow2};
use vstd::prelude::*;
use vstd::string::StringSliceAdditionalSpecFns;

use crate::algebra::dft::dft;
use crate::algebra::fractions::{
    lemma_twice_root, lemma_weighted_convolution, reciprocal_sum, weighted_item,
};
use crate::algebra::lagrange::weights;
use crate::algebra::residue::{
    cong, inv, is_unit, lemma_cong_add, lemma_cong_diff, lemma_cong_mul, lemma_cong_pow,
    lemma_cong_sub, lemma_inv, lemma_inv_unique, lemma_one, lemma_order, lemma_pow_one,
    lemma_reduce, lemma_reduced, lemma_unit_cong, lemma_unit_factor, lemma_unit_mul, lemma_unit_neg,
    lemma_unit_pow, order,
};
use crate::algebra::roots::{
    lemma_domain_root, lemma_root_period, lemma_root_unit, lemma_size_unit, lemma_two_unit,
};
use crate::algebra::sums::{dot, lemma_sum_ext, products, sum};
use crate::bytes::{
    append, append_u64, bytes_equal, le_bytes, lemma_le_digits, lemma_same_digits, lemma_same_parts,
};
use crate::curve::{
    g1_compressed, multi_pairing, pair, views, Element, Fr, G1Point, G2Point, GtElement, SystemRng,
    G1, G2,
};
use crate::encoding::lemma_same_items;
use crate::fft::{
    is_domain_size, lemma_domain_limit, lemma_size_root, scale, size_root, Radix2Domain,
};
use crate::hash::{digest, gt_encoding, sha256};
use crate::pfe::dleq::{
    batch_accepts, law_batch_accepts_valid_proofs, law_one_bad_proof_is_refused, verify_batch,
    verify_batch_with_weights, DleqProof,
};
use crate::pfe::encryption::Ciphertext;
use crate::pfe::error::{Error, Result};
use crate::pfe::laws::{
    are_distinct, are_honest, lemma_honest_shares_are_valid, lemma_honest_shares_combine,
    lemma_recoverable, lemma_recovery,
};
use crate::pfe::setup::{
    extra_index_data, index_points, slot_labels, tails_fit, EncryptionKey, KeyMaterial,
    KeygenConfig, PublicDecryptionKey, ServerSecretKey,
};
use crate::points::{append_points, batch_normalize_g2, g2_elements};
use crate::polynomial::lagrange_at_zero;
use crate::sampling::{
    are_nonzero_draws, kept, law_kept_draws, law_only_zeros_exhaust_a_source,
    lemma_drawn_since_start,
};
use crate::small::SmallMultiple;

verus! {

/// An ordered batch.
#[derive(Clone, Debug)]
pub struct ValidatedBatch {
    pub batch_size: usize,
    pub digest: [u8; 32],
    pub first_affine: Vec<G1Point>,
    pub first_projective: Vec<G1>,
    pub second_projective: Vec<G1>,
}

/// The precomputation for a key.
#[derive(Clone, Debug)]
pub struct PartialFractionKernel {
    pub batch_size: usize,
    pub domain: Radix2Domain,
    pub frequency_coefficients: Vec<i64>,
    pub gamma_inverse_small: i64,
    /// Twice the batch size times the factor of the second component.
    pub scaled_s1: Vec<Fr>,
    /// The slots' fractions over twice the batch size.
    pub scaled_fraction_keys: Vec<G2Point>,
    pub scaled_generators: Vec<G2Point>,
    /// What the first component is paired with in each slot.
    pub final_mixes: Vec<G2Point>,
}

/// The convolutions of one batch.
#[derive(Clone, Debug)]
pub struct BatchPrecomputation {
    pub batch_size: usize,
    pub digest: [u8; 32],
    pub weighted_first: Vec<G1>,
    pub weighted_pairings: Vec<GtElement>,
}

#[derive(Clone, Copy, Debug)]
pub struct DecryptionShare {
    pub server_index: usize,
    pub pre_decryption_key: G1,
    pub batch_digest: [u8; 32],
}

impl DecryptionShare {
    /// Whether this is what the server with the given key makes of a batch: the
    /// sum of the first components, each times the server's share for its slot.
    pub open spec fn is_share_of(
        self,
        server_key: &ServerSecretKey,
        batch: &ValidatedBatch,
    ) -> bool {
        &&& self.server_index == server_key.server_index
        &&& self.batch_digest@ == batch.digest@
        &&& self.pre_decryption_key@ == dot(
            views(batch.first_projective@),
            views(server_key.fraction_shares@),
        ) % order()
    }
}

/// The canonical encodings of ciphertexts, one after the other.
pub open spec fn canonical_all(ciphertexts: Seq<Ciphertext>) -> Seq<u8>
    decreases ciphertexts.len(),
{
    if ciphertexts.len() == 0 {
        Seq::empty()
    } else {
        canonical_all(ciphertexts.drop_last()) + ciphertexts.last().canonical()
    }
}

/// The digest of an ordered batch.
pub open spec fn batch_digest_of(ciphertexts: Seq<Ciphertext>) -> Seq<u8> {
    sha256(
        "PFE-ORDERED-BATCH-BLS12381-v1".spec_bytes() + le_bytes(ciphertexts.len() as int, 8)
            + canonical_all(ciphertexts),
    )
}

fn batch_digest(ciphertexts: &[Ciphertext]) -> (result: [u8; 32])
    ensures
        result@ == batch_digest_of(ciphertexts@),
{
    let mut bytes: Vec<u8> = Vec::new();
    append(&mut bytes, "PFE-ORDERED-BATCH-BLS12381-v1".as_bytes());
    append_u64(&mut bytes, ciphertexts.len() as u64);
    let ghost header = "PFE-ORDERED-BATCH-BLS12381-v1".spec_bytes()
        + le_bytes(ciphertexts@.len() as int, 8);
    let mut index: usize = 0;
    proof {
        assert(bytes@ =~= header + canonical_all(ciphertexts@.take(0)));
    }
    while index < ciphertexts.len()
        invariant
            index <= ciphertexts@.len(),
            bytes@ == header + canonical_all(ciphertexts@.take(index as int)),
        decreases ciphertexts@.len() - index,
    {
        ciphertexts[index].append_canonical(&mut bytes);
        index = index + 1;
        proof {
            let now = ciphertexts@.take(index as int);
            assert(now.drop_last() =~= ciphertexts@.take(index - 1));
            assert(now.last() == ciphertexts@[index - 1]);
            assert(bytes@ =~= header + canonical_all(now));
        }
    }
    assert(ciphertexts@.take(index as int) =~= ciphertexts@);
    digest(bytes.as_slice())
}

/// The first components of ciphertexts.
pub open spec fn first_logs(ciphertexts: Seq<Ciphertext>) -> Seq<int> {
    Seq::new(ciphertexts.len(), |i: int| ciphertexts[i].first@)
}

/// The second components of ciphertexts.
pub open spec fn second_logs(ciphertexts: Seq<Ciphertext>) -> Seq<int> {
    Seq::new(ciphertexts.len(), |i: int| ciphertexts[i].second@)
}

/// The proofs of ciphertexts.
pub open spec fn proofs_of(ciphertexts: Seq<Ciphertext>) -> Seq<DleqProof> {
    Seq::new(ciphertexts.len(), |i: int| ciphertexts[i].proof)
}

/// Whether the proofs of ciphertexts hold together, weighted with `weights`.
pub open spec fn proofs_hold(
    encryption_key: &EncryptionKey,
    ciphertexts: Seq<Ciphertext>,
    weights: Seq<int>,
) -> bool {
    batch_accepts(
        encryption_key.relation_base@,
        first_logs(ciphertexts),
        second_logs(ciphertexts),
        proofs_of(ciphertexts),
        weights,
    )
}

/// Whether weights are the ones that proofs are checked with: one for each
/// ciphertext, none of them zero.
pub open spec fn are_weights(weights: Seq<int>, count: int) -> bool {
    &&& weights.len() == count
    &&& forall|i: int| 0 <= i < weights.len() ==> 0 < #[trigger] weights[i] < order()
}

/// Why ciphertexts are no batch for a key, where they are none.
pub open spec fn count_defect(encryption_key: &EncryptionKey, count: int) -> Option<Error> {
    if count == 0 {
        Some(Error::BatchIsEmpty)
    } else if count != encryption_key.batch_size {
        Some(
            Error::MismatchedBatchSize {
                expected: encryption_key.batch_size,
                actual: count as usize,
            },
        )
    } else {
        None
    }
}

/// Whether an outcome is that of checking a batch's proofs with random weights. A
/// batch of valid ciphertexts is never refused for its proofs.
pub open spec fn is_validation(
    encryption_key: &EncryptionKey,
    ciphertexts: Seq<Ciphertext>,
    result: Result<ValidatedBatch>,
) -> bool {
    match count_defect(encryption_key, ciphertexts.len() as int) {
        Some(error) => result == Err::<ValidatedBatch, Error>(error),
        None => {
            &&& match result {
                Ok(batch) => batch.is_batch_of(ciphertexts) && exists|weights: Seq<int>|
                    are_weights(weights, ciphertexts.len() as int) && #[trigger] proofs_hold(
                        encryption_key,
                        ciphertexts,
                        weights,
                    ),
                Err(Error::InvalidProof) => {
                    &&& exists|weights: Seq<int>|
                        are_weights(weights, ciphertexts.len() as int) && !#[trigger] proofs_hold(
                            encryption_key,
                            ciphertexts,
                            weights,
                        )
                    &&& exists|i: int|
                        0 <= i < ciphertexts.len() && !(#[trigger] ciphertexts[i]).is_valid(
                            encryption_key,
                        )
                },
                Err(error) => error == Error::SamplingFailed,
            }
            &&& exists|rng: SystemRng|
                is_drawn_validation(
                    encryption_key,
                    ciphertexts,
                    #[trigger] rng.scalar_record(),
                    result,
                )
        },
    }
}

/// Whether an outcome is that of checking a batch's proofs with what a source drew: the
/// weights are the draws that are not zero, and it fails only where they ran out.
pub open spec fn is_drawn_validation(
    encryption_key: &EncryptionKey,
    ciphertexts: Seq<Ciphertext>,
    draws: Seq<int>,
    result: Result<ValidatedBatch>,
) -> bool {
    let count = ciphertexts.len() as int;
    match result {
        Ok(_) => are_nonzero_draws(draws, count, Some(kept(draws))) && proofs_hold(
            encryption_key,
            ciphertexts,
            kept(draws),
        ),
        Err(Error::InvalidProof) => are_nonzero_draws(draws, count, Some(kept(draws)))
            && !proofs_hold(encryption_key, ciphertexts, kept(draws)),
        Err(_) => are_nonzero_draws(draws, count, None),
    }
}

impl ValidatedBatch {
    /// What every batch satisfies.
    pub open spec fn wf(&self) -> bool {
        &&& 1 <= self.batch_size
        &&& self.first_affine@.len() == self.batch_size
        &&& self.first_projective@.len() == self.batch_size
        &&& self.second_projective@.len() == self.batch_size
        &&& views(self.first_affine@) == views(self.first_projective@)
    }

    /// Whether this is the batch of the ciphertexts.
    pub open spec fn is_batch_of(&self, ciphertexts: Seq<Ciphertext>) -> bool {
        &&& self.wf()
        &&& self.batch_size == ciphertexts.len()
        &&& self.digest@ == batch_digest_of(ciphertexts)
        &&& views(self.first_projective@) == first_logs(ciphertexts)
        &&& views(self.second_projective@) == second_logs(ciphertexts)
    }

    /// The ordered batch, with the proofs checked together.
    pub fn verify(encryption_key: &EncryptionKey, ciphertexts: &[Ciphertext]) -> (result: Result<
        Self,
    >)
        ensures
            is_validation(encryption_key, ciphertexts@, result),
    {
        Self::from_ciphertexts(encryption_key, ciphertexts, true)
    }

    /// The ordered batch, for ciphertexts whose proofs were checked before.
    pub fn proofs_preverified(encryption_key: &EncryptionKey, ciphertexts: &[Ciphertext]) -> (result:
        Result<Self>)
        ensures
            match result {
                Ok(batch) => count_defect(encryption_key, ciphertexts@.len() as int) is None
                    && batch.is_batch_of(ciphertexts@),
                Err(error) => count_defect(encryption_key, ciphertexts@.len() as int) == Some(
                    error,
                ),
            },
    {
        Self::from_ciphertexts(encryption_key, ciphertexts, false)
    }

    /// The ordered batch, with the proofs checked together, weighted with `weights`.
    pub fn verify_with_weights(
        encryption_key: &EncryptionKey,
        ciphertexts: &[Ciphertext],
        weights: &Vec<Fr>,
    ) -> (result: Result<Self>)
        requires
            weights@.len() == ciphertexts@.len(),
        ensures
            match count_defect(encryption_key, ciphertexts@.len() as int) {
                Some(error) => result == Err::<Self, Error>(error),
                None => match result {
                    Ok(batch) => batch.is_batch_of(ciphertexts@) && proofs_hold(
                        encryption_key,
                        ciphertexts@,
                        views(weights@),
                    ),
                    Err(error) => error == Error::InvalidProof && !proofs_hold(
                        encryption_key,
                        ciphertexts@,
                        views(weights@),
                    ),
                },
            },
    {
        let batch = match Self::proofs_preverified(encryption_key, ciphertexts) {
            Ok(batch) => batch,
            Err(error) => {
                return Err(error);
            },
        };
        let mut proofs: Vec<DleqProof> = Vec::new();
        while proofs.len() < ciphertexts.len()
            invariant
                proofs@ == proofs_of(ciphertexts@.take(proofs@.len() as int)),
                proofs@.len() <= ciphertexts@.len(),
            decreases ciphertexts@.len() - proofs@.len(),
        {
            proofs.push(ciphertexts[proofs.len()].proof);
            assert(proofs@ =~= proofs_of(ciphertexts@.take(proofs@.len() as int)));
        }
        assert(ciphertexts@.take(proofs@.len() as int) =~= ciphertexts@);
        if verify_batch_with_weights(
            encryption_key.relation_base,
            &batch.first_projective,
            &batch.second_projective,
            &proofs,
            weights,
        ) {
            Ok(batch)
        } else {
            Err(Error::InvalidProof)
        }
    }

    fn from_ciphertexts(
        encryption_key: &EncryptionKey,
        ciphertexts: &[Ciphertext],
        verify_proofs: bool,
    ) -> (result: Result<Self>)
        ensures
            verify_proofs ==> is_validation(encryption_key, ciphertexts@, result),
            !verify_proofs ==> match result {
                Ok(batch) => count_defect(encryption_key, ciphertexts@.len() as int) is None
                    && batch.is_batch_of(ciphertexts@),
                Err(error) => count_defect(encryption_key, ciphertexts@.len() as int) == Some(
                    error,
                ),
            },
    {
        if ciphertexts.len() == 0 {
            return Err(Error::BatchIsEmpty);
        }
        if ciphertexts.len() != encryption_key.batch_size {
            return Err(
                Error::MismatchedBatchSize {
                    expected: encryption_key.batch_size,
                    actual: ciphertexts.len(),
                },
            );
        }
        let mut first_affine: Vec<G1Point> = Vec::new();
        let mut first_projective: Vec<G1> = Vec::new();
        let mut second_projective: Vec<G1> = Vec::new();
        let mut proofs: Vec<DleqProof> = Vec::new();
        while first_affine.len() < ciphertexts.len()
            invariant
                first_affine@.len() == first_projective@.len() == second_projective@.len()
                    == proofs@.len() <= ciphertexts@.len(),
                forall|i: int|
                    0 <= i < first_affine@.len() ==> (#[trigger] first_affine@[i])@
                        == ciphertexts@[i].first@,
                forall|i: int|
                    0 <= i < first_affine@.len() ==> (#[trigger] first_projective@[i])@
                        == ciphertexts@[i].first@,
                forall|i: int|
                    0 <= i < first_affine@.len() ==> (#[trigger] second_projective@[i])@
                        == ciphertexts@[i].second@,
                forall|i: int|
                    0 <= i < first_affine@.len() ==> #[trigger] proofs@[i]
                        == ciphertexts@[i].proof,
            decreases ciphertexts@.len() - first_affine@.len(),
        {
            let ciphertext = ciphertexts[first_affine.len()];
            first_affine.push(ciphertext.first);
            first_projective.push(G1::from_affine(ciphertext.first));
            second_projective.push(G1::from_affine(ciphertext.second));
            proofs.push(ciphertext.proof);
        }
        proof {
            assert(views(first_affine@) =~= first_logs(ciphertexts@));
            assert(views(first_projective@) =~= first_logs(ciphertexts@));
            assert(views(second_projective@) =~= second_logs(ciphertexts@));
            assert(proofs@ =~= proofs_of(ciphertexts@));
        }
        if verify_proofs {
            let mut rng = SystemRng::new();
            let accepted = match verify_batch(
                encryption_key.relation_base,
                &first_projective,
                &second_projective,
                &proofs,
                &mut rng,
            ) {
                Some(accepted) => accepted,
                None => {
                    proof {
                        lemma_drawn_since_start(rng.scalar_record());
                        assert(is_drawn_validation(
                            encryption_key,
                            ciphertexts@,
                            rng.scalar_record(),
                            Err::<ValidatedBatch, Error>(Error::SamplingFailed),
                        ));
                    }
                    return Err(Error::SamplingFailed);
                },
            };
            let ghost draws = rng.scalar_record();
            proof {
                lemma_drawn_since_start(draws);
                let weights = kept(draws);
                assert(are_weights(weights, ciphertexts@.len() as int));
                assert(accepted == proofs_hold(encryption_key, ciphertexts@, weights));
                lemma_valid_ciphertexts(encryption_key, ciphertexts@, weights);
            }
            if !accepted {
                assert(is_drawn_validation(
                    encryption_key,
                    ciphertexts@,
                    rng.scalar_record(),
                    Err::<ValidatedBatch, Error>(Error::InvalidProof),
                ));
                return Err(Error::InvalidProof);
            }
            assert(forall|batch: ValidatedBatch|
                is_drawn_validation(encryption_key, ciphertexts@, draws, Ok(batch)));
        }
        Ok(
            ValidatedBatch {
                batch_size: ciphertexts.len(),
                digest: batch_digest(ciphertexts),
                first_affine,
                first_projective,
                second_projective,
            },
        )
    }

    pub fn batch_size(&self) -> (result: usize)
        ensures
            result == self.batch_size,
    {
        self.batch_size
    }

    pub fn digest(&self) -> (result: [u8; 32])
        ensures
            result == self.digest,
    {
        self.digest
    }
}

/// Where the proofs do not hold together, one of the ciphertexts is not valid.
proof fn lemma_valid_ciphertexts(
    encryption_key: &EncryptionKey,
    ciphertexts: Seq<Ciphertext>,
    weights: Seq<int>,
)
    ensures
        proofs_hold(encryption_key, ciphertexts, weights) || exists|i: int|
            0 <= i < ciphertexts.len() && !(#[trigger] ciphertexts[i]).is_valid(encryption_key),
{
    if forall|i: int|
        0 <= i < ciphertexts.len() ==> (#[trigger] ciphertexts[i]).is_valid(encryption_key) {
        let proofs = proofs_of(ciphertexts);
        let (a, b) = (first_logs(ciphertexts), second_logs(ciphertexts));
        let base = encryption_key.relation_base@;
        assert forall|i: int| 0 <= i < proofs.len() implies (#[trigger] proofs[i]).accepts(
            base,
            a[i],
            b[i],
        ) by {
            assert(ciphertexts[i].is_valid(encryption_key));
        }
        law_batch_accepts_valid_proofs(base, a, b, proofs, weights);
    }
}

/// The ordered batch, with the proofs checked together.
pub fn validate_batch(encryption_key: &EncryptionKey, ciphertexts: &[Ciphertext]) -> (result:
    Result<ValidatedBatch>)
    ensures
        is_validation(encryption_key, ciphertexts@, result),
{
    ValidatedBatch::from_ciphertexts(encryption_key, ciphertexts, true)
}

/// The root of unity of the inverse transform of a size.
pub open spec fn inverse_root(size: int) -> int {
    inv(size_root(size))
}

/// An item of the weighted convolution: with `n` items, `2 n (c z - 1)` times the
/// sum of the other items, each over one minus its root of unity over `z`, where `z`
/// is the item's root of unity.
pub open spec fn weighted_log(values: Seq<int>, c: int, j: int) -> int {
    let n = values.len() as int;
    (2 * n) * ((c * pow(size_root(n), j as nat) - 1) * reciprocal_sum(
        inverse_root(n),
        n,
        values,
        j,
    ))
}

/// Whether the coefficients are those that the spectrum is weighted with: one less
/// than the size, falling by two.
pub open spec fn are_frequency_coefficients(coefficients: Seq<i64>, size: int) -> bool {
    &&& coefficients.len() == size
    &&& forall|k: int| 0 <= k < size ==> #[trigger] coefficients[k] == size - 1 - 2 * k
}

fn frequency_coefficients_of(batch_size: usize) -> (coefficients: Vec<i64>)
    requires
        batch_size <= 0x1_0000_0000,
    ensures
        are_frequency_coefficients(coefficients@, batch_size as int),
{
    let mut coefficients: Vec<i64> = Vec::new();
    while coefficients.len() < batch_size
        invariant
            coefficients@.len() <= batch_size <= 0x1_0000_0000,
            forall|k: int|
                0 <= k < coefficients@.len() ==> #[trigger] coefficients@[k] == batch_size - 1 - 2
                    * k,
        decreases batch_size - coefficients@.len(),
    {
        coefficients.push(batch_size as i64 - 1 - 2 * (coefficients.len() as i64));
    }
    coefficients
}

/// The weighted convolution of group elements: a transform, small multiples of the
/// spectrum, and a transform back.
pub fn weighted_convolution_group<E: SmallMultiple>(
    domain: &Radix2Domain,
    frequency_coefficients: &Vec<i64>,
    gamma_inverse_small: i64,
    values: Vec<E>,
) -> (result: Vec<E>)
    requires
        domain.wf(),
        domain.spec_size() == values@.len(),
        are_frequency_coefficients(frequency_coefficients@, domain.spec_size()),
    ensures
        result@.len() == values@.len(),
        forall|j: int|
            0 <= j < values@.len() ==> (#[trigger] result@[j])@ == weighted_log(
                views(values@),
                gamma_inverse_small as int,
                j,
            ) % order(),
{
    let ghost a = views(values@);
    let ghost n = values@.len() as int;
    let ghost w = size_root(n);
    let ghost c = gamma_inverse_small as int;
    let size = values.len();
    let mut spectrum = values;
    domain.fft(&mut spectrum);
    let mut weighted: Vec<E> = Vec::new();
    while weighted.len() < size
        invariant
            n == size == a.len() == spectrum@.len() == frequency_coefficients@.len(),
            are_frequency_coefficients(frequency_coefficients@, n),
            forall|k: int|
                0 <= k < n ==> (#[trigger] spectrum@[k])@ == dft(a, w, k) % order(),
            weighted@.len() <= size,
            forall|k: int|
                0 <= k < weighted@.len() ==> cong(
                    (#[trigger] weighted@[k])@,
                    weighted_item(a, w, k),
                ),
        decreases size - weighted@.len(),
    {
        let index = weighted.len();
        proof {
            let k = index as int;
            let (e, d) = (frequency_coefficients@[k] as int, dft(a, w, k));
            lemma_reduce(d);
            lemma_cong_mul(spectrum@[k]@, d, e, e);
            lemma_reduce(spectrum@[k]@ * e);
            assert(d * e == e * d) by (nonlinear_arith);
        }
        weighted.push(spectrum[index].times_small(frequency_coefficients[index]));
    }
    let mut remapped: Vec<E> = Vec::new();
    while remapped.len() < size
        invariant
            n == size == a.len() == weighted@.len(),
            c == gamma_inverse_small,
            forall|k: int|
                0 <= k < n ==> cong((#[trigger] weighted@[k])@, weighted_item(a, w, k)),
            remapped@.len() <= size,
            forall|k: int|
                0 <= k < remapped@.len() ==> cong(
                    (#[trigger] remapped@[k])@,
                    c * weighted_item(a, w, (k + 1) % n) - weighted_item(a, w, k),
                ),
        decreases size - remapped@.len(),
    {
        let index = remapped.len();
        let next: usize = if index + 1 == size {
            0
        } else {
            index + 1
        };
        proof {
            let k = index as int;
            if k + 1 < n {
                vstd::arithmetic::div_mod::lemma_small_mod((k + 1) as nat, n as nat);
            } else {
                vstd::arithmetic::div_mod::lemma_mod_self_0(n);
            }
            assert(next == (k + 1) % n);
            let (x, y) = (weighted@[next as int]@, weighted@[k]@);
            let (s, t) = (weighted_item(a, w, next as int), weighted_item(a, w, k));
            lemma_cong_mul(x, s, c, c);
            lemma_reduce(x * c);
            assert(s * c == c * s) by (nonlinear_arith);
            lemma_cong_sub((x * c) % order(), c * s, y, t);
            lemma_reduce((x * c) % order() - y);
        }
        remapped.push(weighted[next].times_small(gamma_inverse_small).minus(weighted[index]));
    }
    let ghost items = views(remapped@);
    domain.ifft_unscaled(&mut remapped);
    proof {
        domain.lemma_domain();
        let v = domain.inverse_root();
        let log = choose|log: nat| log <= 32 && n == #[trigger] pow2(log);
        lemma_inv_unique(w, v);
        lemma_reduced(v);
        assert forall|k: int| 0 <= k < n implies cong(
            #[trigger] items[k],
            c * weighted_item(a, w, (k + 1) % n) - weighted_item(a, w, k),
        ) by {}
        assert forall|j: int| 0 <= j < n implies (#[trigger] remapped@[j])@ == weighted_log(
            a,
            c,
            j,
        ) % order() by {
            lemma_weighted_convolution(a, items, w, v, c, log, j);
        }
    }
    remapped
}

/// The weighted convolution in the target group.
pub fn weighted_convolution_gt(
    domain: &Radix2Domain,
    frequency_coefficients: &Vec<i64>,
    gamma_inverse_small: i64,
    values: Vec<GtElement>,
) -> (result: Vec<GtElement>)
    requires
        domain.wf(),
        domain.spec_size() == values@.len(),
        are_frequency_coefficients(frequency_coefficients@, domain.spec_size()),
    ensures
        result@.len() == values@.len(),
        forall|j: int|
            0 <= j < values@.len() ==> (#[trigger] result@[j])@ == weighted_log(
                views(values@),
                gamma_inverse_small as int,
                j,
            ) % order(),
{
    weighted_convolution_group(domain, frequency_coefficients, gamma_inverse_small, values)
}

/// The coefficient by which a slot's own fraction enters: with label `z` and `n`
/// slots, `(n + 1) / (2 z) + 1 / (z - 1/2)`.
pub open spec fn opening_coefficient(z: int, n: int) -> int {
    inv(z) * ((n + 1) * inv(2)) + inv(z - inv(2))
}

/// The slots' fractions over twice the batch size.
pub open spec fn scaled_keys(decryption_key: &PublicDecryptionKey) -> Seq<int> {
    Seq::new(
        decryption_key.batch_size as nat,
        |j: int|
            (decryption_key.fraction_keys@[j]@ * inv(2 * decryption_key.batch_size)) % order(),
    )
}

/// Twice the batch size times `z (2 z - 1)`, for a slot's label `z`.
pub open spec fn scaled_factor(z: int, n: int) -> int {
    (2 * n) * (z * (2 * z - 1))
}

/// What the first component is paired with in a slot.
pub open spec fn final_mix(decryption_key: &PublicDecryptionKey, j: int) -> int {
    let n = decryption_key.batch_size as int;
    let z = slot_labels(n)[j];
    let keys = scaled_keys(decryption_key);
    weighted_log(keys, 2, j) - decryption_key.fraction_key_sum@ * (2 * z) - keys[j] * (
    scaled_factor(z, n) * opening_coefficient(z, n))
}

impl PartialFractionKernel {
    /// What every kernel satisfies.
    pub open spec fn wf(&self) -> bool {
        &&& self.domain.wf()
        &&& self.domain.spec_size() == self.batch_size
        &&& are_frequency_coefficients(self.frequency_coefficients@, self.batch_size as int)
        &&& self.gamma_inverse_small == 2
        &&& self.scaled_s1@.len() == self.batch_size
        &&& self.scaled_fraction_keys@.len() == self.batch_size
        &&& self.scaled_generators@.len() == self.batch_size
        &&& self.final_mixes@.len() == self.batch_size
    }

    /// Whether this is the kernel of a key.
    pub open spec fn is_kernel_of(&self, decryption_key: &PublicDecryptionKey) -> bool {
        let n = self.batch_size as int;
        &&& self.wf()
        &&& self.batch_size == decryption_key.batch_size
        &&& forall|j: int|
            0 <= j < n ==> (#[trigger] self.scaled_s1@[j])@ == scaled_factor(slot_labels(n)[j], n)
                % order()
        &&& forall|j: int|
            0 <= j < n ==> (#[trigger] self.scaled_fraction_keys@[j])@ == scaled_keys(
                decryption_key,
            )[j]
        &&& forall|j: int|
            0 <= j < n ==> (#[trigger] self.scaled_generators@[j])@ == (2 * slot_labels(n)[j])
                % order()
        &&& forall|j: int|
            0 <= j < n ==> (#[trigger] self.final_mixes@[j])@ == final_mix(decryption_key, j)
                % order()
    }

    pub fn batch_size(&self) -> (result: usize)
        ensures
            result == self.batch_size,
    {
        self.batch_size
    }
}

/// The slots' labels are units, and so is their distance from one half.
pub proof fn lemma_labels(n: int, j: int)
    requires
        is_domain_size(n),
        0 <= j < n,
    ensures
        is_unit(slot_labels(n)[j]),
        is_unit(slot_labels(n)[j] - inv(2)),
        !cong(slot_labels(n)[j] - inv(2), 0),
        is_unit(2),
        is_unit(n),
        is_unit(2 * n),
        0 <= slot_labels(n)[j] < order(),
{
    let log = choose|log: nat| log <= 32 && n == #[trigger] pow2(log);
    let w = size_root(n);
    let z = slot_labels(n)[j];
    lemma_size_root(log);
    lemma_domain_root(log);
    lemma_pow2_pos(log);
    lemma_root_unit(w, n);
    lemma_unit_pow(w, j as nat);
    lemma_reduce(pow(w, j as nat));
    lemma_unit_cong(pow(w, j as nat), z);
    lemma_two_unit();
    lemma_size_unit(log);
    lemma_unit_mul(2, n);
    // the label is a root of unity itself
    lemma_cong_pow(z, pow(w, j as nat), n as nat);
    lemma_pow_multiplies(w, j as nat, n as nat);
    lemma_pow_multiplies(w, n as nat, j as nat);
    assert(j * n == n * j) by (nonlinear_arith);
    lemma_root_period(w, n);
    lemma_cong_pow(pow(w, n as nat), 1, j as nat);
    lemma_pow_one(j as nat);
    lemma_twice_root(z, log);
    // 2 (z - 1/2) is 2 z - 1
    lemma_inv(2);
    lemma_unit_neg(1 - 2 * z);
    lemma_cong_sub(2 * z, 2 * z, 1, 2 * inv(2));
    lemma_unit_cong(-(1 - 2 * z), 2 * (z - inv(2)));
    lemma_unit_factor(2, z - inv(2));
    lemma_inv(z - inv(2));
    lemma_inv_unique(z - inv(2), inv(z - inv(2)));
}

/// The inverse of a unit, by the scalar's own inversion.
fn inverse_of(scalar: Fr) -> (result: Fr)
    requires
        is_unit(scalar@),
    ensures
        result@ == inv(scalar@),
{
    proof {
        lemma_inv(scalar@);
        lemma_inv_unique(scalar@, inv(scalar@));
        lemma_one();
        scalar.lemma_range();
        lemma_reduced(scalar@);
    }
    match scalar.invert() {
        Some(inverse) => {
            proof {
                lemma_inv_unique(scalar@, inverse@);
                inverse.lemma_range();
                lemma_reduced(inverse@);
            }
            inverse
        },
        None => scalar,
    }
}

/// The opening coefficients of all slots.
fn opening_coefficients_of(batch_size: usize, points: &Vec<Fr>, gamma: Fr) -> (coefficients: Vec<
    Fr,
>)
    requires
        is_domain_size(batch_size as int),
        views(points@) == slot_labels(batch_size as int),
        gamma@ == inv(2),
    ensures
        coefficients@.len() == batch_size,
        forall|j: int|
            0 <= j < batch_size ==> (#[trigger] coefficients@[j])@ == opening_coefficient(
                slot_labels(batch_size as int)[j],
                batch_size as int,
            ) % order(),
{
    let ghost n = batch_size as int;
    let ghost labels = slot_labels(n);
    proof {
        lemma_domain_limit(n);
        lemma_order();
        assert(views(points@).len() == points@.len());
    }
    let half_b_plus_one = Fr::from_u64(batch_size as u64 + 1).times(gamma);
    proof {
        lemma_reduced(n + 1);
    }
    let mut inverses: Vec<Fr> = Vec::new();
    while inverses.len() < batch_size
        invariant
            n == batch_size == points@.len(),
            labels == views(points@),
            gamma@ == inv(2),
            inverses@.len() <= batch_size,
            forall|j: int|
                0 <= j < inverses@.len() ==> (#[trigger] inverses@[j])@ == (labels[j] - inv(2))
                    % order(),
        decreases batch_size - inverses@.len(),
    {
        inverses.push(points[inverses.len()].minus(gamma));
    }
    let ghost differences = inverses@;
    Fr::batch_invert(&mut inverses);
    let mut coefficients: Vec<Fr> = Vec::new();
    while coefficients.len() < batch_size
        invariant
            n == batch_size == points@.len() == inverses@.len() == differences.len(),
            is_domain_size(n),
            labels == views(points@),
            labels == slot_labels(n),
            half_b_plus_one@ == ((n + 1) * inv(2)) % order(),
            forall|j: int|
                0 <= j < n ==> (#[trigger] differences[j])@ == (labels[j] - inv(2)) % order(),
            forall|j: int|
                0 <= j < n ==> if differences[j]@ == 0 {
                    (#[trigger] inverses@[j])@ == 0
                } else {
                    (differences[j]@ * inverses@[j]@) % order() == 1
                },
            coefficients@.len() <= batch_size,
            forall|j: int|
                0 <= j < coefficients@.len() ==> (#[trigger] coefficients@[j])@
                    == opening_coefficient(labels[j], n) % order(),
        decreases batch_size - coefficients@.len(),
    {
        let index = coefficients.len();
        proof {
            let j = index as int;
            let z = labels[j];
            lemma_labels(n, j);
            lemma_one();
            let d = differences[j]@;
            let inverse = inverses@[j]@;
            lemma_reduce(z - inv(2));
            assert(d != 0);
            lemma_inv_unique(d, inverse);
            inverses@[j].lemma_range();
            lemma_reduced(inverse);
            lemma_unit_cong(d, z - inv(2));
            assert(inverse == inv(z - inv(2)));
        }
        let product = inverse_of(points[index]).times(half_b_plus_one);
        proof {
            let z = labels[index as int];
            let half = (n + 1) * inv(2);
            lemma_reduce(half);
            lemma_cong_mul(inv(z), inv(z), half_b_plus_one@, half);
            lemma_reduce(inv(z) * half_b_plus_one@);
            let inverse = inverses@[index as int]@;
            lemma_cong_add(product@, inv(z) * half, inverse, inverse);
        }
        coefficients.push(product.plus(inverses[index]));
    }
    coefficients
}

/// The points of one slot.
struct SlotKernel {
    scaled_s1: Fr,
    scaled_generator: G2,
    final_mix: G2,
}

/// What the kernel holds for one slot.
fn slot_kernel(
    batch_size: usize,
    point: Fr,
    gamma_inverse: Fr,
    two_b: Fr,
    opening_coefficient: Fr,
    scaled_key: G2,
    weighted_key: G2,
    key_sum: G2,
    Ghost(coefficient): Ghost<int>,
    Ghost(weighted): Ghost<int>,
) -> (slot: SlotKernel)
    requires
        gamma_inverse@ == 2,
        cong(two_b@, 2 * batch_size),
        opening_coefficient@ == coefficient % order(),
        weighted_key@ == weighted % order(),
    ensures
        slot.scaled_s1@ == scaled_factor(point@, batch_size as int) % order(),
        slot.scaled_generator@ == (2 * point@) % order(),
        slot.final_mix@ == (weighted - key_sum@ * (2 * point@) - scaled_key@ * (scaled_factor(
            point@,
            batch_size as int,
        ) * coefficient)) % order(),
{
    let s2 = point.times(gamma_inverse);
    let q = s2.minus(Fr::one());
    let s1 = point.times(q);
    let s1_bar = two_b.times(s1);
    let ghost z = point@;
    let ghost n = batch_size as int;
    proof {
        assert(z * 2 == 2 * z);
        lemma_reduce(2 * z);
        lemma_cong_sub(s2@, 2 * z, 1, 1);
        lemma_reduce(s2@ - 1);
        lemma_cong_mul(z, z, q@, 2 * z - 1);
        lemma_reduce(z * q@);
        lemma_cong_mul(two_b@, 2 * n, s1@, z * (2 * z - 1));
        lemma_reduce(two_b@ * s1@);
    }
    let generator = G2::generator().times(s2);
    proof {
        s2.lemma_range();
        lemma_reduced(s2@);
        assert(1 * s2@ == s2@);
    }
    let factor = s1_bar.times(opening_coefficient);
    let proof_term = scaled_key.times(factor);
    let sum_term = key_sum.times(s2);
    let difference = weighted_key.minus(sum_term);
    let mix = difference.minus(proof_term);
    proof {
        let f = scaled_factor(z, n);
        lemma_reduce(coefficient);
        lemma_cong_mul(s1_bar@, f, opening_coefficient@, coefficient);
        lemma_reduce(s1_bar@ * opening_coefficient@);
        lemma_cong_mul(scaled_key@, scaled_key@, factor@, f * coefficient);
        lemma_reduce(scaled_key@ * factor@);
        lemma_cong_mul(key_sum@, key_sum@, s2@, 2 * z);
        lemma_reduce(key_sum@ * s2@);
        lemma_reduce(weighted);
        lemma_cong_sub(weighted_key@, weighted, sum_term@, key_sum@ * (2 * z));
        lemma_reduce(weighted_key@ - sum_term@);
        lemma_cong_sub(
            difference@,
            weighted - key_sum@ * (2 * z),
            proof_term@,
            scaled_key@ * (f * coefficient),
        );
    }
    SlotKernel { scaled_s1: s1_bar, scaled_generator: generator, final_mix: mix }
}

impl PartialFractionKernel {
    /// The kernel of a key.
    pub fn new(decryption_key: &PublicDecryptionKey) -> (result: Result<Self>)
        requires
            decryption_key.wf(),
        ensures
            result matches Ok(kernel) && kernel.is_kernel_of(decryption_key),
    {
        let batch_size = decryption_key.batch_size();
        let ghost n = batch_size as int;
        let domain = match Radix2Domain::new(batch_size) {
            Some(domain) => domain,
            None => {
                return Err(Error::InvalidBatchSize(batch_size));
            },
        };
        let (gamma, gamma_inverse_u64) = extra_index_data(batch_size)?;
        let gamma_inverse_small: i64 = gamma_inverse_u64 as i64;
        let gamma_inverse = Fr::from_u64(gamma_inverse_u64);
        let points = index_points(batch_size)?;
        proof {
            lemma_domain_limit(n);
            lemma_order();
            lemma_reduced(2);
            lemma_reduced(2 * n);
            lemma_labels(n, 0);
            assert(views(points@).len() == points@.len());
        }
        let frequency_coefficients = frequency_coefficients_of(batch_size);
        let opening_coefficients = opening_coefficients_of(batch_size, &points, gamma);
        let two_b = Fr::from_u64(2 * batch_size as u64);
        let inverse_two_b = inverse_of(two_b);
        let key_sum = G2::from_affine(decryption_key.fraction_key_sum());
        let mut scaled_key_projective = g2_elements(decryption_key.fraction_keys());
        let ghost before = scaled_key_projective@;
        scale(&mut scaled_key_projective, inverse_two_b);
        proof {
            assert(views(scaled_key_projective@) =~= scaled_keys(decryption_key)) by {
                assert forall|j: int| 0 <= j < n implies (#[trigger] scaled_key_projective@[j])@
                    == scaled_keys(decryption_key)[j] by {
                    assert(views(before)[j] == views(decryption_key.fraction_keys@)[j]);
                }
            }
        }
        let mut scaled_copy: Vec<G2> = Vec::new();
        append_points(&mut scaled_copy, &scaled_key_projective);
        proof {
            assert(views(Seq::<G2>::empty()) + views(scaled_key_projective@) =~= views(
                scaled_key_projective@,
            ));
            assert(views(scaled_copy@).len() == scaled_copy@.len());
        }
        let weighted_keys = weighted_convolution_group(
            &domain,
            &frequency_coefficients,
            gamma_inverse_small,
            scaled_copy,
        );
        let mut scaled_s1: Vec<Fr> = Vec::new();
        let mut generators: Vec<G2> = Vec::new();
        let mut mixes: Vec<G2> = Vec::new();
        while scaled_s1.len() < batch_size
            invariant
                n == batch_size == decryption_key.batch_size,
                points@.len() == n,
                views(points@) == slot_labels(n),
                gamma_inverse@ == 2,
                two_b@ == 2 * n,
                key_sum@ == decryption_key.fraction_key_sum@,
                scaled_key_projective@.len() == n,
                views(scaled_key_projective@) == scaled_keys(decryption_key),
                opening_coefficients@.len() == n,
                forall|j: int|
                    0 <= j < n ==> (#[trigger] opening_coefficients@[j])@ == opening_coefficient(
                        slot_labels(n)[j],
                        n,
                    ) % order(),
                weighted_keys@.len() == n,
                forall|j: int|
                    0 <= j < n ==> (#[trigger] weighted_keys@[j])@ == weighted_log(
                        scaled_keys(decryption_key),
                        2,
                        j,
                    ) % order(),
                scaled_s1@.len() == generators@.len() == mixes@.len() <= n,
                forall|j: int|
                    0 <= j < scaled_s1@.len() ==> (#[trigger] scaled_s1@[j])@ == scaled_factor(
                        slot_labels(n)[j],
                        n,
                    ) % order(),
                forall|j: int|
                    0 <= j < scaled_s1@.len() ==> (#[trigger] generators@[j])@ == (2
                        * slot_labels(n)[j]) % order(),
                forall|j: int|
                    0 <= j < scaled_s1@.len() ==> (#[trigger] mixes@[j])@ == final_mix(
                        decryption_key,
                        j,
                    ) % order(),
            decreases batch_size - scaled_s1@.len(),
        {
            let index = scaled_s1.len();
            assert(views(points@)[index as int] == points@[index as int]@);
            assert(views(scaled_key_projective@)[index as int]
                == scaled_key_projective@[index as int]@);
            let slot = slot_kernel(
                batch_size,
                points[index],
                gamma_inverse,
                two_b,
                opening_coefficients[index],
                scaled_key_projective[index],
                weighted_keys[index],
                key_sum,
                Ghost(opening_coefficient(slot_labels(n)[index as int], n)),
                Ghost(weighted_log(scaled_keys(decryption_key), 2, index as int)),
            );
            scaled_s1.push(slot.scaled_s1);
            generators.push(slot.scaled_generator);
            mixes.push(slot.final_mix);
        }
        let scaled_fraction_keys = batch_normalize_g2(&scaled_key_projective);
        let scaled_generators = batch_normalize_g2(&generators);
        let final_mixes = batch_normalize_g2(&mixes);
        proof {
            assert(views(scaled_fraction_keys@).len() == scaled_fraction_keys@.len());
            assert(views(scaled_generators@).len() == scaled_generators@.len());
            assert(views(final_mixes@).len() == final_mixes@.len());
            assert(views(generators@).len() == generators@.len());
            assert(views(mixes@).len() == mixes@.len());
            assert forall|j: int| 0 <= j < n implies (#[trigger] scaled_fraction_keys@[j])@
                == scaled_keys(decryption_key)[j] by {
                assert(views(scaled_fraction_keys@)[j] == views(scaled_key_projective@)[j]);
            }
            assert forall|j: int| 0 <= j < n implies (#[trigger] scaled_generators@[j])@
                == generators@[j]@ by {
                assert(views(scaled_generators@)[j] == views(generators@)[j]);
            }
            assert forall|j: int| 0 <= j < n implies (#[trigger] final_mixes@[j])@
                == mixes@[j]@ by {
                assert(views(final_mixes@)[j] == views(mixes@)[j]);
            }
        }
        Ok(
            PartialFractionKernel {
                batch_size,
                domain,
                frequency_coefficients,
                gamma_inverse_small,
                scaled_s1,
                scaled_fraction_keys,
                scaled_generators,
                final_mixes,
            },
        )
    }
}

/// Why a kernel and a batch do not fit, where they do not.
pub open spec fn kernel_defect(kernel: &PartialFractionKernel, batch: &ValidatedBatch) -> Option<
    Error,
> {
    if kernel.batch_size != batch.batch_size {
        Some(
            Error::MismatchedBatchSize { expected: kernel.batch_size, actual: batch.batch_size },
        )
    } else {
        None
    }
}

fn ensure_kernel_batch(kernel: &PartialFractionKernel, batch: &ValidatedBatch) -> (result: Result<
    (),
>)
    ensures
        match result {
            Ok(()) => kernel_defect(kernel, batch) is None,
            Err(error) => kernel_defect(kernel, batch) == Some(error),
        },
{
    if kernel.batch_size != batch.batch_size {
        return Err(
            Error::MismatchedBatchSize { expected: kernel.batch_size, actual: batch.batch_size },
        );
    }
    Ok(())
}

/// Why a key and a batch do not fit, where they do not.
pub open spec fn key_defect(decryption_key: &PublicDecryptionKey, batch: &ValidatedBatch) -> Option<
    Error,
> {
    if decryption_key.batch_size != batch.batch_size {
        Some(
            Error::MismatchedBatchSize {
                expected: decryption_key.batch_size,
                actual: batch.batch_size,
            },
        )
    } else {
        None
    }
}

fn ensure_key_batch(decryption_key: &PublicDecryptionKey, batch: &ValidatedBatch) -> (result:
    Result<()>)
    ensures
        match result {
            Ok(()) => key_defect(decryption_key, batch) is None,
            Err(error) => key_defect(decryption_key, batch) == Some(error),
        },
{
    if decryption_key.batch_size() != batch.batch_size {
        return Err(
            Error::MismatchedBatchSize {
                expected: decryption_key.batch_size(),
                actual: batch.batch_size,
            },
        );
    }
    Ok(())
}

/// The pairings of the first components with the scaled fractions of their slots.
pub open spec fn pairing_logs(kernel: &PartialFractionKernel, batch: &ValidatedBatch) -> Seq<int> {
    Seq::new(
        batch.batch_size as nat,
        |i: int|
            (batch.first_projective@[i]@ * kernel.scaled_fraction_keys@[i]@) % order(),
    )
}

impl BatchPrecomputation {
    /// What every precomputation satisfies.
    pub open spec fn wf(&self) -> bool {
        &&& self.weighted_first@.len() == self.batch_size
        &&& self.weighted_pairings@.len() == self.batch_size
    }

    /// Whether this is the precomputation of a batch.
    pub open spec fn is_precomputation_of(
        &self,
        kernel: &PartialFractionKernel,
        batch: &ValidatedBatch,
    ) -> bool {
        &&& self.wf()
        &&& self.batch_size == batch.batch_size
        &&& self.digest@ == batch.digest@
        &&& forall|j: int|
            0 <= j < self.batch_size ==> (#[trigger] self.weighted_first@[j])@ == weighted_log(
                views(batch.first_projective@),
                2,
                j,
            ) % order()
        &&& forall|j: int|
            0 <= j < self.batch_size ==> (#[trigger] self.weighted_pairings@[j])@ == weighted_log(
                pairing_logs(kernel, batch),
                2,
                j,
            ) % order()
    }
}

/// The convolutions of a batch.
pub fn precompute_batch(kernel: &PartialFractionKernel, batch: &ValidatedBatch) -> (result: Result<
    BatchPrecomputation,
>)
    requires
        kernel.wf(),
        batch.wf(),
    ensures
        match result {
            Ok(precomputation) => kernel_defect(kernel, batch) is None
                && precomputation.is_precomputation_of(kernel, batch),
            Err(error) => kernel_defect(kernel, batch) == Some(error),
        },
{
    match ensure_kernel_batch(kernel, batch) {
        Ok(()) => {},
        Err(error) => {
            return Err(error);
        },
    }
    let mut firsts: Vec<G1> = Vec::new();
    append_points(&mut firsts, &batch.first_projective);
    proof {
        assert(views(Seq::<G1>::empty()) + views(batch.first_projective@) =~= views(
            batch.first_projective@,
        ));
        assert(views(firsts@).len() == firsts@.len());
    }
    let weighted_first = weighted_convolution_group(
        &kernel.domain,
        &kernel.frequency_coefficients,
        kernel.gamma_inverse_small,
        firsts,
    );
    let mut pairings: Vec<GtElement> = Vec::new();
    while pairings.len() < batch.batch_size
        invariant
            kernel.wf(),
            batch.wf(),
            kernel.batch_size == batch.batch_size,
            pairings@.len() <= batch.batch_size,
            forall|i: int|
                0 <= i < pairings@.len() ==> (#[trigger] pairings@[i])@ == pairing_logs(
                    kernel,
                    batch,
                )[i],
        decreases batch.batch_size - pairings@.len(),
    {
        let index = pairings.len();
        assert(views(batch.first_affine@)[index as int] == views(
            batch.first_projective@,
        )[index as int]);
        pairings.push(pair(batch.first_affine[index], kernel.scaled_fraction_keys[index]));
    }
    assert(views(pairings@) =~= pairing_logs(kernel, batch));
    let weighted_pairings = weighted_convolution_gt(
        &kernel.domain,
        &kernel.frequency_coefficients,
        kernel.gamma_inverse_small,
        pairings,
    );
    Ok(
        BatchPrecomputation {
            batch_size: batch.batch_size,
            digest: batch.digest,
            weighted_first,
            weighted_pairings,
        },
    )
}

/// The share of a server: the sum of the first components, each times the
/// server's share for its slot.
pub fn partial_decrypt(server_key: &ServerSecretKey, batch: &ValidatedBatch) -> (result: Result<
    DecryptionShare,
>)
    requires
        batch.wf(),
    ensures
        match result {
            Ok(share) => batch.batch_size == server_key.fraction_shares@.len()
                && share.is_share_of(server_key, batch),
            Err(error) => batch.batch_size != server_key.fraction_shares@.len() && error
                == (Error::MismatchedBatchSize {
                expected: server_key.fraction_shares@.len() as usize,
                actual: batch.batch_size,
            }),
        },
{
    if server_key.batch_size() != batch.batch_size {
        return Err(
            Error::MismatchedBatchSize {
                expected: server_key.batch_size(),
                actual: batch.batch_size,
            },
        );
    }
    let pre_decryption_key = G1::multi_exp(
        batch.first_projective.as_slice(),
        server_key.fraction_shares().as_slice(),
    );
    Ok(
        DecryptionShare {
            server_index: server_key.server_index,
            pre_decryption_key,
            batch_digest: batch.digest,
        },
    )
}

/// Why share `i` is refused, where it is.
pub open spec fn share_defect(
    server_count: usize,
    digest: Seq<u8>,
    shares: Seq<DecryptionShare>,
    i: int,
) -> Option<Error> {
    let index = shares[i].server_index;
    if shares[i].batch_digest@ != digest {
        Some(Error::InvalidShare)
    } else if index >= server_count {
        Some(Error::InvalidServerIndex(index))
    } else if exists|j: int| 0 <= j < i && (#[trigger] shares[j]).server_index == index {
        Some(Error::DuplicateServerIndex(index))
    } else {
        None
    }
}

/// Why the first refused share, from `from` on, is refused.
pub open spec fn first_defect(
    server_count: usize,
    digest: Seq<u8>,
    shares: Seq<DecryptionShare>,
    from: int,
) -> Option<Error>
    decreases shares.len() - from,
{
    if from >= shares.len() {
        None
    } else {
        match share_defect(server_count, digest, shares, from) {
            Some(error) => Some(error),
            None => first_defect(server_count, digest, shares, from + 1),
        }
    }
}

/// The evaluation points of the servers of the shares.
pub open spec fn share_points(shares: Seq<DecryptionShare>) -> Seq<int> {
    Seq::new(shares.len(), |i: int| shares[i].server_index + 1)
}

pub open spec fn share_keys(shares: Seq<DecryptionShare>) -> Seq<int> {
    Seq::new(shares.len(), |i: int| shares[i].pre_decryption_key@)
}

/// The outcome of combining shares: the first defect, or the interpolation at
/// zero of the shares' points.
pub open spec fn combined(
    decryption_key: &PublicDecryptionKey,
    batch: &ValidatedBatch,
    shares: Seq<DecryptionShare>,
) -> core::result::Result<int, Error> {
    if key_defect(decryption_key, batch) is Some {
        Err(key_defect(decryption_key, batch)->0)
    } else if shares.len() < decryption_key.threshold + 1 {
        Err(
            Error::InsufficientShares {
                supplied: shares.len() as usize,
                required: (decryption_key.threshold + 1) as usize,
            },
        )
    } else {
        match first_defect(decryption_key.server_count, batch.digest@, shares, 0) {
            Some(error) => Err(error),
            None => Ok(dot(share_keys(shares), weights(share_points(shares))) % order()),
        }
    }
}

/// Whether an outcome is the one that a specification gives.
pub open spec fn is_point(
    result: core::result::Result<G1, Error>,
    expected: core::result::Result<int, Error>,
) -> bool {
    match result {
        Ok(point) => expected matches Ok(log) && point@ == log,
        Err(error) => expected matches Err(other) && error == other,
    }
}

/// Checks that shares are enough, for the batch and of different servers.
fn validate_share_set(
    decryption_key: &PublicDecryptionKey,
    batch: &ValidatedBatch,
    shares: &[DecryptionShare],
) -> (result: Result<()>)
    requires
        decryption_key.wf(),
    ensures
        match result {
            Ok(()) => combined(decryption_key, batch, shares@) is Ok && are_distinct(
                decryption_key.server_count,
                batch,
                shares@,
            ),
            Err(error) => combined(decryption_key, batch, shares@) == Err::<int, Error>(error),
        },
{
    match ensure_key_batch(decryption_key, batch) {
        Ok(()) => {},
        Err(error) => {
            return Err(error);
        },
    }
    if shares.len() < decryption_key.required_shares() {
        return Err(
            Error::InsufficientShares {
                supplied: shares.len(),
                required: decryption_key.required_shares(),
            },
        );
    }
    let count = decryption_key.server_count;
    let mut seen: Vec<bool> = Vec::new();
    while seen.len() < count
        invariant
            seen@.len() <= count,
            forall|s: int| 0 <= s < seen@.len() ==> !#[trigger] seen@[s],
        decreases count - seen@.len(),
    {
        seen.push(false);
    }
    let mut index: usize = 0;
    while index < shares.len()
        invariant
            count == decryption_key.server_count,
            key_defect(decryption_key, batch) is None,
            index <= shares@.len(),
            decryption_key.threshold + 1 <= shares@.len(),
            seen@.len() == count,
            first_defect(count, batch.digest@, shares@, 0) == first_defect(
                count,
                batch.digest@,
                shares@,
                index as int,
            ),
            forall|s: int|
                0 <= s < count ==> (#[trigger] seen@[s] <==> exists|j: int|
                    0 <= j < index && (#[trigger] shares@[j]).server_index == s),
            forall|i: int|
                0 <= i < index ==> (#[trigger] shares@[i]).server_index < count
                    && shares@[i].batch_digest@ == batch.digest@,
            forall|i: int, j: int|
                0 <= i < j < index ==> (#[trigger] shares@[i]).server_index != (
                #[trigger] shares@[j]).server_index,
        decreases shares@.len() - index,
    {
        let share = shares[index];
        let ghost defect = share_defect(count, batch.digest@, shares@, index as int);
        assert(first_defect(count, batch.digest@, shares@, index as int) == match defect {
            Some(error) => Some(error),
            None => first_defect(count, batch.digest@, shares@, index + 1),
        });
        if !bytes_equal(share.batch_digest.as_slice(), batch.digest.as_slice()) {
            return Err(Error::InvalidShare);
        }
        if share.server_index >= count {
            return Err(Error::InvalidServerIndex(share.server_index));
        }
        if seen[share.server_index] {
            return Err(Error::DuplicateServerIndex(share.server_index));
        }
        let ghost before = seen@;
        seen.set(share.server_index, true);
        proof {
            assert(!before[share.server_index as int]);
            assert forall|s: int| 0 <= s < count implies (#[trigger] seen@[s] <==> exists|j: int|
                0 <= j < index + 1 && (#[trigger] shares@[j]).server_index == s) by {
                if s == share.server_index {
                    assert(shares@[index as int].server_index == s);
                } else if seen@[s] {
                    assert(before[s]);
                    let j = choose|j: int|
                        0 <= j < index && (#[trigger] shares@[j]).server_index == s;
                    assert(shares@[j].server_index == s);
                } else {
                    assert(!before[s]);
                }
            }
        }
        index = index + 1;
    }
    Ok(())
}

/// Combines the shares of enough different servers.
pub fn combine_shares(
    decryption_key: &PublicDecryptionKey,
    batch: &ValidatedBatch,
    shares: &[DecryptionShare],
) -> (result: Result<G1>)
    requires
        decryption_key.wf(),
    ensures
        is_point(result, combined(decryption_key, batch, shares@)),
        // the shares that enough different servers make combine to a point that
        // passes its check
        batch.wf() ==> forall|
            material: KeyMaterial,
            config: KeygenConfig,
            x: int,
            tails: Seq<Seq<int>>,
        | #[trigger]
            material.is_generated(config, x, tails) && tails_fit(config, tails)
                && material.decryption_key == *decryption_key && are_honest(
                &material,
                config,
                batch,
                shares@,
            ) ==> (result matches Ok(point) && key_holds(decryption_key, batch, point@)),
{
    match validate_share_set(decryption_key, batch, shares) {
        Ok(()) => {},
        Err(error) => {
            proof {
                assert forall|
                    material: KeyMaterial,
                    config: KeygenConfig,
                    x: int,
                    tails: Seq<Seq<int>>,
                | #[trigger]
                    material.is_generated(config, x, tails) && material.decryption_key
                        == *decryption_key implies !are_honest(
                    &material,
                    config,
                    batch,
                    shares@,
                ) by {
                    if are_honest(&material, config, batch, shares@) {
                        lemma_honest_shares_are_valid(
                            &material,
                            config,
                            x,
                            tails,
                            batch,
                            shares@,
                        );
                    }
                }
            }
            return Err(error);
        },
    }
    let mut points: Vec<Fr> = Vec::new();
    let mut bases: Vec<G1> = Vec::new();
    while points.len() < shares.len()
        invariant
            decryption_key.wf(),
            are_distinct(decryption_key.server_count, batch, shares@),
            points@.len() == bases@.len() <= shares@.len(),
            forall|i: int|
                0 <= i < points@.len() ==> (#[trigger] points@[i])@ == shares@[i].server_index + 1,
            forall|i: int|
                0 <= i < points@.len() ==> (#[trigger] bases@[i])@
                    == shares@[i].pre_decryption_key@,
        decreases shares@.len() - points@.len(),
    {
        let share = shares[points.len()];
        assert(shares@[points@.len() as int].server_index < decryption_key.server_count);
        points.push(decryption_key.server_domain()[share.server_index]);
        bases.push(share.pre_decryption_key);
    }
    proof {
        assert forall|i: int, j: int| 0 <= i < j < points@.len() implies (
        #[trigger] points@[i])@ != (#[trigger] points@[j])@ by {
            assert(shares@[i].server_index != shares@[j].server_index);
        }
        assert(views(points@) =~= share_points(shares@));
        assert(views(bases@) =~= share_keys(shares@));
    }
    let coefficients = lagrange_at_zero(&points);
    assert(views(coefficients@).len() == points@.len());
    let point = G1::multi_exp(bases.as_slice(), coefficients.as_slice());
    proof {
        assert forall|
            material: KeyMaterial,
            config: KeygenConfig,
            x: int,
            tails: Seq<Seq<int>>,
        | #[trigger]
            material.is_generated(config, x, tails) && tails_fit(config, tails)
                && material.decryption_key == *decryption_key && are_honest(
                &material,
                config,
                batch,
                shares@,
            ) && batch.wf() implies key_holds(decryption_key, batch, point@) by {
            lemma_honest_shares_combine(&material, config, x, tails, batch, shares@);
        }
    }
    Ok(point)
}

/// Whether the pairings of the points add up to zero.
fn pairing_product_is_identity(left: &Vec<G1Point>, right: &Vec<G2Point>) -> (result: bool)
    requires
        left@.len() == right@.len(),
    ensures
        result == cong(dot(views(left@), views(right@)), 0),
{
    let total = multi_pairing(left.as_slice(), right.as_slice());
    proof {
        lemma_one();
    }
    total == GtElement::zero()
}

/// Whether the pairing of `point` with the generator is the sum of the pairings of
/// the first components with `right`.
fn check_point(batch: &ValidatedBatch, right: Vec<G2Point>, point: G1) -> (result: bool)
    requires
        batch.wf(),
        right@.len() == batch.batch_size,
    ensures
        result == cong(point@, dot(views(batch.first_projective@), views(right@))),
{
    let ghost a = views(batch.first_projective@);
    let ghost b = views(right@);
    let ghost n = batch.batch_size as int;
    let mut right = right;
    let mut left: Vec<G1Point> = Vec::new();
    append_points(&mut left, &batch.first_affine);
    proof {
        assert(views(Seq::<G1Point>::empty()) + views(batch.first_affine@) =~= a);
        assert(views(left@).len() == left@.len());
    }
    let ghost before = left@;
    let negative = G1::zero().minus(point);
    left.push(negative.to_affine());
    right.push(G2Point::generator());
    proof {
        let f = products(views(left@), views(right@));
        let g = products(a, b);
        assert forall|i: int| 0 <= i < n implies #[trigger] f(i) == g(i) by {
            assert(views(before)[i] == a[i]);
        }
        lemma_sum_ext(f, g, 0, n);
        let total = sum(f, 0, n);
        assert(a.len() == n);
        assert(f(n) == negative@ * 1);
        assert(dot(views(left@), views(right@)) == total + negative@);
        lemma_reduce(0 - point@);
        lemma_cong_add(total, total, negative@, 0 - point@);
        assert(cong(total + negative@, total - point@));
        lemma_cong_diff(total, point@);
    }
    pairing_product_is_identity(&left, &right)
}

/// The logarithms of a server's share commitments for the first slots.
pub open spec fn commitment_logs(
    decryption_key: &PublicDecryptionKey,
    server_index: int,
    slots: int,
) -> Seq<int> {
    Seq::new(slots as nat, |slot: int| decryption_key.commitment_log(server_index, slot))
}

/// Why the commitments of a server for a batch cannot be had, where they cannot.
pub open spec fn commitments_defect(
    decryption_key: &PublicDecryptionKey,
    batch: &ValidatedBatch,
) -> Option<Error> {
    if decryption_key.share_commitments is None {
        Some(Error::InvalidShare)
    } else if batch.batch_size > decryption_key.batch_size {
        Some(Error::InvalidBatchSize((decryption_key.batch_size + 1) as usize))
    } else {
        None
    }
}

/// The outcome of the check of one share. A share of another batch does not pass;
/// a server that does not exist, and commitments that cannot be had, are errors;
/// else the share passes where its point is the sum of the first components, each
/// times the committed share for its slot.
pub open spec fn share_check(
    decryption_key: &PublicDecryptionKey,
    batch: &ValidatedBatch,
    share: DecryptionShare,
) -> core::result::Result<bool, Error> {
    let index = share.server_index as int;
    if share.batch_digest@ != batch.digest@ {
        Ok(false)
    } else if index >= decryption_key.server_count {
        Err(Error::InvalidServerIndex(share.server_index))
    } else {
        match commitments_defect(decryption_key, batch) {
            Some(error) => Err(error),
            None => Ok(
                cong(
                    share.pre_decryption_key@,
                    dot(
                        views(batch.first_projective@),
                        commitment_logs(decryption_key, index, batch.batch_size as int),
                    ),
                ),
            ),
        }
    }
}

/// Checks one share against the commitments of its server.
pub fn verify_decryption_share(
    decryption_key: &PublicDecryptionKey,
    batch: &ValidatedBatch,
    share: &DecryptionShare,
) -> (result: Result<bool>)
    requires
        decryption_key.wf(),
        batch.wf(),
    ensures
        result == share_check(decryption_key, batch, *share),
{
    if !bytes_equal(share.batch_digest.as_slice(), batch.digest.as_slice()) {
        return Ok(false);
    }
    if share.server_index >= decryption_key.server_count() {
        return Err(Error::InvalidServerIndex(share.server_index));
    }
    let ghost index = share.server_index as int;
    proof {
        lemma_domain_limit(decryption_key.batch_size as int);
    }
    let mut right: Vec<G2Point> = Vec::new();
    while right.len() < batch.batch_size
        invariant
            decryption_key.wf(),
            1 <= decryption_key.batch_size,
            right@.len() <= batch.batch_size,
            right@.len() <= decryption_key.batch_size,
            right@.len() > 0 ==> decryption_key.share_commitments is Some,
            index == share.server_index,
            index < decryption_key.server_count,
            share.batch_digest@ == batch.digest@,
            forall|i: int|
                0 <= i < right@.len() ==> (#[trigger] right@[i])@ == decryption_key.commitment_log(
                    index,
                    i,
                ),
        decreases batch.batch_size - right@.len(),
    {
        match decryption_key.share_commitment(share.server_index, right.len()) {
            Ok(commitment) => {
                right.push(commitment);
            },
            Err(error) => {
                return Err(error);
            },
        }
    }
    assert(views(right@) =~= commitment_logs(decryption_key, index, batch.batch_size as int));
    Ok(check_point(batch, right, share.pre_decryption_key))
}

/// Whether a combined point is the sum of the first components, each times the
/// fraction of its slot.
pub open spec fn key_holds(
    decryption_key: &PublicDecryptionKey,
    batch: &ValidatedBatch,
    pre_decryption_key: int,
) -> bool {
    cong(
        pre_decryption_key,
        dot(views(batch.first_projective@), views(decryption_key.fraction_keys@)),
    )
}

/// Checks a combined point against the fractions of the slots.
pub fn verify_combined_share(
    decryption_key: &PublicDecryptionKey,
    batch: &ValidatedBatch,
    pre_decryption_key: G1,
) -> (result: Result<bool>)
    requires
        decryption_key.wf(),
        batch.wf(),
    ensures
        match key_defect(decryption_key, batch) {
            Some(error) => result == Err::<bool, Error>(error),
            None => result == Ok::<bool, Error>(
                key_holds(decryption_key, batch, pre_decryption_key@),
            ),
        },
{
    match ensure_key_batch(decryption_key, batch) {
        Ok(()) => {},
        Err(error) => {
            return Err(error);
        },
    }
    let mut right: Vec<G2Point> = Vec::new();
    append_points(&mut right, decryption_key.fraction_keys());
    proof {
        assert(views(Seq::<G2Point>::empty()) + views(decryption_key.fraction_keys@) =~= views(
            decryption_key.fraction_keys@,
        ));
        assert(views(right@).len() == right@.len());
        assert(views(decryption_key.fraction_keys@).len() == decryption_key.fraction_keys@.len());
    }
    Ok(check_point(batch, right, pre_decryption_key))
}

/// The shares that pass their check, in order.
pub open spec fn passing(
    decryption_key: &PublicDecryptionKey,
    batch: &ValidatedBatch,
    shares: Seq<DecryptionShare>,
) -> Seq<DecryptionShare>
    decreases shares.len(),
{
    if shares.len() == 0 {
        Seq::empty()
    } else {
        let rest = passing(decryption_key, batch, shares.drop_last());
        if share_check(decryption_key, batch, shares.last()) == Ok::<bool, Error>(true) {
            rest.push(shares.last())
        } else {
            rest
        }
    }
}

/// The error of the first share, from `from` on, whose check is an error.
pub open spec fn check_error(
    decryption_key: &PublicDecryptionKey,
    batch: &ValidatedBatch,
    shares: Seq<DecryptionShare>,
    from: int,
) -> Option<Error>
    decreases shares.len() - from,
{
    if from >= shares.len() {
        None
    } else {
        match share_check(decryption_key, batch, shares[from]) {
            Err(error) => Some(error),
            Ok(_) => check_error(decryption_key, batch, shares, from + 1),
        }
    }
}

/// The outcome of combining shares of which some may be bad: the combination of
/// all shares where it passes the check; else that of the shares that pass their
/// own checks, where there are commitments to check them against and the
/// combination then passes.
pub open spec fn combined_checked(
    decryption_key: &PublicDecryptionKey,
    batch: &ValidatedBatch,
    shares: Seq<DecryptionShare>,
) -> core::result::Result<int, Error> {
    match combined(decryption_key, batch, shares) {
        Err(error) => Err(error),
        Ok(optimistic) => match key_defect(decryption_key, batch) {
            Some(error) => Err(error),
            None => if key_holds(decryption_key, batch, optimistic) {
                Ok(optimistic)
            } else if decryption_key.share_commitments is None {
                Err(Error::InvalidShare)
            } else {
                match check_error(decryption_key, batch, shares, 0) {
                    Some(error) => Err(error),
                    None => match combined(
                        decryption_key,
                        batch,
                        passing(decryption_key, batch, shares),
                    ) {
                        Err(error) => Err(error),
                        Ok(recovered) => if key_holds(decryption_key, batch, recovered) {
                            Ok(recovered)
                        } else {
                            Err(Error::InvalidShare)
                        },
                    },
                }
            },
        },
    }
}

/// Whether shares are of different servers of the committee of some key material
/// with commitments, and enough of them pass their checks.
pub open spec fn is_recoverable(
    decryption_key: &PublicDecryptionKey,
    batch: &ValidatedBatch,
    shares: Seq<DecryptionShare>,
) -> bool {
    &&& batch.wf()
    &&& key_defect(decryption_key, batch) is None
    &&& decryption_key.share_commitments is Some
    &&& are_distinct(decryption_key.server_count, batch, shares)
    &&& passing(decryption_key, batch, shares).len() > decryption_key.threshold
    &&& exists|material: KeyMaterial, config: KeygenConfig, x: int, tails: Seq<Seq<int>>|
        is_material(material, config, x, tails, decryption_key)
}

/// Whether a key is that of the material that a secret and tails give.
pub open spec fn is_material(
    material: KeyMaterial,
    config: KeygenConfig,
    x: int,
    tails: Seq<Seq<int>>,
    decryption_key: &PublicDecryptionKey,
) -> bool {
    &&& material.is_generated(config, x, tails)
    &&& tails_fit(config, tails)
    &&& material.decryption_key == *decryption_key
}

/// Combines all shares and checks the result; where the check fails, leaves out
/// the shares that fail their own checks and combines the rest.
pub fn combine_shares_checked(
    decryption_key: &PublicDecryptionKey,
    batch: &ValidatedBatch,
    shares: &[DecryptionShare],
) -> (result: Result<G1>)
    requires
        decryption_key.wf(),
        batch.wf(),
    ensures
        is_point(result, combined_checked(decryption_key, batch, shares@)),
        result matches Ok(point) ==> key_holds(decryption_key, batch, point@),
        // where enough of the shares pass their checks, bad ones do no harm
        is_recoverable(decryption_key, batch, shares@) ==> result is Ok,
{
    let optimistic = match combine_shares(decryption_key, batch, shares) {
        Ok(point) => point,
        Err(error) => {
            proof {
                if is_recoverable(decryption_key, batch, shares@) {
                    lemma_recoverable(decryption_key, batch, shares@);
                }
            }
            return Err(error);
        },
    };
    match verify_combined_share(decryption_key, batch, optimistic) {
        Ok(true) => {
            return Ok(optimistic);
        },
        Ok(false) => {},
        Err(error) => {
            return Err(error);
        },
    }
    if !decryption_key.has_share_commitments() {
        return Err(Error::InvalidShare);
    }
    let mut valid_shares: Vec<DecryptionShare> = Vec::new();
    let mut index: usize = 0;
    let ghost none_yet = check_error(decryption_key, batch, shares@, 0);
    while index < shares.len()
        invariant
            decryption_key.wf(),
            batch.wf(),
            index <= shares@.len(),
            valid_shares@ == passing(decryption_key, batch, shares@.take(index as int)),
            none_yet == check_error(decryption_key, batch, shares@, 0),
            none_yet == check_error(decryption_key, batch, shares@, index as int),
            combined(decryption_key, batch, shares@) matches Ok(log) && log == optimistic@,
            key_defect(decryption_key, batch) is None,
            !key_holds(decryption_key, batch, optimistic@),
            decryption_key.share_commitments is Some,
        decreases shares@.len() - index,
    {
        let share = shares[index];
        proof {
            let now = shares@.take(index + 1);
            assert(now.drop_last() =~= shares@.take(index as int));
            assert(now.last() == share);
        }
        match verify_decryption_share(decryption_key, batch, &share) {
            Ok(valid) => {
                if valid {
                    valid_shares.push(share);
                }
            },
            Err(error) => {
                proof {
                    if is_recoverable(decryption_key, batch, shares@) {
                        lemma_recoverable(decryption_key, batch, shares@);
                    }
                }
                return Err(error);
            },
        }
        index = index + 1;
    }
    assert(shares@.take(index as int) =~= shares@);
    let recovered = match combine_shares(decryption_key, batch, valid_shares.as_slice()) {
        Ok(point) => point,
        Err(error) => {
            proof {
                if is_recoverable(decryption_key, batch, shares@) {
                    let _ = lemma_recovery(decryption_key, batch, shares@);
                }
            }
            return Err(error);
        },
    };
    proof {
        if is_recoverable(decryption_key, batch, shares@) {
            let _ = lemma_recovery(decryption_key, batch, shares@);
        }
    }
    match verify_combined_share(decryption_key, batch, recovered) {
        Ok(true) => Ok(recovered),
        Ok(false) => Err(Error::InvalidShare),
        Err(error) => Err(error),
    }
}

/// Why opening is refused, where it is.
pub open spec fn opening_defect(
    kernel: &PartialFractionKernel,
    batch: &ValidatedBatch,
    ciphertexts: Seq<Ciphertext>,
    precomputation: &BatchPrecomputation,
) -> Option<Error> {
    if kernel_defect(kernel, batch) is Some {
        kernel_defect(kernel, batch)
    } else if ciphertexts.len() != batch.batch_size {
        Some(
            Error::MismatchedBatchSize {
                expected: batch.batch_size,
                actual: ciphertexts.len() as usize,
            },
        )
    } else if precomputation.batch_size != batch.batch_size || precomputation.digest@
        != batch.digest@ {
        Some(Error::InvalidShare)
    } else {
        None
    }
}

/// The pad of a slot: three pairings, of the second component, of the first
/// convolution without the scaled difference of the second component and the
/// combined point, and of the first component, without the second convolution.
pub open spec fn mask_log(
    kernel: &PartialFractionKernel,
    batch: &ValidatedBatch,
    precomputation: &BatchPrecomputation,
    pre_decryption_key: int,
    j: int,
) -> int {
    let second = batch.second_projective@[j]@;
    second * kernel.scaled_generators@[j]@ + (precomputation.weighted_first@[j]@ - (second
        - pre_decryption_key) * kernel.scaled_s1@[j]@) * kernel.scaled_fraction_keys@[j]@
        + batch.first_projective@[j]@ * kernel.final_mixes@[j]@
        - precomputation.weighted_pairings@[j]@
}

/// The pad of one slot.
fn mask_of(
    kernel: &PartialFractionKernel,
    batch: &ValidatedBatch,
    precomputation: &BatchPrecomputation,
    pre_decryption_key: G1,
    slot: usize,
) -> (mask: GtElement)
    requires
        kernel.wf(),
        batch.wf(),
        precomputation.wf(),
        slot < kernel.batch_size == batch.batch_size == precomputation.batch_size,
    ensures
        mask@ == mask_log(kernel, batch, precomputation, pre_decryption_key@, slot as int)
            % order(),
{
    let second = batch.second_projective[slot];
    let difference = second.minus(pre_decryption_key);
    let scaled = difference.times(kernel.scaled_s1[slot]);
    let convolved = precomputation.weighted_first[slot].minus(scaled);
    let mut left: Vec<G1Point> = Vec::new();
    left.push(second.to_affine());
    left.push(convolved.to_affine());
    left.push(batch.first_projective[slot].to_affine());
    let mut right: Vec<G2Point> = Vec::new();
    right.push(kernel.scaled_generators[slot]);
    right.push(kernel.scaled_fraction_keys[slot]);
    right.push(kernel.final_mixes[slot]);
    let paired = multi_pairing(left.as_slice(), right.as_slice());
    proof {
        let j = slot as int;
        let f = products(views(left@), views(right@));
        let (a, b, c) = (
            second@ * kernel.scaled_generators@[j]@,
            convolved@ * kernel.scaled_fraction_keys@[j]@,
            batch.first_projective@[j]@ * kernel.final_mixes@[j]@,
        );
        assert(f(0) == a && f(1) == b && f(2) == c);
        assert(sum(f, 0, 0) == 0);
        assert(sum(f, 0, 1) == a);
        assert(sum(f, 0, 2) == a + b);
        assert(sum(f, 0, 3) == a + b + c);
        assert(dot(views(left@), views(right@)) == a + b + c);
        let (d, s, k) = (
            second@ - pre_decryption_key@,
            kernel.scaled_s1@[j]@,
            kernel.scaled_fraction_keys@[j]@,
        );
        let first = precomputation.weighted_first@[j]@;
        lemma_reduce(d);
        lemma_cong_mul(difference@, d, s, s);
        lemma_reduce(difference@ * s);
        lemma_cong_sub(first, first, scaled@, d * s);
        lemma_reduce(first - scaled@);
        lemma_cong_mul(convolved@, first - d * s, k, k);
        lemma_cong_add(a, a, b, (first - d * s) * k);
        lemma_cong_add(a + b, a + (first - d * s) * k, c, c);
        lemma_reduce(a + b + c);
        let w = precomputation.weighted_pairings@[j]@;
        lemma_cong_sub(paired@, a + (first - d * s) * k + c, w, w);
    }
    paired.minus(precomputation.weighted_pairings[slot])
}

/// What a slot opens to: its third component without the pad.
pub open spec fn opened_log(third: int, mask: int) -> int {
    (third - mask) % order()
}

/// Opens all slots of a batch.
pub fn open_batch(
    kernel: &PartialFractionKernel,
    batch: &ValidatedBatch,
    ciphertexts: &[Ciphertext],
    precomputation: &BatchPrecomputation,
    pre_decryption_key: G1,
) -> (result: Result<Vec<GtElement>>)
    requires
        kernel.wf(),
        batch.wf(),
        precomputation.wf(),
    ensures
        match result {
            Ok(opened) => {
                &&& opening_defect(kernel, batch, ciphertexts@, precomputation) is None
                &&& opened@.len() == batch.batch_size
                &&& forall|j: int|
                    0 <= j < batch.batch_size ==> (#[trigger] opened@[j])@ == opened_log(
                        ciphertexts@[j].third@,
                        mask_log(kernel, batch, precomputation, pre_decryption_key@, j),
                    )
            },
            Err(error) => opening_defect(kernel, batch, ciphertexts@, precomputation) == Some(
                error,
            ),
        },
{
    match ensure_kernel_batch(kernel, batch) {
        Ok(()) => {},
        Err(error) => {
            return Err(error);
        },
    }
    if ciphertexts.len() != batch.batch_size {
        return Err(
            Error::MismatchedBatchSize { expected: batch.batch_size, actual: ciphertexts.len() },
        );
    }
    if precomputation.batch_size != batch.batch_size || !bytes_equal(
        precomputation.digest.as_slice(),
        batch.digest.as_slice(),
    ) {
        return Err(Error::InvalidShare);
    }
    let mut opened: Vec<GtElement> = Vec::new();
    while opened.len() < batch.batch_size
        invariant
            kernel.wf(),
            batch.wf(),
            precomputation.wf(),
            kernel.batch_size == batch.batch_size == ciphertexts@.len()
                == precomputation.batch_size,
            opened@.len() <= batch.batch_size,
            forall|j: int|
                0 <= j < opened@.len() ==> (#[trigger] opened@[j])@ == opened_log(
                    ciphertexts@[j].third@,
                    mask_log(kernel, batch, precomputation, pre_decryption_key@, j),
                ),
        decreases batch.batch_size - opened@.len(),
    {
        let slot = opened.len();
        let mask = mask_of(kernel, batch, precomputation, pre_decryption_key, slot);
        proof {
            let log = mask_log(kernel, batch, precomputation, pre_decryption_key@, slot as int);
            let third = ciphertexts@[slot as int].third@;
            lemma_reduce(log);
            lemma_cong_sub(third, third, mask@, log);
        }
        opened.push(ciphertexts[slot].third.minus(mask));
    }
    Ok(opened)
}

/// The encodings of a batch, one after the other.
proof fn lemma_canonical_flat(ciphertexts: Seq<Ciphertext>)
    ensures
        canonical_all(ciphertexts) == ciphertexts.map_values(
            |c: Ciphertext| c.canonical(),
        ).flatten(),
    decreases ciphertexts.len(),
{
    let f = |c: Ciphertext| c.canonical();
    let items = ciphertexts.map_values(f);
    if ciphertexts.len() > 0 {
        lemma_canonical_flat(ciphertexts.drop_last());
        let rest = ciphertexts.drop_last().map_values(f);
        assert(items =~= rest.push(f(ciphertexts.last())));
        rest.lemma_flatten_push(f(ciphertexts.last()));
    } else {
        assert(items.flatten() =~= Seq::<u8>::empty());
    }
}

/// The identifier of a batch is the digest of its name, its length and the encodings of its
/// ciphertexts in their order.
pub proof fn law_batch_digest(ciphertexts: Seq<Ciphertext>)
    ensures
        batch_digest_of(ciphertexts) == sha256(
            "PFE-ORDERED-BATCH-BLS12381-v1".spec_bytes() + le_bytes(ciphertexts.len() as int, 8)
                + ciphertexts.map_values(
                |c: Ciphertext| g1_compressed(c.first@) + g1_compressed(c.second@)
                    + gt_encoding(c.third@) + le_bytes(c.proof.response@, 32)
                    + g1_compressed(c.proof.first_commitment@)
                    + g1_compressed(c.proof.second_commitment@),
            ).flatten(),
        ),
{
    lemma_canonical_flat(ciphertexts);
    assert(ciphertexts.map_values(|c: Ciphertext| c.canonical()) =~= ciphertexts.map_values(
        |c: Ciphertext| g1_compressed(c.first@) + g1_compressed(c.second@) + gt_encoding(c.third@)
            + le_bytes(c.proof.response@, 32) + g1_compressed(c.proof.first_commitment@)
            + g1_compressed(c.proof.second_commitment@),
    ));
}

/// The identifier of a batch is the digest of some string, and that string determines the
/// batch: two batches are identified by the digest of the same string only where they are as
/// long and their ciphertexts, in their order, have the same components.
pub proof fn law_batch_digest_is_bound(a: Seq<Ciphertext>, b: Seq<Ciphertext>)
    requires
        a.len() < 0x1_0000_0000_0000_0000,
        b.len() < 0x1_0000_0000_0000_0000,
        forall|i: int| 0 <= i < a.len() ==> (#[trigger] a[i]).is_sized(),
        forall|i: int| 0 <= i < b.len() ==> (#[trigger] b[i]).is_sized(),
    ensures
        exists|s: Seq<u8>, t: Seq<u8>|
            {
                &&& batch_digest_of(a) == #[trigger] sha256(s)
                &&& batch_digest_of(b) == #[trigger] sha256(t)
                &&& s == t ==> a.len() == b.len() && forall|i: int|
                    #![trigger a[i]]
                    #![trigger b[i]]
                    0 <= i < a.len() ==> {
                            &&& g1_compressed(a[i].first@) == g1_compressed(b[i].first@)
                            &&& g1_compressed(a[i].second@) == g1_compressed(b[i].second@)
                            &&& gt_encoding(a[i].third@) == gt_encoding(b[i].third@)
                            &&& a[i].proof.response@ == b[i].proof.response@
                            &&& g1_compressed(a[i].proof.first_commitment@)
                                == g1_compressed(b[i].proof.first_commitment@)
                            &&& g1_compressed(a[i].proof.second_commitment@)
                                == g1_compressed(b[i].proof.second_commitment@)
                    }
            },
{
    let tag = "PFE-ORDERED-BATCH-BLS12381-v1".spec_bytes();
    let (la, lb) = (le_bytes(a.len() as int, 8), le_bytes(b.len() as int, 8));
    let s = tag + la + canonical_all(a);
    let t = tag + lb + canonical_all(b);
    if s == t {
        lemma_le_digits(a.len() as int, 8);
        lemma_le_digits(b.len() as int, 8);
        lemma_same_parts(tag + la, canonical_all(a), tag + lb, canonical_all(b));
        lemma_same_parts(tag, la, tag, lb);
        lemma_same_digits(a.len() as int, b.len() as int);
        lemma_canonical_flat(a);
        lemma_canonical_flat(b);
        let f = |c: Ciphertext| c.canonical();
        let (u, v) = (a.map_values(f), b.map_values(f));
        assert forall|i: int, x: Seq<u8>, y: Seq<u8>|
            0 <= i < u.len() && #[trigger] (u[i] + x) == #[trigger] (v[i]
                + y) implies u[i].len() == v[i].len() by {
            a[i].lemma_same_canonical(x, b[i], y);
        }
        lemma_same_items(u, v);
        assert forall|i: int|
            #![trigger a[i]]
            #![trigger b[i]]
            0 <= i < a.len() implies {
                &&& g1_compressed(a[i].first@) == g1_compressed(b[i].first@)
                &&& g1_compressed(a[i].second@) == g1_compressed(b[i].second@)
                &&& gt_encoding(a[i].third@) == gt_encoding(b[i].third@)
                &&& a[i].proof.response@ == b[i].proof.response@
                &&& g1_compressed(a[i].proof.first_commitment@)
                    == g1_compressed(b[i].proof.first_commitment@)
                &&& g1_compressed(a[i].proof.second_commitment@)
                    == g1_compressed(b[i].proof.second_commitment@)
            } by {
            assert(u[i] == v[i]);
            a[i].lemma_same_canonical(Seq::empty(), b[i], Seq::empty());
        }
    }
    assert(batch_digest_of(a) == sha256(s));
    assert(batch_digest_of(b) == sha256(t));
}

/// A list of shares is refused at the first that belongs to another batch, that no server of
/// the committee has given, or whose server has given one before it; where there is none, it is
/// not refused.
pub proof fn law_first_share_that_is_refused(
    server_count: usize,
    digest: Seq<u8>,
    shares: Seq<DecryptionShare>,
    from: int,
)
    requires
        0 <= from <= shares.len(),
    ensures
        match first_defect(server_count, digest, shares, from) {
            None => forall|i: int|
                #![trigger shares[i]]
                from <= i < shares.len() ==> {
                    &&& shares[i].batch_digest@ == digest
                    &&& shares[i].server_index < server_count
                    &&& forall|j: int|
                        0 <= j < i ==> (#[trigger] shares[j]).server_index
                            != shares[i].server_index
                },
            Some(error) => exists|i: int|
                #![trigger shares[i]]
                {
                    let index = shares[i].server_index;
                    &&& from <= i < shares.len()
                    &&& first_defect(server_count, digest, shares.take(i), from) is None
                    &&& if shares[i].batch_digest@ != digest {
                        error == Error::InvalidShare
                    } else if index >= server_count {
                        error == Error::InvalidServerIndex(index)
                    } else {
                        &&& error == Error::DuplicateServerIndex(index)
                        &&& exists|j: int|
                            0 <= j < i && (#[trigger] shares[j]).server_index == index
                    }
                },
        },
    decreases shares.len() - from,
{
    if from < shares.len() {
        match share_defect(server_count, digest, shares, from) {
            Some(error) => {
                assert(first_defect(server_count, digest, shares.take(from), from) is None);
                assert(shares[from].server_index == shares[from].server_index);
            },
            None => {
                law_first_share_that_is_refused(server_count, digest, shares, from + 1);
                match first_defect(server_count, digest, shares, from + 1) {
                    Some(error) => {
                        let i = choose|i: int|
                            #![trigger shares[i]]
                            {
                                let index = shares[i].server_index;
                                &&& from + 1 <= i < shares.len()
                                &&& first_defect(
                                    server_count,
                                    digest,
                                    shares.take(i),
                                    from + 1,
                                ) is None
                                &&& if shares[i].batch_digest@ != digest {
                                    error == Error::InvalidShare
                                } else if index >= server_count {
                                    error == Error::InvalidServerIndex(index)
                                } else {
                                    &&& error == Error::DuplicateServerIndex(index)
                                    &&& exists|j: int|
                                        0 <= j < i && (#[trigger] shares[j]).server_index == index
                                }
                            };
                        let before = shares.take(i);
                        assert(before[from] == shares[from]);
                        assert forall|j: int| 0 <= j < from implies #[trigger] before[j]
                            == shares[j] by {}
                        assert(share_defect(server_count, digest, before, from) is None);
                        assert(first_defect(server_count, digest, before, from) is None);
                    },
                    None => {},
                }
            },
        }
    }
}

/// A batch is opened where the kernel and what was computed ahead are for its size, what was
/// computed ahead is for it, and there are as many ciphertexts: nothing else is refused.
pub proof fn law_accepted_opening(
    kernel: &PartialFractionKernel,
    batch: &ValidatedBatch,
    ciphertexts: Seq<Ciphertext>,
    precomputation: &BatchPrecomputation,
)
    ensures
        opening_defect(kernel, batch, ciphertexts, precomputation) is None <==> {
            &&& kernel.batch_size == batch.batch_size
            &&& ciphertexts.len() == batch.batch_size
            &&& precomputation.batch_size == batch.batch_size
            &&& precomputation.digest@ == batch.digest@
        },
        opening_defect(kernel, batch, ciphertexts, precomputation) matches Some(error) ==> error
            == if kernel.batch_size != batch.batch_size {
            Error::MismatchedBatchSize { expected: kernel.batch_size, actual: batch.batch_size }
        } else if ciphertexts.len() != batch.batch_size {
            Error::MismatchedBatchSize {
                expected: batch.batch_size,
                actual: ciphertexts.len() as usize,
            }
        } else {
            Error::InvalidShare
        },
{
}

/// A batch has at least one ciphertext, and as many as the key is for.
pub proof fn law_accepted_count(encryption_key: &EncryptionKey, count: int)
    ensures
        count_defect(encryption_key, count) is None <==> count != 0 && count
            == encryption_key.batch_size,
        count_defect(encryption_key, count) matches Some(error) ==> error == if count == 0 {
            Error::BatchIsEmpty
        } else {
            Error::MismatchedBatchSize {
                expected: encryption_key.batch_size,
                actual: count as usize,
            }
        },
{
}

/// Shares are combined where the key is for the batch's size and there are more than the
/// threshold of them, all for the batch and from different servers of the committee, and only
/// there.
pub proof fn law_combining_needs_enough_shares(
    decryption_key: &PublicDecryptionKey,
    batch: &ValidatedBatch,
    shares: Seq<DecryptionShare>,
)
    ensures
        combined(decryption_key, batch, shares) is Ok <==> {
            &&& decryption_key.batch_size == batch.batch_size
            &&& shares.len() > decryption_key.threshold
            &&& forall|i: int|
                #![trigger shares[i]]
                0 <= i < shares.len() ==> {
                    &&& shares[i].batch_digest@ == batch.digest@
                    &&& shares[i].server_index < decryption_key.server_count
                    &&& forall|j: int|
                        0 <= j < i ==> (#[trigger] shares[j]).server_index
                            != shares[i].server_index
                }
        },
        decryption_key.batch_size == batch.batch_size && shares.len() <= decryption_key.threshold
            ==> combined(decryption_key, batch, shares) == Err::<int, Error>(
            Error::InsufficientShares {
                supplied: shares.len() as usize,
                required: (decryption_key.threshold + 1) as usize,
            },
        ),
{
    law_first_share_that_is_refused(decryption_key.server_count, batch.digest@, shares, 0);
}

/// A share is judged where its server is one of the committee and the key publishes the shares;
/// of another batch it is refused without an error.
pub proof fn law_judged_shares(
    decryption_key: &PublicDecryptionKey,
    batch: &ValidatedBatch,
    share: DecryptionShare,
)
    requires
        batch.batch_size <= decryption_key.batch_size,
        decryption_key.share_commitments is Some,
    ensures
        share.batch_digest@ != batch.digest@ ==> share_check(decryption_key, batch, share) == Ok::<
            bool,
            Error,
        >(false),
        share.batch_digest@ == batch.digest@ ==> match share_check(decryption_key, batch, share) {
            Ok(_) => share.server_index < decryption_key.server_count,
            Err(error) => share.server_index >= decryption_key.server_count && error
                == Error::InvalidServerIndex(share.server_index),
        },
{
}

/// A batch as large as the key is for is validated where all proofs hold, and refused for its
/// proofs where exactly one does not, unless the source ends with `u64::MAX` zeros.
pub proof fn law_validation(
    encryption_key: &EncryptionKey,
    ciphertexts: Seq<Ciphertext>,
    result: Result<ValidatedBatch>,
)
    requires
        is_validation(encryption_key, ciphertexts, result),
        1 <= ciphertexts.len(),
        ciphertexts.len() == encryption_key.batch_size,
    ensures
        (result == Err::<ValidatedBatch, Error>(Error::SamplingFailed) && exists|rng: SystemRng|
            {
                let draws = #[trigger] rng.scalar_record();
                &&& draws.len() >= u64::MAX
                &&& forall|i: int|
                    draws.len() - u64::MAX <= i < draws.len() ==> #[trigger] draws[i] == 0
            }) || {
            &&& (forall|i: int|
                0 <= i < ciphertexts.len() ==> (#[trigger] ciphertexts[i]).is_valid(
                    encryption_key,
                )) ==> (result matches Ok(batch) && batch.digest@ == batch_digest_of(ciphertexts))
            &&& forall|bad: int|
                #![trigger ciphertexts[bad]]
                0 <= bad < ciphertexts.len() && !ciphertexts[bad].is_valid(encryption_key) && (
                forall|i: int|
                    0 <= i < ciphertexts.len() && i != bad ==> (
                    #[trigger] ciphertexts[i]).is_valid(encryption_key)) ==> result == Err::<
                    ValidatedBatch,
                    Error,
                >(Error::InvalidProof)
        },
{
    let n = ciphertexts.len() as int;
    let rng = choose|rng: SystemRng|
        is_drawn_validation(
            encryption_key,
            ciphertexts,
            #[trigger] rng.scalar_record(),
            result,
        );
    let draws = rng.scalar_record();
    law_only_zeros_exhaust_a_source(draws, n);
    if !are_nonzero_draws(draws, n, None) {
        let weights = kept(draws);
        law_kept_draws(draws, 0);
        if forall|i: int|
            0 <= i < ciphertexts.len() ==> (#[trigger] ciphertexts[i]).is_valid(encryption_key) {
            assert forall|i: int| 0 <= i < n implies (
            #[trigger] proofs_of(ciphertexts)[i]).accepts(
                encryption_key.relation_base@,
                first_logs(ciphertexts)[i],
                second_logs(ciphertexts)[i],
            ) by {
                assert(ciphertexts[i].is_valid(encryption_key));
            }
            law_batch_accepts_valid_proofs(
                encryption_key.relation_base@,
                first_logs(ciphertexts),
                second_logs(ciphertexts),
                proofs_of(ciphertexts),
                weights,
            );
        }
        assert forall|bad: int|
            #![trigger ciphertexts[bad]]
            0 <= bad < n && !ciphertexts[bad].is_valid(encryption_key) && (forall|i: int|
                0 <= i < n && i != bad ==> (#[trigger] ciphertexts[i]).is_valid(
                    encryption_key,
                )) implies result == Err::<ValidatedBatch, Error>(Error::InvalidProof) by {
            if result is Ok {
                let known = choose|weights: Seq<int>|
                    are_weights(weights, n) && #[trigger] proofs_hold(
                        encryption_key,
                        ciphertexts,
                        weights,
                    );
                assert(proofs_of(ciphertexts)[bad] == ciphertexts[bad].proof);
                assert forall|i: int| 0 <= i < n && i != bad implies (
                #[trigger] proofs_of(ciphertexts)[i]).accepts(
                    encryption_key.relation_base@,
                    first_logs(ciphertexts)[i],
                    second_logs(ciphertexts)[i],
                ) by {
                    assert(ciphertexts[i].is_valid(encryption_key));
                }
                assert(0 < known[bad] < order());
                law_one_bad_proof_is_refused(
                    encryption_key.relation_base@,
                    first_logs(ciphertexts),
                    second_logs(ciphertexts),
                    proofs_of(ciphertexts),
                    known,
                    bad,
                );
            }
        }
    }
}

/// Terms are computed ahead for a batch where the kernel is for its size, and only there.
pub proof fn law_accepted_precomputation(kernel: &PartialFractionKernel, batch: &ValidatedBatch)
    ensures
        kernel_defect(kernel, batch) is None <==> kernel.batch_size == batch.batch_size,
        kernel_defect(kernel, batch) matches Some(error) ==> error == (Error::MismatchedBatchSize {
            expected: kernel.batch_size,
            actual: batch.batch_size,
        }),
{
}

/// A key serves a batch where it is for its size, and only there.
pub proof fn law_accepted_key(decryption_key: &PublicDecryptionKey, batch: &ValidatedBatch)
    ensures
        key_defect(decryption_key, batch) is None <==> decryption_key.batch_size
            == batch.batch_size,
        key_defect(decryption_key, batch) matches Some(error) ==> error
            == (Error::MismatchedBatchSize {
            expected: decryption_key.batch_size,
            actual: batch.batch_size,
        }),
{
}

} // verus!
