//! Validation of batches, the middle product, threshold decryption and opening.
use vstd::prelude::*;
use vstd::string::StringSliceAdditionalSpecFns;

use crate::algebra::lagrange::weights;
use crate::algebra::residue::{
    cong, lemma_cong_add, lemma_cong_diff, lemma_cong_sub, lemma_one, lemma_reduce, order,
};
use crate::algebra::sums::{dot, lemma_sum_ext, products, sum};
use crate::btx::encryption::Ciphertext;
use crate::btx::error::{Error, Result};
use crate::btx::laws::{
    are_distinct, are_honest, lemma_honest_shares_are_valid, lemma_honest_shares_combine,
    lemma_recoverable, lemma_recovery,
};
use crate::btx::setup::{tails_fit, KeyMaterial, KeygenConfig, PublicDecryptionKey, ServerSecretKey};
use crate::bytes::{
    append, append_u64, bytes_equal, le_bytes, lemma_le_digits, lemma_same_digits, lemma_same_parts,
};
use crate::curve::{
    g1_compressed, multi_pairing, pair, views, Element, Fr, G1Point, G2Point, GtElement, G1, G2,
};
use crate::encoding::lemma_same_items;
use crate::fft::{
    is_least_power, lemma_domain_limit, lemma_small_domain, next_power_of_two, Radix2Domain,
};
use crate::hash::{digest, gt_encoding, sha256};
use crate::middle::{cross_term, cross_terms, kernel_entries, transform_kernel_g2};
use crate::points::zeros;
use crate::polynomial::lagrange_at_zero;
use crate::slots::{
    lemma_selected, lemma_valid_before, selected_terms, valid_before, valid_slots, valid_total,
};

verus! {

/// An ordered batch, whose invalid slots count as empty.
#[derive(Clone, Debug)]
pub struct ValidatedBatch {
    pub batch_size: usize,
    pub digest: [u8; 32],
    pub valid: Vec<bool>,
    pub first_projective: Vec<G1>,
}

/// The precomputation for one batch size.
#[derive(Clone, Debug)]
pub struct MiddleProductKernel {
    pub batch_size: usize,
    pub transform_size: usize,
    pub domain: Radix2Domain,
    pub transformed_kernel: Vec<G2Point>,
    pub opening_powers: Vec<G2Point>,
}

/// The cross terms of one batch.
#[derive(Clone, Debug)]
pub struct BatchPrecomputation {
    pub batch_size: usize,
    pub digest: [u8; 32],
    pub beta: Vec<GtElement>,
}

#[derive(Clone, Copy, Debug)]
pub struct DecryptionShare {
    pub server_index: usize,
    pub sigma: G1,
    pub batch_digest: [u8; 32],
}

impl DecryptionShare {
    /// Whether this is what the server with the given key makes of a batch: the
    /// sum of the first components, each times the server's share for its slot.
    pub open spec fn is_share_of(
        self,
        server_key: &ServerSecretKey,
        batch: &ValidatedBatch,
    ) -> bool {
        &&& self.server_index == server_key.server_index
        &&& self.batch_digest@ == batch.digest@
        &&& self.sigma@ == dot(views(batch.first_projective@), views(server_key.shares@)) % order()
    }
}

/// The canonical encodings of ciphertexts, one after the other.
pub open spec fn canonical_all(ciphertexts: Seq<Ciphertext>) -> Seq<u8>
    decreases ciphertexts.len(),
{
    if ciphertexts.len() == 0 {
        Seq::empty()
    } else {
        canonical_all(ciphertexts.drop_last()) + ciphertexts.last().canonical()
    }
}

/// The digest of an ordered batch.
pub open spec fn batch_digest_of(ciphertexts: Seq<Ciphertext>) -> Seq<u8> {
    sha256(
        "BTX-ORDERED-BATCH-v1".spec_bytes() + le_bytes(ciphertexts.len() as int, 8)
            + canonical_all(ciphertexts),
    )
}

fn batch_digest(ciphertexts: &[Ciphertext]) -> (result: [u8; 32])
    ensures
        result@ == batch_digest_of(ciphertexts@),
{
    let mut bytes: Vec<u8> = Vec::new();
    append(&mut bytes, "BTX-ORDERED-BATCH-v1".as_bytes());
    append_u64(&mut bytes, ciphertexts.len() as u64);
    let ghost header = "BTX-ORDERED-BATCH-v1".spec_bytes() + le_bytes(ciphertexts@.len() as int, 8);
    let mut index: usize = 0;
    proof {
        assert(bytes@ =~= header + canonical_all(ciphertexts@.take(0)));
    }
    while index < ciphertexts.len()
        invariant
            index <= ciphertexts@.len(),
            bytes@ == header + canonical_all(ciphertexts@.take(index as int)),
        decreases ciphertexts@.len() - index,
    {
        ciphertexts[index].append_canonical(&mut bytes);
        index = index + 1;
        proof {
            let now = ciphertexts@.take(index as int);
            assert(now.drop_last() =~= ciphertexts@.take(index - 1));
            assert(now.last() == ciphertexts@[index - 1]);
            assert(bytes@ =~= header + canonical_all(now));
        }
    }
    assert(ciphertexts@.take(index as int) =~= ciphertexts@);
    digest(bytes.as_slice())
}

impl ValidatedBatch {
    /// What every batch satisfies.
    pub open spec fn wf(&self) -> bool {
        &&& 1 <= self.batch_size
        &&& self.valid@.len() == self.batch_size
        &&& self.first_projective@.len() == self.batch_size
        &&& forall|i: int|
            0 <= i < self.batch_size && !self.valid@[i] ==> (
            #[trigger] self.first_projective@[i])@ == 0
    }

    /// Whether this is the batch of the ciphertexts: a slot is valid where its
    /// proof holds, or where proofs are not checked, and is empty otherwise.
    pub open spec fn is_batch_of(&self, ciphertexts: Seq<Ciphertext>, verify_proofs: bool) -> bool {
        &&& self.wf()
        &&& self.batch_size == ciphertexts.len()
        &&& self.digest@ == batch_digest_of(ciphertexts)
        &&& forall|i: int|
            0 <= i < ciphertexts.len() ==> #[trigger] self.valid@[i] == (!verify_proofs
                || ciphertexts[i].is_valid())
        &&& forall|i: int|
            0 <= i < ciphertexts.len() ==> (#[trigger] self.first_projective@[i])@ == (
            if self.valid@[i] {
                ciphertexts[i].first@
            } else {
                0
            })
    }

    /// The ordered batch, with every proof checked.
    pub fn verify(ciphertexts: &[Ciphertext]) -> (result: Result<Self>)
        ensures
            match result {
                Ok(batch) => ciphertexts@.len() > 0 && batch.is_batch_of(ciphertexts@, true),
                Err(error) => ciphertexts@.len() == 0 && error == Error::BatchIsEmpty,
            },
    {
        Self::from_ciphertexts(ciphertexts, true)
    }

    /// The ordered batch, for ciphertexts whose proofs were checked before.
    pub fn proofs_preverified(ciphertexts: &[Ciphertext]) -> (result: Result<Self>)
        ensures
            match result {
                Ok(batch) => ciphertexts@.len() > 0 && batch.is_batch_of(ciphertexts@, false),
                Err(error) => ciphertexts@.len() == 0 && error == Error::BatchIsEmpty,
            },
    {
        Self::from_ciphertexts(ciphertexts, false)
    }

    fn from_ciphertexts(ciphertexts: &[Ciphertext], verify_proofs: bool) -> (result: Result<Self>)
        ensures
            match result {
                Ok(batch) => ciphertexts@.len() > 0 && batch.is_batch_of(
                    ciphertexts@,
                    verify_proofs,
                ),
                Err(error) => ciphertexts@.len() == 0 && error == Error::BatchIsEmpty,
            },
    {
        if ciphertexts.len() == 0 {
            return Err(Error::BatchIsEmpty);
        }
        let mut valid: Vec<bool> = Vec::new();
        let mut first_projective: Vec<G1> = Vec::new();
        while valid.len() < ciphertexts.len()
            invariant
                valid@.len() == first_projective@.len() <= ciphertexts@.len(),
                forall|i: int|
                    0 <= i < valid@.len() ==> #[trigger] valid@[i] == (!verify_proofs
                        || ciphertexts@[i].is_valid()),
                forall|i: int|
                    0 <= i < valid@.len() ==> (#[trigger] first_projective@[i])@ == (if valid@[i] {
                        ciphertexts@[i].first@
                    } else {
                        0
                    }),
            decreases ciphertexts@.len() - valid@.len(),
        {
            let ciphertext = ciphertexts[valid.len()];
            // A slot's power is that of its place: an invalid slot stays, as an identity.
            let is_valid = !verify_proofs || ciphertext.verify();
            valid.push(is_valid);
            if is_valid {
                first_projective.push(G1::from_affine(ciphertext.first));
            } else {
                first_projective.push(G1::zero());
            }
        }
        Ok(
            ValidatedBatch {
                batch_size: ciphertexts.len(),
                digest: batch_digest(ciphertexts),
                valid,
                first_projective,
            },
        )
    }

    pub fn batch_size(&self) -> (result: usize)
        ensures
            result == self.batch_size,
    {
        self.batch_size
    }

    pub fn digest(&self) -> (result: [u8; 32])
        ensures
            result == self.digest,
    {
        self.digest
    }

    pub fn valid_mask(&self) -> (result: &Vec<bool>)
        ensures
            *result == self.valid,
    {
        &self.valid
    }

    /// How many slots are valid.
    pub fn valid_count(&self) -> (result: usize)
        ensures
            result == valid_total(self.valid@),
    {
        valid_slots(&self.valid).len()
    }
}

/// The ordered batch, with every proof checked.
pub fn validate_batch(ciphertexts: &[Ciphertext]) -> (result: Result<ValidatedBatch>)
    ensures
        match result {
            Ok(batch) => ciphertexts@.len() > 0 && batch.is_batch_of(ciphertexts@, true),
            Err(error) => ciphertexts@.len() == 0 && error == Error::BatchIsEmpty,
        },
{
    ValidatedBatch::from_ciphertexts(ciphertexts, true)
}

/// Why a batch size is refused, where it is.
pub open spec fn batch_size_defect(decryption_key: &PublicDecryptionKey, batch_size: usize) -> Option<
    Error,
> {
    if batch_size == 0 {
        Some(Error::BatchIsEmpty)
    } else if batch_size > decryption_key.max_batch_size {
        Some(
            Error::BatchTooLarge { batch_size, max_batch_size: decryption_key.max_batch_size },
        )
    } else {
        None
    }
}

fn validate_batch_size(decryption_key: &PublicDecryptionKey, batch_size: usize) -> (result: Result<
    (),
>)
    ensures
        match result {
            Ok(()) => batch_size_defect(decryption_key, batch_size) is None,
            Err(error) => batch_size_defect(decryption_key, batch_size) == Some(error),
        },
{
    if batch_size == 0 {
        return Err(Error::BatchIsEmpty);
    }
    if batch_size > decryption_key.max_batch_size() {
        return Err(
            Error::BatchTooLarge { batch_size, max_batch_size: decryption_key.max_batch_size() },
        );
    }
    Ok(())
}

/// The kernel of the middle product: nothing at zero, and at `d` the power that
/// lies `d` below the one left out, where `d` counts cyclically.
pub open spec fn centered_kernel(
    decryption_key: &PublicDecryptionKey,
    batch_size: int,
    transform_size: int,
) -> Seq<int> {
    Seq::new(
        transform_size as nat,
        |d: int|
            if 1 <= d < batch_size {
                decryption_key.centered_log(-d)
            } else if 1 <= transform_size - d < batch_size {
                decryption_key.centered_log(transform_size - d)
            } else {
                0
            },
    )
}

impl MiddleProductKernel {
    /// What every kernel satisfies.
    pub open spec fn wf(&self) -> bool {
        &&& 1 <= self.batch_size
        &&& 2 * self.batch_size <= self.transform_size
        &&& self.domain.wf()
        &&& self.domain.spec_size() == self.transform_size
        &&& self.transformed_kernel@.len() == self.transform_size
        &&& self.opening_powers@.len() == self.batch_size
    }

    /// The kernel before it was transformed.
    pub open spec fn entries(&self) -> Seq<int> {
        kernel_entries(self.domain, views(self.transformed_kernel@))
    }

    /// Whether this is the kernel of a key.
    pub open spec fn is_kernel_of(&self, decryption_key: &PublicDecryptionKey) -> bool {
        &&& self.wf()
        &&& self.entries() == centered_kernel(
            decryption_key,
            self.batch_size as int,
            self.transform_size as int,
        )
        &&& forall|slot: int|
            0 <= slot < self.batch_size ==> (#[trigger] self.opening_powers@[slot])@
                == decryption_key.centered_log(-(slot + 1))
    }

    /// The precomputation for a batch size, which can be used for every batch of
    /// that size. It fails where the transform would be too large.
    pub fn new(decryption_key: &PublicDecryptionKey, batch_size: usize) -> (result: Result<Self>)
        requires
            decryption_key.wf(),
        ensures
            match result {
                Ok(kernel) => {
                    &&& batch_size_defect(decryption_key, batch_size) is None
                    &&& kernel.is_kernel_of(decryption_key)
                    &&& kernel.batch_size == batch_size
                    &&& is_least_power(kernel.transform_size as int, 2 * batch_size)
                    &&& batch_size <= 0x8000_0000
                },
                Err(error) => match batch_size_defect(decryption_key, batch_size) {
                    Some(defect) => error == defect,
                    None => error matches Error::InvalidBatchSize(size) && batch_size > 0x8000_0000
                        && is_least_power(size as int, 2 * batch_size),
                },
            },
    {
        match validate_batch_size(decryption_key, batch_size) {
            Ok(()) => {},
            Err(error) => {
                return Err(error);
            },
        }
        let doubled: usize = 2 * batch_size;
        let transform_size = match next_power_of_two(doubled) {
            Some(size) => size,
            None => {
                return Err(Error::InvalidBatchSize(batch_size));
            },
        };
        let domain = match Radix2Domain::new(transform_size) {
            Some(domain) => domain,
            None => {
                proof {
                    if batch_size <= 0x8000_0000 {
                        lemma_small_domain(transform_size as int);
                    }
                }
                return Err(Error::InvalidBatchSize(transform_size));
            },
        };
        proof {
            lemma_domain_limit(transform_size as int);
        }
        let mut kernel: Vec<G2> = zeros(transform_size);
        let ghost target = centered_kernel(
            decryption_key,
            batch_size as int,
            transform_size as int,
        );
        let mut distance: usize = 1;
        while distance < batch_size
            invariant
                decryption_key.wf(),
                1 <= distance <= batch_size <= decryption_key.max_batch_size,
                2 * batch_size <= transform_size,
                kernel@.len() == transform_size,
                forall|d: int|
                    0 <= d < transform_size ==> (#[trigger] kernel@[d])@ == (if 1 <= d < distance {
                        decryption_key.centered_log(-d)
                    } else if 1 <= transform_size - d < distance {
                        decryption_key.centered_log(transform_size - d)
                    } else {
                        0
                    }),
            decreases batch_size - distance,
        {
            let low = decryption_key.centered_power(-(distance as isize))?;
            let high = decryption_key.centered_power(distance as isize)?;
            kernel.set(distance, G2::from_affine(low));
            kernel.set(transform_size - distance, G2::from_affine(high));
            distance = distance + 1;
        }
        assert(views(kernel@) =~= target);
        // The division by the size is done here, once for all batches.
        let transformed_kernel = transform_kernel_g2(&domain, kernel);
        let mut opening_powers: Vec<G2Point> = Vec::new();
        while opening_powers.len() < batch_size
            invariant
                decryption_key.wf(),
                batch_size <= decryption_key.max_batch_size,
                opening_powers@.len() <= batch_size,
                forall|slot: int|
                    0 <= slot < opening_powers@.len() ==> (#[trigger] opening_powers@[slot])@
                        == decryption_key.centered_log(-(slot + 1)),
            decreases batch_size - opening_powers@.len(),
        {
            let slot = opening_powers.len();
            let power = decryption_key.centered_power(-((slot + 1) as isize))?;
            opening_powers.push(power);
        }
        Ok(
            MiddleProductKernel {
                batch_size,
                transform_size,
                domain,
                transformed_kernel,
                opening_powers,
            },
        )
    }

    pub fn batch_size(&self) -> (result: usize)
        ensures
            result == self.batch_size,
    {
        self.batch_size
    }

    pub fn transform_size(&self) -> (result: usize)
        ensures
            result == self.transform_size,
    {
        self.transform_size
    }
}

/// What a kernel and a batch of different sizes are refused with.
pub open spec fn kernel_defect(kernel: &MiddleProductKernel, batch: &ValidatedBatch) -> Option<
    Error,
> {
    if kernel.batch_size != batch.batch_size {
        Some(
            Error::MismatchedBatchSize { expected: kernel.batch_size, actual: batch.batch_size },
        )
    } else {
        None
    }
}

fn ensure_kernel_batch(kernel: &MiddleProductKernel, batch: &ValidatedBatch) -> (result: Result<()>)
    ensures
        match result {
            Ok(()) => kernel_defect(kernel, batch) is None,
            Err(error) => kernel_defect(kernel, batch) == Some(error),
        },
{
    if kernel.batch_size != batch.batch_size {
        return Err(
            Error::MismatchedBatchSize { expected: kernel.batch_size, actual: batch.batch_size },
        );
    }
    Ok(())
}

/// The cross term of a slot: the sum, over all slots, of the first component
/// there times the kernel's entry at the distance.
pub open spec fn beta_of(kernel: &MiddleProductKernel, batch: &ValidatedBatch, slot: int) -> int {
    cross_term(views(batch.first_projective@), kernel.entries(), slot) % order()
}

/// The cross terms of all slots.
pub fn precompute_batch(kernel: &MiddleProductKernel, batch: &ValidatedBatch) -> (result: Result<
    BatchPrecomputation,
>)
    requires
        kernel.wf(),
        batch.wf(),
    ensures
        match result {
            Ok(precomputation) => {
                &&& kernel_defect(kernel, batch) is None
                &&& precomputation.batch_size == batch.batch_size
                &&& precomputation.digest == batch.digest
                &&& precomputation.beta@.len() == batch.batch_size
                &&& forall|i: int|
                    0 <= i < batch.batch_size ==> (#[trigger] precomputation.beta@[i])@ == beta_of(
                        kernel,
                        batch,
                        i,
                    )
            },
            Err(error) => kernel_defect(kernel, batch) == Some(error),
        },
{
    match ensure_kernel_batch(kernel, batch) {
        Ok(()) => {},
        Err(error) => {
            return Err(error);
        },
    }
    let mut beta = cross_terms(&kernel.domain, &batch.first_projective, &kernel.transformed_kernel);
    beta.truncate(batch.batch_size);
    Ok(BatchPrecomputation { batch_size: batch.batch_size, digest: batch.digest, beta })
}

/// The share of a server: the sum of the first components, each times the
/// server's share for its slot.
pub fn partial_decrypt(server_key: &ServerSecretKey, batch: &ValidatedBatch) -> (result: Result<
    DecryptionShare,
>)
    requires
        batch.wf(),
    ensures
        match result {
            Ok(share) => batch.batch_size <= server_key.shares@.len() && share.is_share_of(
                server_key,
                batch,
            ),
            Err(error) => batch.batch_size > server_key.shares@.len() && error
                == (Error::BatchTooLarge {
                batch_size: batch.batch_size,
                max_batch_size: server_key.shares@.len() as usize,
            }),
        },
{
    let scalars = match server_key.shares_for_batch(batch.batch_size) {
        Ok(scalars) => scalars,
        Err(error) => {
            return Err(error);
        },
    };
    let sigma = G1::multi_exp(batch.first_projective.as_slice(), scalars.as_slice());
    proof {
        let a = views(batch.first_projective@);
        let b = views(scalars@);
        let c = views(server_key.shares@);
        assert forall|i: int| 0 <= i < a.len() implies #[trigger] products(a, b)(i) == products(
            a,
            c,
        )(i) by {
            assert(b[i] == c[i]);
        }
        lemma_sum_ext(products(a, b), products(a, c), 0, a.len() as int);
    }
    Ok(
        DecryptionShare { server_index: server_key.server_index, sigma, batch_digest: batch.digest },
    )
}

/// Why share `i` is refused, where it is.
pub open spec fn share_defect(
    server_count: usize,
    digest: Seq<u8>,
    shares: Seq<DecryptionShare>,
    i: int,
) -> Option<Error> {
    let index = shares[i].server_index;
    if shares[i].batch_digest@ != digest {
        Some(Error::InvalidShare)
    } else if index >= server_count {
        Some(Error::InvalidServerIndex(index))
    } else if exists|j: int| 0 <= j < i && (#[trigger] shares[j]).server_index == index {
        Some(Error::DuplicateServerIndex(index))
    } else {
        None
    }
}

/// Why the first refused share, from `from` on, is refused.
pub open spec fn first_defect(
    server_count: usize,
    digest: Seq<u8>,
    shares: Seq<DecryptionShare>,
    from: int,
) -> Option<Error>
    decreases shares.len() - from,
{
    if from >= shares.len() {
        None
    } else {
        match share_defect(server_count, digest, shares, from) {
            Some(error) => Some(error),
            None => first_defect(server_count, digest, shares, from + 1),
        }
    }
}

/// The evaluation points of the servers of the shares.
pub open spec fn share_points(shares: Seq<DecryptionShare>) -> Seq<int> {
    Seq::new(shares.len(), |i: int| shares[i].server_index + 1)
}

pub open spec fn share_sigmas(shares: Seq<DecryptionShare>) -> Seq<int> {
    Seq::new(shares.len(), |i: int| shares[i].sigma@)
}

/// The outcome of combining shares: the first defect, or the interpolation at
/// zero of the shares' points.
pub open spec fn combined(
    decryption_key: &PublicDecryptionKey,
    batch: &ValidatedBatch,
    shares: Seq<DecryptionShare>,
) -> core::result::Result<int, Error> {
    if shares.len() < decryption_key.threshold + 1 {
        Err(
            Error::InsufficientShares {
                supplied: shares.len() as usize,
                required: (decryption_key.threshold + 1) as usize,
            },
        )
    } else {
        match first_defect(decryption_key.server_count, batch.digest@, shares, 0) {
            Some(error) => Err(error),
            None => Ok(dot(share_sigmas(shares), weights(share_points(shares))) % order()),
        }
    }
}

/// Whether an outcome is the one that a specification gives.
pub open spec fn is_point(
    result: core::result::Result<G1, Error>,
    expected: core::result::Result<int, Error>,
) -> bool {
    match result {
        Ok(point) => expected matches Ok(log) && point@ == log,
        Err(error) => expected matches Err(other) && error == other,
    }
}

/// Checks that shares are enough, for the batch and of different servers.
fn validate_share_set(
    decryption_key: &PublicDecryptionKey,
    batch: &ValidatedBatch,
    shares: &[DecryptionShare],
) -> (result: Result<()>)
    requires
        decryption_key.wf(),
    ensures
        match result {
            Ok(()) => combined(decryption_key, batch, shares@) is Ok && are_distinct(
                decryption_key.server_count,
                batch,
                shares@,
            ),
            Err(error) => combined(decryption_key, batch, shares@) == Err::<int, Error>(error),
        },
{
    if shares.len() < decryption_key.required_shares() {
        return Err(
            Error::InsufficientShares {
                supplied: shares.len(),
                required: decryption_key.required_shares(),
            },
        );
    }
    let count = decryption_key.server_count;
    let mut seen: Vec<bool> = Vec::new();
    while seen.len() < count
        invariant
            seen@.len() <= count,
            forall|s: int| 0 <= s < seen@.len() ==> !#[trigger] seen@[s],
        decreases count - seen@.len(),
    {
        seen.push(false);
    }
    let mut index: usize = 0;
    while index < shares.len()
        invariant
            count == decryption_key.server_count,
            index <= shares@.len(),
            decryption_key.threshold + 1 <= shares@.len(),
            seen@.len() == count,
            first_defect(count, batch.digest@, shares@, 0) == first_defect(
                count,
                batch.digest@,
                shares@,
                index as int,
            ),
            forall|s: int|
                0 <= s < count ==> (#[trigger] seen@[s] <==> exists|j: int|
                    0 <= j < index && (#[trigger] shares@[j]).server_index == s),
            forall|i: int|
                0 <= i < index ==> (#[trigger] shares@[i]).server_index < count
                    && shares@[i].batch_digest@ == batch.digest@,
            forall|i: int, j: int|
                0 <= i < j < index ==> (#[trigger] shares@[i]).server_index != (
                #[trigger] shares@[j]).server_index,
        decreases shares@.len() - index,
    {
        let share = shares[index];
        let ghost defect = share_defect(count, batch.digest@, shares@, index as int);
        assert(first_defect(count, batch.digest@, shares@, index as int) == match defect {
            Some(error) => Some(error),
            None => first_defect(count, batch.digest@, shares@, index + 1),
        });
        if !bytes_equal(share.batch_digest.as_slice(), batch.digest.as_slice()) {
            return Err(Error::InvalidShare);
        }
        if share.server_index >= count {
            return Err(Error::InvalidServerIndex(share.server_index));
        }
        if seen[share.server_index] {
            return Err(Error::DuplicateServerIndex(share.server_index));
        }
        let ghost before = seen@;
        seen.set(share.server_index, true);
        proof {
            assert(!before[share.server_index as int]);
            assert forall|s: int| 0 <= s < count implies (#[trigger] seen@[s] <==> exists|j: int|
                0 <= j < index + 1 && (#[trigger] shares@[j]).server_index == s) by {
                if s == share.server_index {
                    assert(shares@[index as int].server_index == s);
                } else if seen@[s] {
                    assert(before[s]);
                    let j = choose|j: int|
                        0 <= j < index && (#[trigger] shares@[j]).server_index == s;
                    assert(shares@[j].server_index == s);
                } else {
                    assert(!before[s]);
                }
            }
        }
        index = index + 1;
    }
    Ok(())
}

/// Combines the shares of enough different servers.
pub fn combine_shares(
    decryption_key: &PublicDecryptionKey,
    batch: &ValidatedBatch,
    shares: &[DecryptionShare],
) -> (result: Result<G1>)
    requires
        decryption_key.wf(),
    ensures
        is_point(result, combined(decryption_key, batch, shares@)),
        // the shares that enough different servers make combine to a point that
        // passes its check
        batch.wf() ==> forall|
            material: KeyMaterial,
            config: KeygenConfig,
            tau: int,
            tails: Seq<Seq<int>>,
        | #[trigger]
            material.is_generated(config, tau, tails) && tails_fit(config, tails)
                && material.decryption_key == *decryption_key && are_honest(
                &material,
                config,
                batch,
                shares@,
            ) ==> (result matches Ok(point) && sigma_holds(decryption_key, batch, point@)),
{
    match validate_share_set(decryption_key, batch, shares) {
        Ok(()) => {},
        Err(error) => {
            proof {
                assert forall|
                    material: KeyMaterial,
                    config: KeygenConfig,
                    tau: int,
                    tails: Seq<Seq<int>>,
                | #[trigger]
                    material.is_generated(config, tau, tails) && material.decryption_key
                        == *decryption_key implies !are_honest(
                    &material,
                    config,
                    batch,
                    shares@,
                ) by {
                    if are_honest(&material, config, batch, shares@) {
                        lemma_honest_shares_are_valid(
                            &material,
                            config,
                            tau,
                            tails,
                            batch,
                            shares@,
                        );
                    }
                }
            }
            return Err(error);
        },
    }
    let mut points: Vec<Fr> = Vec::new();
    let mut bases: Vec<G1> = Vec::new();
    while points.len() < shares.len()
        invariant
            decryption_key.wf(),
            are_distinct(decryption_key.server_count, batch, shares@),
            points@.len() == bases@.len() <= shares@.len(),
            forall|i: int|
                0 <= i < points@.len() ==> (#[trigger] points@[i])@ == shares@[i].server_index + 1,
            forall|i: int|
                0 <= i < points@.len() ==> (#[trigger] bases@[i])@ == shares@[i].sigma@,
        decreases shares@.len() - points@.len(),
    {
        let share = shares[points.len()];
        assert(shares@[points@.len() as int].server_index < decryption_key.server_count);
        points.push(decryption_key.server_domain()[share.server_index]);
        bases.push(share.sigma);
    }
    proof {
        assert forall|i: int, j: int| 0 <= i < j < points@.len() implies (
        #[trigger] points@[i])@ != (#[trigger] points@[j])@ by {
            assert(shares@[i].server_index != shares@[j].server_index);
        }
        assert(views(points@) =~= share_points(shares@));
        assert(views(bases@) =~= share_sigmas(shares@));
    }
    let coefficients = lagrange_at_zero(&points);
    assert(views(coefficients@).len() == points@.len());
    let point = G1::multi_exp(bases.as_slice(), coefficients.as_slice());
    proof {
        assert forall|
            material: KeyMaterial,
            config: KeygenConfig,
            tau: int,
            tails: Seq<Seq<int>>,
        | #[trigger]
            material.is_generated(config, tau, tails) && tails_fit(config, tails)
                && material.decryption_key == *decryption_key && are_honest(
                &material,
                config,
                batch,
                shares@,
            ) && batch.wf() implies sigma_holds(decryption_key, batch, point@) by {
            lemma_honest_shares_combine(&material, config, tau, tails, batch, shares@);
        }
    }
    Ok(point)
}

/// Whether the pairings of the points add up to zero.
fn pairing_product_is_identity(left: &Vec<G1Point>, right: &Vec<G2Point>) -> (result: bool)
    requires
        left@.len() == right@.len(),
    ensures
        result == cong(dot(views(left@), views(right@)), 0),
{
    let total = multi_pairing(left.as_slice(), right.as_slice());
    proof {
        lemma_one();
    }
    total == GtElement::zero()
}

/// Whether the pairing of `sigma` with the generator is the sum of the pairings of
/// the points of the valid slots with `right`.
fn check_sigma(batch: &ValidatedBatch, slots: &Vec<usize>, right: Vec<G2Point>, sigma: G1, Ghost(
    b,
): Ghost<Seq<int>>) -> (result: bool)
    requires
        batch.wf(),
        slots@ == valid_before(batch.valid@, batch.batch_size as int),
        right@.len() == slots@.len(),
        forall|i: int| 0 <= i < slots@.len() ==> (#[trigger] right@[i])@ == b[slots@[i] as int],
    ensures
        result == cong(sigma@, dot(views(batch.first_projective@), b)),
{
    let ghost a = views(batch.first_projective@);
    let ghost n = slots@.len() as int;
    let mut right = right;
    let mut left: Vec<G1Point> = Vec::new();
    proof {
        lemma_valid_before(batch.valid@, batch.batch_size as int);
    }
    while left.len() < slots.len()
        invariant
            batch.wf(),
            slots@ == valid_before(batch.valid@, batch.batch_size as int),
            forall|i: int|
                0 <= i < slots@.len() ==> (#[trigger] slots@[i]) < batch.batch_size,
            left@.len() <= slots@.len(),
            a == views(batch.first_projective@),
            forall|i: int|
                0 <= i < left@.len() ==> (#[trigger] left@[i])@ == a[slots@[i] as int],
        decreases slots@.len() - left@.len(),
    {
        let slot = slots[left.len()];
        left.push(batch.first_projective[slot].to_affine());
    }
    let negative = G1::zero().minus(sigma);
    left.push(negative.to_affine());
    right.push(G2Point::generator());
    proof {
        let f = products(views(left@), views(right@));
        let g = selected_terms(a, b, slots@);
        assert forall|i: int| 0 <= i < n implies #[trigger] f(i) == g(i) by {}
        lemma_sum_ext(f, g, 0, n);
        assert(a.len() == batch.batch_size);
        assert forall|i: int| 0 <= i < batch.batch_size && !batch.valid@[i] implies #[trigger] a[i]
            == 0 by {
            assert(batch.first_projective@[i]@ == 0);
        }
        lemma_selected(a, b, batch.valid@, batch.batch_size as int);
        let total = sum(f, 0, n);
        assert(total == dot(a, b));
        assert(f(n) == negative@ * 1);
        assert(dot(views(left@), views(right@)) == total + negative@);
        lemma_reduce(0 - sigma@);
        lemma_cong_add(total, total, negative@, 0 - sigma@);
        assert(cong(total + negative@, total - sigma@));
        lemma_cong_diff(total, sigma@);
    }
    pairing_product_is_identity(&left, &right)
}

/// The logarithms of a server's share commitments.
pub open spec fn commitment_logs(decryption_key: &PublicDecryptionKey, server_index: int) -> Seq<
    int,
> {
    Seq::new(
        decryption_key.max_batch_size as nat,
        |slot: int| decryption_key.commitment_log(server_index, slot),
    )
}

/// Why the commitment for the first valid slot, from `from` on, that has none
/// cannot be had.
pub open spec fn commitments_defect(
    decryption_key: &PublicDecryptionKey,
    server_index: int,
    slots: Seq<usize>,
    from: int,
) -> Option<Error>
    decreases slots.len() - from,
{
    if from >= slots.len() {
        None
    } else {
        match decryption_key.commitment_defect(server_index, slots[from] as int) {
            Some(error) => Some(error),
            None => commitments_defect(decryption_key, server_index, slots, from + 1),
        }
    }
}

/// The outcome of the check of one share. A share of another batch does not pass;
/// a server that does not exist, and commitments that cannot be had, are errors;
/// else the share passes where its point is the sum of the first components, each
/// times the committed share for its slot.
pub open spec fn share_check(
    decryption_key: &PublicDecryptionKey,
    batch: &ValidatedBatch,
    share: DecryptionShare,
) -> core::result::Result<bool, Error> {
    let index = share.server_index as int;
    let slots = valid_before(batch.valid@, batch.batch_size as int);
    if share.batch_digest@ != batch.digest@ {
        Ok(false)
    } else if index >= decryption_key.server_count {
        Err(Error::InvalidServerIndex(share.server_index))
    } else {
        match commitments_defect(decryption_key, index, slots, 0) {
            Some(error) => Err(error),
            None => Ok(
                cong(
                    share.sigma@,
                    dot(
                        views(batch.first_projective@),
                        commitment_logs(decryption_key, index),
                    ),
                ),
            ),
        }
    }
}

/// Checks one share against the commitments of its server.
pub fn verify_decryption_share(
    decryption_key: &PublicDecryptionKey,
    batch: &ValidatedBatch,
    share: &DecryptionShare,
) -> (result: Result<bool>)
    requires
        decryption_key.wf(),
        batch.wf(),
    ensures
        result == share_check(decryption_key, batch, *share),
{
    if !bytes_equal(share.batch_digest.as_slice(), batch.digest.as_slice()) {
        return Ok(false);
    }
    if share.server_index >= decryption_key.server_count() {
        return Err(Error::InvalidServerIndex(share.server_index));
    }
    let slots = valid_slots(&batch.valid);
    let ghost index = share.server_index as int;
    let ghost logs = commitment_logs(decryption_key, index);
    proof {
        lemma_valid_before(batch.valid@, batch.batch_size as int);
    }
    let mut right: Vec<G2Point> = Vec::new();
    while right.len() < slots.len()
        invariant
            decryption_key.wf(),
            right@.len() <= slots@.len(),
            forall|i: int| 0 <= i < slots@.len() ==> (#[trigger] slots@[i]) < batch.batch_size,
            index == share.server_index,
            index < decryption_key.server_count,
            logs == commitment_logs(decryption_key, index),
            share.batch_digest@ == batch.digest@,
            slots@ == valid_before(batch.valid@, batch.batch_size as int),
            commitments_defect(decryption_key, index, slots@, 0) == commitments_defect(
                decryption_key,
                index,
                slots@,
                right@.len() as int,
            ),
            forall|i: int|
                0 <= i < right@.len() ==> (#[trigger] right@[i])@ == logs[slots@[i] as int],
        decreases slots@.len() - right@.len(),
    {
        let slot = slots[right.len()];
        match decryption_key.share_commitment(share.server_index, slot) {
            Ok(commitment) => {
                right.push(commitment);
            },
            Err(error) => {
                return Err(error);
            },
        }
    }
    Ok(check_sigma(batch, &slots, right, share.sigma, Ghost(logs)))
}

/// The logarithms of the powers `1..` of the secret.
pub open spec fn low_logs(decryption_key: &PublicDecryptionKey) -> Seq<int> {
    views(decryption_key.low_powers@)
}

/// Whether a combined point is the sum of the first components, each times the
/// power of the secret for its slot.
pub open spec fn sigma_holds(
    decryption_key: &PublicDecryptionKey,
    batch: &ValidatedBatch,
    sigma: int,
) -> bool {
    cong(sigma, dot(views(batch.first_projective@), low_logs(decryption_key)))
}

/// Checks a combined point against the powers of the secret.
pub fn verify_combined_share(
    decryption_key: &PublicDecryptionKey,
    batch: &ValidatedBatch,
    sigma: G1,
) -> (result: Result<bool>)
    requires
        decryption_key.wf(),
        batch.wf(),
    ensures
        match batch_size_defect(decryption_key, batch.batch_size) {
            Some(error) => result == Err::<bool, Error>(error),
            None => result == Ok::<bool, Error>(sigma_holds(decryption_key, batch, sigma@)),
        },
{
    match validate_batch_size(decryption_key, batch.batch_size) {
        Ok(()) => {},
        Err(error) => {
            return Err(error);
        },
    }
    let slots = valid_slots(&batch.valid);
    let ghost logs = low_logs(decryption_key);
    proof {
        lemma_valid_before(batch.valid@, batch.batch_size as int);
    }
    let mut right: Vec<G2Point> = Vec::new();
    while right.len() < slots.len()
        invariant
            decryption_key.wf(),
            batch.batch_size <= decryption_key.max_batch_size,
            right@.len() <= slots@.len(),
            logs == low_logs(decryption_key),
            forall|i: int| 0 <= i < slots@.len() ==> (#[trigger] slots@[i]) < batch.batch_size,
            forall|i: int|
                0 <= i < right@.len() ==> (#[trigger] right@[i])@ == logs[slots@[i] as int],
        decreases slots@.len() - right@.len(),
    {
        let slot = slots[right.len()];
        let power = decryption_key.power(slot + 1)?;
        right.push(power);
    }
    Ok(check_sigma(batch, &slots, right, sigma, Ghost(logs)))
}

/// The shares that pass their check, in order.
pub open spec fn passing(
    decryption_key: &PublicDecryptionKey,
    batch: &ValidatedBatch,
    shares: Seq<DecryptionShare>,
) -> Seq<DecryptionShare>
    decreases shares.len(),
{
    if shares.len() == 0 {
        Seq::empty()
    } else {
        let rest = passing(decryption_key, batch, shares.drop_last());
        if share_check(decryption_key, batch, shares.last()) == Ok::<bool, Error>(true) {
            rest.push(shares.last())
        } else {
            rest
        }
    }
}

/// The error of the first share, from `from` on, whose check is an error.
pub open spec fn check_error(
    decryption_key: &PublicDecryptionKey,
    batch: &ValidatedBatch,
    shares: Seq<DecryptionShare>,
    from: int,
) -> Option<Error>
    decreases shares.len() - from,
{
    if from >= shares.len() {
        None
    } else {
        match share_check(decryption_key, batch, shares[from]) {
            Err(error) => Some(error),
            Ok(_) => check_error(decryption_key, batch, shares, from + 1),
        }
    }
}

/// The outcome of combining shares of which some may be bad: the combination of
/// all shares where it passes the check; else that of the shares that pass their
/// own checks, where there are commitments to check them against and the
/// combination then passes.
pub open spec fn combined_checked(
    decryption_key: &PublicDecryptionKey,
    batch: &ValidatedBatch,
    shares: Seq<DecryptionShare>,
) -> core::result::Result<int, Error> {
    match combined(decryption_key, batch, shares) {
        Err(error) => Err(error),
        Ok(optimistic) => match batch_size_defect(decryption_key, batch.batch_size) {
            Some(error) => Err(error),
            None => if sigma_holds(decryption_key, batch, optimistic) {
                Ok(optimistic)
            } else if decryption_key.share_commitments is None {
                Err(Error::InvalidShare)
            } else {
                match check_error(decryption_key, batch, shares, 0) {
                    Some(error) => Err(error),
                    None => match combined(
                        decryption_key,
                        batch,
                        passing(decryption_key, batch, shares),
                    ) {
                        Err(error) => Err(error),
                        Ok(recovered) => if sigma_holds(decryption_key, batch, recovered) {
                            Ok(recovered)
                        } else {
                            Err(Error::InvalidShare)
                        },
                    },
                }
            },
        },
    }
}

/// Whether shares are of different servers of the committee of some key material
/// with commitments, and enough of them pass their checks.
pub open spec fn is_recoverable(
    decryption_key: &PublicDecryptionKey,
    batch: &ValidatedBatch,
    shares: Seq<DecryptionShare>,
) -> bool {
    &&& batch.wf()
    &&& batch_size_defect(decryption_key, batch.batch_size) is None
    &&& decryption_key.share_commitments is Some
    &&& are_distinct(decryption_key.server_count, batch, shares)
    &&& passing(decryption_key, batch, shares).len() > decryption_key.threshold
    &&& exists|material: KeyMaterial, config: KeygenConfig, tau: int, tails: Seq<Seq<int>>|
        is_material(material, config, tau, tails, decryption_key)
}

/// Whether a key is that of the material that a secret and tails give.
pub open spec fn is_material(
    material: KeyMaterial,
    config: KeygenConfig,
    tau: int,
    tails: Seq<Seq<int>>,
    decryption_key: &PublicDecryptionKey,
) -> bool {
    &&& material.is_generated(config, tau, tails)
    &&& tails_fit(config, tails)
    &&& material.decryption_key == *decryption_key
}

/// Combines all shares and checks the result; where the check fails, leaves out
/// the shares that fail their own checks and combines the rest.
pub fn combine_shares_checked(
    decryption_key: &PublicDecryptionKey,
    batch: &ValidatedBatch,
    shares: &[DecryptionShare],
) -> (result: Result<G1>)
    requires
        decryption_key.wf(),
        batch.wf(),
    ensures
        is_point(result, combined_checked(decryption_key, batch, shares@)),
        result matches Ok(point) ==> sigma_holds(decryption_key, batch, point@),
        // where enough of the shares pass their checks, bad ones do no harm
        is_recoverable(decryption_key, batch, shares@) ==> result is Ok,
{
    let optimistic = match combine_shares(decryption_key, batch, shares) {
        Ok(point) => point,
        Err(error) => {
            proof {
                if is_recoverable(decryption_key, batch, shares@) {
                    lemma_recoverable(decryption_key, batch, shares@);
                }
            }
            return Err(error);
        },
    };
    match verify_combined_share(decryption_key, batch, optimistic) {
        Ok(true) => {
            return Ok(optimistic);
        },
        Ok(false) => {},
        Err(error) => {
            return Err(error);
        },
    }
    if !decryption_key.has_share_commitments() {
        return Err(Error::InvalidShare);
    }
    let mut valid_shares: Vec<DecryptionShare> = Vec::new();
    let mut index: usize = 0;
    let ghost none_yet = check_error(decryption_key, batch, shares@, 0);
    while index < shares.len()
        invariant
            decryption_key.wf(),
            batch.wf(),
            index <= shares@.len(),
            valid_shares@ == passing(decryption_key, batch, shares@.take(index as int)),
            none_yet == check_error(decryption_key, batch, shares@, 0),
            none_yet == check_error(decryption_key, batch, shares@, index as int),
            combined(decryption_key, batch, shares@) matches Ok(log) && log == optimistic@,
            batch_size_defect(decryption_key, batch.batch_size) is None,
            !sigma_holds(decryption_key, batch, optimistic@),
            decryption_key.share_commitments is Some,
        decreases shares@.len() - index,
    {
        let share = shares[index];
        proof {
            let now = shares@.take(index + 1);
            assert(now.drop_last() =~= shares@.take(index as int));
            assert(now.last() == share);
        }
        match verify_decryption_share(decryption_key, batch, &share) {
            Ok(valid) => {
                if valid {
                    valid_shares.push(share);
                }
            },
            Err(error) => {
                proof {
                    if is_recoverable(decryption_key, batch, shares@) {
                        lemma_recoverable(decryption_key, batch, shares@);
                    }
                }
                return Err(error);
            },
        }
        index = index + 1;
    }
    assert(shares@.take(index as int) =~= shares@);
    let recovered = match combine_shares(decryption_key, batch, valid_shares.as_slice()) {
        Ok(point) => point,
        Err(error) => {
            proof {
                if is_recoverable(decryption_key, batch, shares@) {
                    let _ = lemma_recovery(decryption_key, batch, shares@);
                }
            }
            return Err(error);
        },
    };
    proof {
        if is_recoverable(decryption_key, batch, shares@) {
            let _ = lemma_recovery(decryption_key, batch, shares@);
        }
    }
    match verify_combined_share(decryption_key, batch, recovered) {
        Ok(true) => Ok(recovered),
        Ok(false) => Err(Error::InvalidShare),
        Err(error) => Err(error),
    }
}

/// Why opening is refused, where it is.
pub open spec fn opening_defect(
    kernel: &MiddleProductKernel,
    batch: &ValidatedBatch,
    ciphertexts: Seq<Ciphertext>,
    precomputation: &BatchPrecomputation,
) -> Option<Error> {
    if kernel_defect(kernel, batch) is Some {
        kernel_defect(kernel, batch)
    } else if ciphertexts.len() != batch.batch_size {
        Some(
            Error::MismatchedBatchSize {
                expected: batch.batch_size,
                actual: ciphertexts.len() as usize,
            },
        )
    } else if precomputation.batch_size != batch.batch_size || precomputation.digest@
        != batch.digest@ {
        Some(Error::InvalidShare)
    } else {
        None
    }
}

/// What a slot opens to: its second component without the pad, which is the
/// pairing of the combined point with the slot's opening power, without the
/// slot's cross term.
pub open spec fn opened_log(second: int, sigma: int, power: int, beta: int) -> int {
    (second - (sigma * power - beta)) % order()
}

/// Opens all valid slots of a batch.
pub fn open_batch(
    kernel: &MiddleProductKernel,
    batch: &ValidatedBatch,
    ciphertexts: &[Ciphertext],
    precomputation: &BatchPrecomputation,
    sigma: G1,
) -> (result: Result<Vec<Option<GtElement>>>)
    requires
        kernel.wf(),
        batch.wf(),
        precomputation.beta@.len() == precomputation.batch_size,
    ensures
        match result {
            Ok(opened) => {
                &&& opening_defect(kernel, batch, ciphertexts@, precomputation) is None
                &&& opened@.len() == batch.batch_size
                &&& forall|i: int|
                    0 <= i < batch.batch_size ==> match #[trigger] opened@[i] {
                        Some(message) => batch.valid@[i] && message@ == opened_log(
                            ciphertexts@[i].second@,
                            sigma@,
                            kernel.opening_powers@[i]@,
                            precomputation.beta@[i]@,
                        ),
                        None => !batch.valid@[i],
                    }
            },
            Err(error) => opening_defect(kernel, batch, ciphertexts@, precomputation) == Some(
                error,
            ),
        },
{
    match ensure_kernel_batch(kernel, batch) {
        Ok(()) => {},
        Err(error) => {
            return Err(error);
        },
    }
    if ciphertexts.len() != batch.batch_size {
        return Err(
            Error::MismatchedBatchSize {
                expected: batch.batch_size,
                actual: ciphertexts.len(),
            },
        );
    }
    if precomputation.batch_size != batch.batch_size || !bytes_equal(
        precomputation.digest.as_slice(),
        batch.digest.as_slice(),
    ) {
        return Err(Error::InvalidShare);
    }
    let sigma_affine = sigma.to_affine();
    let mut opened: Vec<Option<GtElement>> = Vec::new();
    while opened.len() < batch.batch_size
        invariant
            kernel.wf(),
            batch.wf(),
            kernel.batch_size == batch.batch_size == ciphertexts@.len(),
            precomputation.beta@.len() == batch.batch_size,
            sigma_affine@ == sigma@,
            opened@.len() <= batch.batch_size,
            forall|i: int|
                0 <= i < opened@.len() ==> match #[trigger] opened@[i] {
                    Some(message) => batch.valid@[i] && message@ == opened_log(
                        ciphertexts@[i].second@,
                        sigma@,
                        kernel.opening_powers@[i]@,
                        precomputation.beta@[i]@,
                    ),
                    None => !batch.valid@[i],
                },
        decreases batch.batch_size - opened@.len(),
    {
        let slot = opened.len();
        if batch.valid[slot] {
            let alpha = pair(sigma_affine, kernel.opening_powers[slot]);
            let pad = alpha.minus(precomputation.beta[slot]);
            let message = ciphertexts[slot].second.minus(pad);
            proof {
                let s = slot as int;
                let product = sigma@ * kernel.opening_powers@[s]@;
                let beta = precomputation.beta@[s]@;
                lemma_reduce(product);
                lemma_cong_sub(alpha@, product, beta, beta);
                lemma_reduce(alpha@ - beta);
                let second = ciphertexts@[s].second@;
                lemma_cong_sub(second, second, pad@, product - beta);
            }
            opened.push(Some(message));
        } else {
            opened.push(None);
        }
    }
    Ok(opened)
}

/// The encodings of a batch, one after the other.
proof fn lemma_canonical_flat(ciphertexts: Seq<Ciphertext>)
    ensures
        canonical_all(ciphertexts) == ciphertexts.map_values(
            |c: Ciphertext| c.canonical(),
        ).flatten(),
    decreases ciphertexts.len(),
{
    let f = |c: Ciphertext| c.canonical();
    let items = ciphertexts.map_values(f);
    if ciphertexts.len() > 0 {
        lemma_canonical_flat(ciphertexts.drop_last());
        let rest = ciphertexts.drop_last().map_values(f);
        assert(items =~= rest.push(f(ciphertexts.last())));
        rest.lemma_flatten_push(f(ciphertexts.last()));
    } else {
        assert(items.flatten() =~= Seq::<u8>::empty());
    }
}

/// The identifier of a batch is the digest of its name, its length and the encodings of its
/// ciphertexts in their order.
pub proof fn law_batch_digest(ciphertexts: Seq<Ciphertext>)
    ensures
        batch_digest_of(ciphertexts) == sha256(
            "BTX-ORDERED-BATCH-v1".spec_bytes() + le_bytes(ciphertexts.len() as int, 8)
                + ciphertexts.map_values(
                |c: Ciphertext| g1_compressed(c.first@) + gt_encoding(c.second@)
                    + g1_compressed(c.proof.commitment@) + le_bytes(c.proof.response@, 32),
            ).flatten(),
        ),
{
    lemma_canonical_flat(ciphertexts);
    assert(ciphertexts.map_values(|c: Ciphertext| c.canonical()) =~= ciphertexts.map_values(
        |c: Ciphertext| g1_compressed(c.first@) + gt_encoding(c.second@)
            + g1_compressed(c.proof.commitment@) + le_bytes(c.proof.response@, 32),
    ));
}

/// The identifier of a batch is the digest of some string, and that string determines the
/// batch: two batches are identified by the digest of the same string only where they are as
/// long and their ciphertexts, in their order, have the same components.
pub proof fn law_batch_digest_is_bound(a: Seq<Ciphertext>, b: Seq<Ciphertext>)
    requires
        a.len() < 0x1_0000_0000_0000_0000,
        b.len() < 0x1_0000_0000_0000_0000,
        forall|i: int| 0 <= i < a.len() ==> (#[trigger] a[i]).is_sized(),
        forall|i: int| 0 <= i < b.len() ==> (#[trigger] b[i]).is_sized(),
    ensures
        exists|s: Seq<u8>, t: Seq<u8>|
            {
                &&& batch_digest_of(a) == #[trigger] sha256(s)
                &&& batch_digest_of(b) == #[trigger] sha256(t)
                &&& s == t ==> a.len() == b.len() && forall|i: int|
                    #![trigger a[i]]
                    #![trigger b[i]]
                    0 <= i < a.len() ==> {
                            &&& g1_compressed(a[i].first@) == g1_compressed(b[i].first@)
                            &&& gt_encoding(a[i].second@) == gt_encoding(b[i].second@)
                            &&& g1_compressed(a[i].proof.commitment@)
                                == g1_compressed(b[i].proof.commitment@)
                            &&& a[i].proof.response@ == b[i].proof.response@
                    }
            },
{
    let tag = "BTX-ORDERED-BATCH-v1".spec_bytes();
    let (la, lb) = (le_bytes(a.len() as int, 8), le_bytes(b.len() as int, 8));
    let s = tag + la + canonical_all(a);
    let t = tag + lb + canonical_all(b);
    if s == t {
        lemma_le_digits(a.len() as int, 8);
        lemma_le_digits(b.len() as int, 8);
        lemma_same_parts(tag + la, canonical_all(a), tag + lb, canonical_all(b));
        lemma_same_parts(tag, la, tag, lb);
        lemma_same_digits(a.len() as int, b.len() as int);
        lemma_canonical_flat(a);
        lemma_canonical_flat(b);
        let f = |c: Ciphertext| c.canonical();
        let (u, v) = (a.map_values(f), b.map_values(f));
        assert forall|i: int, x: Seq<u8>, y: Seq<u8>|
            0 <= i < u.len() && #[trigger] (u[i] + x) == #[trigger] (v[i]
                + y) implies u[i].len() == v[i].len() by {
            a[i].lemma_same_canonical(x, b[i], y);
        }
        lemma_same_items(u, v);
        assert forall|i: int|
            #![trigger a[i]]
            #![trigger b[i]]
            0 <= i < a.len() implies {
                &&& g1_compressed(a[i].first@) == g1_compressed(b[i].first@)
                &&& gt_encoding(a[i].second@) == gt_encoding(b[i].second@)
                &&& g1_compressed(a[i].proof.commitment@) == g1_compressed(b[i].proof.commitment@)
                &&& a[i].proof.response@ == b[i].proof.response@
            } by {
            assert(u[i] == v[i]);
            a[i].lemma_same_canonical(Seq::empty(), b[i], Seq::empty());
        }
    }
    assert(batch_digest_of(a) == sha256(s));
    assert(batch_digest_of(b) == sha256(t));
}

/// A list of shares is refused at the first that belongs to another batch, that no server of
/// the committee has given, or whose server has given one before it; where there is none, it is
/// not refused.
pub proof fn law_first_share_that_is_refused(
    server_count: usize,
    digest: Seq<u8>,
    shares: Seq<DecryptionShare>,
    from: int,
)
    requires
        0 <= from <= shares.len(),
    ensures
        match first_defect(server_count, digest, shares, from) {
            None => forall|i: int|
                #![trigger shares[i]]
                from <= i < shares.len() ==> {
                    &&& shares[i].batch_digest@ == digest
                    &&& shares[i].server_index < server_count
                    &&& forall|j: int|
                        0 <= j < i ==> (#[trigger] shares[j]).server_index
                            != shares[i].server_index
                },
            Some(error) => exists|i: int|
                #![trigger shares[i]]
                {
                    let index = shares[i].server_index;
                    &&& from <= i < shares.len()
                    &&& first_defect(server_count, digest, shares.take(i), from) is None
                    &&& if shares[i].batch_digest@ != digest {
                        error == Error::InvalidShare
                    } else if index >= server_count {
                        error == Error::InvalidServerIndex(index)
                    } else {
                        &&& error == Error::DuplicateServerIndex(index)
                        &&& exists|j: int|
                            0 <= j < i && (#[trigger] shares[j]).server_index == index
                    }
                },
        },
    decreases shares.len() - from,
{
    if from < shares.len() {
        match share_defect(server_count, digest, shares, from) {
            Some(error) => {
                assert(first_defect(server_count, digest, shares.take(from), from) is None);
                assert(shares[from].server_index == shares[from].server_index);
            },
            None => {
                law_first_share_that_is_refused(server_count, digest, shares, from + 1);
                match first_defect(server_count, digest, shares, from + 1) {
                    Some(error) => {
                        let i = choose|i: int|
                            #![trigger shares[i]]
                            {
                                let index = shares[i].server_index;
                                &&& from + 1 <= i < shares.len()
                                &&& first_defect(
                                    server_count,
                                    digest,
                                    shares.take(i),
                                    from + 1,
                                ) is None
                                &&& if shares[i].batch_digest@ != digest {
                                    error == Error::InvalidShare
                                } else if index >= server_count {
                                    error == Error::InvalidServerIndex(index)
                                } else {
                                    &&& error == Error::DuplicateServerIndex(index)
                                    &&& exists|j: int|
                                        0 <= j < i && (#[trigger] shares[j]).server_index == index
                                }
                            };
                        let before = shares.take(i);
                        assert(before[from] == shares[from]);
                        assert forall|j: int| 0 <= j < from implies #[trigger] before[j]
                            == shares[j] by {}
                        assert(share_defect(server_count, digest, before, from) is None);
                        assert(first_defect(server_count, digest, before, from) is None);
                    },
                    None => {},
                }
            },
        }
    }
}

/// A batch is opened where the kernel and what was computed ahead are for its size, what was
/// computed ahead is for it, and there are as many ciphertexts: nothing else is refused.
pub proof fn law_accepted_opening(
    kernel: &MiddleProductKernel,
    batch: &ValidatedBatch,
    ciphertexts: Seq<Ciphertext>,
    precomputation: &BatchPrecomputation,
)
    ensures
        opening_defect(kernel, batch, ciphertexts, precomputation) is None <==> {
            &&& kernel.batch_size == batch.batch_size
            &&& ciphertexts.len() == batch.batch_size
            &&& precomputation.batch_size == batch.batch_size
            &&& precomputation.digest@ == batch.digest@
        },
        opening_defect(kernel, batch, ciphertexts, precomputation) matches Some(error) ==> error
            == if kernel.batch_size != batch.batch_size {
            Error::MismatchedBatchSize { expected: kernel.batch_size, actual: batch.batch_size }
        } else if ciphertexts.len() != batch.batch_size {
            Error::MismatchedBatchSize {
                expected: batch.batch_size,
                actual: ciphertexts.len() as usize,
            }
        } else {
            Error::InvalidShare
        },
{
}

/// A batch has at least one ciphertext and no more than the key is for.
pub proof fn law_accepted_batch_size(decryption_key: &PublicDecryptionKey, batch_size: usize)
    ensures
        batch_size_defect(decryption_key, batch_size) is None <==> 1 <= batch_size
            <= decryption_key.max_batch_size,
        batch_size_defect(decryption_key, batch_size) matches Some(error) ==> error == if batch_size
            == 0 {
            Error::BatchIsEmpty
        } else {
            Error::BatchTooLarge { batch_size, max_batch_size: decryption_key.max_batch_size }
        },
{
}

/// Shares are combined where there are more than the threshold of them, all for the batch and
/// from different servers of the committee, and only there.
pub proof fn law_combining_needs_enough_shares(
    decryption_key: &PublicDecryptionKey,
    batch: &ValidatedBatch,
    shares: Seq<DecryptionShare>,
)
    ensures
        combined(decryption_key, batch, shares) is Ok <==> {
            &&& shares.len() > decryption_key.threshold
            &&& forall|i: int|
                #![trigger shares[i]]
                0 <= i < shares.len() ==> {
                    &&& shares[i].batch_digest@ == batch.digest@
                    &&& shares[i].server_index < decryption_key.server_count
                    &&& forall|j: int|
                        0 <= j < i ==> (#[trigger] shares[j]).server_index
                            != shares[i].server_index
                }
        },
        shares.len() <= decryption_key.threshold ==> combined(decryption_key, batch, shares)
            == Err::<
            int,
            Error,
        >(
            Error::InsufficientShares {
                supplied: shares.len() as usize,
                required: (decryption_key.threshold + 1) as usize,
            },
        ),
{
    law_first_share_that_is_refused(decryption_key.server_count, batch.digest@, shares, 0);
}

/// A share is judged where its server is one of the committee and the key publishes the shares
/// of all slots with a valid ciphertext; of another batch it is refused without an error.
pub proof fn law_judged_shares(
    decryption_key: &PublicDecryptionKey,
    batch: &ValidatedBatch,
    share: DecryptionShare,
)
    requires
        decryption_key.wf(),
        1 <= batch.batch_size <= decryption_key.max_batch_size,
        batch.valid@.len() == batch.batch_size,
        decryption_key.share_commitments is Some,
    ensures
        share.batch_digest@ != batch.digest@ ==> share_check(decryption_key, batch, share) == Ok::<
            bool,
            Error,
        >(false),
        share.batch_digest@ == batch.digest@ ==> match share_check(decryption_key, batch, share) {
            Ok(_) => share.server_index < decryption_key.server_count,
            Err(error) => share.server_index >= decryption_key.server_count && error
                == Error::InvalidServerIndex(share.server_index),
        },
{
    let slots = valid_before(batch.valid@, batch.batch_size as int);
    lemma_valid_before(batch.valid@, batch.batch_size as int);
    if share.server_index < decryption_key.server_count {
        lemma_published(decryption_key, share.server_index as int, slots, 0);
    }
}

/// Every published slot has its commitment.
proof fn lemma_published(
    decryption_key: &PublicDecryptionKey,
    server_index: int,
    slots: Seq<usize>,
    from: int,
)
    requires
        0 <= server_index < decryption_key.server_count,
        0 <= from,
        decryption_key.share_commitments is Some,
        forall|i: int|
            0 <= i < slots.len() ==> (#[trigger] slots[i]) < decryption_key.max_batch_size,
    ensures
        commitments_defect(decryption_key, server_index, slots, from) is None,
    decreases slots.len() - from,
{
    if from < slots.len() {
        lemma_published(decryption_key, server_index, slots, from + 1);
    }
}

/// Terms are computed ahead for a batch where the kernel is for its size, and only there.
pub proof fn law_accepted_precomputation(kernel: &MiddleProductKernel, batch: &ValidatedBatch)
    ensures
        kernel_defect(kernel, batch) is None <==> kernel.batch_size == batch.batch_size,
        kernel_defect(kernel, batch) matches Some(error) ==> error == (Error::MismatchedBatchSize {
            expected: kernel.batch_size,
            actual: batch.batch_size,
        }),
{
}

} // verus!
