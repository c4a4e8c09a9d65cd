//! Validation of batches, acceptance of shares, cross terms and opening.
use vstd::prelude::*;
use vstd::slice::slice_subrange;
use vstd::string::StringSliceAdditionalSpecFns;

use crate::algebra::lagrange::weights;
use crate::algebra::residue::{
    cong, lemma_cong_add, lemma_cong_sub, lemma_reduce, lemma_reduced, order,
};
use crate::algebra::sums::{dot, lemma_sum_ext, products, sum};
use crate::bytes::{
    append, append_u64, bytes_equal, le_bytes, le_value, lemma_le_digits, lemma_same_digits,
    lemma_same_parts,
};
use crate::curve::{
    g1_compressed, multi_pairing, views, Element, Fr, G1Point, G2Point, GtElement, ScalarRng,
    SystemRng, G1, G2,
};
use crate::encoding::{append_numbers, law_numbers_encoding, lemma_same_items, numbers_encoding};
use crate::fft::Radix2Domain;
use crate::hash::{challenge, digest, law_challenge_is_a_digest, sha256};
use crate::interpolation::{
    is_root_prefix, is_selection, lagrange_at_zero, root_points, selected_points,
};
use crate::middle::{cross_term, cross_terms, cross_terms_of, kernel_entries, transform_kernel_g2};
use crate::numbers::{copy_numbers, numbers_equal};
use crate::points::{append_points, batch_normalize_g2, g2_multi_exp_affine, zeros};
use crate::weighted::{
    cell, first_unknown, has_domain, is_share_domain, is_table, is_transform_error, lemma_cell,
    lemma_none_unknown, lemma_offset_order, lemma_offset_step, lemma_position_order,
    lemma_position_step, lemma_table_push, offset, position_offset, select_virtual, total,
    transform_domain, virtual_indices,
};
use crate::weighted_indexed_bte::dleq::{
    challenge_of, transcript, DleqProof, Pairs, ProofPurpose, Statement,
};
use crate::weighted_indexed_bte::encryption::{masked, xor_with_mask, Ciphertext};
use crate::weighted_indexed_bte::error::{Error, Result};
use crate::weighted_indexed_bte::setup::{MasterPublicKey, PartySecretKey, PublicParameters};

verus! {

/// A batch whose proofs were checked once. A slot whose proof does not hold keeps
/// its place and contributes nothing.
#[derive(Clone, Debug)]
pub struct ValidatedBatch {
    pub setup_id: [u8; 32],
    pub crs_id: [u8; 32],
    pub index_space: usize,
    pub batch_size: usize,
    pub digest: [u8; 32],
    pub valid: Vec<bool>,
    /// For every valid slot, the index of its ciphertext.
    pub valid_index_by_slot: Vec<Option<usize>>,
    /// For every valid slot, the place of that index among the used ones.
    pub used_position_by_slot: Vec<Option<usize>>,
    /// The indices of the valid slots, in ascending order.
    pub used_indices: Vec<usize>,
    pub aggregate_first: G1Point,
    /// For every index, the punctured point there, or the identity.
    pub punctured_by_index: Vec<G1>,
}

/// The response of one party to a whole batch.
#[derive(Clone, Copy, Debug)]
pub struct DecryptionShare {
    pub party_index: usize,
    pub sigma: G1Point,
    pub proof: DleqProof,
    pub batch_digest: [u8; 32],
    pub setup_id: [u8; 32],
}

/// Checked responses whose weight is enough.
#[derive(Clone, Debug)]
pub struct AcceptedDecryptionShares {
    pub setup_id: [u8; 32],
    pub index_space: usize,
    pub batch_size: usize,
    pub digest: [u8; 32],
    pub accepted_weight: usize,
    pub used_indices: Vec<usize>,
    pub shares: Vec<DecryptionShare>,
    pub rejected_parties: Vec<usize>,
}

/// The kernel of the middle product of all batches under the same parameters.
#[derive(Clone, Debug)]
pub struct IndexedMiddleProductKernel {
    pub crs_id: [u8; 32],
    pub index_space: usize,
    pub transform_size: usize,
    pub domain: Radix2Domain,
    pub transformed_kernel: Vec<G2Point>,
    /// The powers above and below the one left out, by their distance from it.
    pub positive_powers: Vec<G2Point>,
    pub negative_powers: Vec<G2Point>,
}

/// What depends on the accepted parties and the used indices alone.
#[derive(Clone, Debug)]
pub struct DecryptionPrecomputation {
    pub setup_id: [u8; 32],
    pub context_id: [u8; 32],
    pub index_space: usize,
    pub accepted_weight: usize,
    pub party_indices: Vec<usize>,
    pub used_indices: Vec<usize>,
    /// A table with one row for every used index, which holds the keys of the parties.
    pub opening_keys: Vec<G2Point>,
}

/// The cross terms of one batch.
#[derive(Clone, Debug)]
pub struct BatchPrecomputation {
    pub setup_id: [u8; 32],
    pub index_space: usize,
    pub batch_size: usize,
    pub digest: [u8; 32],
    pub beta: Vec<GtElement>,
}

/// The canonical encodings of ciphertexts, one after the other.
pub open spec fn canonical_all(ciphertexts: Seq<Ciphertext>) -> Seq<u8>
    decreases ciphertexts.len(),
{
    if ciphertexts.len() == 0 {
        Seq::empty()
    } else {
        canonical_all(ciphertexts.drop_last()) + ciphertexts.last().canonical()
    }
}

/// The digest of a batch.
pub open spec fn batch_digest_of(ciphertexts: Seq<Ciphertext>) -> Seq<u8> {
    sha256(
        "WEIGHTED-INDEXED-BTE-BATCH-v1".spec_bytes() + le_bytes(ciphertexts.len() as int, 8)
            + canonical_all(ciphertexts),
    )
}

fn batch_digest(ciphertexts: &[Ciphertext]) -> (result: [u8; 32])
    ensures
        result@ == batch_digest_of(ciphertexts@),
{
    let mut bytes: Vec<u8> = Vec::new();
    append(&mut bytes, "WEIGHTED-INDEXED-BTE-BATCH-v1".as_bytes());
    append_u64(&mut bytes, ciphertexts.len() as u64);
    let ghost header = "WEIGHTED-INDEXED-BTE-BATCH-v1".spec_bytes() + le_bytes(
        ciphertexts@.len() as int,
        8,
    );
    let mut index: usize = 0;
    proof {
        assert(bytes@ =~= header + canonical_all(ciphertexts@.take(0)));
    }
    while index < ciphertexts.len()
        invariant
            index <= ciphertexts@.len(),
            bytes@ == header + canonical_all(ciphertexts@.take(index as int)),
        decreases ciphertexts@.len() - index,
    {
        ciphertexts[index].append_canonical(&mut bytes);
        index = index + 1;
        proof {
            let now = ciphertexts@.take(index as int);
            assert(now.drop_last() =~= ciphertexts@.take(index - 1));
            assert(now.last() == ciphertexts@[index - 1]);
            assert(bytes@ =~= header + canonical_all(now));
        }
    }
    assert(ciphertexts@.take(index as int) =~= ciphertexts@);
    digest(bytes.as_slice())
}

/// What the proof of a share is about, besides its points.
pub open spec fn server_context_of(batch_digest: Seq<u8>, party_index: int) -> Seq<u8> {
    "WEIGHTED-INDEXED-BTE-SERVER-CONTEXT-v1".spec_bytes() + batch_digest + le_bytes(party_index, 8)
}

fn server_proof_context(batch_digest: [u8; 32], party_index: usize) -> (context: Vec<u8>)
    ensures
        context@ == server_context_of(batch_digest@, party_index as int),
{
    let mut context: Vec<u8> = Vec::new();
    append(&mut context, "WEIGHTED-INDEXED-BTE-SERVER-CONTEXT-v1".as_bytes());
    append(&mut context, batch_digest.as_slice());
    append_u64(&mut context, party_index as u64);
    proof {
        assert(context@ =~= server_context_of(batch_digest@, party_index as int));
    }
    context
}

/// The identifier of an accepted committee and the used indices under a setup.
pub open spec fn committee_id_of(
    setup_id: Seq<u8>,
    parties: Seq<usize>,
    used_indices: Seq<usize>,
) -> Seq<u8> {
    sha256(
        "WEIGHTED-INDEXED-BTE-COMMITTEE-v1".spec_bytes() + setup_id + le_bytes(
            parties.len() as int,
            8,
        ) + numbers_encoding(parties) + le_bytes(used_indices.len() as int, 8) + numbers_encoding(
            used_indices,
        ),
    )
}

fn committee_context_id(setup_id: [u8; 32], parties: &Vec<usize>, used_indices: &Vec<usize>) -> (result:
    [u8; 32])
    ensures
        result@ == committee_id_of(setup_id@, parties@, used_indices@),
{
    let mut bytes: Vec<u8> = Vec::new();
    append(&mut bytes, "WEIGHTED-INDEXED-BTE-COMMITTEE-v1".as_bytes());
    append(&mut bytes, setup_id.as_slice());
    append_u64(&mut bytes, parties.len() as u64);
    append_numbers(&mut bytes, parties.as_slice());
    append_u64(&mut bytes, used_indices.len() as u64);
    append_numbers(&mut bytes, used_indices.as_slice());
    proof {
        assert(bytes@ =~= "WEIGHTED-INDEXED-BTE-COMMITTEE-v1".spec_bytes() + setup_id@ + le_bytes(
            parties@.len() as int,
            8,
        ) + numbers_encoding(parties@) + le_bytes(used_indices@.len() as int, 8)
            + numbers_encoding(used_indices@));
    }
    digest(bytes.as_slice())
}

/// Why a batch size is refused, where it is.
pub open spec fn batch_size_defect(index_space: usize, batch_size: int) -> Option<Error> {
    if batch_size == 0 {
        Some(Error::BatchIsEmpty)
    } else if batch_size > index_space {
        Some(
            Error::BatchTooLarge {
                batch_size: batch_size as usize,
                max_batch_size: index_space,
            },
        )
    } else {
        None
    }
}

fn validate_batch_size(index_space: usize, batch_size: usize) -> (result: Result<()>)
    ensures
        match result {
            Ok(()) => batch_size_defect(index_space, batch_size as int) is None,
            Err(error) => batch_size_defect(index_space, batch_size as int) == Some(error),
        },
{
    if batch_size == 0 {
        return Err(Error::BatchIsEmpty);
    }
    if batch_size > index_space {
        return Err(Error::BatchTooLarge { batch_size, max_batch_size: index_space });
    }
    Ok(())
}

/// Whether a valid slot before `end` holds an index.
pub open spec fn holds_before(
    public_key: &MasterPublicKey,
    ciphertexts: Seq<Ciphertext>,
    end: int,
    index: int,
) -> bool {
    exists|slot: int|
        0 <= slot < end && (#[trigger] ciphertexts[slot]).is_valid(public_key)
            && ciphertexts[slot].index == index
}

/// The index of the first valid slot, from `from` on, that an earlier valid slot holds.
pub open spec fn first_duplicate(
    public_key: &MasterPublicKey,
    ciphertexts: Seq<Ciphertext>,
    from: int,
) -> Option<usize>
    decreases ciphertexts.len() - from,
{
    if from >= ciphertexts.len() {
        None
    } else if ciphertexts[from].is_valid(public_key) && holds_before(
        public_key,
        ciphertexts,
        from,
        ciphertexts[from].index as int,
    ) {
        Some(ciphertexts[from].index)
    } else {
        first_duplicate(public_key, ciphertexts, from + 1)
    }
}

/// The indices below `end` that a valid slot holds, in ascending order.
pub open spec fn used_before(
    public_key: &MasterPublicKey,
    ciphertexts: Seq<Ciphertext>,
    end: int,
) -> Seq<usize>
    decreases end,
{
    if end <= 0 {
        Seq::empty()
    } else {
        let rest = used_before(public_key, ciphertexts, end - 1);
        if holds_before(public_key, ciphertexts, ciphertexts.len() as int, end - 1) {
            rest.push((end - 1) as usize)
        } else {
            rest
        }
    }
}

/// The first components of the valid slots, with nothing in the others.
pub open spec fn valid_firsts(
    public_key: &MasterPublicKey,
    ciphertexts: Seq<Ciphertext>,
) -> spec_fn(int) -> int {
    |slot: int|
        if ciphertexts[slot].is_valid(public_key) {
            ciphertexts[slot].first@
        } else {
            0
        }
}

impl ValidatedBatch {
    /// What every batch satisfies.
    pub open spec fn wf(&self) -> bool {
        &&& 1 <= self.batch_size <= self.index_space
        &&& self.valid@.len() == self.batch_size
        &&& self.valid_index_by_slot@.len() == self.batch_size
        &&& self.used_position_by_slot@.len() == self.batch_size
        &&& self.punctured_by_index@.len() == self.index_space
        &&& forall|slot: int|
            0 <= slot < self.batch_size ==> match #[trigger] self.valid_index_by_slot@[slot] {
                Some(index) => self.valid@[slot] && index < self.index_space,
                None => !self.valid@[slot],
            }
        &&& forall|slot: int|
            0 <= slot < self.batch_size && self.valid@[slot] ==> (
            #[trigger] self.used_position_by_slot@[slot] matches Some(position) && position
                < self.used_indices@.len() && self.used_indices@[position as int]
                == self.valid_index_by_slot@[slot]->0)
        &&& forall|i: int|
            0 <= i < self.used_indices@.len() ==> (#[trigger] self.used_indices@[i])
                < self.index_space
        &&& forall|i: int, j: int|
            0 <= i < j < self.used_indices@.len() ==> #[trigger] self.used_indices@[i]
                < #[trigger] self.used_indices@[j]
        &&& forall|index: int|
            0 <= index < self.index_space && (#[trigger] self.punctured_by_index@[index])@ != 0
                ==> self.used_indices@.contains(index as usize)
    }

    /// The punctured points by index, with nothing at the indices that are not used.
    pub open spec fn punctured_logs(&self) -> Seq<int> {
        views(self.punctured_by_index@)
    }

    /// Whether this is the batch of the ciphertexts under a key.
    pub open spec fn is_batch_of(
        &self,
        public_key: &MasterPublicKey,
        ciphertexts: Seq<Ciphertext>,
    ) -> bool {
        &&& self.wf()
        &&& self.setup_id@ == public_key.setup_id@
        &&& self.crs_id@ == public_key.crs_id@
        &&& self.index_space == public_key.index_space_size
        &&& self.batch_size == ciphertexts.len()
        &&& self.digest@ == batch_digest_of(ciphertexts)
        &&& forall|slot: int|
            0 <= slot < ciphertexts.len() ==> #[trigger] self.valid@[slot]
                == ciphertexts[slot].is_valid(public_key)
        &&& forall|slot: int|
            0 <= slot < ciphertexts.len() && self.valid@[slot] ==> (
            #[trigger] self.valid_index_by_slot@[slot]) == Some(ciphertexts[slot].index)
        &&& self.used_indices@ == used_before(
            public_key,
            ciphertexts,
            public_key.index_space_size as int,
        )
        &&& cong(
            self.aggregate_first@,
            sum(valid_firsts(public_key, ciphertexts), 0, ciphertexts.len() as int),
        )
        &&& forall|slot: int|
            0 <= slot < ciphertexts.len() && (#[trigger] ciphertexts[slot]).is_valid(public_key)
                ==> self.punctured_logs()[ciphertexts[slot].index as int]
                == ciphertexts[slot].punctured@
    }
}

/// Whether an outcome is that of validating the ciphertexts under a key.
pub open spec fn is_validation(
    public_key: &MasterPublicKey,
    ciphertexts: Seq<Ciphertext>,
    result: Result<ValidatedBatch>,
) -> bool {
    match batch_size_defect(public_key.index_space_size, ciphertexts.len() as int) {
        Some(defect) => result == Err::<ValidatedBatch, Error>(defect),
        None => match first_duplicate(public_key, ciphertexts, 0) {
            Some(index) => result == Err::<ValidatedBatch, Error>(
                Error::DuplicateCiphertextIndex(index),
            ),
            None => result matches Ok(batch) && batch.is_batch_of(public_key, ciphertexts),
        },
    }
}

pub proof fn lemma_used_before(
    public_key: &MasterPublicKey,
    ciphertexts: Seq<Ciphertext>,
    end: int,
)
    requires
        0 <= end <= usize::MAX,
    ensures
        ({
            let used = used_before(public_key, ciphertexts, end);
            &&& forall|i: int| 0 <= i < used.len() ==> (#[trigger] used[i]) < end && holds_before(
                public_key,
                ciphertexts,
                ciphertexts.len() as int,
                used[i] as int,
            )
            &&& forall|i: int, j: int|
                0 <= i < j < used.len() ==> #[trigger] used[i] < #[trigger] used[j]
            &&& forall|index: int|
                0 <= index < end && holds_before(
                    public_key,
                    ciphertexts,
                    ciphertexts.len() as int,
                    index,
                ) ==> used.contains(#[trigger] (index as usize))
        }),
    decreases end,
{
    if end > 0 {
        lemma_used_before(public_key, ciphertexts, end - 1);
        let rest = used_before(public_key, ciphertexts, end - 1);
        let used = used_before(public_key, ciphertexts, end);
        let whole = ciphertexts.len() as int;
        if holds_before(public_key, ciphertexts, whole, end - 1) {
            assert(used[rest.len() as int] == end - 1);
            assert forall|i: int, j: int| 0 <= i < j < used.len() implies #[trigger] used[i]
                < #[trigger] used[j] by {
                assert(used[i] == rest[i]);
                if j < rest.len() {
                    assert(used[j] == rest[j]);
                }
            }
            assert forall|index: int|
                0 <= index < end && holds_before(public_key, ciphertexts, whole, index) implies used.contains(
            #[trigger] (index as usize)) by {
                if index == end - 1 {
                    assert(used[rest.len() as int] == index as usize);
                } else {
                    assert(rest.contains(index as usize));
                    let i = choose|i: int| 0 <= i < rest.len() && rest[i] == index as usize;
                    assert(used[i] == index as usize);
                }
            }
        }
    }
}

impl ValidatedBatch {
    /// The batch, with every proof checked.
    pub fn verify(public_key: &MasterPublicKey, ciphertexts: &[Ciphertext]) -> (result: Result<
        Self,
    >)
        requires
            public_key.wf(),
        ensures
            is_validation(public_key, ciphertexts@, result),
    {
        Self::from_ciphertexts(public_key, ciphertexts)
    }

    fn from_ciphertexts(public_key: &MasterPublicKey, ciphertexts: &[Ciphertext]) -> (result: Result<
        Self,
    >)
        requires
            public_key.wf(),
        ensures
            is_validation(public_key, ciphertexts@, result),
    {
        validate_batch_size(public_key.index_space_size(), ciphertexts.len())?;
        let index_space = public_key.index_space_size();
        let ghost cts = ciphertexts@;
        // The slot of every index, and the sum of the first components.
        let mut slot_by_index: Vec<Option<usize>> = Vec::new();
        let mut punctured_by_index: Vec<G1> = zeros(index_space);
        while slot_by_index.len() < index_space
            invariant
                slot_by_index@.len() <= index_space,
                forall|i: int|
                    0 <= i < slot_by_index@.len() ==> (#[trigger] slot_by_index@[i]) is None,
            decreases index_space - slot_by_index@.len(),
        {
            slot_by_index.push(None);
        }
        let mut valid: Vec<bool> = Vec::new();
        let mut valid_index_by_slot: Vec<Option<usize>> = Vec::new();
        let mut aggregate = G1::zero();
        let ghost firsts = valid_firsts(public_key, cts);
        while valid.len() < ciphertexts.len()
            invariant
                public_key.wf(),
                cts == ciphertexts@,
                index_space == public_key.index_space_size,
                batch_size_defect(public_key.index_space_size, cts.len() as int) is None,
                valid@.len() == valid_index_by_slot@.len() <= cts.len(),
                slot_by_index@.len() == index_space == punctured_by_index@.len(),
                firsts == valid_firsts(public_key, cts),
                cong(aggregate@, sum(firsts, 0, valid@.len() as int)),
                first_duplicate(public_key, cts, 0) == first_duplicate(
                    public_key,
                    cts,
                    valid@.len() as int,
                ),
                forall|slot: int|
                    0 <= slot < valid@.len() ==> #[trigger] valid@[slot] == cts[slot].is_valid(
                        public_key,
                    ),
                forall|slot: int|
                    0 <= slot < valid@.len() ==> #[trigger] valid_index_by_slot@[slot] == (
                    if valid@[slot] {
                        Some(cts[slot].index)
                    } else {
                        None
                    }),
                forall|slot: int|
                    0 <= slot < valid@.len() && (#[trigger] cts[slot]).is_valid(public_key)
                        ==> cts[slot].index < index_space && slot_by_index@[cts[slot].index as int]
                        == Some(slot as usize) && punctured_by_index@[cts[slot].index as int]@
                        == cts[slot].punctured@,
                forall|index: int|
                    0 <= index < index_space ==> (#[trigger] slot_by_index@[index] is Some
                        <==> holds_before(public_key, cts, valid@.len() as int, index)),
                forall|index: int|
                    0 <= index < index_space && slot_by_index@[index] is None ==> (
                    #[trigger] punctured_by_index@[index])@ == 0,
            decreases cts.len() - valid@.len(),
        {
            let slot = valid.len();
            let is_valid = ciphertexts[slot].verify(public_key);
            let ghost before = slot_by_index@;
            assert(first_duplicate(public_key, cts, slot as int) == if cts[slot as int].is_valid(
                public_key,
            ) && holds_before(public_key, cts, slot as int, cts[slot as int].index as int) {
                Some(cts[slot as int].index)
            } else {
                first_duplicate(public_key, cts, slot + 1)
            });
            assert(sum(firsts, 0, slot + 1) == sum(firsts, 0, slot as int) + firsts(slot as int));
            if is_valid {
                let index = ciphertexts[slot].index;
                if slot_by_index[index].is_some() {
                    assert(slot_by_index@[index as int] is Some);
                    return Err(Error::DuplicateCiphertextIndex(index));
                }
                slot_by_index.set(index, Some(slot));
                punctured_by_index.set(index, G1::from_affine(ciphertexts[slot].punctured));
                valid_index_by_slot.push(Some(index));
                proof {
                    let f = cts[slot as int].first@;
                    lemma_cong_add(aggregate@, sum(firsts, 0, slot as int), f, f);
                    lemma_reduce(aggregate@ + f);
                }
                aggregate = aggregate.plus(G1::from_affine(ciphertexts[slot].first));
                proof {
                    assert forall|k: int| 0 <= k < slot && (#[trigger] cts[k]).is_valid(
                        public_key,
                    ) implies cts[k].index != index by {
                        if cts[k].index == index {
                            assert(before[index as int] == Some(k as usize));
                        }
                    }
                }
            } else {
                valid_index_by_slot.push(None);
            }
            valid.push(is_valid);
            proof {
                assert forall|index: int| 0 <= index < index_space implies (
                #[trigger] slot_by_index@[index] is Some <==> holds_before(
                    public_key,
                    cts,
                    slot + 1,
                    index,
                )) by {
                    if holds_before(public_key, cts, slot as int, index) {
                        let k = choose|k: int|
                            0 <= k < slot && (#[trigger] cts[k]).is_valid(public_key)
                                && cts[k].index == index;
                        assert(cts[k].is_valid(public_key));
                        assert(before[index] is Some);
                    } else {
                        assert(before[index] is None);
                    }
                    if is_valid && cts[slot as int].index == index {
                        assert(cts[slot as int].is_valid(public_key));
                    }
                }
            }
        }
        let mut used_indices: Vec<usize> = Vec::new();
        let mut used_position_by_index: Vec<Option<usize>> = Vec::new();
        let mut index: usize = 0;
        while index < index_space
            invariant
                index <= index_space == slot_by_index@.len(),
                used_position_by_index@.len() == index,
                used_indices@ == used_before(public_key, cts, index as int),
                used_indices@.len() <= index,
                forall|i: int|
                    0 <= i < index_space ==> (#[trigger] slot_by_index@[i] is Some <==> holds_before(
                        public_key,
                        cts,
                        cts.len() as int,
                        i,
                    )),
                forall|i: int|
                    0 <= i < index && holds_before(public_key, cts, cts.len() as int, i) ==> (
                    #[trigger] used_position_by_index@[i] matches Some(position) && position
                        < used_indices@.len() && used_indices@[position as int] == i),
            decreases index_space - index,
        {
            let ghost before = used_indices@;
            if slot_by_index[index].is_some() {
                used_position_by_index.push(Some(used_indices.len()));
                used_indices.push(index);
            } else {
                used_position_by_index.push(None);
            }
            assert(slot_by_index@[index as int] is Some <==> holds_before(
                public_key,
                cts,
                cts.len() as int,
                index as int,
            ));
            proof {
                assert forall|i: int|
                    0 <= i < index && holds_before(public_key, cts, cts.len() as int, i) implies (
                #[trigger] used_position_by_index@[i] matches Some(position) && position
                    < used_indices@.len() && used_indices@[position as int] == i) by {
                    let position = used_position_by_index@[i]->0;
                    assert(before[position as int] == i);
                }
            }
            index = index + 1;
        }
        let mut used_position_by_slot: Vec<Option<usize>> = Vec::new();
        while used_position_by_slot.len() < ciphertexts.len()
            invariant
                cts == ciphertexts@,
                valid@.len() == valid_index_by_slot@.len() == cts.len(),
                used_position_by_index@.len() == index_space,
                used_position_by_slot@.len() <= cts.len(),
                forall|slot: int|
                    0 <= slot < cts.len() ==> #[trigger] valid@[slot] == cts[slot].is_valid(
                        public_key,
                    ),
                forall|slot: int|
                    0 <= slot < cts.len() ==> #[trigger] valid_index_by_slot@[slot] == (
                    if valid@[slot] {
                        Some(cts[slot].index)
                    } else {
                        None
                    }),
                forall|slot: int|
                    0 <= slot < cts.len() && (#[trigger] cts[slot]).is_valid(public_key)
                        ==> cts[slot].index < index_space,
                forall|i: int|
                    0 <= i < index_space && holds_before(public_key, cts, cts.len() as int, i)
                        ==> (#[trigger] used_position_by_index@[i] matches Some(position)
                        && position < used_indices@.len() && used_indices@[position as int] == i),
                forall|slot: int|
                    0 <= slot < used_position_by_slot@.len() && valid@[slot] ==> (
                    #[trigger] used_position_by_slot@[slot] matches Some(position) && position
                        < used_indices@.len() && used_indices@[position as int]
                        == valid_index_by_slot@[slot]->0),
            decreases cts.len() - used_position_by_slot@.len(),
        {
            let slot = used_position_by_slot.len();
            assert(valid@[slot as int] == cts[slot as int].is_valid(public_key));
            match valid_index_by_slot[slot] {
                Some(index) => {
                    proof {
                        assert(cts[slot as int].is_valid(public_key));
                        assert(holds_before(public_key, cts, cts.len() as int, index as int));
                    }
                    used_position_by_slot.push(used_position_by_index[index]);
                },
                None => {
                    used_position_by_slot.push(None);
                },
            }
        }
        let batch = ValidatedBatch {
            setup_id: public_key.setup_id(),
            crs_id: public_key.crs_id(),
            index_space,
            batch_size: ciphertexts.len(),
            digest: batch_digest(ciphertexts),
            valid,
            valid_index_by_slot,
            used_position_by_slot,
            used_indices,
            aggregate_first: aggregate.to_affine(),
            punctured_by_index,
        };
        proof {
            lemma_used_before(public_key, cts, index_space as int);
            assert forall|slot: int| 0 <= slot < batch.batch_size implies match #[trigger]
            batch.valid_index_by_slot@[slot] {
                Some(index) => batch.valid@[slot] && index < batch.index_space,
                None => !batch.valid@[slot],
            } by {
                assert(batch.valid@[slot] == cts[slot].is_valid(public_key));
            }
            assert forall|i: int|
                0 <= i < batch.index_space
                    && (#[trigger] batch.punctured_by_index@[i])@ != 0 implies batch.used_indices@.contains(
            i as usize) by {
                assert(slot_by_index@[i] is Some);
                assert(holds_before(public_key, cts, cts.len() as int, i));
            }
        }
        Ok(batch)
    }

    pub fn batch_size(&self) -> (result: usize)
        ensures
            result == self.batch_size,
    {
        self.batch_size
    }

    pub fn setup_id(&self) -> (result: [u8; 32])
        ensures
            result == self.setup_id,
    {
        self.setup_id
    }

    pub fn digest(&self) -> (result: [u8; 32])
        ensures
            result == self.digest,
    {
        self.digest
    }

    pub fn valid_mask(&self) -> (result: &Vec<bool>)
        ensures
            *result == self.valid,
    {
        &self.valid
    }

    /// How many slots are valid.
    pub fn valid_count(&self) -> (result: usize)
        ensures
            result == self.used_indices@.len(),
    {
        self.used_indices.len()
    }

    pub fn used_indices(&self) -> (result: &Vec<usize>)
        ensures
            *result == self.used_indices,
    {
        &self.used_indices
    }
}

/// The batch, with every proof checked.
pub fn validate_batch(public_key: &MasterPublicKey, ciphertexts: &[Ciphertext]) -> (result: Result<
    ValidatedBatch,
>)
    requires
        public_key.wf(),
    ensures
        is_validation(public_key, ciphertexts@, result),
{
    ValidatedBatch::from_ciphertexts(public_key, ciphertexts)
}

/// The numbers of the parties of shares.
pub open spec fn share_parties(shares: Seq<DecryptionShare>) -> Seq<usize> {
    Seq::new(shares.len(), |i: int| shares[i].party_index)
}

pub open spec fn share_sigmas(shares: Seq<DecryptionShare>) -> Seq<int> {
    Seq::new(shares.len(), |i: int| shares[i].sigma@)
}

impl AcceptedDecryptionShares {
    pub fn accepted_weight(&self) -> (result: usize)
        ensures
            result == self.accepted_weight,
    {
        self.accepted_weight
    }

    pub fn party_count(&self) -> (result: usize)
        ensures
            result == self.shares@.len(),
    {
        self.shares.len()
    }

    pub fn party_indices(&self) -> (result: Vec<usize>)
        ensures
            result@ == share_parties(self.shares@),
    {
        let mut result: Vec<usize> = Vec::new();
        while result.len() < self.shares.len()
            invariant
                result@.len() <= self.shares@.len(),
                forall|i: int|
                    0 <= i < result@.len() ==> #[trigger] result@[i] == self.shares@[i].party_index,
            decreases self.shares@.len() - result@.len(),
        {
            result.push(self.shares[result.len()].party_index);
        }
        assert(result@ =~= share_parties(self.shares@));
        result
    }

    pub fn rejected_parties(&self) -> (result: &Vec<usize>)
        ensures
            *result == self.rejected_parties,
    {
        &self.rejected_parties
    }

    pub fn shares(&self) -> (result: &Vec<DecryptionShare>)
        ensures
            *result == self.shares,
    {
        &self.shares
    }

    pub fn used_indices(&self) -> (result: &Vec<usize>)
        ensures
            *result == self.used_indices,
    {
        &self.used_indices
    }
}

impl DecryptionPrecomputation {
    pub fn accepted_weight(&self) -> (result: usize)
        ensures
            result == self.accepted_weight,
    {
        self.accepted_weight
    }

    pub fn party_count(&self) -> (result: usize)
        ensures
            result == self.party_indices@.len(),
    {
        self.party_indices.len()
    }

    pub fn used_indices(&self) -> (result: &Vec<usize>)
        ensures
            *result == self.used_indices,
    {
        &self.used_indices
    }
}

impl DecryptionShare {
    /// The pairs of points that the proof is about: the party's public inverse and
    /// the response, over the generator and the aggregate of the batch.
    pub open spec fn statement(self, public_inverse: int, batch: &ValidatedBatch) -> Statement {
        Statement {
            first_base: 1,
            first_target: public_inverse,
            second_base: batch.aggregate_first@,
            second_target: self.sigma@,
        }
    }

    /// Whether this is what a party makes of a batch: the aggregate times the
    /// party's secret, with a proof that holds.
    pub open spec fn is_share_of(self, party_key: &PartySecretKey, batch: &ValidatedBatch) -> bool {
        &&& self.party_index == party_key.party_index
        &&& self.batch_digest@ == batch.digest@
        &&& self.setup_id@ == batch.setup_id@
        &&& self.sigma@ == (batch.aggregate_first@ * party_key.inverse_scalar@) % order()
        &&& party_key.public_inverse@ == party_key.inverse_scalar@ ==> self.proof.accepts(
            ProofPurpose::Server,
            batch.setup_id@,
            server_context_of(batch.digest@, party_key.party_index as int),
            self.statement(party_key.public_inverse@, batch),
        )
    }
}

/// Whether an outcome is that of a party's response to a batch, with the given nonce for
/// its proof: a share, a refusal of another setup's batch, or a failure where the proof
/// has no challenge.
pub open spec fn is_response(
    party_key: &PartySecretKey,
    batch: &ValidatedBatch,
    nonce: int,
    result: Result<DecryptionShare>,
) -> bool {
    match result {
        Ok(share) => {
            &&& party_key.setup_id@ == batch.setup_id@
            &&& share.is_share_of(party_key, batch)
            &&& share.proof.response@ == (nonce + share.proof.challenge@
                * party_key.inverse_scalar@) % order()
        },
        Err(error) => if party_key.setup_id@ != batch.setup_id@ {
            error == Error::MismatchedSetup
        } else {
            error == Error::SamplingFailed && challenge_of(
                ProofPurpose::Server,
                batch.setup_id@,
                server_context_of(batch.digest@, party_key.party_index as int),
                (Statement {
                    first_base: 1,
                    first_target: party_key.public_inverse@,
                    second_base: batch.aggregate_first@,
                    second_target: (batch.aggregate_first@ * party_key.inverse_scalar@)
                        % order(),
                }),
                nonce,
                (batch.aggregate_first@ * nonce) % order(),
            ) is None
        },
    }
}

/// The response of a party to a batch, with the given nonce for its proof.
pub fn partial_decrypt_with_nonce(
    party_key: &PartySecretKey,
    batch: &ValidatedBatch,
    nonce: Fr,
) -> (result: Result<DecryptionShare>)
    ensures
        is_response(party_key, batch, nonce@, result),
{
    if !bytes_equal(party_key.setup_id.as_slice(), batch.setup_id.as_slice()) {
        return Err(Error::MismatchedSetup);
    }
    let scalar = party_key.inverse_scalar();
    let sigma = G1::from_affine(batch.aggregate_first).times(scalar).to_affine();
    let context = server_proof_context(batch.digest, party_key.party_index);
    proof {
        lemma_reduce(batch.aggregate_first@ * scalar@);
        assert(1 * scalar@ == scalar@);
        nonce.lemma_range();
        lemma_reduced(nonce@);
        assert(1 * nonce@ == nonce@);
    }
    match DleqProof::create_with_nonce(
        ProofPurpose::Server,
        batch.setup_id,
        context.as_slice(),
        Pairs {
            first_base: G1Point::generator(),
            first_target: party_key.public_inverse(),
            second_base: batch.aggregate_first,
            second_target: sigma,
        },
        scalar,
        nonce,
    ) {
        Some(made) => Ok(
            DecryptionShare {
                party_index: party_key.party_index,
                sigma,
                proof: made,
                batch_digest: batch.digest,
                setup_id: batch.setup_id,
            },
        ),
        None => Err(Error::SamplingFailed),
    }
}

/// Whether an outcome is that of a party's response to a batch with what a source drew: the
/// nonce of the proof.
pub open spec fn is_drawn_response(
    party_key: &PartySecretKey,
    batch: &ValidatedBatch,
    draws: Seq<int>,
    result: Result<DecryptionShare>,
) -> bool {
    &&& draws.len() == 1
    &&& 0 <= draws[0] < order()
    &&& is_response(party_key, batch, draws[0], result)
}

/// The response of a party to a batch: the aggregate of the first components
/// times the party's secret, with a proof.
pub fn partial_decrypt(party_key: &PartySecretKey, batch: &ValidatedBatch) -> (result: Result<
    DecryptionShare,
>)
    ensures
        exists|nonce: int|
            0 <= nonce < order() && #[trigger] is_response(party_key, batch, nonce, result),
        exists|rng: SystemRng|
            is_drawn_response(party_key, batch, #[trigger] rng.scalar_record(), result),
{
    let mut rng = SystemRng::new();
    let nonce = rng.random_scalar();
    proof {
        nonce.lemma_range();
    }
    let result = partial_decrypt_with_nonce(party_key, batch, nonce);
    assert(is_drawn_response(party_key, batch, rng.scalar_record(), result));
    result
}

/// Whether a share was made for a batch and its proof holds.
pub open spec fn passes(
    public_key: &MasterPublicKey,
    batch: &ValidatedBatch,
    share: DecryptionShare,
) -> bool {
    &&& share.setup_id@ == batch.setup_id@
    &&& share.batch_digest@ == batch.digest@
    &&& share.proof.accepts(
        ProofPurpose::Server,
        batch.setup_id@,
        server_context_of(batch.digest@, share.party_index as int),
        share.statement(public_key.inverse_public_keys@[share.party_index as int]@, batch),
    )
}

/// The outcome of the check of one share.
pub open spec fn share_check(
    public_key: &MasterPublicKey,
    batch: &ValidatedBatch,
    share: DecryptionShare,
) -> core::result::Result<bool, Error> {
    if public_key.setup_id@ != batch.setup_id@ || public_key.index_space_size
        != batch.index_space {
        Err(Error::MismatchedSetup)
    } else if share.party_index >= public_key.party_weights@.len() {
        Err(Error::InvalidPartyIndex(share.party_index))
    } else {
        Ok(passes(public_key, batch, share))
    }
}

/// Checks one share against the batch and the party's public inverse.
pub fn verify_decryption_share(
    public_key: &MasterPublicKey,
    batch: &ValidatedBatch,
    share: &DecryptionShare,
) -> (result: Result<bool>)
    requires
        public_key.wf(),
    ensures
        result == share_check(public_key, batch, *share),
{
    if !bytes_equal(public_key.setup_id.as_slice(), batch.setup_id.as_slice())
        || public_key.index_space_size() != batch.index_space {
        return Err(Error::MismatchedSetup);
    }
    if share.party_index >= public_key.party_count() {
        return Err(Error::InvalidPartyIndex(share.party_index));
    }
    if !bytes_equal(share.setup_id.as_slice(), batch.setup_id.as_slice()) || !bytes_equal(
        share.batch_digest.as_slice(),
        batch.digest.as_slice(),
    ) {
        return Ok(false);
    }
    let context = server_proof_context(batch.digest, share.party_index);
    let public_inverse = public_key.inverse_key(share.party_index)?;
    Ok(
        share.proof.verify(
            ProofPurpose::Server,
            batch.setup_id,
            context.as_slice(),
            Pairs {
                first_base: G1Point::generator(),
                first_target: public_inverse,
                second_base: batch.aggregate_first,
                second_target: share.sigma,
            },
        ),
    )
}

/// Whether a party has a share.
pub open spec fn has_share(shares: Seq<DecryptionShare>, party: int) -> bool {
    exists|k: int| 0 <= k < shares.len() && (#[trigger] shares[k]).party_index == party
}

/// The share of a party.
pub open spec fn share_of(shares: Seq<DecryptionShare>, party: int) -> DecryptionShare {
    shares[choose|k: int| 0 <= k < shares.len() && (#[trigger] shares[k]).party_index == party]
}

/// Whether a party has a share that passes its check.
pub open spec fn has_valid(
    public_key: &MasterPublicKey,
    batch: &ValidatedBatch,
    shares: Seq<DecryptionShare>,
    party: int,
) -> bool {
    has_share(shares, party) && passes(public_key, batch, share_of(shares, party))
}

/// For every party, whether it has a share that passes its check.
pub open spec fn valid_parties(
    public_key: &MasterPublicKey,
    batch: &ValidatedBatch,
    shares: Seq<DecryptionShare>,
) -> Seq<bool> {
    Seq::new(
        public_key.party_weights@.len(),
        |party: int| has_valid(public_key, batch, shares, party),
    )
}

/// Whether one party comes before another when weight is gathered: it is heavier,
/// or as heavy and has the lower number.
pub open spec fn ranks_before(party_weights: Seq<usize>, a: int, b: int) -> bool {
    party_weights[a] > party_weights[b] || (party_weights[a] == party_weights[b] && a < b)
}

/// The weight of the flagged parties before `end`.
pub open spec fn flagged_weight(party_weights: Seq<usize>, flags: Seq<bool>, end: int) -> int
    decreases end,
{
    if end <= 0 {
        0
    } else {
        flagged_weight(party_weights, flags, end - 1) + (if flags[end - 1] {
            party_weights[end - 1] as int
        } else {
            0
        })
    }
}

/// The flagged parties that rank before one.
pub open spec fn flagged_above(party_weights: Seq<usize>, flags: Seq<bool>, party: int) -> Seq<
    bool,
> {
    Seq::new(flags.len(), |a: int| flags[a] && ranks_before(party_weights, a, party))
}

/// The parties that are taken when weight is gathered, the heaviest first, until
/// it is greater than the threshold: those above which there is not enough.
pub open spec fn gathered(
    party_weights: Seq<usize>,
    flags: Seq<bool>,
    threshold_weight: int,
) -> Seq<bool> {
    Seq::new(
        flags.len(),
        |party: int|
            flags[party] && flagged_weight(
                party_weights,
                flagged_above(party_weights, flags, party),
                flags.len() as int,
            ) <= threshold_weight,
    )
}

/// The shares of the flagged parties before `end`, in the order of the parties.
pub open spec fn shares_before(
    shares: Seq<DecryptionShare>,
    flags: Seq<bool>,
    end: int,
) -> Seq<DecryptionShare>
    decreases end,
{
    if end <= 0 {
        Seq::empty()
    } else {
        let rest = shares_before(shares, flags, end - 1);
        if flags[end - 1] {
            rest.push(share_of(shares, end - 1))
        } else {
            rest
        }
    }
}

/// The parties before `end` that have a share but are not flagged, in order.
pub open spec fn rejected_before(
    shares: Seq<DecryptionShare>,
    flags: Seq<bool>,
    end: int,
) -> Seq<usize>
    decreases end,
{
    if end <= 0 {
        Seq::empty()
    } else {
        let rest = rejected_before(shares, flags, end - 1);
        if has_share(shares, end - 1) && !flags[end - 1] {
            rest.push((end - 1) as usize)
        } else {
            rest
        }
    }
}

/// Why share `i` is refused, where it is.
pub open spec fn share_defect(party_count: int, shares: Seq<DecryptionShare>, i: int) -> Option<
    Error,
> {
    let index = shares[i].party_index;
    if index >= party_count {
        Some(Error::InvalidPartyIndex(index))
    } else if exists|j: int| 0 <= j < i && (#[trigger] shares[j]).party_index == index {
        Some(Error::DuplicatePartyIndex(index))
    } else {
        None
    }
}

/// Why the first refused share, from `from` on, is refused.
pub open spec fn first_defect(party_count: int, shares: Seq<DecryptionShare>, from: int) -> Option<
    Error,
>
    decreases shares.len() - from,
{
    if from >= shares.len() {
        None
    } else {
        match share_defect(party_count, shares, from) {
            Some(error) => Some(error),
            None => first_defect(party_count, shares, from + 1),
        }
    }
}

/// Why a set of shares is refused before any of them is checked, where it is.
pub open spec fn shares_defect(
    public_key: &MasterPublicKey,
    batch: &ValidatedBatch,
    shares: Seq<DecryptionShare>,
) -> Option<Error> {
    let party_count = public_key.party_weights@.len() as int;
    if public_key.setup_id@ != batch.setup_id@ || public_key.index_space_size
        != batch.index_space {
        Some(Error::MismatchedSetup)
    } else if shares.len() > party_count {
        Some(
            Error::TooManyShares {
                supplied: shares.len() as usize,
                party_count: party_count as usize,
            },
        )
    } else {
        first_defect(party_count, shares, 0)
    }
}

/// Whether an outcome is that of accepting shares: the shares of as few parties
/// as have enough weight, in the order of the parties, or why there are none.
pub open spec fn is_acceptance(
    public_key: &MasterPublicKey,
    batch: &ValidatedBatch,
    shares: Seq<DecryptionShare>,
    result: Result<AcceptedDecryptionShares>,
) -> bool {
    let party_weights = public_key.party_weights@;
    let n = party_weights.len() as int;
    let valid = valid_parties(public_key, batch, shares);
    let taken = gathered(party_weights, valid, public_key.threshold_weight as int);
    match shares_defect(public_key, batch, shares) {
        Some(defect) => result == Err::<AcceptedDecryptionShares, Error>(defect),
        None => match result {
            Ok(accepted) => {
                &&& flagged_weight(party_weights, valid, n) > public_key.threshold_weight
                &&& accepted.setup_id@ == batch.setup_id@
                &&& accepted.index_space == batch.index_space
                &&& accepted.batch_size == batch.batch_size
                &&& accepted.digest@ == batch.digest@
                &&& accepted.used_indices@ == batch.used_indices@
                &&& accepted.accepted_weight == flagged_weight(party_weights, taken, n)
                &&& accepted.shares@ == shares_before(shares, taken, n)
                &&& accepted.rejected_parties@ == rejected_before(shares, valid, n)
            },
            Err(error) => {
                &&& flagged_weight(party_weights, valid, n) <= public_key.threshold_weight
                &&& error matches Error::InsufficientWeight {
                    accepted,
                    required,
                    rejected_parties,
                } && accepted == flagged_weight(party_weights, valid, n) && required
                    == public_key.threshold_weight + 1 && rejected_parties@ == rejected_before(
                    shares,
                    valid,
                    n,
                )
            },
        },
    }
}

/// Whether a party's share, of those before `end`, stands at the place, or there is none.
spec fn is_place(place: Option<usize>, shares: Seq<DecryptionShare>, end: int, party: int) -> bool {
    if place is Some {
        place->0 < end && shares[place->0 as int].party_index == party
    } else {
        forall|k: int| 0 <= k < end ==> (#[trigger] shares[k]).party_index != party
    }
}

/// Where no two shares are of one party, a share is that of its party.
pub proof fn lemma_share_of(shares: Seq<DecryptionShare>, k: int)
    requires
        0 <= k < shares.len(),
        forall|i: int, j: int|
            0 <= i < j < shares.len() ==> (#[trigger] shares[i]).party_index != (
            #[trigger] shares[j]).party_index,
    ensures
        has_share(shares, shares[k].party_index as int),
        share_of(shares, shares[k].party_index as int) == shares[k],
{
    let party = shares[k].party_index as int;
    let other = choose|i: int| 0 <= i < shares.len() && (#[trigger] shares[i]).party_index == party;
    assert(shares[k].party_index == party);
    if other < k {
        assert(shares[other].party_index != shares[k].party_index);
    } else if k < other {
        assert(shares[k].party_index != shares[other].party_index);
    }
}

pub proof fn lemma_flagged_bound(party_weights: Seq<usize>, flags: Seq<bool>, end: int)
    requires
        0 <= end <= party_weights.len(),
    ensures
        0 <= flagged_weight(party_weights, flags, end) <= offset(party_weights, end)
            <= total(party_weights),
    decreases end,
{
    lemma_offset_order(party_weights, end, end);
    if end > 0 {
        lemma_flagged_bound(party_weights, flags, end - 1);
        lemma_offset_step(party_weights, end - 1);
    } else {
        assert(party_weights.take(0) =~= Seq::<usize>::empty());
    }
}

/// The weight of the flagged parties that rank before one.
fn weight_above(party_weights: &Vec<usize>, flags: &Vec<bool>, party: usize) -> (result: usize)
    requires
        flags@.len() == party_weights@.len(),
        party < flags@.len(),
        total(party_weights@) <= usize::MAX,
    ensures
        result == flagged_weight(
            party_weights@,
            flagged_above(party_weights@, flags@, party as int),
            flags@.len() as int,
        ),
{
    let ghost above = flagged_above(party_weights@, flags@, party as int);
    let mut result: usize = 0;
    let mut other: usize = 0;
    while other < flags.len()
        invariant
            other <= flags@.len() == party_weights@.len(),
            party < flags@.len(),
            total(party_weights@) <= usize::MAX,
            above == flagged_above(party_weights@, flags@, party as int),
            result == flagged_weight(party_weights@, above, other as int),
        decreases flags@.len() - other,
    {
        proof {
            lemma_flagged_bound(party_weights@, above, other + 1);
        }
        if flags[other] && (party_weights[other] > party_weights[party] || (party_weights[other]
            == party_weights[party] && other < party)) {
            result = result + party_weights[other];
        }
        other = other + 1;
    }
    result
}

/// Checks every share, and takes as few of those that pass as have enough
/// weight: the heaviest first, of two as heavy the one with the lower number. The
/// shares that are taken come in the order of their parties.
pub fn accept_decryption_shares(
    public_key: &MasterPublicKey,
    batch: &ValidatedBatch,
    shares: &[DecryptionShare],
) -> (result: Result<AcceptedDecryptionShares>)
    requires
        public_key.wf(),
    ensures
        is_acceptance(public_key, batch, shares@, result),
{
    if !bytes_equal(public_key.setup_id.as_slice(), batch.setup_id.as_slice())
        || public_key.index_space_size() != batch.index_space {
        return Err(Error::MismatchedSetup);
    }
    let party_count = public_key.party_count();
    if shares.len() > party_count {
        return Err(Error::TooManyShares { supplied: shares.len(), party_count });
    }
    let mut places: Vec<Option<usize>> = Vec::new();
    while places.len() < party_count
        invariant
            places@.len() <= party_count,
            forall|p: int| 0 <= p < places@.len() ==> (#[trigger] places@[p]) is None,
        decreases party_count - places@.len(),
    {
        places.push(None);
    }
    let mut index: usize = 0;
    while index < shares.len()
        invariant
            party_count == public_key.party_weights@.len(),
            places@.len() == party_count,
            index <= shares@.len(),
            public_key.setup_id@ == batch.setup_id@,
            public_key.index_space_size == batch.index_space,
            shares@.len() <= party_count,
            first_defect(party_count as int, shares@, 0) == first_defect(
                party_count as int,
                shares@,
                index as int,
            ),
            forall|k: int|
                0 <= k < index ==> (#[trigger] shares@[k]).party_index < party_count
                    && places@[shares@[k].party_index as int] == Some(k as usize),
            forall|p: int|
                0 <= p < party_count ==> is_place(
                    #[trigger] places@[p],
                    shares@,
                    index as int,
                    p,
                ),
        decreases shares@.len() - index,
    {
        let share = shares[index];
        assert(first_defect(party_count as int, shares@, index as int) == match share_defect(
            party_count as int,
            shares@,
            index as int,
        ) {
            Some(error) => Some(error),
            None => first_defect(party_count as int, shares@, index + 1),
        });
        if share.party_index >= party_count {
            return Err(Error::InvalidPartyIndex(share.party_index));
        }
        if places[share.party_index].is_some() {
            proof {
                let k = places@[share.party_index as int]->0 as int;
                assert(shares@[k].party_index == share.party_index);
            }
            return Err(Error::DuplicatePartyIndex(share.party_index));
        }
        places.set(share.party_index, Some(index));
        index = index + 1;
    }
    proof {
        assert forall|i: int, j: int| 0 <= i < j < shares@.len() implies (
        #[trigger] shares@[i]).party_index != (#[trigger] shares@[j]).party_index by {
            assert(places@[shares@[i].party_index as int] == Some(i as usize));
            assert(places@[shares@[j].party_index as int] == Some(j as usize));
        }
    }
    let ghost valid_spec = valid_parties(public_key, batch, shares@);
    let ghost party_weights = public_key.party_weights@;
    let mut valid: Vec<bool> = Vec::new();
    let mut rejected_parties: Vec<usize> = Vec::new();
    let mut valid_weight: usize = 0;
    while valid.len() < party_count
        invariant
            public_key.wf(),
            party_count == party_weights.len(),
            party_weights == public_key.party_weights@,
            places@.len() == party_count,
            public_key.setup_id@ == batch.setup_id@,
            public_key.index_space_size == batch.index_space,
            forall|p: int|
                0 <= p < party_count ==> is_place(
                    #[trigger] places@[p],
                    shares@,
                    shares@.len() as int,
                    p,
                ),
            forall|i: int, j: int|
                0 <= i < j < shares@.len() ==> (#[trigger] shares@[i]).party_index != (
                #[trigger] shares@[j]).party_index,
            valid_spec == valid_parties(public_key, batch, shares@),
            valid@.len() <= party_count,
            forall|p: int| 0 <= p < valid@.len() ==> #[trigger] valid@[p] == valid_spec[p],
            rejected_parties@ == rejected_before(shares@, valid_spec, valid@.len() as int),
            valid_weight == flagged_weight(party_weights, valid_spec, valid@.len() as int),
        decreases party_count - valid@.len(),
    {
        let party = valid.len();
        proof {
            lemma_flagged_bound(party_weights, valid_spec, party + 1);
        }
        let mut is_valid = false;
        if let Some(place) = places[party] {
            let share = shares[place];
            proof {
                assert(places@[party as int] == Some(place));
                lemma_share_of(shares@, place as int);
            }
            is_valid = match verify_decryption_share(public_key, batch, &share) {
                Ok(valid) => valid,
                Err(_) => false,
            };
            if is_valid {
                valid_weight = valid_weight + public_key.party_weights[party];
            } else {
                rejected_parties.push(party);
            }
        } else {
            assert(places@[party as int] is None);
        }
        assert(is_valid == valid_spec[party as int]);
        valid.push(is_valid);
    }
    assert(valid@ =~= valid_spec);
    if valid_weight <= public_key.threshold_weight() {
        return Err(
            Error::InsufficientWeight {
                accepted: valid_weight,
                required: public_key.required_weight(),
                rejected_parties,
            },
        );
    }
    let ghost taken = gathered(party_weights, valid_spec, public_key.threshold_weight as int);
    let mut accepted: Vec<DecryptionShare> = Vec::new();
    let mut accepted_weight: usize = 0;
    let mut party: usize = 0;
    while party < party_count
        invariant
            public_key.wf(),
            party <= party_count == party_weights.len(),
            party_weights == public_key.party_weights@,
            places@.len() == party_count,
            valid@ == valid_spec,
            valid_spec == valid_parties(public_key, batch, shares@),
            taken == gathered(party_weights, valid_spec, public_key.threshold_weight as int),
            forall|p: int|
                0 <= p < party_count ==> is_place(
                    #[trigger] places@[p],
                    shares@,
                    shares@.len() as int,
                    p,
                ),
            forall|i: int, j: int|
                0 <= i < j < shares@.len() ==> (#[trigger] shares@[i]).party_index != (
                #[trigger] shares@[j]).party_index,
            accepted@ == shares_before(shares@, taken, party as int),
            accepted_weight == flagged_weight(party_weights, taken, party as int),
        decreases party_count - party,
    {
        proof {
            lemma_flagged_bound(party_weights, taken, party + 1);
        }
        if valid[party] && weight_above(&public_key.party_weights, &valid, party)
            <= public_key.threshold_weight {
            if let Some(place) = places[party] {
                proof {
                    assert(places@[party as int] == Some(place));
                    lemma_share_of(shares@, place as int);
                }
                accepted.push(shares[place]);
                accepted_weight = accepted_weight + public_key.party_weights[party];
            } else {
                assert(places@[party as int] is None);
                assert(false) by {
                    assert(has_valid(public_key, batch, shares@, party as int));
                }
            }
        }
        party = party + 1;
    }
    Ok(
        AcceptedDecryptionShares {
            setup_id: batch.setup_id,
            index_space: batch.index_space,
            batch_size: batch.batch_size,
            digest: batch.digest,
            accepted_weight,
            used_indices: copy_numbers(
                batch.used_indices.as_slice(),
            ),
            shares: accepted,
            rejected_parties,
        },
    )
}

/// The kernel of the middle product: nothing at zero, at `d` the power `d` above
/// the one left out, and at `-d` the power `d` below it.
pub open spec fn indexed_kernel(
    positive: Seq<int>,
    negative: Seq<int>,
    index_space: int,
    transform_size: int,
) -> Seq<int> {
    Seq::new(
        transform_size as nat,
        |d: int|
            if 1 <= d < index_space {
                positive[d]
            } else if 1 <= transform_size - d < index_space {
                negative[transform_size - d]
            } else {
                0
            },
    )
}

impl IndexedMiddleProductKernel {
    /// What every kernel satisfies.
    pub open spec fn wf(&self) -> bool {
        &&& 1 <= self.index_space
        &&& 2 * self.index_space <= self.transform_size
        &&& self.domain.wf()
        &&& self.domain.spec_size() == self.transform_size
        &&& self.transformed_kernel@.len() == self.transform_size
        &&& self.positive_powers@.len() == self.index_space
        &&& self.negative_powers@.len() == self.index_space
        &&& self.entries() == indexed_kernel(
            views(self.positive_powers@),
            views(self.negative_powers@),
            self.index_space as int,
            self.transform_size as int,
        )
    }

    /// The kernel before it was transformed.
    pub open spec fn entries(&self) -> Seq<int> {
        kernel_entries(self.domain, views(self.transformed_kernel@))
    }

    /// Whether this is the kernel of the parameters.
    pub open spec fn is_kernel_of(&self, parameters: &PublicParameters) -> bool {
        &&& self.wf()
        &&& self.crs_id@ == parameters.crs_id@
        &&& self.index_space == parameters.index_space_size
        &&& is_share_domain(self.transform_size as int, 2 * self.index_space)
        &&& forall|d: int|
            1 <= d < self.index_space ==> (#[trigger] self.positive_powers@[d])@
                == parameters.centered_log(d)
        &&& forall|d: int|
            1 <= d < self.index_space ==> (#[trigger] self.negative_powers@[d])@
                == parameters.centered_log(-d)
    }

    /// The kernel of the parameters, which serves all committees and batches
    /// under them. There is none where its transform would be too large.
    pub fn new(parameters: &PublicParameters) -> (result: Result<Self>)
        requires
            parameters.wf(),
        ensures
            match result {
                Ok(kernel) => has_domain(2 * parameters.index_space_size) && kernel.is_kernel_of(
                    parameters,
                ),
                Err(error) => error matches Error::InvalidBatchSize(size) && is_transform_error(
                    parameters.index_space_size as int,
                    size as int,
                ),
            },
    {
        let index_space = parameters.index_space_size();
        let domain = match transform_domain(index_space) {
            Ok(domain) => domain,
            Err(size) => {
                return Err(Error::InvalidBatchSize(size));
            },
        };
        let transform_size = domain.size();
        let mut kernel: Vec<G2> = zeros(transform_size);
        let mut positive_powers: Vec<G2Point> = Vec::new();
        let mut negative_powers: Vec<G2Point> = Vec::new();
        positive_powers.push(G2Point::identity());
        negative_powers.push(G2Point::identity());
        let mut distance: usize = 1;
        while distance < index_space
            invariant
                parameters.wf(),
                index_space == parameters.index_space_size,
                1 <= distance <= index_space,
                2 * index_space <= transform_size == kernel@.len(),
                positive_powers@.len() == distance == negative_powers@.len(),
                forall|d: int|
                    1 <= d < distance ==> (#[trigger] positive_powers@[d])@
                        == parameters.centered_log(d),
                forall|d: int|
                    1 <= d < distance ==> (#[trigger] negative_powers@[d])@
                        == parameters.centered_log(-d),
                forall|d: int|
                    0 <= d < transform_size ==> (#[trigger] kernel@[d])@ == (if 1 <= d < distance {
                        positive_powers@[d]@
                    } else if 1 <= transform_size - d < distance {
                        negative_powers@[transform_size - d]@
                    } else {
                        0
                    }),
            decreases index_space - distance,
        {
            let positive = parameters.centered_power(distance as isize)?;
            let negative = parameters.centered_power(-(distance as isize))?;
            positive_powers.push(positive);
            negative_powers.push(negative);
            kernel.set(distance, G2::from_affine(positive));
            kernel.set(transform_size - distance, G2::from_affine(negative));
            distance = distance + 1;
        }
        assert(views(kernel@) =~= indexed_kernel(
            views(positive_powers@),
            views(negative_powers@),
            index_space as int,
            transform_size as int,
        ));
        let transformed_kernel = transform_kernel_g2(&domain, kernel);
        Ok(
            IndexedMiddleProductKernel {
                crs_id: parameters.crs_id(),
                index_space,
                transform_size,
                domain,
                transformed_kernel,
                positive_powers,
                negative_powers,
            },
        )
    }

    pub fn index_space(&self) -> (result: usize)
        ensures
            result == self.index_space,
    {
        self.index_space
    }

    pub fn transform_size(&self) -> (result: usize)
        ensures
            result == self.transform_size,
    {
        self.transform_size
    }
}

/// The virtual shares of parties.
pub open spec fn selected_of(public_key: &MasterPublicKey, parties: Seq<usize>) -> Seq<usize> {
    virtual_indices(public_key.party_weights@, parties)
}

/// The weights of the interpolation at zero from the virtual shares of parties.
pub open spec fn lambda_of(public_key: &MasterPublicKey, parties: Seq<usize>) -> Seq<int> {
    weights(
        selected_points(
            views(public_key.evaluation_domain@),
            selected_of(public_key, parties),
        ),
    )
}

/// All virtual shares for an index.
pub open spec fn gamma_row(public_key: &MasterPublicKey, index: int) -> Seq<int> {
    Seq::new(public_key.total_weight as nat, |i: int| public_key.gamma_log(index, i))
}

/// The opening key of the party at a position for an index: the party's virtual
/// shares there, each times its weight, added up.
pub open spec fn opening_key(
    public_key: &MasterPublicKey,
    parties: Seq<usize>,
    index: int,
    position: int,
) -> int {
    let party = parties[position] as int;
    let party_weights = public_key.party_weights@;
    let start = position_offset(party_weights, parties, position);
    let begin = offset(party_weights, party);
    let count = party_weights[party];
    dot(
        gamma_row(public_key, index).subrange(begin, begin + count),
        lambda_of(public_key, parties).subrange(start, start + count),
    ) % order()
}

pub open spec fn opening_table(
    public_key: &MasterPublicKey,
    parties: Seq<usize>,
    used_indices: Seq<usize>,
) -> spec_fn(int, int) -> int {
    |row: int, position: int|
        opening_key(public_key, parties, used_indices[row] as int, position)
}

impl DecryptionPrecomputation {
    /// What every precomputation satisfies.
    pub open spec fn wf(&self) -> bool {
        self.opening_keys@.len() == self.used_indices@.len() * self.party_indices@.len()
    }

    /// The opening keys of a used index, by its place.
    pub open spec fn opening_logs(&self, row: int) -> Seq<int> {
        Seq::new(
            self.party_indices@.len(),
            |p: int|
                cell(
                    views(self.opening_keys@),
                    self.party_indices@.len() as int,
                    row,
                    p,
                ),
        )
    }

    /// Whether this was prepared for the parties and the used indices under a key.
    pub open spec fn is_prepared(
        &self,
        public_key: &MasterPublicKey,
        parties: Seq<usize>,
        used_indices: Seq<usize>,
    ) -> bool {
        &&& self.wf()
        &&& self.setup_id@ == public_key.setup_id@
        &&& self.index_space == public_key.index_space_size
        &&& self.party_indices@ == parties
        &&& self.used_indices@ == used_indices
        &&& self.context_id@ == committee_id_of(public_key.setup_id@, parties, used_indices)
        &&& is_table(
            views(self.opening_keys@),
            parties.len() as int,
            used_indices.len() as int,
            opening_table(public_key, parties, used_indices),
        )
    }
}

/// Whether an outcome is that of preparing for accepted shares.
pub open spec fn is_preparation(
    public_key: &MasterPublicKey,
    accepted: &AcceptedDecryptionShares,
    result: Result<DecryptionPrecomputation>,
) -> bool {
    let parties = share_parties(accepted.shares@);
    let used = accepted.used_indices@;
    let unknown = first_unknown(parties, public_key.party_weights@.len() as int, 0);
    let outside = first_unknown(used, public_key.index_space_size as int, 0);
    if public_key.setup_id@ != accepted.setup_id@ || public_key.index_space_size
        != accepted.index_space {
        result == Err::<DecryptionPrecomputation, Error>(Error::MismatchedSetup)
    } else if accepted.accepted_weight <= public_key.threshold_weight {
        result matches Err(Error::InsufficientWeight {
            accepted: weight,
            required,
            rejected_parties,
        }) && weight == accepted.accepted_weight && required == public_key.threshold_weight + 1
            && rejected_parties@.len() == 0
    } else if unknown is Some {
        result == Err::<DecryptionPrecomputation, Error>(Error::InvalidPartyIndex(unknown->0))
    } else if !is_selection(public_key.total_weight as int, selected_of(public_key, parties)) {
        result == Err::<DecryptionPrecomputation, Error>(Error::InvalidInterpolationSet)
    } else if used.len() * parties.len() > usize::MAX {
        result == Err::<DecryptionPrecomputation, Error>(Error::ParameterSizeOverflow)
    } else if outside is Some {
        result == Err::<DecryptionPrecomputation, Error>(
            Error::InvalidCiphertextIndex(outside->0),
        )
    } else {
        result matches Ok(precomputation) && precomputation.accepted_weight
            == accepted.accepted_weight && precomputation.is_prepared(public_key, parties, used)
    }
}

/// The opening keys of one index.
fn opening_keys_for_index(
    public_key: &MasterPublicKey,
    parties: &Vec<usize>,
    starts: &Vec<usize>,
    coefficients: &Vec<Fr>,
    index: usize,
) -> (keys: Vec<G2>)
    requires
        public_key.wf(),
        index < public_key.index_space_size,
        forall|i: int|
            0 <= i < parties@.len() ==> (#[trigger] parties@[i]) < public_key.party_weights@.len(),
        starts@.len() == parties@.len() + 1,
        forall|i: int|
            0 <= i <= parties@.len() ==> #[trigger] starts@[i] == position_offset(
                public_key.party_weights@,
                parties@,
                i,
            ),
        views(coefficients@) == lambda_of(public_key, parties@),
        coefficients@.len() == position_offset(
            public_key.party_weights@,
            parties@,
            parties@.len() as int,
        ),
    ensures
        keys@.len() == parties@.len(),
        forall|p: int|
            0 <= p < parties@.len() ==> (#[trigger] keys@[p])@ == opening_key(
                public_key,
                parties@,
                index as int,
                p,
            ),
{
    let ghost party_weights = public_key.party_weights@;
    let points = match public_key.gamma_block(index) {
        Ok(row) => row,
        Err(_) => Vec::new(),
    };
    let ghost logs = gamma_row(public_key, index as int);
    assert(views(points@) =~= logs);
    let mut keys: Vec<G2> = Vec::new();
    let party_count = public_key.party_count();
    while keys.len() < parties.len()
        invariant
            public_key.wf(),
            party_count == public_key.party_weights@.len(),
            party_weights == public_key.party_weights@,
            forall|i: int|
                0 <= i < parties@.len() ==> (#[trigger] parties@[i]) < party_weights.len(),
            starts@.len() == parties@.len() + 1,
            forall|i: int|
                0 <= i <= parties@.len() ==> #[trigger] starts@[i] == position_offset(
                    party_weights,
                    parties@,
                    i,
                ),
            views(coefficients@) == lambda_of(public_key, parties@),
            coefficients@.len() == position_offset(
                party_weights,
                parties@,
                parties@.len() as int,
            ),
            points@.len() == public_key.total_weight,
            views(points@) == logs,
            logs == gamma_row(public_key, index as int),
            keys@.len() <= parties@.len(),
            forall|p: int|
                0 <= p < keys@.len() ==> (#[trigger] keys@[p])@ == opening_key(
                    public_key,
                    parties@,
                    index as int,
                    p,
                ),
        decreases parties@.len() - keys@.len(),
    {
        let position = keys.len();
        let party = parties[position];
        let begin = public_key.party_offsets[party];
        let end = public_key.party_offsets[party + 1];
        let start = starts[position];
        let stop = starts[position + 1];
        proof {
            lemma_offset_step(party_weights, party as int);
            lemma_offset_order(party_weights, party + 1, party_weights.len() as int);
            lemma_position_step(party_weights, parties@, position as int);
            lemma_position_order(party_weights, parties@, position + 1);
        }
        let bases = slice_subrange(points.as_slice(), begin, end);
        let scalars = slice_subrange(coefficients.as_slice(), start, stop);
        proof {
            assert(views(bases@) =~= logs.subrange(begin as int, end as int));
            assert(views(scalars@) =~= lambda_of(public_key, parties@).subrange(
                start as int,
                stop as int,
            ));
        }
        keys.push(g2_multi_exp_affine(bases, scalars));
    }
    keys
}

/// Builds what depends on the accepted parties and the used indices alone.
pub fn prepare_decryption(public_key: &MasterPublicKey, accepted: &AcceptedDecryptionShares) -> (result:
    Result<DecryptionPrecomputation>)
    requires
        public_key.wf(),
    ensures
        is_preparation(public_key, accepted, result),
{
    if !bytes_equal(public_key.setup_id.as_slice(), accepted.setup_id.as_slice())
        || public_key.index_space_size() != accepted.index_space {
        return Err(Error::MismatchedSetup);
    }
    if accepted.accepted_weight <= public_key.threshold_weight() {
        return Err(
            Error::InsufficientWeight {
                accepted: accepted.accepted_weight,
                required: public_key.required_weight(),
                rejected_parties: Vec::new(),
            },
        );
    }
    let party_indices = accepted.party_indices();
    let ghost parties = party_indices@;
    let ghost used = accepted.used_indices@;
    let ghost party_weights = public_key.party_weights@;
    let context_id = committee_context_id(
        accepted.setup_id,
        &party_indices,
        &accepted.used_indices,
    );
    let (selected, starts) = match select_virtual(
        &public_key.party_offsets,
        &party_indices,
        Ghost(party_weights),
    ) {
        Ok(found) => found,
        Err(party) => {
            return Err(Error::InvalidPartyIndex(party));
        },
    };
    proof {
        lemma_none_unknown(parties, party_weights.len() as int, 0);
        let size = public_key.domain_size as int;
        assert(views(public_key.evaluation_domain@).len() == public_key.evaluation_domain@.len());
        assert(views(public_key.evaluation_domain@) == root_points(
            size,
            views(public_key.evaluation_domain@).len() as int,
        ));
        assert(is_root_prefix(views(public_key.evaluation_domain@)));
    }
    let coefficients = match lagrange_at_zero(public_key.domain_points(), selected.as_slice()) {
        Some(coefficients) => coefficients,
        None => {
            return Err(Error::InvalidInterpolationSet);
        },
    };
    proof {
        assert(views(coefficients@) == lambda_of(public_key, parties));
        assert(views(coefficients@).len() == coefficients@.len());
        assert(parties.take(parties.len() as int) =~= parties);
    }
    if accepted.used_indices.len().checked_mul(party_indices.len()).is_none() {
        return Err(Error::ParameterSizeOverflow);
    }
    let mut opening_keys: Vec<G2Point> = Vec::new();
    let mut row: usize = 0;
    while row < accepted.used_indices.len()
        invariant
            public_key.wf(),
            parties == party_indices@,
            used == accepted.used_indices@,
            party_weights == public_key.party_weights@,
            row <= used.len(),
            forall|i: int| 0 <= i < parties.len() ==> (#[trigger] parties[i]) < party_weights.len(),
            starts@.len() == parties.len() + 1,
            forall|i: int|
                0 <= i <= parties.len() ==> #[trigger] starts@[i] == position_offset(
                    party_weights,
                    parties,
                    i,
                ),
            views(coefficients@) == lambda_of(public_key, parties),
            coefficients@.len() == position_offset(party_weights, parties, parties.len() as int),
            first_unknown(used, public_key.index_space_size as int, 0) == first_unknown(
                used,
                public_key.index_space_size as int,
                row as int,
            ),
            is_table(
                views(opening_keys@),
                parties.len() as int,
                row as int,
                opening_table(public_key, parties, used),
            ),
            parties == share_parties(accepted.shares@),
            public_key.setup_id@ == accepted.setup_id@,
            public_key.index_space_size == accepted.index_space,
            accepted.accepted_weight > public_key.threshold_weight,
            first_unknown(parties, party_weights.len() as int, 0) is None,
            is_selection(public_key.total_weight as int, selected_of(public_key, parties)),
            used.len() * parties.len() <= usize::MAX,
        decreases used.len() - row,
    {
        let index = accepted.used_indices[row];
        if index >= public_key.index_space_size {
            return Err(Error::InvalidCiphertextIndex(index));
        }
        let keys = opening_keys_for_index(
            public_key,
            &party_indices,
            &starts,
            &coefficients,
            index,
        );
        let affine = batch_normalize_g2(&keys);
        let ghost before = views(opening_keys@);
        append_points(&mut opening_keys, &affine);
        proof {
            let next = views(affine@);
            assert(next.len() == parties.len());
            assert forall|p: int| 0 <= p < parties.len() implies #[trigger] next[p]
                == opening_table(public_key, parties, used)(row as int, p) by {
                assert(views(keys@)[p] == keys@[p]@);
            }
            lemma_table_push(
                before,
                next,
                parties.len() as int,
                row as int,
                opening_table(public_key, parties, used),
            );
        }
        row = row + 1;
    }
    proof {
        assert(views(opening_keys@).len() == opening_keys@.len());
    }
    Ok(
        DecryptionPrecomputation {
            setup_id: accepted.setup_id,
            context_id,
            index_space: accepted.index_space,
            accepted_weight: accepted.accepted_weight,
            party_indices,
            used_indices: copy_numbers(
                accepted.used_indices.as_slice(),
            ),
            opening_keys,
        },
    )
}

/// The cross term of a slot: the sum, over all indices, of the punctured point
/// there times the kernel's entry at the distance; nothing where the slot is not valid.
pub open spec fn beta_of(
    kernel: &IndexedMiddleProductKernel,
    batch: &ValidatedBatch,
    slot: int,
) -> int {
    match batch.valid_index_by_slot@[slot] {
        Some(index) => cross_term(batch.punctured_logs(), kernel.entries(), index as int) % order(),
        None => 0,
    }
}

/// The cross terms of all slots. Few used indices are paired directly, more by
/// the middle product over the whole index space.
pub fn precompute_batch(kernel: &IndexedMiddleProductKernel, batch: &ValidatedBatch) -> (result:
    Result<BatchPrecomputation>)
    requires
        kernel.wf(),
        batch.wf(),
    ensures
        match result {
            Ok(cross) => {
                &&& kernel.crs_id@ == batch.crs_id@
                &&& kernel.index_space == batch.index_space
                &&& cross.setup_id@ == batch.setup_id@
                &&& cross.index_space == batch.index_space
                &&& cross.batch_size == batch.batch_size
                &&& cross.digest@ == batch.digest@
                &&& cross.beta@.len() == batch.batch_size
                &&& forall|slot: int|
                    0 <= slot < batch.batch_size ==> (#[trigger] cross.beta@[slot])@ == beta_of(
                        kernel,
                        batch,
                        slot,
                    )
            },
            Err(error) => (kernel.crs_id@ != batch.crs_id@ || kernel.index_space
                != batch.index_space) && error == Error::MismatchedSetup,
        },
{
    if !bytes_equal(kernel.crs_id.as_slice(), batch.crs_id.as_slice()) || kernel.index_space
        != batch.index_space {
        return Err(Error::MismatchedSetup);
    }
    let valid_count = batch.used_indices.len();
    let is_direct = match valid_count.checked_mul(if valid_count == 0 {
        0
    } else {
        valid_count - 1
    }) {
        Some(direct_terms) => direct_terms <= kernel.transform_size / 2,
        None => false,
    };
    let beta = if is_direct {
        direct_cross_terms(kernel, batch)
    } else {
        fft_cross_terms(kernel, batch)
    };
    Ok(
        BatchPrecomputation {
            setup_id: batch.setup_id,
            index_space: batch.index_space,
            batch_size: batch.batch_size,
            digest: batch.digest,
            beta,
        },
    )
}

/// The cross terms by the middle product.
fn fft_cross_terms(kernel: &IndexedMiddleProductKernel, batch: &ValidatedBatch) -> (beta: Vec<
    GtElement,
>)
    requires
        kernel.wf(),
        batch.wf(),
        kernel.index_space == batch.index_space,
    ensures
        beta@.len() == batch.batch_size,
        forall|slot: int|
            0 <= slot < batch.batch_size ==> (#[trigger] beta@[slot])@ == beta_of(
                kernel,
                batch,
                slot,
            ),
{
    let convolution = cross_terms(
        &kernel.domain,
        &batch.punctured_by_index,
        &kernel.transformed_kernel,
    );
    let mut beta: Vec<GtElement> = Vec::new();
    while beta.len() < batch.batch_size
        invariant
            batch.wf(),
            kernel.index_space == batch.index_space,
            kernel.wf(),
            convolution@.len() == kernel.transform_size,
            forall|i: int|
                0 <= i < convolution@.len() ==> (#[trigger] convolution@[i])@ == cross_term(
                    batch.punctured_logs(),
                    kernel.entries(),
                    i,
                ) % order(),
            beta@.len() <= batch.batch_size,
            forall|slot: int|
                0 <= slot < beta@.len() ==> (#[trigger] beta@[slot])@ == beta_of(
                    kernel,
                    batch,
                    slot,
                ),
        decreases batch.batch_size - beta@.len(),
    {
        let slot = beta.len();
        let ghost at = batch.valid_index_by_slot@[slot as int];
        match batch.valid_index_by_slot[slot] {
            Some(index) => {
                assert(at == Some(index));
                beta.push(convolution[index]);
            },
            None => {
                beta.push(GtElement::zero());
            },
        }
    }
    beta
}

pub open spec fn at_used(g: spec_fn(int) -> int, used: Seq<usize>) -> spec_fn(int) -> int {
    |k: int| g(used[k] as int)
}

/// A sum over all indices runs over the used ones alone where it is zero elsewhere.
proof fn lemma_sum_used(g: spec_fn(int) -> int, used: Seq<usize>, n: int)
    requires
        0 <= n <= usize::MAX,
        forall|k: int| 0 <= k < used.len() ==> (#[trigger] used[k]) < n,
        forall|k: int, l: int|
            0 <= k < l < used.len() ==> #[trigger] used[k] < #[trigger] used[l],
        forall|j: int| 0 <= j < n && !used.contains(j as usize) ==> #[trigger] g(j) == 0,
    ensures
        sum(at_used(g, used), 0, used.len() as int) == sum(g, 0, n),
    decreases n,
{
    if n > 0 {
        let last = used.len() - 1;
        if used.len() > 0 && used[last] == n - 1 {
            let shorter = used.drop_last();
            assert forall|k: int| 0 <= k < shorter.len() implies (#[trigger] shorter[k]) < n - 1 by {
                assert(used[k] < used[last]);
            }
            assert forall|j: int|
                0 <= j < n - 1 && !shorter.contains(j as usize) implies #[trigger] g(j) == 0 by {
                if used.contains(j as usize) {
                    let k = choose|k: int| 0 <= k < used.len() && used[k] == j as usize;
                    assert(shorter[k] == j as usize);
                }
            }
            assert forall|k: int, l: int| 0 <= k < l < shorter.len() implies #[trigger] shorter[k]
                < #[trigger] shorter[l] by {
                assert(used[k] < used[l]);
            }
            lemma_sum_used(g, shorter, n - 1);
            lemma_sum_ext(at_used(g, used), at_used(g, shorter), 0, last);
            assert(at_used(g, used)(last) == g(n - 1));
        } else {
            assert forall|k: int| 0 <= k < used.len() implies (#[trigger] used[k]) < n - 1 by {
                if k < last {
                    assert(used[k] < used[last]);
                }
            }
            if used.contains((n - 1) as usize) {
                let k = choose|k: int| 0 <= k < used.len() && used[k] == (n - 1) as usize;
                assert(used[k] < n - 1);
            }
            assert(g(n - 1) == 0);
            lemma_sum_used(g, used, n - 1);
        }
    } else {
        if used.len() > 0 {
            assert(used[0] < n);
        }
    }
}

/// The terms of a direct cross term: the punctured point at an index times the
/// power at the distance; nothing at the index itself.
pub open spec fn direct_terms(
    kernel: &IndexedMiddleProductKernel,
    batch: &ValidatedBatch,
    output: int,
) -> spec_fn(int) -> int {
    |j: int|
        if j == output {
            0
        } else if j < output {
            batch.punctured_logs()[j] * kernel.positive_powers@[output - j]@
        } else {
            batch.punctured_logs()[j] * kernel.negative_powers@[j - output]@
        }
}

/// The direct terms are those of the middle product.
proof fn lemma_direct(
    kernel: &IndexedMiddleProductKernel,
    batch: &ValidatedBatch,
    output: int,
)
    requires
        kernel.wf(),
        batch.wf(),
        kernel.index_space == batch.index_space,
        0 <= output < batch.index_space,
    ensures
        sum(
            at_used(direct_terms(kernel, batch, output), batch.used_indices@),
            0,
            batch.used_indices@.len() as int,
        ) == cross_term(batch.punctured_logs(), kernel.entries(), output),
{
    let g = direct_terms(kernel, batch, output);
    let n = batch.index_space as int;
    let m = kernel.transform_size as int;
    let used = batch.used_indices@;
    let p = batch.punctured_logs();
    assert forall|j: int| 0 <= j < n && !used.contains(j as usize) implies #[trigger] g(j) == 0 by {
        assert(batch.punctured_by_index@[j]@ == 0);
        assert(p[j] == 0);
        if j < output {
            assert(0 * kernel.positive_powers@[output - j]@ == 0);
        } else if j > output {
            assert(0 * kernel.negative_powers@[j - output]@ == 0);
        }
    }
    lemma_sum_used(g, used, n);
    let f = cross_terms_of(p, kernel.entries(), output);
    assert(kernel.entries().len() == m);
    assert forall|j: int| 0 <= j < n implies #[trigger] g(j) == f(j) by {
        let wraps: int = if output >= j {
            0
        } else {
            1
        };
        vstd::arithmetic::div_mod::lemma_fundamental_div_mod_converse(
            output - j,
            m,
            -wraps,
            output - j + m * wraps,
        );
        if j == output {
            assert(p[j] * 0 == 0);
        }
    }
    lemma_sum_ext(g, f, 0, n);
}

/// The cross terms by direct pairings.
fn direct_cross_terms(kernel: &IndexedMiddleProductKernel, batch: &ValidatedBatch) -> (beta: Vec<
    GtElement,
>)
    requires
        kernel.wf(),
        batch.wf(),
        kernel.index_space == batch.index_space,
    ensures
        beta@.len() == batch.batch_size,
        forall|slot: int|
            0 <= slot < batch.batch_size ==> (#[trigger] beta@[slot])@ == beta_of(
                kernel,
                batch,
                slot,
            ),
{
    let mut beta: Vec<GtElement> = Vec::new();
    while beta.len() < batch.batch_size
        invariant
            kernel.wf(),
            batch.wf(),
            kernel.index_space == batch.index_space,
            beta@.len() <= batch.batch_size,
            forall|slot: int|
                0 <= slot < beta@.len() ==> (#[trigger] beta@[slot])@ == beta_of(
                    kernel,
                    batch,
                    slot,
                ),
        decreases batch.batch_size - beta@.len(),
    {
        let slot = beta.len();
        let ghost at = batch.valid_index_by_slot@[slot as int];
        match batch.valid_index_by_slot[slot] {
            Some(output) => {
                assert(at == Some(output));
                let ghost g = at_used(
                    direct_terms(kernel, batch, output as int),
                    batch.used_indices@,
                );
                let mut left: Vec<G1Point> = Vec::new();
                let mut right: Vec<G2Point> = Vec::new();
                let mut position: usize = 0;
                while position < batch.used_indices.len()
                    invariant
                        kernel.wf(),
                        batch.wf(),
                        kernel.index_space == batch.index_space,
                        output < batch.index_space,
                        position <= batch.used_indices@.len(),
                        left@.len() == right@.len(),
                        g == at_used(
                            direct_terms(kernel, batch, output as int),
                            batch.used_indices@,
                        ),
                        dot(views(left@), views(right@)) == sum(g, 0, position as int),
                    decreases batch.used_indices@.len() - position,
                {
                    let input = batch.used_indices[position];
                    let ghost (a, b) = (views(left@), views(right@));
                    assert(sum(g, 0, position + 1) == sum(g, 0, position as int) + g(
                        position as int,
                    ));
                    if input != output {
                        let power = if output > input {
                            kernel.positive_powers[output - input]
                        } else {
                            kernel.negative_powers[input - output]
                        };
                        left.push(batch.punctured_by_index[input].to_affine());
                        right.push(power);
                        proof {
                            let n = a.len() as int;
                            let f = products(views(left@), views(right@));
                            lemma_sum_ext(products(a, b), f, 0, n);
                            assert(sum(f, 0, n + 1) == sum(f, 0, n) + f(n));
                        }
                    }
                    position = position + 1;
                }
                proof {
                    lemma_direct(kernel, batch, output as int);
                }
                beta.push(multi_pairing(left.as_slice(), right.as_slice()));
            },
            None => {
                beta.push(GtElement::zero());
            },
        }
    }
    beta
}

/// Why opening is refused, where it is.
pub open spec fn opening_defect(
    precomputation: &DecryptionPrecomputation,
    accepted: &AcceptedDecryptionShares,
    batch: &ValidatedBatch,
    ciphertexts: Seq<Ciphertext>,
    cross: &BatchPrecomputation,
) -> Option<Error> {
    let parties = share_parties(accepted.shares@);
    if precomputation.setup_id@ != batch.setup_id@ || accepted.setup_id@ != batch.setup_id@
        || cross.setup_id@ != batch.setup_id@ || precomputation.index_space != batch.index_space
        || accepted.index_space != batch.index_space || cross.index_space != batch.index_space {
        Some(Error::MismatchedSetup)
    } else if accepted.batch_size != batch.batch_size || cross.batch_size != batch.batch_size
        || ciphertexts.len() != batch.batch_size {
        Some(
            Error::MismatchedBatchSize {
                expected: batch.batch_size,
                actual: ciphertexts.len() as usize,
            },
        )
    } else if accepted.digest@ != batch.digest@ || cross.digest@ != batch.digest@
        || batch_digest_of(ciphertexts) != batch.digest@ {
        Some(Error::MismatchedBatchDigest)
    } else if precomputation.context_id@ != committee_id_of(
        accepted.setup_id@,
        parties,
        accepted.used_indices@,
    ) || precomputation.party_indices@ != parties || precomputation.used_indices@
        != accepted.used_indices@ || accepted.used_indices@ != batch.used_indices@ {
        Some(Error::MismatchedCommittee)
    } else {
        None
    }
}

fn ensure_opening_bindings(
    precomputation: &DecryptionPrecomputation,
    accepted: &AcceptedDecryptionShares,
    batch: &ValidatedBatch,
    ciphertexts: &[Ciphertext],
    cross: &BatchPrecomputation,
) -> (result: Result<()>)
    ensures
        match result {
            Ok(()) => opening_defect(
                precomputation,
                accepted,
                batch,
                ciphertexts@,
                cross,
            ) is None,
            Err(error) => opening_defect(precomputation, accepted, batch, ciphertexts@, cross)
                == Some(error),
        },
{
    let setup_id = batch.setup_id.as_slice();
    if !bytes_equal(precomputation.setup_id.as_slice(), setup_id) || !bytes_equal(
        accepted.setup_id.as_slice(),
        setup_id,
    ) || !bytes_equal(cross.setup_id.as_slice(), setup_id) || precomputation.index_space
        != batch.index_space || accepted.index_space != batch.index_space || cross.index_space
        != batch.index_space {
        return Err(Error::MismatchedSetup);
    }
    if accepted.batch_size != batch.batch_size || cross.batch_size != batch.batch_size
        || ciphertexts.len() != batch.batch_size {
        return Err(
            Error::MismatchedBatchSize {
                expected: batch.batch_size,
                actual: ciphertexts.len(),
            },
        );
    }
    let ciphertexts_digest = batch_digest(ciphertexts);
    let batch_digest = batch.digest.as_slice();
    if !bytes_equal(accepted.digest.as_slice(), batch_digest) || !bytes_equal(
        cross.digest.as_slice(),
        batch_digest,
    ) || !bytes_equal(ciphertexts_digest.as_slice(), batch_digest) {
        return Err(Error::MismatchedBatchDigest);
    }
    let party_indices = accepted.party_indices();
    let expected_context = committee_context_id(
        accepted.setup_id,
        &party_indices,
        &accepted.used_indices,
    );
    if !bytes_equal(precomputation.context_id.as_slice(), expected_context.as_slice())
        || !numbers_equal(&precomputation.party_indices, &party_indices) || !numbers_equal(
        &precomputation.used_indices,
        &accepted.used_indices,
    ) || !numbers_equal(&accepted.used_indices, &batch.used_indices) {
        return Err(Error::MismatchedCommittee);
    }
    Ok(())
}

/// The logarithm of the pad that opening takes off a slot: the pairings of the
/// shares with their parties' opening keys, without the slot's cross term.
pub open spec fn pad_of(sigmas: Seq<int>, opening: Seq<int>, beta: int) -> int {
    (dot(sigmas, opening) - beta) % order()
}

/// Whether an outcome is that of opening a batch.
pub open spec fn is_opening(
    precomputation: &DecryptionPrecomputation,
    accepted: &AcceptedDecryptionShares,
    batch: &ValidatedBatch,
    ciphertexts: Seq<Ciphertext>,
    cross: &BatchPrecomputation,
    result: Result<Vec<Option<Vec<u8>>>>,
) -> bool {
    match result {
        Ok(opened) => {
            &&& opening_defect(precomputation, accepted, batch, ciphertexts, cross) is None
            &&& opened@.len() == batch.batch_size
            &&& forall|slot: int|
                0 <= slot < batch.batch_size ==> match #[trigger] opened@[slot] {
                    Some(message) => batch.valid@[slot] && message@ == masked(
                        pad_of(
                            share_sigmas(accepted.shares@),
                            precomputation.opening_logs(
                                batch.used_position_by_slot@[slot]->0 as int,
                            ),
                            cross.beta@[slot]@,
                        ),
                        batch.setup_id@,
                        ciphertexts[slot].index as int,
                        ciphertexts[slot].masked_message@,
                    ),
                    None => !batch.valid@[slot],
                }
        },
        Err(error) => opening_defect(precomputation, accepted, batch, ciphertexts, cross) == Some(
            error,
        ),
    }
}

/// Opens all valid slots of a batch.
pub fn open_batch(
    precomputation: &DecryptionPrecomputation,
    accepted: &AcceptedDecryptionShares,
    batch: &ValidatedBatch,
    ciphertexts: &[Ciphertext],
    cross: &BatchPrecomputation,
) -> (result: Result<Vec<Option<Vec<u8>>>>)
    requires
        precomputation.wf(),
        batch.wf(),
        cross.beta@.len() == cross.batch_size,
    ensures
        is_opening(precomputation, accepted, batch, ciphertexts@, cross, result),
{
    ensure_opening_bindings(precomputation, accepted, batch, ciphertexts, cross)?;
    let mut share_affine: Vec<G1Point> = Vec::new();
    while share_affine.len() < accepted.shares.len()
        invariant
            share_affine@.len() <= accepted.shares@.len(),
            forall|k: int|
                0 <= k < share_affine@.len() ==> (#[trigger] share_affine@[k])@
                    == accepted.shares@[k].sigma@,
        decreases accepted.shares@.len() - share_affine@.len(),
    {
        share_affine.push(accepted.shares[share_affine.len()].sigma);
    }
    assert(views(share_affine@) =~= share_sigmas(accepted.shares@));
    let party_count = share_affine.len();
    assert(share_parties(accepted.shares@).len() == accepted.shares@.len());
    let mut opened: Vec<Option<Vec<u8>>> = Vec::new();
    while opened.len() < batch.batch_size
        invariant
            precomputation.wf(),
            batch.wf(),
            batch.batch_size == ciphertexts@.len() == cross.beta@.len(),
            precomputation.used_indices@ == batch.used_indices@,
            party_count == share_affine@.len() == precomputation.party_indices@.len(),
            views(share_affine@) == share_sigmas(accepted.shares@),
            opened@.len() <= batch.batch_size,
            forall|slot: int|
                0 <= slot < opened@.len() ==> match #[trigger] opened@[slot] {
                    Some(message) => batch.valid@[slot] && message@ == masked(
                        pad_of(
                            share_sigmas(accepted.shares@),
                            precomputation.opening_logs(
                                batch.used_position_by_slot@[slot]->0 as int,
                            ),
                            cross.beta@[slot]@,
                        ),
                        batch.setup_id@,
                        ciphertexts@[slot].index as int,
                        ciphertexts@[slot].masked_message@,
                    ),
                    None => !batch.valid@[slot],
                },
        decreases batch.batch_size - opened@.len(),
    {
        let slot = opened.len();
        let ghost place = batch.used_position_by_slot@[slot as int];
        if batch.valid[slot] {
            assert(place is Some);
            let row = match batch.used_position_by_slot[slot] {
                Some(row) => row,
                None => 0,
            };
            assert(place == Some(row));
            let keys = opening_row_keys(precomputation, row);
            let alpha = multi_pairing(share_affine.as_slice(), keys.as_slice());
            let pad = alpha.minus(cross.beta[slot]);
            proof {
                let d = dot(views(share_affine@), views(keys@));
                let beta = cross.beta@[slot as int]@;
                lemma_reduce(d);
                lemma_cong_sub(alpha@, d, beta, beta);
            }
            let message = xor_with_mask(
                &pad,
                batch.setup_id,
                ciphertexts[slot].index,
                ciphertexts[slot].masked_message.as_slice(),
            );
            opened.push(Some(message));
        } else {
            opened.push(None);
        }
    }
    Ok(opened)
}

/// The opening keys of a used index.
fn opening_row_keys(precomputation: &DecryptionPrecomputation, row: usize) -> (keys: Vec<G2Point>)
    requires
        precomputation.wf(),
        row < precomputation.used_indices@.len(),
    ensures
        keys@.len() == precomputation.party_indices@.len(),
        views(keys@) == precomputation.opening_logs(row as int),
{
    let width = precomputation.party_indices.len();
    let mut keys: Vec<G2Point> = Vec::new();
    if width > 0 {
        proof {
            lemma_cell(
                width as int,
                precomputation.used_indices@.len() as int,
                row as int,
                0,
            );
        }
        let bound = precomputation.opening_keys.len();
        let start: usize = row * width;
        while keys.len() < width
            invariant
                width == precomputation.party_indices@.len(),
                start == row * width,
                start + width <= precomputation.opening_keys@.len() == bound,
                keys@.len() <= width,
                forall|p: int|
                    0 <= p < keys@.len() ==> (#[trigger] keys@[p])@ == precomputation.opening_logs(
                        row as int,
                    )[p],
            decreases width - keys@.len(),
        {
            keys.push(precomputation.opening_keys[start + keys.len()]);
        }
    }
    assert(views(keys@) =~= precomputation.opening_logs(row as int));
    keys
}

/// Whether an outcome is that of all phases, one after the other.
pub open spec fn is_decryption(
    parameters: &PublicParameters,
    public_key: &MasterPublicKey,
    ciphertexts: Seq<Ciphertext>,
    shares: Seq<DecryptionShare>,
    result: Result<Vec<Option<Vec<u8>>>>,
) -> bool {
    exists|validation: Result<ValidatedBatch>|
        #[trigger] is_validation(public_key, ciphertexts, validation) && match validation {
            Err(error) => result == Err::<Vec<Option<Vec<u8>>>, Error>(error),
            Ok(batch) => is_decryption_of_batch(
                parameters,
                public_key,
                &batch,
                ciphertexts,
                shares,
                result,
            ),
        }
}

pub open spec fn is_decryption_of_batch(
    parameters: &PublicParameters,
    public_key: &MasterPublicKey,
    batch: &ValidatedBatch,
    ciphertexts: Seq<Ciphertext>,
    shares: Seq<DecryptionShare>,
    result: Result<Vec<Option<Vec<u8>>>>,
) -> bool {
    exists|acceptance: Result<AcceptedDecryptionShares>|
        #[trigger] is_acceptance(public_key, batch, shares, acceptance) && match acceptance {
            Err(error) => result == Err::<Vec<Option<Vec<u8>>>, Error>(error),
            Ok(accepted) => if parameters.crs_id@ != public_key.crs_id@ {
                result == Err::<Vec<Option<Vec<u8>>>, Error>(Error::MismatchedSetup)
            } else if !has_domain(2 * parameters.index_space_size) {
                result matches Err(Error::InvalidBatchSize(size)) && is_transform_error(
                    parameters.index_space_size as int,
                    size as int,
                )
            } else {
                is_finish(parameters, public_key, &accepted, batch, ciphertexts, result)
            },
        }
}

/// Whether an outcome is that of the phases after acceptance.
pub open spec fn is_finish(
    parameters: &PublicParameters,
    public_key: &MasterPublicKey,
    accepted: &AcceptedDecryptionShares,
    batch: &ValidatedBatch,
    ciphertexts: Seq<Ciphertext>,
    result: Result<Vec<Option<Vec<u8>>>>,
) -> bool {
    exists|preparation: Result<DecryptionPrecomputation>|
        #[trigger] is_preparation(public_key, accepted, preparation) && match preparation {
            Err(error) => result == Err::<Vec<Option<Vec<u8>>>, Error>(error),
            Ok(fixed) => if parameters.index_space_size != batch.index_space {
                result == Err::<Vec<Option<Vec<u8>>>, Error>(Error::MismatchedSetup)
            } else {
                exists|kernel: IndexedMiddleProductKernel, cross: BatchPrecomputation| #[trigger]
                    is_crossed(
                        parameters,
                        &fixed,
                        accepted,
                        batch,
                        ciphertexts,
                        result,
                        &kernel,
                        &cross,
                    )
            },
        }
}

/// Whether an outcome is that of opening with the batch's cross terms.
pub open spec fn is_crossed(
    parameters: &PublicParameters,
    fixed: &DecryptionPrecomputation,
    accepted: &AcceptedDecryptionShares,
    batch: &ValidatedBatch,
    ciphertexts: Seq<Ciphertext>,
    result: Result<Vec<Option<Vec<u8>>>>,
    kernel: &IndexedMiddleProductKernel,
    cross: &BatchPrecomputation,
) -> bool {
    &&& kernel.is_kernel_of(parameters)
    &&& cross.setup_id@ == batch.setup_id@
    &&& cross.index_space == batch.index_space
    &&& cross.batch_size == batch.batch_size
    &&& cross.digest@ == batch.digest@
    &&& are_cross_terms(kernel, batch, cross)
    &&& is_opening(fixed, accepted, batch, ciphertexts, cross, result)
}

/// Whether the cross terms are those of a kernel and a batch.
pub open spec fn are_cross_terms(
    kernel: &IndexedMiddleProductKernel,
    batch: &ValidatedBatch,
    cross: &BatchPrecomputation,
) -> bool {
    cross.beta@.len() == batch.batch_size && forall|slot: int|
        0 <= slot < batch.batch_size ==> (#[trigger] cross.beta@[slot])@ == beta_of(
            kernel,
            batch,
            slot,
        )
}

/// All phases, one after the other.
pub fn decrypt(
    parameters: &PublicParameters,
    public_key: &MasterPublicKey,
    ciphertexts: &[Ciphertext],
    shares: &[DecryptionShare],
) -> (result: Result<Vec<Option<Vec<u8>>>>)
    requires
        parameters.wf(),
        public_key.wf(),
    ensures
        is_decryption(parameters, public_key, ciphertexts@, shares@, result),
{
    let validation = validate_batch(public_key, ciphertexts);
    let ghost validation_spec = validation;
    assert(is_validation(public_key, ciphertexts@, validation_spec));
    let batch = match validation {
        Ok(batch) => batch,
        Err(error) => {
            return Err(error);
        },
    };
    let result = decrypt_batch(parameters, public_key, &batch, ciphertexts, shares);
    result
}

fn decrypt_batch(
    parameters: &PublicParameters,
    public_key: &MasterPublicKey,
    batch: &ValidatedBatch,
    ciphertexts: &[Ciphertext],
    shares: &[DecryptionShare],
) -> (result: Result<Vec<Option<Vec<u8>>>>)
    requires
        parameters.wf(),
        public_key.wf(),
        batch.is_batch_of(public_key, ciphertexts@),
    ensures
        is_decryption_of_batch(
            parameters,
            public_key,
            batch,
            ciphertexts@,
            shares@,
            result,
        ),
{
    let acceptance = accept_decryption_shares(public_key, batch, shares);
    let ghost acceptance_spec = acceptance;
    assert(is_acceptance(public_key, batch, shares@, acceptance_spec));
    let accepted = match acceptance {
        Ok(accepted) => accepted,
        Err(error) => {
            return Err(error);
        },
    };
    if !bytes_equal(parameters.crs_id.as_slice(), public_key.crs_id.as_slice()) {
        return Err(Error::MismatchedSetup);
    }
    let kernel = match IndexedMiddleProductKernel::new(parameters) {
        Ok(kernel) => kernel,
        Err(error) => {
            proof {
                assert(error matches Error::InvalidBatchSize(size) && is_transform_error(
                    parameters.index_space_size as int,
                    size as int,
                ));
            }
            return Err(error);
        },
    };
    let result = finish(parameters, public_key, &kernel, &accepted, batch, ciphertexts);
    result
}

fn finish(
    parameters: &PublicParameters,
    public_key: &MasterPublicKey,
    kernel: &IndexedMiddleProductKernel,
    accepted: &AcceptedDecryptionShares,
    batch: &ValidatedBatch,
    ciphertexts: &[Ciphertext],
) -> (result: Result<Vec<Option<Vec<u8>>>>)
    requires
        public_key.wf(),
        kernel.is_kernel_of(parameters),
        parameters.crs_id@ == public_key.crs_id@,
        batch.is_batch_of(public_key, ciphertexts@),
    ensures
        is_finish(parameters, public_key, accepted, batch, ciphertexts@, result),
{
    let preparation = prepare_decryption(public_key, accepted);
    let ghost preparation_spec = preparation;
    assert(is_preparation(public_key, accepted, preparation_spec));
    let fixed = match preparation {
        Ok(fixed) => fixed,
        Err(error) => {
            return Err(error);
        },
    };
    let cross = match precompute_batch(kernel, batch) {
        Ok(cross) => cross,
        Err(error) => {
            return Err(error);
        },
    };
    let result = open_batch(&fixed, accepted, batch, ciphertexts, &cross);
    proof {
        assert(are_cross_terms(kernel, batch, &cross));
        assert(is_crossed(
            parameters,
            &fixed,
            accepted,
            batch,
            ciphertexts@,
            result,
            kernel,
            &cross,
        ));
    }
    result
}

/// The nonce of a party's response is the one scalar that the source drew. A party fails to
/// respond to a batch of its setup only where a transcript has no challenge.
pub proof fn law_response_follows_its_draw(
    party_key: &PartySecretKey,
    batch: &ValidatedBatch,
    draws: Seq<int>,
    result: Result<DecryptionShare>,
)
    requires
        is_drawn_response(party_key, batch, draws, result),
    ensures
        draws.len() == 1,
        match result {
            Ok(share) => {
                &&& party_key.setup_id@ == batch.setup_id@
                &&& share.sigma@ == (batch.aggregate_first@ * party_key.inverse_scalar@) % order()
                &&& share.proof.response@ == (draws[0] + share.proof.challenge@
                    * party_key.inverse_scalar@) % order()
            },
            Err(error) => if party_key.setup_id@ != batch.setup_id@ {
                error == Error::MismatchedSetup
            } else {
                error == Error::SamplingFailed && exists|transcript: Seq<u8>|
                    #![trigger challenge(transcript)]
                    forall|counter: int|
                        0 <= counter < 0x1_0000_0000 ==> le_value(
                            sha256(transcript + #[trigger] le_bytes(counter, 4)),
                        ) >= order()
            },
        },
{
    if result is Err && party_key.setup_id@ == batch.setup_id@ {
        let transcript = transcript(
            ProofPurpose::Server,
            batch.setup_id@,
            server_context_of(batch.digest@, party_key.party_index as int),
            (Statement {
                first_base: 1,
                first_target: party_key.public_inverse@,
                second_base: batch.aggregate_first@,
                second_target: (batch.aggregate_first@ * party_key.inverse_scalar@) % order(),
            }),
            draws[0],
            (batch.aggregate_first@ * draws[0]) % order(),
        );
        law_challenge_is_a_digest(transcript);
        assert(challenge(transcript) is None);
    }
}

/// The encodings of a batch, one after the other.
proof fn lemma_canonical_flat(ciphertexts: Seq<Ciphertext>)
    ensures
        canonical_all(ciphertexts) == ciphertexts.map_values(
            |c: Ciphertext| c.canonical(),
        ).flatten(),
    decreases ciphertexts.len(),
{
    let f = |c: Ciphertext| c.canonical();
    let items = ciphertexts.map_values(f);
    if ciphertexts.len() > 0 {
        lemma_canonical_flat(ciphertexts.drop_last());
        let rest = ciphertexts.drop_last().map_values(f);
        assert(items =~= rest.push(f(ciphertexts.last())));
        rest.lemma_flatten_push(f(ciphertexts.last()));
    } else {
        assert(items.flatten() =~= Seq::<u8>::empty());
    }
}

/// The identifier of a batch is the digest of its name, its length and the encodings of its
/// ciphertexts in their order.
pub proof fn law_batch_digest(ciphertexts: Seq<Ciphertext>)
    ensures
        batch_digest_of(ciphertexts) == sha256(
            "WEIGHTED-INDEXED-BTE-BATCH-v1".spec_bytes() + le_bytes(ciphertexts.len() as int, 8)
                + ciphertexts.map_values(
                |c: Ciphertext| g1_compressed(c.first@) + g1_compressed(c.punctured@)
                    + le_bytes(c.index as int, 8)
                    + le_bytes(c.masked_message@.len() as int, 8) + c.masked_message@ + (le_bytes(
                    c.proof.challenge@,
                    32,
                ) + le_bytes(c.proof.response@, 32)),
            ).flatten(),
        ),
{
    lemma_canonical_flat(ciphertexts);
    assert(ciphertexts.map_values(|c: Ciphertext| c.canonical()) =~= ciphertexts.map_values(
        |c: Ciphertext| g1_compressed(c.first@) + g1_compressed(c.punctured@)
            + le_bytes(c.index as int, 8)
                    + le_bytes(c.masked_message@.len() as int, 8) + c.masked_message@ + (le_bytes(
                    c.proof.challenge@,
                    32,
                ) + le_bytes(c.proof.response@, 32)),
    ));
}

/// The identifier of a batch is the digest of some string, and that string determines the
/// batch: two batches are identified by the digest of the same string only where they are as
/// long and their ciphertexts, in their order, have the same components.
pub proof fn law_batch_digest_is_bound(a: Seq<Ciphertext>, b: Seq<Ciphertext>)
    requires
        a.len() < 0x1_0000_0000_0000_0000,
        b.len() < 0x1_0000_0000_0000_0000,
        forall|i: int| 0 <= i < a.len() ==> (#[trigger] a[i]).is_sized(),
        forall|i: int| 0 <= i < b.len() ==> (#[trigger] b[i]).is_sized(),
    ensures
        exists|s: Seq<u8>, t: Seq<u8>|
            {
                &&& batch_digest_of(a) == #[trigger] sha256(s)
                &&& batch_digest_of(b) == #[trigger] sha256(t)
                &&& s == t ==> a.len() == b.len() && forall|i: int|
                    #![trigger a[i]]
                    #![trigger b[i]]
                    0 <= i < a.len() ==> {
                            &&& g1_compressed(a[i].first@) == g1_compressed(b[i].first@)
                            &&& g1_compressed(a[i].punctured@) == g1_compressed(b[i].punctured@)
                            &&& a[i].index == b[i].index
                            &&& a[i].masked_message@ == b[i].masked_message@
                            &&& a[i].proof.challenge@ == b[i].proof.challenge@
                            &&& a[i].proof.response@ == b[i].proof.response@
                    }
            },
{
    let tag = "WEIGHTED-INDEXED-BTE-BATCH-v1".spec_bytes();
    let (la, lb) = (le_bytes(a.len() as int, 8), le_bytes(b.len() as int, 8));
    let s = tag + la + canonical_all(a);
    let t = tag + lb + canonical_all(b);
    if s == t {
        lemma_le_digits(a.len() as int, 8);
        lemma_le_digits(b.len() as int, 8);
        lemma_same_parts(tag + la, canonical_all(a), tag + lb, canonical_all(b));
        lemma_same_parts(tag, la, tag, lb);
        lemma_same_digits(a.len() as int, b.len() as int);
        lemma_canonical_flat(a);
        lemma_canonical_flat(b);
        let f = |c: Ciphertext| c.canonical();
        let (u, v) = (a.map_values(f), b.map_values(f));
        assert forall|i: int, x: Seq<u8>, y: Seq<u8>|
            0 <= i < u.len() && #[trigger] (u[i] + x) == #[trigger] (v[i]
                + y) implies u[i].len() == v[i].len() by {
            a[i].lemma_same_canonical(x, b[i], y);
        }
        lemma_same_items(u, v);
        assert forall|i: int|
            #![trigger a[i]]
            #![trigger b[i]]
            0 <= i < a.len() implies {
                &&& g1_compressed(a[i].first@) == g1_compressed(b[i].first@)
                &&& g1_compressed(a[i].punctured@) == g1_compressed(b[i].punctured@)
                &&& a[i].index == b[i].index
                &&& a[i].masked_message@ == b[i].masked_message@
                &&& a[i].proof.challenge@ == b[i].proof.challenge@
                &&& a[i].proof.response@ == b[i].proof.response@
            } by {
            assert(u[i] == v[i]);
            a[i].lemma_same_canonical(Seq::empty(), b[i], Seq::empty());
        }
    }
    assert(batch_digest_of(a) == sha256(s));
    assert(batch_digest_of(b) == sha256(t));
}

/// What the proof of a response is about determines the batch and the party.
pub proof fn law_server_context_is_bound(
    digest_a: Seq<u8>,
    party_a: int,
    digest_b: Seq<u8>,
    party_b: int,
)
    requires
        0 <= party_a < 0x1_0000_0000_0000_0000,
        0 <= party_b < 0x1_0000_0000_0000_0000,
    ensures
        server_context_of(digest_a, party_a) == server_context_of(digest_b, party_b) ==> digest_a
            == digest_b && party_a == party_b,
        server_context_of(digest_a, party_a)
            == "WEIGHTED-INDEXED-BTE-SERVER-CONTEXT-v1".spec_bytes() + digest_a + le_bytes(
            party_a,
            8,
        ),
{
    let tag = "WEIGHTED-INDEXED-BTE-SERVER-CONTEXT-v1".spec_bytes();
    if server_context_of(digest_a, party_a) == server_context_of(digest_b, party_b) {
        lemma_le_digits(party_a, 8);
        lemma_le_digits(party_b, 8);
        lemma_same_parts(tag + digest_a, le_bytes(party_a, 8), tag
            + digest_b, le_bytes(party_b, 8));
        lemma_same_digits(party_a, party_b);
        lemma_same_parts(tag, digest_a, tag, digest_b);
    }
}

/// The identifier of a committee and the used indices is the digest of some string, and that
/// string determines the setup, the parties and the indices.
pub proof fn law_committee_id_is_bound(
    setup_a: Seq<u8>,
    parties_a: Seq<usize>,
    used_a: Seq<usize>,
    setup_b: Seq<u8>,
    parties_b: Seq<usize>,
    used_b: Seq<usize>,
)
    requires
        setup_a.len() == setup_b.len(),
        parties_a.len() < 0x1_0000_0000_0000_0000,
        parties_b.len() < 0x1_0000_0000_0000_0000,
        used_a.len() < 0x1_0000_0000_0000_0000,
        used_b.len() < 0x1_0000_0000_0000_0000,
    ensures
        exists|s: Seq<u8>, t: Seq<u8>|
            {
                &&& committee_id_of(setup_a, parties_a, used_a) == #[trigger] sha256(s)
                &&& committee_id_of(setup_b, parties_b, used_b) == #[trigger] sha256(t)
                &&& s == t ==> setup_a == setup_b && parties_a == parties_b && used_a == used_b
                &&& s == "WEIGHTED-INDEXED-BTE-COMMITTEE-v1".spec_bytes() + setup_a + le_bytes(
                    parties_a.len() as int,
                    8,
                ) + numbers_encoding(parties_a) + le_bytes(used_a.len() as int, 8)
                    + numbers_encoding(used_a)
            },
{
    let tag = "WEIGHTED-INDEXED-BTE-COMMITTEE-v1".spec_bytes();
    let (na, nb) = (le_bytes(parties_a.len() as int, 8), le_bytes(parties_b.len() as int, 8));
    let (ma, mb) = (le_bytes(used_a.len() as int, 8), le_bytes(used_b.len() as int, 8));
    let (pa, pb) = (numbers_encoding(parties_a), numbers_encoding(parties_b));
    let (ua, ub) = (numbers_encoding(used_a), numbers_encoding(used_b));
    let s = tag + setup_a + na + pa + ma + ua;
    let t = tag + setup_b + nb + pb + mb + ub;
    if s == t {
        lemma_le_digits(parties_a.len() as int, 8);
        lemma_le_digits(parties_b.len() as int, 8);
        lemma_le_digits(used_a.len() as int, 8);
        lemma_le_digits(used_b.len() as int, 8);
        law_numbers_encoding(parties_a, parties_b);
        law_numbers_encoding(parties_b, parties_a);
        law_numbers_encoding(used_a, used_b);
        assert(s =~= (tag + setup_a + na) + (pa + (ma + ua)));
        assert(t =~= (tag + setup_b + nb) + (pb + (mb + ub)));
        lemma_same_parts(tag + setup_a + na, pa + (ma + ua), tag + setup_b + nb, pb + (mb + ub));
        lemma_same_parts(tag + setup_a, na, tag + setup_b, nb);
        lemma_same_parts(tag, setup_a, tag, setup_b);
        lemma_same_digits(parties_a.len() as int, parties_b.len() as int);
        lemma_same_parts(pa, ma + ua, pb, mb + ub);
        lemma_same_parts(ma, ua, mb, ub);
    }
    assert(committee_id_of(setup_a, parties_a, used_a) == sha256(s));
    assert(committee_id_of(setup_b, parties_b, used_b) == sha256(t));
}

/// A list of shares is refused at the first that no party of the committee has given, or whose
/// party has given one before it; where there is none, it is not refused.
pub proof fn law_first_share_that_is_refused(
    party_count: int,
    shares: Seq<DecryptionShare>,
    from: int,
)
    requires
        0 <= from <= shares.len(),
    ensures
        match first_defect(party_count, shares, from) {
            None => forall|i: int|
                #![trigger shares[i]]
                from <= i < shares.len() ==> {
                    &&& shares[i].party_index < party_count
                    &&& forall|j: int|
                        0 <= j < i ==> (#[trigger] shares[j]).party_index != shares[i].party_index
                },
            Some(error) => exists|i: int|
                #![trigger shares[i]]
                {
                    let index = shares[i].party_index;
                    &&& from <= i < shares.len()
                    &&& first_defect(party_count, shares.take(i), from) is None
                    &&& if index >= party_count {
                        error == Error::InvalidPartyIndex(index)
                    } else {
                        &&& error == Error::DuplicatePartyIndex(index)
                        &&& exists|j: int|
                            0 <= j < i && (#[trigger] shares[j]).party_index == index
                    }
                },
        },
    decreases shares.len() - from,
{
    if from < shares.len() {
        match share_defect(party_count, shares, from) {
            Some(error) => {
                assert(first_defect(party_count, shares.take(from), from) is None);
                assert(shares[from].party_index == shares[from].party_index);
            },
            None => {
                law_first_share_that_is_refused(party_count, shares, from + 1);
                match first_defect(party_count, shares, from + 1) {
                    Some(error) => {
                        let i = choose|i: int|
                            #![trigger shares[i]]
                            {
                                let index = shares[i].party_index;
                                &&& from + 1 <= i < shares.len()
                                &&& first_defect(party_count, shares.take(i), from + 1) is None
                                &&& if index >= party_count {
                                    error == Error::InvalidPartyIndex(index)
                                } else {
                                    &&& error == Error::DuplicatePartyIndex(index)
                                    &&& exists|j: int|
                                        0 <= j < i && (#[trigger] shares[j]).party_index == index
                                }
                            };
                        let before = shares.take(i);
                        assert(before[from] == shares[from]);
                        assert forall|j: int| 0 <= j < from implies #[trigger] before[j]
                            == shares[j] by {}
                        assert(share_defect(party_count, before, from) is None);
                        assert(first_defect(party_count, before, from) is None);
                    },
                    None => {},
                }
            },
        }
    }
}

/// A batch has at least one ciphertext and no more than there are indices.
pub proof fn law_accepted_batch_size(index_space: usize, batch_size: int)
    requires
        0 <= batch_size,
    ensures
        batch_size_defect(index_space, batch_size) is None <==> 1 <= batch_size <= index_space,
        batch_size_defect(index_space, batch_size) matches Some(error) ==> error == if batch_size
            == 0 {
            Error::BatchIsEmpty
        } else {
            Error::BatchTooLarge {
                batch_size: batch_size as usize,
                max_batch_size: index_space,
            }
        },
{
}

/// Shares are considered where the batch is one of the key's setup and index space, there are
/// no more than parties, and they are from different parties of the committee, and only there.
pub proof fn law_considered_shares(
    public_key: &MasterPublicKey,
    batch: &ValidatedBatch,
    shares: Seq<DecryptionShare>,
)
    ensures
        shares_defect(public_key, batch, shares) is None <==> {
            &&& batch.setup_id@ == public_key.setup_id@
            &&& batch.index_space == public_key.index_space_size
            &&& shares.len() <= public_key.party_weights@.len()
            &&& forall|i: int|
                #![trigger shares[i]]
                0 <= i < shares.len() ==> {
                    &&& shares[i].party_index < public_key.party_weights@.len()
                    &&& forall|j: int|
                        0 <= j < i ==> (#[trigger] shares[j]).party_index != shares[i].party_index
                }
        },
{
    law_first_share_that_is_refused(public_key.party_weights@.len() as int, shares, 0);
}

/// A batch is opened where everything is of its setup, its index space, its size and its
/// digest, and the accepted shares and used indices are those that were prepared for: nothing
/// else is refused.
pub proof fn law_accepted_opening(
    precomputation: &DecryptionPrecomputation,
    accepted: &AcceptedDecryptionShares,
    batch: &ValidatedBatch,
    ciphertexts: Seq<Ciphertext>,
    cross: &BatchPrecomputation,
)
    ensures
        opening_defect(precomputation, accepted, batch, ciphertexts, cross) is None <==> {
            let parties = Seq::new(
                accepted.shares@.len(),
                |k: int| accepted.shares@[k].party_index,
            );
            &&& precomputation.setup_id@ == batch.setup_id@
            &&& accepted.setup_id@ == batch.setup_id@
            &&& cross.setup_id@ == batch.setup_id@
            &&& precomputation.index_space == batch.index_space
            &&& accepted.index_space == batch.index_space
            &&& cross.index_space == batch.index_space
            &&& accepted.batch_size == batch.batch_size
            &&& cross.batch_size == batch.batch_size
            &&& ciphertexts.len() == batch.batch_size
            &&& accepted.digest@ == batch.digest@
            &&& cross.digest@ == batch.digest@
            &&& batch_digest_of(ciphertexts) == batch.digest@
            &&& precomputation.context_id@ == committee_id_of(
                batch.setup_id@,
                parties,
                batch.used_indices@,
            )
            &&& precomputation.party_indices@ == parties
            &&& precomputation.used_indices@ == batch.used_indices@
            &&& accepted.used_indices@ == batch.used_indices@
        },
{
    assert(share_parties(accepted.shares@) =~= Seq::new(
        accepted.shares@.len(),
        |k: int| accepted.shares@[k].party_index,
    ));
}

/// Shares that are not considered have the fault that they are refused for.
pub proof fn law_refused_shares(
    public_key: &MasterPublicKey,
    batch: &ValidatedBatch,
    shares: Seq<DecryptionShare>,
)
    ensures
        ({
            let parties = public_key.party_weights@.len();
            match shares_defect(public_key, batch, shares) {
                None => true,
                Some(Error::MismatchedSetup) => batch.setup_id@ != public_key.setup_id@
                    || batch.index_space != public_key.index_space_size,
                Some(Error::TooManyShares { supplied, party_count }) => shares.len() > parties
                    && supplied == shares.len() as usize && party_count == parties as usize,
                Some(Error::InvalidPartyIndex(index)) => index >= parties && exists|i: int|
                    0 <= i < shares.len() && (#[trigger] shares[i]).party_index == index,
                Some(Error::DuplicatePartyIndex(index)) => exists|i: int, j: int|
                    0 <= i < j < shares.len() && (#[trigger] shares[i]).party_index == index && (
                    #[trigger] shares[j]).party_index == index,
                Some(_) => false,
            }
        }),
{
    law_first_share_that_is_refused(public_key.party_weights@.len() as int, shares, 0);
}

/// An opening that is refused has the fault that it is refused for.
pub proof fn law_refused_opening(
    precomputation: &DecryptionPrecomputation,
    accepted: &AcceptedDecryptionShares,
    batch: &ValidatedBatch,
    ciphertexts: Seq<Ciphertext>,
    cross: &BatchPrecomputation,
)
    requires
        ciphertexts.len() <= usize::MAX,
    ensures
        match opening_defect(precomputation, accepted, batch, ciphertexts, cross) {
            None => true,
            Some(Error::MismatchedSetup) => {
                ||| precomputation.setup_id@ != batch.setup_id@
                ||| accepted.setup_id@ != batch.setup_id@
                ||| cross.setup_id@ != batch.setup_id@
                ||| precomputation.index_space != batch.index_space
                ||| accepted.index_space != batch.index_space
                ||| cross.index_space != batch.index_space
            },
            Some(Error::MismatchedBatchSize { expected, actual }) => {
                &&& expected == batch.batch_size
                &&& actual == ciphertexts.len()
                &&& accepted.batch_size != expected || cross.batch_size != expected || actual
                    != expected
            },
            Some(Error::MismatchedBatchDigest) => accepted.digest@ != batch.digest@ || cross.digest@
                != batch.digest@ || batch_digest_of(ciphertexts) != batch.digest@,
            Some(Error::MismatchedCommittee) => {
                let parties = share_parties(accepted.shares@);
                ||| precomputation.context_id@ != committee_id_of(
                    accepted.setup_id@,
                    parties,
                    accepted.used_indices@,
                )
                ||| precomputation.party_indices@ != parties
                ||| precomputation.used_indices@ != accepted.used_indices@
                ||| accepted.used_indices@ != batch.used_indices@
            },
            Some(_) => false,
        },
{
}

/// A share is judged where the batch is one of the key's setup and index space and its party is
/// one of the committee.
pub proof fn law_judged_shares(
    public_key: &MasterPublicKey,
    batch: &ValidatedBatch,
    share: DecryptionShare,
)
    ensures
        match share_check(public_key, batch, share) {
            Ok(_) => {
                &&& batch.setup_id@ == public_key.setup_id@
                &&& batch.index_space == public_key.index_space_size
                &&& share.party_index < public_key.party_weights@.len()
            },
            Err(Error::MismatchedSetup) => batch.setup_id@ != public_key.setup_id@
                || batch.index_space != public_key.index_space_size,
            Err(Error::InvalidPartyIndex(index)) => index == share.party_index && index
                >= public_key.party_weights@.len(),
            Err(_) => false,
        },
{
}

} // verus!
