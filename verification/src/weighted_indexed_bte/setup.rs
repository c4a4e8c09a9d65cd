//! Universal powers, and weighted trusted-dealer key generation.
use vstd::arithmetic::power::pow;
use vstd::arithmetic::power2::pow2;
use vstd::layout::size_of;
use vstd::prelude::*;
use vstd::string::StringSliceAdditionalSpecFns;

use crate::algebra::lagrange::eval;
use crate::algebra::residue::{
    cong, inv, is_unit, lemma_cong_mul, lemma_inv, lemma_inv_unique, lemma_one, lemma_reduce,
    lemma_reduced, order,
};
use crate::bytes::{
    append, append_u64, le_bytes, lemma_le_digits, lemma_same_digits, lemma_same_parts,
};
use crate::curve::{
    g1_compressed, g2_compressed, views, Element, Fr, G1Point, G2Point, ScalarRng, SystemRng, G1,
    G2,
};
use crate::encoding::{
    append_g1, append_g2, append_numbers, append_scalars, g1_encoding, g2_encoding, is_g1_sized,
    is_g2_sized, law_g1_encoding, law_g2_encoding, law_numbers_encoding, law_scalars_encoding,
    numbers_encoding, scalars_encoding,
};
use crate::fft::{is_domain_size, size_root, Radix2Domain};
use crate::hash::{digest, sha256};
use crate::interpolation::root_points;
use crate::numbers::copy_numbers;
use crate::points::{
    batch_normalize_g1, batch_normalize_g2, power_range, powers_of, scalars_to_g1, scalars_to_g2,
    slice_of,
};
use crate::sampling::{
    are_nonzero_draws, draw_nonzero, drawn_since, is_nonzero_draw, kept, law_nonzero_draws,
    law_only_zeros_exhaust_a_source, lemma_drawn_since_start, sample_nonzero,
};
use crate::weighted::{
    are_offsets, cell, evaluation_points, find_zero, first_zero, has_domain, is_share_domain,
    is_table, law_first_zero, law_has_domain, lemma_cell, lemma_offset_order, lemma_offset_step,
    lemma_owner, lemma_table_push, lemma_total_positive, offset, owner, owners_from_offsets,
    prefix_offsets, share_domain, share_evaluations, share_values, total, total_weight,
};
use crate::weighted_indexed_bte::error::{Error, Result};

verus! {

/// Powers of a secret, for an index space of `n`: `1..=n` in the first source
/// group, and `1..=2 n + 1` without `n + 1` in the second.
#[derive(Clone, Debug)]
pub struct PublicParameters {
    pub crs_id: [u8; 32],
    pub index_space_size: usize,
    pub g_powers: Vec<G1Point>,
    pub h_powers: Vec<G2Point>,
}

/// The public key of one weighted committee.
#[derive(Clone, Debug)]
pub struct MasterPublicKey {
    pub setup_id: [u8; 32],
    pub crs_id: [u8; 32],
    pub index_space_size: usize,
    pub threshold_weight: usize,
    pub total_weight: usize,
    pub domain_size: usize,
    pub party_weights: Vec<usize>,
    /// Where the virtual shares of every party begin, and the total weight.
    pub party_offsets: Vec<usize>,
    /// The first `total_weight` points of a domain of roots of unity.
    pub evaluation_domain: Vec<Fr>,
    /// The powers of the first source group times the master secret.
    pub deltas: Vec<G1Point>,
    /// The inverses of the parties' masking scalars.
    pub inverse_public_keys: Vec<G1Point>,
    /// A table with one row for every index, which holds the virtual shares.
    pub gamma: Vec<G2Point>,
}

/// The secret of one party: the inverse of its masking scalar.
#[derive(Clone, Copy, Debug)]
pub struct PartySecretKey {
    pub party_index: usize,
    pub setup_id: [u8; 32],
    pub inverse_scalar: Fr,
    pub public_inverse: G1Point,
}

#[derive(Clone, Debug)]
pub struct KeyMaterial {
    pub public_key: MasterPublicKey,
    pub party_keys: Vec<PartySecretKey>,
}

#[derive(Clone, Debug)]
pub struct KeygenConfig {
    pub party_weights: Vec<usize>,
    /// A set of parties is authorized when its total weight is greater than this.
    pub threshold_weight: usize,
}

impl KeygenConfig {
    pub fn new(party_weights: &[usize], threshold_weight: usize) -> (config: Self)
        ensures
            config.party_weights@ == party_weights@,
            config.threshold_weight == threshold_weight,
    {
        KeygenConfig {
            party_weights: copy_numbers(party_weights),
            threshold_weight,
        }
    }
}

/// Whether so many items of a size can be addressed.
pub open spec fn is_addressable(count: int, item_size: int) -> bool {
    count * item_size <= isize::MAX
}

fn checked_allocation(count: usize, item_size: usize) -> (result: Result<()>)
    ensures
        match result {
            Ok(()) => is_addressable(count as int, item_size as int),
            Err(error) => !is_addressable(count as int, item_size as int) && error
                == Error::ParameterSizeOverflow,
        },
{
    match count.checked_mul(item_size) {
        Some(bytes) => if bytes > isize::MAX as usize {
            Err(Error::ParameterSizeOverflow)
        } else {
            Ok(())
        },
        None => Err(Error::ParameterSizeOverflow),
    }
}

/// Why an index space is refused, where it is.
pub open spec fn index_space_defect(index_space_size: usize) -> Option<Error> {
    if index_space_size < 2 {
        Some(Error::InvalidIndexSpace(index_space_size))
    } else if 2 * index_space_size + 1 > usize::MAX {
        Some(Error::ParameterSizeOverflow)
    } else {
        None
    }
}

fn validate_index_space(index_space_size: usize) -> (result: Result<()>)
    ensures
        match result {
            Ok(()) => index_space_defect(index_space_size) is None,
            Err(error) => index_space_defect(index_space_size) == Some(error),
        },
{
    if index_space_size < 2 {
        return Err(Error::InvalidIndexSpace(index_space_size));
    }
    match index_space_size.checked_mul(2) {
        Some(h_count) => match h_count.checked_add(1) {
            Some(_) => Ok(()),
            None => Err(Error::ParameterSizeOverflow),
        },
        None => Err(Error::ParameterSizeOverflow),
    }
}

/// Why the parameters for an index space cannot be made, where they cannot.
pub open spec fn setup_defect(index_space_size: usize) -> Option<Error> {
    let n = index_space_size as int;
    if index_space_defect(index_space_size) is Some {
        index_space_defect(index_space_size)
    } else if 2 * n + 2 > isize::MAX || !is_addressable(n, size_of::<G1Point>() as int)
        || !is_addressable(2 * n, size_of::<G2Point>() as int) || !is_addressable(
        2 * n + 2,
        size_of::<Fr>() as int,
    ) {
        Some(Error::ParameterSizeOverflow)
    } else {
        None
    }
}

/// The identifier of parameters: the digest of all their points.
pub open spec fn crs_id_of(index_space_size: int, g_logs: Seq<int>, h_logs: Seq<int>) -> Seq<u8> {
    sha256(
        "WEIGHTED-INDEXED-BTE-CRS-ID-BLS12381-v1".spec_bytes() + le_bytes(index_space_size, 8)
            + le_bytes(g_logs.len() as int, 8) + g1_encoding(g_logs) + le_bytes(
            h_logs.len() as int,
            8,
        ) + g2_encoding(h_logs),
    )
}

fn crs_identifier(index_space_size: usize, g_powers: &Vec<G1Point>, h_powers: &Vec<G2Point>) -> (result:
    [u8; 32])
    ensures
        result@ == crs_id_of(index_space_size as int, views(g_powers@), views(h_powers@)),
{
    let mut bytes: Vec<u8> = Vec::new();
    append(&mut bytes, "WEIGHTED-INDEXED-BTE-CRS-ID-BLS12381-v1".as_bytes());
    append_u64(&mut bytes, index_space_size as u64);
    append_u64(&mut bytes, g_powers.len() as u64);
    append_g1(&mut bytes, g_powers.as_slice());
    append_u64(&mut bytes, h_powers.len() as u64);
    append_g2(&mut bytes, h_powers.as_slice());
    proof {
        assert(views(g_powers@).len() == g_powers@.len());
        assert(views(h_powers@).len() == h_powers@.len());
        assert(bytes@ =~= "WEIGHTED-INDEXED-BTE-CRS-ID-BLS12381-v1".spec_bytes() + le_bytes(
            index_space_size as int,
            8,
        ) + le_bytes(g_powers@.len() as int, 8) + g1_encoding(views(g_powers@)) + le_bytes(
            h_powers@.len() as int,
            8,
        ) + g2_encoding(views(h_powers@)));
    }
    digest(bytes.as_slice())
}

/// The parameters for the given secret.
pub fn setup_with_scalar(index_space_size: usize, tau: Fr) -> (result: Result<PublicParameters>)
    ensures
        match result {
            Ok(parameters) => setup_defect(index_space_size) is None
                && parameters.index_space_size == index_space_size && parameters.is_generated(tau@),
            Err(error) => setup_defect(index_space_size) == Some(error),
        },
{
    validate_setup(index_space_size)?;
    let n = index_space_size;
    let powers = powers_of(tau, 2 * n + 2);
    let ghost all = views(powers@);
    assert(all.len() == powers@.len());
    let g_powers = scalars_to_g1(&slice_of(&powers, 1, n + 1));
    let mut h_scalars = slice_of(&powers, 1, n + 1);
    let mut exponent: usize = n + 2;
    while exponent < 2 * n + 2
        invariant
            n + 2 <= exponent <= 2 * n + 2 == powers@.len(),
            2 * n + 2 <= usize::MAX,
            h_scalars@ == powers@.subrange(1, n + 1) + powers@.subrange(n + 2, exponent as int),
        decreases 2 * n + 2 - exponent,
    {
        h_scalars.push(powers[exponent]);
        exponent = exponent + 1;
        assert(h_scalars@ =~= powers@.subrange(1, n + 1) + powers@.subrange(
            n + 2,
            exponent as int,
        ));
    }
    let h_powers = scalars_to_g2(&h_scalars);
    proof {
        let t = tau@;
        assert(views(powers@.subrange(1, n + 1)) =~= power_range(t, 1, n as int)) by {
            assert forall|i: int| 0 <= i < n implies #[trigger] powers@[i + 1]@ == pow(
                t,
                (1 + i) as nat,
            ) % order() by {
                assert(all[i + 1] == pow(t, (0 + (i + 1)) as nat) % order());
            }
        }
        assert(views(h_scalars@) =~= power_range(t, 1, n as int) + power_range(
            t,
            n + 2,
            n as int,
        )) by {
            assert forall|i: int| 0 <= i < 2 * n implies #[trigger] h_scalars@[i]@ == (power_range(
                t,
                1,
                n as int,
            ) + power_range(t, n + 2, n as int))[i] by {
                if i < n {
                    assert(all[i + 1] == pow(t, (0 + (i + 1)) as nat) % order());
                    assert(0 + (i + 1) == 1 + i);
                } else {
                    assert(all[i + 2] == pow(t, (0 + (i + 2)) as nat) % order());
                    assert(0 + (i + 2) == n + 2 + (i - n));
                }
            }
        }
        assert(views(g_powers@).len() == g_powers@.len());
        assert(views(h_powers@).len() == h_powers@.len());
    }
    let crs_id = crs_identifier(n, &g_powers, &h_powers);
    Ok(PublicParameters { crs_id, index_space_size: n, g_powers, h_powers })
}

fn validate_setup(index_space_size: usize) -> (result: Result<()>)
    ensures
        match result {
            Ok(()) => setup_defect(index_space_size) is None,
            Err(error) => setup_defect(index_space_size) == Some(error),
        },
{
    validate_index_space(index_space_size)?;
    let h_count: usize = 2 * index_space_size;
    if h_count > isize::MAX as usize - 2 {
        return Err(Error::ParameterSizeOverflow);
    }
    let power_count: usize = h_count + 2;
    checked_allocation(index_space_size, core::mem::size_of::<G1Point>())?;
    checked_allocation(h_count, core::mem::size_of::<G2Point>())?;
    checked_allocation(power_count, core::mem::size_of::<Fr>())
}

/// Whether parameters were made for an index space with some secret.
pub open spec fn is_setup_outcome(index_space_size: usize, result: Result<PublicParameters>) -> bool {
    match setup_defect(index_space_size) {
        Some(error) => result == Err::<PublicParameters, Error>(error),
        None => match result {
            Ok(parameters) => parameters.index_space_size == index_space_size && exists|tau: int|
                0 < tau < order() && #[trigger] parameters.is_generated(tau),
            Err(error) => error == Error::SamplingFailed,
        },
    }
}

/// Whether an outcome is that of making parameters with what a source drew: the draws for the
/// secret.
pub open spec fn is_drawn_setup(
    index_space_size: usize,
    draws: Seq<int>,
    result: Result<PublicParameters>,
) -> bool {
    match setup_defect(index_space_size) {
        Some(error) => result == Err::<PublicParameters, Error>(error) && draws.len() == 0,
        None => match result {
            Ok(parameters) => is_nonzero_draw(draws, Some(draws.last()))
                && parameters.index_space_size == index_space_size && parameters.is_generated(
                draws.last(),
            ),
            Err(error) => error == Error::SamplingFailed && is_nonzero_draw(draws, None),
        },
    }
}

/// Parameters with a secret, which is not zero, drawn from `rng`. It fails where the
/// source yields nothing but zeros.
pub fn setup_with_rng<R: ScalarRng>(index_space_size: usize, rng: &mut R) -> (result: Result<
    PublicParameters,
>)
    ensures
        is_setup_outcome(index_space_size, result),
        old(rng).drawn().is_prefix_of(final(rng).drawn()),
        is_drawn_setup(
            index_space_size,
            drawn_since(old(rng).drawn(), final(rng).drawn()),
            result,
        ),
{
    validate_setup(index_space_size)?;
    match sample_nonzero(rng) {
        Some(tau) => {
            proof {
                tau.lemma_range();
            }
            setup_with_scalar(index_space_size, tau)
        },
        None => Err(Error::SamplingFailed),
    }
}

/// Parameters with the system's randomness.
pub fn setup(index_space_size: usize) -> (result: Result<PublicParameters>)
    ensures
        is_setup_outcome(index_space_size, result),
        exists|rng: SystemRng|
            is_drawn_setup(index_space_size, #[trigger] rng.scalar_record(), result),
{
    let mut rng = SystemRng::new();
    let result = setup_with_rng(index_space_size, &mut rng);
    proof {
        lemma_drawn_since_start(rng.scalar_record());
        assert(is_drawn_setup(index_space_size, rng.scalar_record(), result));
    }
    result
}

impl PublicParameters {
    /// What all parameters satisfy.
    pub open spec fn wf(&self) -> bool {
        &&& 2 <= self.index_space_size
        &&& 2 * self.index_space_size + 2 <= isize::MAX
        &&& self.g_powers@.len() == self.index_space_size
        &&& self.h_powers@.len() == 2 * self.index_space_size
    }

    /// Whether the points are the powers of `tau`.
    pub open spec fn is_generated(&self, tau: int) -> bool {
        let n = self.index_space_size as int;
        &&& self.wf()
        &&& views(self.g_powers@) == power_range(tau, 1, n)
        &&& views(self.h_powers@) == power_range(tau, 1, n) + power_range(tau, n + 2, n)
        &&& self.crs_id@ == crs_id_of(n, views(self.g_powers@), views(self.h_powers@))
    }

    /// The digest of the index space and all points.
    pub fn crs_id(&self) -> (result: [u8; 32])
        ensures
            result == self.crs_id,
    {
        self.crs_id
    }

    pub fn index_space_size(&self) -> (result: usize)
        ensures
            result == self.index_space_size,
    {
        self.index_space_size
    }

    pub fn g1_point_count(&self) -> (result: usize)
        ensures
            result == self.g_powers@.len(),
    {
        self.g_powers.len()
    }

    pub fn g2_point_count(&self) -> (result: usize)
        ensures
            result == self.h_powers@.len(),
    {
        self.h_powers.len()
    }

    pub fn g1_serialized_size(&self) -> (result: usize)
        requires
            self.g_powers@.len() * 48 <= usize::MAX,
        ensures
            result == self.g_powers@.len() * 48,
    {
        self.g_powers.len() * G1Point::identity().to_compressed().len()
    }

    pub fn g2_serialized_size(&self) -> (result: usize)
        requires
            self.h_powers@.len() * 96 <= usize::MAX,
        ensures
            result == self.h_powers@.len() * 96,
    {
        self.h_powers.len() * G2Point::identity().to_compressed().len()
    }

    pub fn serialized_size(&self) -> (result: usize)
        requires
            self.g_powers@.len() * 48 + self.h_powers@.len() * 96 <= usize::MAX,
        ensures
            result == self.g_powers@.len() * 48 + self.h_powers@.len() * 96,
    {
        self.g1_serialized_size() + self.g2_serialized_size()
    }

    pub fn serialized_size_bytes(&self) -> (result: usize)
        requires
            self.g_powers@.len() * 48 + self.h_powers@.len() * 96 <= usize::MAX,
        ensures
            result == self.g_powers@.len() * 48 + self.h_powers@.len() * 96,
    {
        self.serialized_size()
    }

    /// The power with an exponent in `1..=n`, in the first source group.
    pub fn g_power(&self, exponent: usize) -> (result: Result<G1Point>)
        requires
            self.wf(),
        ensures
            match result {
                Ok(point) => 1 <= exponent <= self.index_space_size && point
                    == self.g_powers@[exponent - 1],
                Err(error) => !(1 <= exponent <= self.index_space_size) && error
                    == Error::InvalidBatchSize(exponent),
            },
    {
        if exponent == 0 || exponent > self.index_space_size {
            return Err(Error::InvalidBatchSize(exponent));
        }
        Ok(self.g_powers[exponent - 1])
    }

    /// Whether there is a power with this exponent in the second source group.
    pub open spec fn has_h_power(&self, exponent: int) -> bool {
        1 <= exponent <= 2 * self.index_space_size + 1 && exponent != self.index_space_size + 1
    }

    /// The logarithm of the power with this exponent in the second source group.
    pub open spec fn h_log(&self, exponent: int) -> int {
        if exponent <= self.index_space_size {
            self.h_powers@[exponent - 1]@
        } else {
            self.h_powers@[exponent - 2]@
        }
    }

    /// The power whose exponent lies `offset` from the one left out.
    pub open spec fn centered_log(&self, offset: int) -> int {
        self.h_log(self.index_space_size + 1 + offset)
    }

    /// The power with an exponent in `1..=2 n + 1`, other than `n + 1`, in the
    /// second source group.
    pub fn h_power(&self, exponent: usize) -> (result: Result<G2Point>)
        requires
            self.wf(),
        ensures
            match result {
                Ok(point) => self.has_h_power(exponent as int) && point@ == self.h_log(
                    exponent as int,
                ),
                Err(error) => !self.has_h_power(exponent as int) && error
                    == Error::InvalidBatchSize(exponent),
            },
    {
        let maximum: usize = 2 * self.index_space_size + 1;
        let missing: usize = self.index_space_size + 1;
        if exponent == 0 || exponent > maximum || exponent == missing {
            return Err(Error::InvalidBatchSize(exponent));
        }
        let storage_index = if exponent <= self.index_space_size {
            exponent - 1
        } else {
            exponent - 2
        };
        Ok(self.h_powers[storage_index])
    }

    /// Why there is no power at an offset from the one left out, where there is none.
    pub open spec fn centered_defect(&self, offset: int) -> Option<Error> {
        let exponent = self.index_space_size + 1 + offset;
        if offset == 0 {
            Some(Error::InvalidBatchSize((self.index_space_size + 1) as usize))
        } else if self.index_space_size + 1 > isize::MAX {
            Some(Error::ParameterSizeOverflow)
        } else if exponent > isize::MAX || exponent <= 0 {
            Some(Error::InvalidBatchSize(0))
        } else if !self.has_h_power(exponent) {
            Some(Error::InvalidBatchSize(exponent as usize))
        } else {
            None
        }
    }

    /// The power whose exponent lies `offset` from the one left out.
    pub fn centered_power(&self, offset: isize) -> (result: Result<G2Point>)
        requires
            self.wf(),
        ensures
            match result {
                Ok(point) => self.centered_defect(offset as int) is None && point@
                    == self.centered_log(offset as int),
                Err(error) => self.centered_defect(offset as int) == Some(error),
            },
    {
        if offset == 0 {
            return Err(Error::InvalidBatchSize(self.index_space_size + 1));
        }
        if self.index_space_size + 1 > isize::MAX as usize {
            return Err(Error::ParameterSizeOverflow);
        }
        let center: isize = self.index_space_size as isize + 1;
        match center.checked_add(offset) {
            Some(exponent) => {
                if exponent <= 0 {
                    return Err(Error::InvalidBatchSize(0));
                }
                self.h_power(exponent as usize)
            },
            None => Err(Error::InvalidBatchSize(0)),
        }
    }
}

/// The sizes of a key.
#[derive(Clone, Copy, Debug)]
pub struct ValidatedDimensions {
    pub total_weight: usize,
    pub domain: Radix2Domain,
    pub gamma_count: usize,
}

/// The size of the domain for so many virtual shares.
pub open spec fn domain_size_of(total_weight: int) -> int {
    choose|size: int| #[trigger] is_share_domain(size, total_weight)
}

proof fn lemma_domain_size(size: int, total_weight: int)
    requires
        is_share_domain(size, total_weight),
        total_weight > 0,
    ensures
        domain_size_of(total_weight) == size,
{
    crate::interpolation::lemma_least_power_unique(
        domain_size_of(total_weight),
        size,
        total_weight,
    );
}

/// Whether the arrays of a key can be addressed.
pub open spec fn key_fits(index_space_size: int, party_weights: Seq<usize>) -> bool {
    let sum = total(party_weights);
    let parties = party_weights.len() as int;
    &&& index_space_size * sum <= usize::MAX
    &&& is_addressable(index_space_size * sum, size_of::<G2Point>() as int)
    &&& is_addressable(index_space_size, size_of::<G1Point>() as int)
    &&& is_addressable(parties, size_of::<G1Point>() as int)
    &&& is_addressable(domain_size_of(sum), size_of::<Fr>() as int)
    &&& parties + 1 <= usize::MAX
    &&& is_addressable(parties + 1, size_of::<usize>() as int)
}

/// Why a committee is refused, where it is.
pub open spec fn keygen_defect(parameters: &PublicParameters, config: &KeygenConfig) -> Option<
    Error,
> {
    let party_weights = config.party_weights@;
    let sum = total(party_weights);
    if index_space_defect(parameters.index_space_size) is Some {
        index_space_defect(parameters.index_space_size)
    } else if party_weights.len() == 0 {
        Some(Error::EmptyCommittee)
    } else if first_zero(party_weights, 0) is Some {
        Some(
            Error::InvalidPartyWeight {
                party_index: first_zero(party_weights, 0)->0 as usize,
                weight: 0,
            },
        )
    } else if sum > usize::MAX {
        Some(Error::TotalWeightOverflow)
    } else if config.threshold_weight >= sum {
        Some(
            Error::InvalidCommittee {
                party_count: party_weights.len() as usize,
                total_weight: sum as usize,
                threshold_weight: config.threshold_weight,
            },
        )
    } else if !has_domain(sum) {
        Some(Error::InvalidEvaluationDomain { total_weight: sum as usize })
    } else if !key_fits(parameters.index_space_size as int, party_weights) {
        Some(Error::ParameterSizeOverflow)
    } else {
        None
    }
}

pub fn validate_keygen_config(parameters: &PublicParameters, config: &KeygenConfig) -> (result:
    Result<ValidatedDimensions>)
    ensures
        match result {
            Ok(dimensions) => {
                &&& keygen_defect(parameters, config) is None
                &&& dimensions.total_weight == total(config.party_weights@)
                &&& dimensions.domain.wf()
                &&& is_share_domain(
                    dimensions.domain.spec_size(),
                    dimensions.total_weight as int,
                )
                &&& dimensions.gamma_count == parameters.index_space_size
                    * dimensions.total_weight
            },
            Err(error) => keygen_defect(parameters, config) == Some(error),
        },
{
    validate_index_space(parameters.index_space_size)?;
    if config.party_weights.len() == 0 {
        return Err(Error::EmptyCommittee);
    }
    if let Some(party_index) = find_zero(&config.party_weights) {
        return Err(Error::InvalidPartyWeight { party_index, weight: 0 });
    }
    let total_weight = match total_weight(&config.party_weights) {
        Some(sum) => sum,
        None => {
            return Err(Error::TotalWeightOverflow);
        },
    };
    if config.threshold_weight >= total_weight {
        return Err(
            Error::InvalidCommittee {
                party_count: config.party_weights.len(),
                total_weight,
                threshold_weight: config.threshold_weight,
            },
        );
    }
    let domain = match share_domain(total_weight) {
        Some(domain) => domain,
        None => {
            return Err(Error::InvalidEvaluationDomain { total_weight });
        },
    };
    proof {
        lemma_domain_size(domain.spec_size(), total_weight as int);
    }
    let gamma_count = match parameters.index_space_size.checked_mul(total_weight) {
        Some(count) => count,
        None => {
            return Err(Error::ParameterSizeOverflow);
        },
    };
    checked_allocation(gamma_count, core::mem::size_of::<G2Point>())?;
    checked_allocation(parameters.index_space_size, core::mem::size_of::<G1Point>())?;
    checked_allocation(config.party_weights.len(), core::mem::size_of::<G1Point>())?;
    checked_allocation(domain.size(), core::mem::size_of::<Fr>())?;
    let offset_count = match config.party_weights.len().checked_add(1) {
        Some(count) => count,
        None => {
            return Err(Error::ParameterSizeOverflow);
        },
    };
    checked_allocation(offset_count, core::mem::size_of::<usize>())?;
    Ok(ValidatedDimensions { total_weight, domain, gamma_count })
}

/// What the identifier of a committee is the digest of.
pub struct SetupMaterial {
    pub crs_id: Seq<u8>,
    pub index_space_size: int,
    pub threshold_weight: int,
    pub domain_size: int,
    pub party_weights: Seq<usize>,
    pub party_offsets: Seq<usize>,
    pub evaluation_domain: Seq<int>,
    pub deltas: Seq<int>,
    pub inverse_public_keys: Seq<int>,
    pub gamma: Seq<int>,
}

/// The identifier of a committee: the digest of the parameters' identifier and of
/// all public material.
pub open spec fn setup_id_of(m: SetupMaterial) -> Seq<u8> {
    sha256(
        "WEIGHTED-INDEXED-BTE-SETUP-ID-BLS12381-v1".spec_bytes() + m.crs_id + le_bytes(
            m.index_space_size,
            8,
        ) + le_bytes(m.threshold_weight, 8) + le_bytes(m.domain_size, 8) + le_bytes(
            m.party_weights.len() as int,
            8,
        ) + numbers_encoding(m.party_weights) + le_bytes(m.party_offsets.len() as int, 8)
            + numbers_encoding(m.party_offsets) + le_bytes(m.evaluation_domain.len() as int, 8)
            + scalars_encoding(m.evaluation_domain) + le_bytes(m.deltas.len() as int, 8)
            + g1_encoding(m.deltas) + le_bytes(m.inverse_public_keys.len() as int, 8)
            + g1_encoding(m.inverse_public_keys) + le_bytes(m.gamma.len() as int, 8) + g2_encoding(
            m.gamma,
        ),
    )
}

fn setup_identifier(key: &MasterPublicKey) -> (result: [u8; 32])
    ensures
        result@ == setup_id_of(key.setup_material()),
{
    let mut bytes: Vec<u8> = Vec::new();
    append(&mut bytes, "WEIGHTED-INDEXED-BTE-SETUP-ID-BLS12381-v1".as_bytes());
    append(&mut bytes, key.crs_id.as_slice());
    append_u64(&mut bytes, key.index_space_size as u64);
    append_u64(&mut bytes, key.threshold_weight as u64);
    append_u64(&mut bytes, key.domain_size as u64);
    append_u64(&mut bytes, key.party_weights.len() as u64);
    append_numbers(&mut bytes, key.party_weights.as_slice());
    append_u64(&mut bytes, key.party_offsets.len() as u64);
    append_numbers(&mut bytes, key.party_offsets.as_slice());
    append_u64(&mut bytes, key.evaluation_domain.len() as u64);
    append_scalars(&mut bytes, key.evaluation_domain.as_slice());
    append_u64(&mut bytes, key.deltas.len() as u64);
    append_g1(&mut bytes, key.deltas.as_slice());
    append_u64(&mut bytes, key.inverse_public_keys.len() as u64);
    append_g1(&mut bytes, key.inverse_public_keys.as_slice());
    append_u64(&mut bytes, key.gamma.len() as u64);
    append_g2(&mut bytes, key.gamma.as_slice());
    proof {
        let m = key.setup_material();
        assert(bytes@ =~= "WEIGHTED-INDEXED-BTE-SETUP-ID-BLS12381-v1".spec_bytes() + m.crs_id
            + le_bytes(m.index_space_size, 8) + le_bytes(m.threshold_weight, 8) + le_bytes(
            m.domain_size,
            8,
        ) + le_bytes(m.party_weights.len() as int, 8) + numbers_encoding(m.party_weights)
            + le_bytes(m.party_offsets.len() as int, 8) + numbers_encoding(m.party_offsets)
            + le_bytes(m.evaluation_domain.len() as int, 8) + scalars_encoding(
            m.evaluation_domain,
        ) + le_bytes(m.deltas.len() as int, 8) + g1_encoding(m.deltas) + le_bytes(
            m.inverse_public_keys.len() as int,
            8,
        ) + g1_encoding(m.inverse_public_keys) + le_bytes(m.gamma.len() as int, 8) + g2_encoding(
            m.gamma,
        ));
    }
    digest(bytes.as_slice())
}

impl MasterPublicKey {
    /// What the identifier is the digest of.
    pub open spec fn setup_material(&self) -> SetupMaterial {
        SetupMaterial {
            crs_id: self.crs_id@,
            index_space_size: self.index_space_size as int,
            threshold_weight: self.threshold_weight as int,
            domain_size: self.domain_size as int,
            party_weights: self.party_weights@,
            party_offsets: self.party_offsets@,
            evaluation_domain: views(self.evaluation_domain@),
            deltas: views(self.deltas@),
            inverse_public_keys: views(self.inverse_public_keys@),
            gamma: views(self.gamma@),
        }
    }

    /// What every key satisfies.
    pub open spec fn wf(&self) -> bool {
        let party_weights = self.party_weights@;
        &&& 2 <= self.index_space_size
        &&& 1 <= party_weights.len()
        &&& self.total_weight == total(party_weights)
        &&& self.threshold_weight < self.total_weight
        &&& is_share_domain(self.domain_size as int, self.total_weight as int)
        &&& are_offsets(self.party_offsets@, party_weights)
        &&& views(self.evaluation_domain@) == root_points(
            self.domain_size as int,
            self.total_weight as int,
        )
        &&& self.deltas@.len() == self.index_space_size
        &&& self.inverse_public_keys@.len() == party_weights.len()
        &&& self.gamma@.len() == self.index_space_size * self.total_weight
    }

    /// The logarithm of a virtual share for an index.
    pub open spec fn gamma_log(&self, index: int, virtual_index: int) -> int {
        cell(views(self.gamma@), self.total_weight as int, index, virtual_index)
    }

    /// The digest of the parameters' identifier and of all public material.
    pub fn setup_id(&self) -> (result: [u8; 32])
        ensures
            result == self.setup_id,
    {
        self.setup_id
    }

    pub fn crs_id(&self) -> (result: [u8; 32])
        ensures
            result == self.crs_id,
    {
        self.crs_id
    }

    pub fn index_space_size(&self) -> (result: usize)
        ensures
            result == self.index_space_size,
    {
        self.index_space_size
    }

    pub fn threshold_weight(&self) -> (result: usize)
        ensures
            result == self.threshold_weight,
    {
        self.threshold_weight
    }

    pub fn required_weight(&self) -> (result: usize)
        requires
            self.wf(),
        ensures
            result == self.threshold_weight + 1,
    {
        self.threshold_weight + 1
    }

    pub fn total_weight(&self) -> (result: usize)
        ensures
            result == self.total_weight,
    {
        self.total_weight
    }

    pub fn party_count(&self) -> (result: usize)
        ensures
            result == self.party_weights@.len(),
    {
        self.party_weights.len()
    }

    pub fn party_weights(&self) -> (result: &Vec<usize>)
        ensures
            *result == self.party_weights,
    {
        &self.party_weights
    }

    pub fn party_weight(&self, party_index: usize) -> (result: Result<usize>)
        ensures
            match result {
                Ok(weight) => party_index < self.party_weights@.len() && weight
                    == self.party_weights@[party_index as int],
                Err(error) => party_index >= self.party_weights@.len() && error
                    == Error::InvalidPartyIndex(party_index),
            },
    {
        if party_index >= self.party_weights.len() {
            return Err(Error::InvalidPartyIndex(party_index));
        }
        Ok(self.party_weights[party_index])
    }

    /// The first of a party's virtual shares, and the one after its last.
    pub fn party_range(&self, party_index: usize) -> (result: Result<(usize, usize)>)
        requires
            self.wf(),
        ensures
            match result {
                Ok((start, end)) => {
                    &&& party_index < self.party_weights@.len()
                    &&& start == offset(self.party_weights@, party_index as int)
                    &&& end == start + self.party_weights@[party_index as int]
                    &&& end <= self.total_weight
                },
                Err(error) => party_index >= self.party_weights@.len() && error
                    == Error::InvalidPartyIndex(party_index),
            },
    {
        if party_index >= self.party_count() {
            return Err(Error::InvalidPartyIndex(party_index));
        }
        proof {
            lemma_offset_step(self.party_weights@, party_index as int);
            lemma_offset_order(
                self.party_weights@,
                party_index + 1,
                self.party_weights@.len() as int,
            );
        }
        Ok((self.party_offsets[party_index], self.party_offsets[party_index + 1]))
    }

    pub fn domain_points(&self) -> (result: &Vec<Fr>)
        ensures
            *result == self.evaluation_domain,
    {
        &self.evaluation_domain
    }

    pub fn domain_size(&self) -> (result: usize)
        ensures
            result == self.domain_size,
    {
        self.domain_size
    }

    pub fn delta(&self, index: usize) -> (result: Result<G1Point>)
        ensures
            match result {
                Ok(point) => index < self.deltas@.len() && point == self.deltas@[index as int],
                Err(error) => index >= self.deltas@.len() && error
                    == Error::InvalidCiphertextIndex(index),
            },
    {
        if index >= self.deltas.len() {
            return Err(Error::InvalidCiphertextIndex(index));
        }
        Ok(self.deltas[index])
    }

    pub fn inverse_key(&self, party_index: usize) -> (result: Result<G1Point>)
        ensures
            match result {
                Ok(point) => party_index < self.inverse_public_keys@.len() && point
                    == self.inverse_public_keys@[party_index as int],
                Err(error) => party_index >= self.inverse_public_keys@.len() && error
                    == Error::InvalidPartyIndex(party_index),
            },
    {
        if party_index >= self.inverse_public_keys.len() {
            return Err(Error::InvalidPartyIndex(party_index));
        }
        Ok(self.inverse_public_keys[party_index])
    }

    /// The virtual shares for an index.
    pub fn gamma_block(&self, index: usize) -> (result: Result<Vec<G2Point>>)
        requires
            self.wf(),
        ensures
            match result {
                Ok(points) => {
                    &&& index < self.index_space_size
                    &&& points@.len() == self.total_weight
                    &&& forall|i: int|
                        0 <= i < self.total_weight ==> (#[trigger] points@[i])@ == self.gamma_log(
                            index as int,
                            i,
                        )
                },
                Err(error) => index >= self.index_space_size && error
                    == Error::InvalidCiphertextIndex(index),
            },
    {
        if index >= self.index_space_size {
            return Err(Error::InvalidCiphertextIndex(index));
        }
        proof {
            lemma_cell(
                self.total_weight as int,
                self.index_space_size as int,
                index as int,
                0,
            );
        }
        let bound = self.gamma.len();
        let start: usize = index * self.total_weight;
        let mut points: Vec<G2Point> = Vec::new();
        while points.len() < self.total_weight
            invariant
                start == index * self.total_weight,
                start + self.total_weight <= self.gamma@.len() == bound,
                points@.len() <= self.total_weight,
                forall|i: int|
                    0 <= i < points@.len() ==> (#[trigger] points@[i])@ == self.gamma_log(
                        index as int,
                        i,
                    ),
            decreases self.total_weight - points@.len(),
        {
            points.push(self.gamma[start + points.len()]);
        }
        Ok(points)
    }

    pub fn g1_point_count(&self) -> (result: usize)
        requires
            self.deltas@.len() + self.inverse_public_keys@.len() <= usize::MAX,
        ensures
            result == self.deltas@.len() + self.inverse_public_keys@.len(),
    {
        self.deltas.len() + self.inverse_public_keys.len()
    }

    pub fn g2_point_count(&self) -> (result: usize)
        ensures
            result == self.gamma@.len(),
    {
        self.gamma.len()
    }

    pub fn g1_serialized_size(&self) -> (result: usize)
        requires
            (self.deltas@.len() + self.inverse_public_keys@.len()) * 48 <= usize::MAX,
        ensures
            result == (self.deltas@.len() + self.inverse_public_keys@.len()) * 48,
    {
        self.g1_point_count() * G1Point::identity().to_compressed().len()
    }

    pub fn g2_serialized_size(&self) -> (result: usize)
        requires
            self.gamma@.len() * 96 <= usize::MAX,
        ensures
            result == self.gamma@.len() * 96,
    {
        self.g2_point_count() * G2Point::identity().to_compressed().len()
    }

    pub fn serialized_size(&self) -> (result: usize)
        requires
            (self.deltas@.len() + self.inverse_public_keys@.len()) * 48 + self.gamma@.len() * 96
                <= usize::MAX,
        ensures
            result == (self.deltas@.len() + self.inverse_public_keys@.len()) * 48
                + self.gamma@.len() * 96,
    {
        self.g1_serialized_size() + self.g2_serialized_size()
    }

    pub fn serialized_size_bytes(&self) -> (result: usize)
        requires
            (self.deltas@.len() + self.inverse_public_keys@.len()) * 48 + self.gamma@.len() * 96
                <= usize::MAX,
        ensures
            result == (self.deltas@.len() + self.inverse_public_keys@.len()) * 48
                + self.gamma@.len() * 96,
    {
        self.serialized_size()
    }
}

impl PartySecretKey {
    pub fn setup_id(&self) -> (result: [u8; 32])
        ensures
            result == self.setup_id,
    {
        self.setup_id
    }

    pub fn inverse_scalar(&self) -> (result: Fr)
        ensures
            result == self.inverse_scalar,
    {
        self.inverse_scalar
    }

    pub fn public_inverse(&self) -> (result: G1Point)
        ensures
            result == self.public_inverse,
    {
        self.public_inverse
    }
}

/// The virtual shares times their owners' masking scalars.
pub open spec fn masked_shares(z: Seq<int>, party_weights: Seq<usize>, sks: Seq<int>) -> Seq<int> {
    Seq::new(z.len(), |i: int| (z[i] * sks[owner(party_weights, i)]) % order())
}

/// The masked virtual shares for every index: each times the power with the
/// exponent `n + 2 + index`.
pub open spec fn gamma_table(parameters: &PublicParameters, masked: Seq<int>) -> spec_fn(
    int,
    int,
) -> int {
    |index: int, virtual_index: int|
        (parameters.h_log(parameters.index_space_size + 2 + index) * masked[virtual_index])
            % order()
}

impl KeyMaterial {
    /// Whether the material is what the sharing polynomial and the masking scalars
    /// give for a committee under the parameters.
    pub open spec fn is_generated(
        &self,
        parameters: &PublicParameters,
        config: &KeygenConfig,
        coefficients: Seq<int>,
        sks: Seq<int>,
    ) -> bool {
        let key = &self.public_key;
        let party_weights = config.party_weights@;
        let sum = total(party_weights);
        let n = parameters.index_space_size as int;
        let z = share_values(coefficients, key.domain_size as int, sum);
        &&& key.wf()
        &&& key.crs_id@ == parameters.crs_id@
        &&& key.index_space_size == parameters.index_space_size
        &&& key.threshold_weight == config.threshold_weight
        &&& key.party_weights@ == party_weights
        &&& coefficients.len() == config.threshold_weight + 1
        &&& coefficients[0] != 0
        &&& sks.len() == party_weights.len()
        &&& forall|j: int| 0 <= j < party_weights.len() ==> is_unit(#[trigger] sks[j])
        &&& forall|i: int|
            0 <= i < n ==> (#[trigger] key.deltas@[i])@ == (parameters.g_powers@[i]@
                * coefficients[0]) % order()
        &&& forall|j: int|
            0 <= j < party_weights.len() ==> (#[trigger] key.inverse_public_keys@[j])@ == inv(
                sks[j],
            )
        &&& is_table(
            views(key.gamma@),
            sum,
            n,
            gamma_table(parameters, masked_shares(z, party_weights, sks)),
        )
        &&& key.setup_id@ == setup_id_of(key.setup_material())
        &&& self.party_keys@.len() == party_weights.len()
        &&& forall|j: int|
            0 <= j < party_weights.len() ==> {
                &&& (#[trigger] self.party_keys@[j]).party_index == j
                &&& self.party_keys@[j].setup_id@ == key.setup_id@
                &&& self.party_keys@[j].inverse_scalar@ == inv(sks[j])
                &&& self.party_keys@[j].public_inverse@ == inv(sks[j])
            }
    }
}

/// Every point times the same scalar.
fn times_all_g1(points: &Vec<G1Point>, scalar: Fr) -> (result: Vec<G1Point>)
    ensures
        result@.len() == points@.len(),
        forall|i: int|
            0 <= i < points@.len() ==> (#[trigger] result@[i])@ == (points@[i]@ * scalar@)
                % order(),
{
    let mut projective: Vec<G1> = Vec::new();
    while projective.len() < points.len()
        invariant
            projective@.len() <= points@.len(),
            forall|i: int|
                0 <= i < projective@.len() ==> (#[trigger] projective@[i])@ == (points@[i]@
                    * scalar@) % order(),
        decreases points@.len() - projective@.len(),
    {
        projective.push(G1::from_affine(points[projective.len()]).times(scalar));
    }
    let result = batch_normalize_g1(&projective);
    proof {
        assert(views(result@).len() == result@.len());
        assert forall|i: int| 0 <= i < points@.len() implies (#[trigger] result@[i])@
            == (points@[i]@
            * scalar@) % order() by {
            assert(views(result@)[i] == projective@[i]@);
        }
    }
    result
}

/// Appends one point times every scalar.
fn append_g2_block(output: &mut Vec<G2Point>, base: G2Point, scalars: &Vec<Fr>)
    ensures
        views(final(output)@) == views(old(output)@) + Seq::new(
            scalars@.len(),
            |i: int| (base@ * scalars@[i]@) % order(),
        ),
{
    let ghost start = output@;
    let ghost block = Seq::new(scalars@.len(), |i: int| (base@ * scalars@[i]@) % order());
    let mut projective: Vec<G2> = Vec::new();
    while projective.len() < scalars.len()
        invariant
            projective@.len() <= scalars@.len(),
            forall|i: int|
                0 <= i < projective@.len() ==> (#[trigger] projective@[i])@ == (base@
                    * scalars@[i]@) % order(),
        decreases scalars@.len() - projective@.len(),
    {
        projective.push(G2::from_affine(base).times(scalars[projective.len()]));
    }
    assert(views(projective@) =~= block);
    let affine = batch_normalize_g2(&projective);
    assert(views(affine@).len() == affine@.len());
    let mut index: usize = 0;
    while index < affine.len()
        invariant
            index <= affine@.len(),
            output@ == start + affine@.take(index as int),
        decreases affine@.len() - index,
    {
        output.push(affine[index]);
        index = index + 1;
        assert(output@ =~= start + affine@.take(index as int));
    }
    assert(affine@.take(index as int) =~= affine@);
    assert(views(start + affine@) =~= views(start) + views(affine@));
}

/// The key material for the given sharing polynomial and masking scalars.
pub fn keygen_with_scalars(
    parameters: &PublicParameters,
    config: KeygenConfig,
    coefficients: &Vec<Fr>,
    sks: &Vec<Fr>,
) -> (result: Result<KeyMaterial>)
    requires
        parameters.wf(),
        keygen_defect(parameters, &config) is None ==> {
            &&& coefficients@.len() == config.threshold_weight + 1
            &&& coefficients@[0]@ != 0
            &&& sks@.len() == config.party_weights@.len()
            &&& forall|j: int| 0 <= j < sks@.len() ==> (#[trigger] sks@[j])@ != 0
        },
    ensures
        match result {
            Ok(material) => keygen_defect(parameters, &config) is None && material.is_generated(
                parameters,
                &config,
                views(coefficients@),
                views(sks@),
            ),
            Err(error) => keygen_defect(parameters, &config) == Some(error),
        },
{
    let dimensions = validate_keygen_config(parameters, &config)?;
    let domain = dimensions.domain;
    let sum = dimensions.total_weight;
    let parties = config.party_weights.len();
    let n = parameters.index_space_size;
    let ghost party_weights = config.party_weights@;
    let ghost secrets = views(sks@);
    let z = share_evaluations(&domain, coefficients, sum);
    let ghost zs = views(z@);
    assert(zs.len() == z@.len());
    let evaluation_domain = evaluation_points(&domain, sum);
    let party_offsets = match prefix_offsets(&config.party_weights) {
        Some(offsets) => offsets,
        None => {
            return Err(Error::TotalWeightOverflow);
        },
    };
    let owners = owners_from_offsets(&party_offsets, Ghost(party_weights));
    let mut inverse_scalars = slice_of(sks, 0, parties);
    Fr::batch_invert(&mut inverse_scalars);
    proof {
        lemma_one();
        assert forall|j: int| 0 <= j < parties implies is_unit(#[trigger] secrets[j])
            && inverse_scalars@[j]@ == inv(secrets[j]) by {
            assert(sks@[j]@ != 0);
            let inverse = inverse_scalars@[j]@;
            assert((secrets[j] * inverse) % order() == 1);
            lemma_inv_unique(secrets[j], inverse);
            inverse_scalars@[j].lemma_range();
            lemma_reduced(inverse);
        }
    }
    let inverse_public_keys = scalars_to_g1(&inverse_scalars);
    proof {
        assert(views(inverse_public_keys@).len() == inverse_public_keys@.len());
        assert forall|j: int| 0 <= j < parties implies (#[trigger] inverse_public_keys@[j])@ == inv(
            secrets[j],
        ) by {
            assert(views(inverse_public_keys@)[j] == inverse_scalars@[j]@);
            assert(is_unit(secrets[j]) && inverse_scalars@[j]@ == inv(secrets[j]));
        }
    }
    let deltas = times_all_g1(&parameters.g_powers, coefficients[0]);
    // The scalars of the virtual shares are the same for every index.
    let mut masked: Vec<Fr> = Vec::new();
    let ghost masked_spec = masked_shares(zs, party_weights, secrets);
    while masked.len() < sum
        invariant
            sum == z@.len() == owners@.len() == zs.len(),
            zs == views(z@),
            secrets == views(sks@),
            parties == sks@.len() == party_weights.len(),
            masked_spec == masked_shares(zs, party_weights, secrets),
            forall|i: int|
                0 <= i < owners@.len() ==> #[trigger] owners@[i] == owner(party_weights, i)
                    && owners@[i] < party_weights.len(),
            masked@.len() <= sum,
            forall|i: int| 0 <= i < masked@.len() ==> (#[trigger] masked@[i])@ == masked_spec[i],
        decreases sum - masked@.len(),
    {
        let index = masked.len();
        assert(owners@[index as int] < party_weights.len());
        masked.push(z[index].times(sks[owners[index]]));
    }
    let mut gamma: Vec<G2Point> = Vec::new();
    let mut index: usize = 0;
    while index < n
        invariant
            parameters.wf(),
            index <= n == parameters.index_space_size,
            masked@.len() == sum == masked_spec.len(),
            forall|i: int| 0 <= i < sum ==> (#[trigger] masked@[i])@ == masked_spec[i],
            is_table(
                views(gamma@),
                sum as int,
                index as int,
                gamma_table(parameters, masked_spec),
            ),
        decreases n - index,
    {
        // Always above the power that is left out.
        let exponent: usize = n + 2 + index;
        let base = parameters.h_power(exponent)?;
        let ghost before = views(gamma@);
        append_g2_block(&mut gamma, base, &masked);
        proof {
            let next = Seq::new(masked@.len(), |i: int| (base@ * masked@[i]@) % order());
            assert forall|i: int| 0 <= i < sum implies #[trigger] next[i] == gamma_table(
                parameters,
                masked_spec,
            )(index as int, i) by {
                assert(masked@[i]@ == masked_spec[i]);
            }
            lemma_table_push(
                before,
                next,
                sum as int,
                index as int,
                gamma_table(parameters, masked_spec),
            );
        }
        index = index + 1;
    }
    assert(views(gamma@).len() == gamma@.len());
    let mut public_key = MasterPublicKey {
        setup_id: [0u8; 32],
        crs_id: parameters.crs_id,
        index_space_size: n,
        threshold_weight: config.threshold_weight,
        total_weight: sum,
        domain_size: domain.size(),
        party_weights: copy_numbers(
            config.party_weights.as_slice(),
        ),
        party_offsets,
        evaluation_domain,
        deltas,
        inverse_public_keys,
        gamma,
    };
    let setup_id = setup_identifier(&public_key);
    public_key.setup_id = setup_id;
    let mut party_keys: Vec<PartySecretKey> = Vec::new();
    while party_keys.len() < parties
        invariant
            parties == inverse_scalars@.len() == public_key.inverse_public_keys@.len(),
            forall|j: int|
                0 <= j < parties ==> is_unit(#[trigger] secrets[j]) && inverse_scalars@[j]@ == inv(
                    secrets[j],
                ),
            forall|j: int|
                0 <= j < parties ==> (#[trigger] public_key.inverse_public_keys@[j])@ == inv(
                    secrets[j],
                ),
            party_keys@.len() <= parties,
            forall|j: int|
                0 <= j < party_keys@.len() ==> {
                    &&& (#[trigger] party_keys@[j]).party_index == j
                    &&& party_keys@[j].setup_id == setup_id
                    &&& party_keys@[j].inverse_scalar@ == inv(secrets[j])
                    &&& party_keys@[j].public_inverse@ == inv(secrets[j])
                },
        decreases parties - party_keys@.len(),
    {
        let party_index = party_keys.len();
        assert(is_unit(secrets[party_index as int]));
        party_keys.push(
            PartySecretKey {
                party_index,
                setup_id,
                inverse_scalar: inverse_scalars[party_index],
                public_inverse: public_key.inverse_public_keys[party_index],
            },
        );
    }
    Ok(KeyMaterial { public_key, party_keys })
}

/// Whether key material was made for a committee with some polynomial and scalars.
pub open spec fn is_keygen_outcome(
    parameters: &PublicParameters,
    config: &KeygenConfig,
    result: Result<KeyMaterial>,
) -> bool {
    match keygen_defect(parameters, config) {
        Some(error) => result == Err::<KeyMaterial, Error>(error),
        None => match result {
            Ok(material) => exists|coefficients: Seq<int>, sks: Seq<int>| #[trigger]
                material.is_generated(parameters, config, coefficients, sks),
            Err(error) => error == Error::SamplingFailed,
        },
    }
}

/// Whether key material comes of the given draws: those for the master secret, the other
/// coefficients, and those for the masking scalars. Nothing is drawn where the committee
/// has a defect.
pub open spec fn are_keygen_draws(
    parameters: &PublicParameters,
    config: &KeygenConfig,
    draws: Seq<int>,
    result: Result<KeyMaterial>,
) -> bool {
    let parties = config.party_weights@.len() as int;
    if keygen_defect(parameters, config) is Some {
        result == Err::<KeyMaterial, Error>(keygen_defect(parameters, config)->0) && draws.len()
            == 0
    } else {
        ||| is_nonzero_draw(draws, None) && result == Err::<KeyMaterial, Error>(
            Error::SamplingFailed,
        )
        ||| exists|sampled: Seq<int>, secret: int, tail: Seq<int>, rest: Seq<int>|
            #![trigger is_nonzero_draw(sampled, Some(secret)), sampled + tail + rest]
            {
                &&& is_nonzero_draw(sampled, Some(secret))
                &&& tail.len() == config.threshold_weight
                &&& draws == sampled + tail + rest
                &&& match result {
                    Ok(material) => are_nonzero_draws(rest, parties, Some(kept(rest)))
                        && material.is_generated(
                        parameters,
                        config,
                        seq![secret] + tail,
                        kept(rest),
                    ),
                    Err(error) => error == Error::SamplingFailed && are_nonzero_draws(
                        rest,
                        parties,
                        None,
                    ),
                }
            }
    }
}

/// Whether an outcome is that of making key material with what the system's source drew.
pub open spec fn is_system_keygen(
    parameters: &PublicParameters,
    config: &KeygenConfig,
    result: Result<KeyMaterial>,
) -> bool {
    exists|rng: SystemRng|
        are_keygen_draws(parameters, config, #[trigger] rng.scalar_record(), result)
}

/// Key material with a polynomial and masking scalars drawn from `rng`. The
/// master secret is not zero: with zero, every mask would be public. The draws are
/// those for the master secret, the other coefficients and those for the masking
/// scalars, which are not zero either; it fails where the source runs out of them.
pub fn keygen_with_rng<R: ScalarRng>(
    parameters: &PublicParameters,
    config: KeygenConfig,
    rng: &mut R,
) -> (result: Result<KeyMaterial>)
    requires
        parameters.wf(),
    ensures
        is_keygen_outcome(parameters, &config, result),
        old(rng).drawn().is_prefix_of(final(rng).drawn()),
        are_keygen_draws(
            parameters,
            &config,
            drawn_since(old(rng).drawn(), final(rng).drawn()),
            result,
        ),
{
    let _ = validate_keygen_config(parameters, &config)?;
    let ghost start = rng.drawn();
    let master_secret = match sample_nonzero(rng) {
        Some(secret) => secret,
        None => {
            return Err(Error::SamplingFailed);
        },
    };
    let ghost sampled = drawn_since(start, rng.drawn());
    let mut coefficients: Vec<Fr> = Vec::new();
    coefficients.push(master_secret);
    assert(rng.drawn() =~= start + sampled + views(coefficients@).skip(1));
    while coefficients.len() < config.threshold_weight + 1
        invariant
            1 <= coefficients@.len() <= config.threshold_weight + 1,
            config.threshold_weight < usize::MAX,
            coefficients@[0] == master_secret,
            rng.drawn() == start + sampled + views(coefficients@).skip(1),
        decreases config.threshold_weight + 1 - coefficients@.len(),
    {
        coefficients.push(rng.random_scalar());
        assert(rng.drawn() =~= start + sampled + views(coefficients@).skip(1));
    }
    let ghost middle = rng.drawn();
    let drawn = draw_nonzero(rng, config.party_weights.len());
    proof {
        let tail = views(coefficients@).skip(1);
        let rest = drawn_since(middle, rng.drawn());
        assert(views(coefficients@) =~= seq![master_secret@] + tail);
        assert(rng.drawn() =~= middle + rest);
        assert(drawn_since(start, rng.drawn()) =~= sampled + tail + rest);
        assert(is_nonzero_draw(sampled, Some(master_secret@)));
        assert(are_nonzero_draws(
            rest,
            config.party_weights@.len() as int,
            match drawn {
                Some(scalars) => Some(views(scalars@)),
                None => None,
            },
        ));
    }
    let sks = match drawn {
        Some(sks) => sks,
        None => {
            return Err(Error::SamplingFailed);
        },
    };
    keygen_with_scalars(parameters, config, &coefficients, &sks)
}

/// Key material with the system's randomness.
pub fn keygen(parameters: &PublicParameters, party_weights: &[usize], threshold_weight: usize) -> (result:
    Result<KeyMaterial>)
    requires
        parameters.wf(),
    ensures
        exists|config: KeygenConfig|
            config.party_weights@ == party_weights@ && config.threshold_weight == threshold_weight
                && #[trigger] is_keygen_outcome(parameters, &config, result) && is_system_keygen(
                parameters,
                &config,
                result,
            ),
{
    let mut rng = SystemRng::new();
    let config = KeygenConfig::new(party_weights, threshold_weight);
    let ghost made_for = config;
    let result = keygen_with_rng(parameters, config, &mut rng);
    proof {
        lemma_drawn_since_start(rng.scalar_record());
        assert(are_keygen_draws(parameters, &made_for, rng.scalar_record(), result));
        assert(is_keygen_outcome(parameters, &made_for, result));
    }
    result
}

/// Parameters can be made for an index space of at least two indices whose points have
/// addresses, and for no other.
pub proof fn law_accepted_index_space(index_space_size: usize)
    ensures
        setup_defect(index_space_size) is None <==> {
            let n = index_space_size as int;
            &&& 2 <= n
            &&& 2 * n + 2 <= isize::MAX
            &&& n * size_of::<G1Point>() <= isize::MAX
            &&& 2 * n * size_of::<G2Point>() <= isize::MAX
            &&& (2 * n + 2) * size_of::<Fr>() <= isize::MAX
        },
        setup_defect(index_space_size) matches Some(error) ==> error == if index_space_size < 2 {
            Error::InvalidIndexSpace(index_space_size)
        } else {
            Error::ParameterSizeOverflow
        },
{
}

/// An accepted index space gets its parameters unless the source yields `u64::MAX` zeros, and
/// the points are the powers of the first draw that is not zero: all but one of `1..=2 n + 1`.
pub proof fn law_parameters_follow_their_draws(
    index_space_size: usize,
    draws: Seq<int>,
    result: Result<PublicParameters>,
)
    requires
        is_drawn_setup(index_space_size, draws, result),
        setup_defect(index_space_size) is None,
    ensures
        match result {
            Ok(parameters) => {
                let n = index_space_size as int;
                &&& parameters.index_space_size == n
                &&& parameters.g_powers@.len() == n
                &&& parameters.h_powers@.len() == 2 * n
                &&& draws.len() > 0
                &&& draws.last() != 0
                &&& forall|i: int| 0 <= i < draws.len() - 1 ==> #[trigger] draws[i] == 0
                &&& forall|i: int|
                    0 <= i < n ==> (#[trigger] parameters.g_powers@[i])@ == pow(
                        draws.last(),
                        (i + 1) as nat,
                    ) % order()
                &&& forall|i: int|
                    0 <= i < n ==> (#[trigger] parameters.h_powers@[i])@ == pow(
                        draws.last(),
                        (i + 1) as nat,
                    ) % order()
                &&& forall|i: int|
                    n <= i < 2 * n ==> (#[trigger] parameters.h_powers@[i])@ == pow(
                        draws.last(),
                        (i + 2) as nat,
                    ) % order()
            },
            Err(error) => {
                &&& error == Error::SamplingFailed
                &&& draws.len() == u64::MAX
                &&& forall|i: int| 0 <= i < draws.len() ==> #[trigger] draws[i] == 0
            },
        },
{
    match result {
        Ok(parameters) => {
            let n = index_space_size as int;
            let tau = draws.last();
            law_nonzero_draws(draws, tau, Seq::empty(), 0);
            let g = views(parameters.g_powers@);
            let h = views(parameters.h_powers@);
            assert forall|i: int| 0 <= i < n implies (#[trigger] parameters.g_powers@[i])@ == pow(
                tau,
                (i + 1) as nat,
            ) % order() by {
                assert(g[i] == power_range(tau, 1, n)[i]);
                assert(1 + i == i + 1);
            }
            assert forall|i: int| 0 <= i < n implies (#[trigger] parameters.h_powers@[i])@ == pow(
                tau,
                (i + 1) as nat,
            ) % order() by {
                assert(h[i] == power_range(tau, 1, n)[i]);
                assert(1 + i == i + 1);
            }
            assert forall|i: int| n <= i < 2 * n implies (#[trigger] parameters.h_powers@[i])@
                == pow(tau, (i + 2) as nat) % order() by {
                assert(h[i] == power_range(tau, n + 2, n)[i - n]);
                assert(n + 2 + (i - n) == i + 2);
            }
        },
        Err(_) => {
            law_only_zeros_exhaust_a_source(draws, 1);
        },
    }
}

/// A committee is accepted where every party has a weight, the weights add up to more than the
/// threshold, and there are a domain for them and addresses for the tables.
pub proof fn law_accepted_committee(parameters: &PublicParameters, config: &KeygenConfig)
    requires
        parameters.wf(),
    ensures
        keygen_defect(parameters, config) is None <==> {
            let n = parameters.index_space_size as int;
            let weights = config.party_weights@;
            let sum = total(weights);
            &&& 1 <= weights.len()
            &&& forall|i: int| 0 <= i < weights.len() ==> #[trigger] weights[i] > 0
            &&& config.threshold_weight < sum <= usize::MAX
            &&& exists|log: nat|
                {
                    &&& log <= 32
                    &&& sum <= #[trigger] pow2(log) <= usize::MAX
                    &&& pow2(log) == 1 || pow2(log) < 2 * sum
                    &&& pow2(log) * size_of::<Fr>() <= isize::MAX
                }
            &&& n * sum <= usize::MAX
            &&& n * sum * size_of::<G2Point>() <= isize::MAX
            &&& n * size_of::<G1Point>() <= isize::MAX
            &&& weights.len() * size_of::<G1Point>() <= isize::MAX
            &&& weights.len() + 1 <= usize::MAX
            &&& (weights.len() + 1) * size_of::<usize>() <= isize::MAX
        },
        keygen_defect(parameters, config) matches Some(
            Error::InvalidPartyWeight { party_index, weight },
        ) ==> {
            &&& weight == 0
            &&& party_index < config.party_weights@.len()
            &&& config.party_weights@[party_index as int] == 0
            &&& forall|i: int|
                0 <= i < party_index ==> #[trigger] config.party_weights@[i] > 0
        },
{
    let weights = config.party_weights@;
    let sum = total(weights);
    law_first_zero(weights, 0);
    assert(weights.len() == config.party_weights.len());
    if 0 < sum {
        law_has_domain(sum);
        if has_domain(sum) {
            let size = choose|size: int| #[trigger]
                is_domain_size(size) && is_share_domain(size, sum);
            lemma_domain_size(size, sum);
            let least = choose|log: nat| log <= 32 && size == #[trigger] pow2(log);
            assert(pow2(least) == size);
            assert forall|log: nat|
                log <= 32 && sum <= #[trigger] pow2(log) <= usize::MAX && (pow2(log) == 1 || pow2(
                    log,
                ) < 2 * sum) implies pow2(log) == size by {
                assert(is_domain_size(pow2(log) as int));
                lemma_domain_size(pow2(log) as int, sum);
            }
        }
    }
}

/// An accepted committee gets its keys unless the source ends with `u64::MAX` zeros.
pub proof fn law_keygen_fails_only_on_zeros(
    parameters: &PublicParameters,
    config: &KeygenConfig,
    draws: Seq<int>,
    result: Result<KeyMaterial>,
)
    requires
        are_keygen_draws(parameters, config, draws, result),
        keygen_defect(parameters, config) is None,
    ensures
        match result {
            Ok(_) => true,
            Err(error) => {
                &&& error == Error::SamplingFailed
                &&& draws.len() >= u64::MAX
                &&& forall|i: int|
                    draws.len() - u64::MAX <= i < draws.len() ==> #[trigger] draws[i] == 0
            },
        },
{
    if result is Err {
        law_only_zeros_exhaust_a_source(draws, 1);
        if !is_nonzero_draw(draws, None) {
            let parties = config.party_weights@.len() as int;
            let (sampled, secret, tail, rest) = choose|
                sampled: Seq<int>,
                secret: int,
                tail: Seq<int>,
                rest: Seq<int>,
            |
                #![trigger is_nonzero_draw(sampled, Some(secret)), sampled + tail + rest]
                {
                    &&& is_nonzero_draw(sampled, Some(secret))
                    &&& tail.len() == config.threshold_weight
                    &&& draws == sampled + tail + rest
                    &&& result == Err::<KeyMaterial, Error>(Error::SamplingFailed)
                    &&& are_nonzero_draws(rest, parties, None)
                };
            let before = sampled.len() + tail.len();
            law_only_zeros_exhaust_a_source(rest, parties);
            assert forall|i: int|
                draws.len() - u64::MAX <= i < draws.len() implies #[trigger] draws[i] == 0 by {
                assert(rest[i - before] == draws[i]);
            }
        }
    }
}

/// The master secret is the first draw that is not zero, the other coefficients of the sharing
/// polynomial are the draws behind it, and the masking scalars are the draws behind those that
/// are not zero, in their order: the public points, the parties' secrets and every masked
/// virtual share follow from them.
pub proof fn law_keys_follow_their_draws(
    parameters: &PublicParameters,
    config: &KeygenConfig,
    draws: Seq<int>,
    material: KeyMaterial,
)
    requires
        parameters.wf(),
        are_keygen_draws(parameters, config, draws, Ok(material)),
    ensures
        exists|place: int|
            {
                let weights = config.party_weights@;
                let key = material.public_key;
                let end = place + 1 + config.threshold_weight;
                let secret = #[trigger] draws[place];
                let sks = draws.skip(end).filter(|draw: int| draw != 0);
                &&& 0 <= place
                &&& end + weights.len() <= draws.len()
                &&& draws.last() != 0
                &&& secret != 0
                &&& forall|i: int| 0 <= i < place ==> #[trigger] draws[i] == 0
                &&& sks.len() == material.party_keys@.len() == weights.len()
                &&& forall|i: int|
                    0 <= i < parameters.index_space_size ==> (#[trigger] key.deltas@[i])@ == (
                    parameters.g_powers@[i]@ * secret) % order()
                &&& forall|j: int|
                    0 <= j < weights.len() ==> #[trigger] cong(
                        material.party_keys@[j].inverse_scalar@ * sks[j],
                        1,
                    )
                &&& forall|j: int, k: int|
                    0 <= j < weights.len() && offset(weights, j) <= k < offset(weights, j + 1)
                        ==> #[trigger] cong(
                        key.gamma@[k]@ * material.party_keys@[j].inverse_scalar@,
                        parameters.h_log(parameters.index_space_size + 2) * eval(
                            draws.subrange(place, end),
                            pow(size_root(key.domain_size as int), k as nat) % order(),
                        ),
                    )
            },
{
    let weights = config.party_weights@;
    let key = material.public_key;
    let parties = weights.len() as int;
    let sum = total(weights);
    let n = parameters.index_space_size as int;
    law_accepted_committee(parameters, config);
    let (sampled, secret, tail, rest) = choose|
        sampled: Seq<int>,
        secret: int,
        tail: Seq<int>,
        rest: Seq<int>,
    |
        #![trigger is_nonzero_draw(sampled, Some(secret)), sampled + tail + rest]
        {
            &&& is_nonzero_draw(sampled, Some(secret))
            &&& tail.len() == config.threshold_weight
            &&& draws == sampled + tail + rest
            &&& are_nonzero_draws(rest, parties, Some(kept(rest)))
            &&& material.is_generated(parameters, config, seq![secret] + tail, kept(rest))
        };
    let place = sampled.len() - 1;
    let end = place + 1 + config.threshold_weight;
    let sks = kept(rest);
    let coefficients = seq![secret] + tail;
    let z = share_values(coefficients, key.domain_size as int, sum);
    law_nonzero_draws(sampled, secret, Seq::empty(), 0);
    law_nonzero_draws(rest, 0, sks, parties);
    rest.lemma_filter_len(|draw: int| draw != 0);
    assert(draws[place] == secret);
    assert(draws.skip(end) =~= rest);
    assert(draws.subrange(place, end) =~= coefficients);
    assert(rest.last() == draws.last());
    assert forall|i: int| 0 <= i < place implies #[trigger] draws[i] == 0 by {
        assert(sampled[i] == 0);
    }
    assert forall|j: int| 0 <= j < weights.len() implies #[trigger] cong(
        material.party_keys@[j].inverse_scalar@ * sks[j],
        1,
    ) by {
        assert(is_unit(sks[j]));
        lemma_inv(sks[j]);
        assert(material.party_keys@[j].inverse_scalar@ == inv(sks[j]));
        assert(inv(sks[j]) * sks[j] == sks[j] * inv(sks[j])) by (nonlinear_arith);
    }
    assert forall|j: int, k: int|
        0 <= j < weights.len() && offset(weights, j) <= k < offset(
            weights,
            j + 1,
        ) implies #[trigger] cong(
        key.gamma@[k]@ * material.party_keys@[j].inverse_scalar@,
        parameters.h_log(n + 2) * eval(
            coefficients,
            pow(size_root(key.domain_size as int), k as nat) % order(),
        ),
    ) by {
        lemma_owner(weights, j, k);
        lemma_offset_order(weights, 0, j);
        lemma_offset_order(weights, j + 1, parties);
        let s = sks[j];
        let h = parameters.h_log(n + 2);
        let value = eval(coefficients, pow(size_root(key.domain_size as int), k as nat) % order());
        let items = views(key.gamma@);
        let masked = masked_shares(z, weights, sks);
        lemma_cell(sum, n, 0, k);
        assert(0 * sum + k == k);
        assert(cell(items, sum, 0, k) == items[k]);
        assert(is_unit(s));
        lemma_inv(s);
        assert(material.party_keys@[j].inverse_scalar@ == inv(s));
        assert(n + 2 + 0 == n + 2);
        assert(items[k] == (h * masked[k]) % order());
        assert(masked[k] == (z[k] * s) % order());
        assert(z[k] == value % order());
        // taking the masking scalar off again
        lemma_reduce(h * masked[k]);
        lemma_reduce(z[k] * s);
        lemma_reduce(value);
        lemma_cong_mul(h, h, masked[k], z[k] * s);
        lemma_cong_mul(items[k], h * (z[k] * s), inv(s), inv(s));
        lemma_cong_mul(z[k], value, s * inv(s), 1);
        lemma_cong_mul(h, h, z[k] * (s * inv(s)), value * 1);
        assert(h * (z[k] * s) * inv(s) == h * (z[k] * (s * inv(s)))) by (nonlinear_arith);
    }
}

/// The identifier of parameters is the digest of some string, and that string determines the
/// index space and the points.
pub proof fn law_crs_id_is_bound(
    size_a: int,
    g_a: Seq<int>,
    h_a: Seq<int>,
    size_b: int,
    g_b: Seq<int>,
    h_b: Seq<int>,
)
    requires
        0 <= size_a < 0x1_0000_0000_0000_0000,
        0 <= size_b < 0x1_0000_0000_0000_0000,
        g_a.len() < 0x1_0000_0000_0000_0000,
        g_b.len() < 0x1_0000_0000_0000_0000,
        forall|i: int| 0 <= i < g_a.len() ==> is_g1_sized(#[trigger] g_a[i]),
        forall|i: int| 0 <= i < g_b.len() ==> is_g1_sized(#[trigger] g_b[i]),
        forall|i: int| 0 <= i < h_a.len() ==> is_g2_sized(#[trigger] h_a[i]),
        forall|i: int| 0 <= i < h_b.len() ==> is_g2_sized(#[trigger] h_b[i]),
    ensures
        exists|s: Seq<u8>, t: Seq<u8>|
            {
                &&& crs_id_of(size_a, g_a, h_a) == #[trigger] sha256(s)
                &&& crs_id_of(size_b, g_b, h_b) == #[trigger] sha256(t)
                &&& s == "WEIGHTED-INDEXED-BTE-CRS-ID-BLS12381-v1".spec_bytes() + le_bytes(
                    size_a,
                    8,
                ) + le_bytes(g_a.len() as int, 8) + g1_encoding(g_a) + le_bytes(
                    h_a.len() as int,
                    8,
                ) + g2_encoding(h_a)
                &&& s == t ==> {
                    &&& size_a == size_b
                    &&& g_a.len() == g_b.len()
                    &&& h_a.len() == h_b.len()
                    &&& forall|i: int|
                        0 <= i < g_a.len() ==> g1_compressed(#[trigger] g_a[i]) == g1_compressed(
                            g_b[i],
                        )
                    &&& forall|i: int|
                        0 <= i < h_a.len() ==> g2_compressed(#[trigger] h_a[i]) == g2_compressed(
                            h_b[i],
                        )
                }
            },
{
    let tag = "WEIGHTED-INDEXED-BTE-CRS-ID-BLS12381-v1".spec_bytes();
    let (a1, b1) = (le_bytes(size_a, 8), le_bytes(size_b, 8));
    let (a2, b2) = (le_bytes(g_a.len() as int, 8), le_bytes(g_b.len() as int, 8));
    let (a3, b3) = (g1_encoding(g_a), g1_encoding(g_b));
    let (a4, b4) = (le_bytes(h_a.len() as int, 8), le_bytes(h_b.len() as int, 8));
    let (a5, b5) = (g2_encoding(h_a), g2_encoding(h_b));
    let s = tag + a1 + a2 + a3 + a4 + a5;
    let t = tag + b1 + b2 + b3 + b4 + b5;
    if s == t {
        lemma_le_digits(size_a, 8);
        lemma_le_digits(size_b, 8);
        lemma_le_digits(g_a.len() as int, 8);
        lemma_le_digits(g_b.len() as int, 8);
        lemma_le_digits(h_a.len() as int, 8);
        lemma_le_digits(h_b.len() as int, 8);
        law_g1_encoding(g_a, g_b);
        law_g1_encoding(g_b, g_a);
        law_g2_encoding(h_a, h_b);
        assert(s =~= (tag + a1 + a2) + (a3 + (a4 + a5)));
        assert(t =~= (tag + b1 + b2) + (b3 + (b4 + b5)));
        lemma_same_parts(tag + a1 + a2, a3 + (a4 + a5), tag + b1 + b2, b3 + (b4 + b5));
        lemma_same_parts(tag + a1, a2, tag + b1, b2);
        lemma_same_parts(tag, a1, tag, b1);
        lemma_same_digits(size_a, size_b);
        lemma_same_digits(g_a.len() as int, g_b.len() as int);
        lemma_same_parts(a3, a4 + a5, b3, b4 + b5);
        lemma_same_parts(a4, a5, b4, b5);
    }
    assert(crs_id_of(size_a, g_a, h_a) == sha256(s));
    assert(crs_id_of(size_b, g_b, h_b) == sha256(t));
}

impl SetupMaterial {
    /// Whether the numbers, the lists and the encodings are as large as they are in a
    /// committee's key.
    pub open spec fn is_sized(self) -> bool {
        let limit: int = 0x1_0000_0000_0000_0000;
        &&& self.crs_id.len() == 32
        &&& 0 <= self.index_space_size < limit
        &&& 0 <= self.threshold_weight < limit
        &&& 0 <= self.domain_size < limit
        &&& self.party_weights.len() < limit
        &&& self.party_offsets.len() < limit
        &&& self.evaluation_domain.len() < limit
        &&& self.deltas.len() < limit
        &&& self.inverse_public_keys.len() < limit
        &&& forall|i: int|
            0 <= i < self.evaluation_domain.len() ==> 0 <= #[trigger] self.evaluation_domain[i]
                < order()
        &&& forall|i: int| 0 <= i < self.deltas.len() ==> is_g1_sized(#[trigger] self.deltas[i])
        &&& forall|i: int|
            0 <= i < self.inverse_public_keys.len() ==> is_g1_sized(
                #[trigger] self.inverse_public_keys[i],
            )
        &&& forall|i: int| 0 <= i < self.gamma.len() ==> is_g2_sized(#[trigger] self.gamma[i])
    }
}

/// The identifier of a committee's key is the digest of some string, and that string
/// determines all public material.
pub proof fn law_setup_id_is_bound(a: SetupMaterial, b: SetupMaterial)
    requires
        a.is_sized(),
        b.is_sized(),
    ensures
        exists|s: Seq<u8>, t: Seq<u8>|
            {
                &&& setup_id_of(a) == #[trigger] sha256(s)
                &&& setup_id_of(b) == #[trigger] sha256(t)
                &&& s == "WEIGHTED-INDEXED-BTE-SETUP-ID-BLS12381-v1".spec_bytes() + a.crs_id
                    + le_bytes(a.index_space_size, 8) + le_bytes(a.threshold_weight, 8) + le_bytes(
                    a.domain_size,
                    8,
                ) + le_bytes(a.party_weights.len() as int, 8) + numbers_encoding(a.party_weights)
                    + le_bytes(a.party_offsets.len() as int, 8) + numbers_encoding(a.party_offsets)
                    + le_bytes(a.evaluation_domain.len() as int, 8) + scalars_encoding(
                    a.evaluation_domain,
                ) + le_bytes(a.deltas.len() as int, 8) + g1_encoding(a.deltas) + le_bytes(
                    a.inverse_public_keys.len() as int,
                    8,
                ) + g1_encoding(a.inverse_public_keys) + le_bytes(a.gamma.len() as int, 8)
                    + g2_encoding(a.gamma)
                &&& s == t ==> {
                    &&& a.crs_id == b.crs_id
                    &&& a.index_space_size == b.index_space_size
                    &&& a.threshold_weight == b.threshold_weight
                    &&& a.domain_size == b.domain_size
                    &&& a.party_weights == b.party_weights
                    &&& a.party_offsets == b.party_offsets
                    &&& a.evaluation_domain == b.evaluation_domain
                    &&& a.deltas.len() == b.deltas.len()
                    &&& forall|i: int|
                        #![trigger a.deltas[i]]
                        0 <= i < a.deltas.len() ==> g1_compressed(a.deltas[i]) == g1_compressed(
                            b.deltas[i],
                        )
                    &&& a.inverse_public_keys.len() == b.inverse_public_keys.len()
                    &&& forall|i: int|
                        #![trigger a.inverse_public_keys[i]]
                        0 <= i < a.inverse_public_keys.len() ==> g1_compressed(
                            a.inverse_public_keys[i],
                        ) == g1_compressed(b.inverse_public_keys[i])
                    &&& a.gamma.len() == b.gamma.len()
                    &&& forall|i: int|
                        #![trigger a.gamma[i]]
                        0 <= i < a.gamma.len() ==> g2_compressed(a.gamma[i]) == g2_compressed(
                            b.gamma[i],
                        )
                }
            },
{
    let s = a.string();
    let t = b.string();
    if s == t {
        let ha = a.head();
        let hb = b.head();
        lemma_setup_string(a);
        lemma_setup_string(b);
        lemma_setup_head(a, b);
        lemma_same_parts(ha, a.lists(), hb, b.lists());
        lemma_same_head(a, b);
        lemma_same_lists(a, b);
    }
    assert(setup_id_of(a) == sha256(s));
    assert(setup_id_of(b) == sha256(t));
}

impl SetupMaterial {
    /// The string that the identifier is the digest of.
    spec fn string(self) -> Seq<u8> {
        "WEIGHTED-INDEXED-BTE-SETUP-ID-BLS12381-v1".spec_bytes() + self.crs_id + le_bytes(
            self.index_space_size,
            8,
        ) + le_bytes(self.threshold_weight, 8) + le_bytes(self.domain_size, 8) + le_bytes(
            self.party_weights.len() as int,
            8,
        ) + numbers_encoding(self.party_weights) + le_bytes(self.party_offsets.len() as int, 8)
            + numbers_encoding(self.party_offsets) + le_bytes(
            self.evaluation_domain.len() as int,
            8,
        ) + scalars_encoding(self.evaluation_domain) + le_bytes(self.deltas.len() as int, 8)
            + g1_encoding(self.deltas) + le_bytes(self.inverse_public_keys.len() as int, 8)
            + g1_encoding(self.inverse_public_keys) + le_bytes(self.gamma.len() as int, 8)
            + g2_encoding(self.gamma)
    }

    /// Its part of a fixed length.
    spec fn head(self) -> Seq<u8> {
        "WEIGHTED-INDEXED-BTE-SETUP-ID-BLS12381-v1".spec_bytes() + self.crs_id + le_bytes(
            self.index_space_size,
            8,
        ) + le_bytes(self.threshold_weight, 8) + le_bytes(self.domain_size, 8)
    }

    /// The lists, each with its length before it.
    spec fn lists(self) -> Seq<u8> {
        le_bytes(self.party_weights.len() as int, 8) + (numbers_encoding(self.party_weights) + (
        le_bytes(self.party_offsets.len() as int, 8) + (numbers_encoding(self.party_offsets) + (
        le_bytes(self.evaluation_domain.len() as int, 8) + (scalars_encoding(
            self.evaluation_domain,
        ) + self.points())))))
    }

    /// The lists of points.
    spec fn points(self) -> Seq<u8> {
        le_bytes(self.deltas.len() as int, 8) + (g1_encoding(self.deltas) + (le_bytes(
            self.inverse_public_keys.len() as int,
            8,
        ) + (g1_encoding(self.inverse_public_keys) + (le_bytes(self.gamma.len() as int, 8)
            + g2_encoding(self.gamma)))))
    }
}

proof fn lemma_regroup(a: Seq<u8>, b: Seq<u8>, c: Seq<u8>)
    ensures
        a + b + c == a + (b + c),
{
    assert(a + b + c =~= a + (b + c));
}

/// The string is its part of a fixed length and the lists.
proof fn lemma_setup_string(m: SetupMaterial)
    ensures
        m.string() == m.head() + m.lists(),
{
    let h0 = m.head();
    let p1 = le_bytes(m.party_weights.len() as int, 8);
    let p2 = numbers_encoding(m.party_weights);
    let p3 = le_bytes(m.party_offsets.len() as int, 8);
    let p4 = numbers_encoding(m.party_offsets);
    let p5 = le_bytes(m.evaluation_domain.len() as int, 8);
    let p6 = scalars_encoding(m.evaluation_domain);
    let p7 = le_bytes(m.deltas.len() as int, 8);
    let p8 = g1_encoding(m.deltas);
    let p9 = le_bytes(m.inverse_public_keys.len() as int, 8);
    let p10 = g1_encoding(m.inverse_public_keys);
    let p11 = le_bytes(m.gamma.len() as int, 8);
    let p12 = g2_encoding(m.gamma);
    let h1 = h0 + p1;
    let h2 = h1 + p2;
    let h3 = h2 + p3;
    let h4 = h3 + p4;
    let h5 = h4 + p5;
    let h6 = h5 + p6;
    let h7 = h6 + p7;
    let h8 = h7 + p8;
    let h9 = h8 + p9;
    let h10 = h9 + p10;
    let h11 = h10 + p11;
    let h12 = h11 + p12;
    let r11 = p12;
    let r10 = p11 + r11;
    let r9 = p10 + r10;
    let r8 = p9 + r9;
    let r7 = p8 + r8;
    let r6 = p7 + r7;
    let r5 = p6 + r6;
    let r4 = p5 + r5;
    let r3 = p4 + r4;
    let r2 = p3 + r3;
    let r1 = p2 + r2;
    let r0 = p1 + r1;
    assert(m.string() == h12);
    assert(m.lists() == r0);
    lemma_regroup(h10, p11, r11);
    lemma_regroup(h9, p10, r10);
    lemma_regroup(h8, p9, r9);
    lemma_regroup(h7, p8, r8);
    lemma_regroup(h6, p7, r7);
    lemma_regroup(h5, p6, r6);
    lemma_regroup(h4, p5, r5);
    lemma_regroup(h3, p4, r4);
    lemma_regroup(h2, p3, r3);
    lemma_regroup(h1, p2, r2);
    lemma_regroup(h0, p1, r1);
}

proof fn lemma_setup_head(a: SetupMaterial, b: SetupMaterial)
    requires
        a.is_sized(),
        b.is_sized(),
    ensures
        a.head().len() == b.head().len(),
{
    lemma_le_digits(a.index_space_size, 8);
    lemma_le_digits(b.index_space_size, 8);
    lemma_le_digits(a.threshold_weight, 8);
    lemma_le_digits(b.threshold_weight, 8);
    lemma_le_digits(a.domain_size, 8);
    lemma_le_digits(b.domain_size, 8);
}

proof fn lemma_same_head(a: SetupMaterial, b: SetupMaterial)
    requires
        a.is_sized(),
        b.is_sized(),
        a.head() == b.head(),
    ensures
        a.crs_id == b.crs_id,
        a.index_space_size == b.index_space_size,
        a.threshold_weight == b.threshold_weight,
        a.domain_size == b.domain_size,
{
    let tag = "WEIGHTED-INDEXED-BTE-SETUP-ID-BLS12381-v1".spec_bytes();
    let (a1, b1) = (le_bytes(a.index_space_size, 8), le_bytes(b.index_space_size, 8));
    let (a2, b2) = (le_bytes(a.threshold_weight, 8), le_bytes(b.threshold_weight, 8));
    let (a3, b3) = (le_bytes(a.domain_size, 8), le_bytes(b.domain_size, 8));
    lemma_le_digits(a.index_space_size, 8);
    lemma_le_digits(b.index_space_size, 8);
    lemma_le_digits(a.threshold_weight, 8);
    lemma_le_digits(b.threshold_weight, 8);
    lemma_le_digits(a.domain_size, 8);
    lemma_le_digits(b.domain_size, 8);
    lemma_same_parts(tag + a.crs_id + a1 + a2, a3, tag + b.crs_id + b1 + b2, b3);
    lemma_same_parts(tag + a.crs_id + a1, a2, tag + b.crs_id + b1, b2);
    lemma_same_parts(tag + a.crs_id, a1, tag + b.crs_id, b1);
    lemma_same_parts(tag, a.crs_id, tag, b.crs_id);
    lemma_same_digits(a.index_space_size, b.index_space_size);
    lemma_same_digits(a.threshold_weight, b.threshold_weight);
    lemma_same_digits(a.domain_size, b.domain_size);
}

/// A list behind its length ends where the length says.
proof fn lemma_same_list(n: int, a: Seq<u8>, x: Seq<u8>, m: int, b: Seq<u8>, y: Seq<u8>)
    requires
        0 <= n < 0x1_0000_0000_0000_0000,
        0 <= m < 0x1_0000_0000_0000_0000,
        le_bytes(n, 8) + (a + x) == le_bytes(m, 8) + (b + y),
        n == m ==> a.len() == b.len(),
    ensures
        n == m,
        a == b,
        x == y,
{
    lemma_le_digits(n, 8);
    lemma_le_digits(m, 8);
    lemma_same_parts(le_bytes(n, 8), a + x, le_bytes(m, 8), b + y);
    lemma_same_digits(n, m);
    lemma_same_parts(a, x, b, y);
}

proof fn lemma_same_lists(a: SetupMaterial, b: SetupMaterial)
    requires
        a.is_sized(),
        b.is_sized(),
        a.lists() == b.lists(),
    ensures
        a.party_weights == b.party_weights,
        a.party_offsets == b.party_offsets,
        a.evaluation_domain == b.evaluation_domain,
        a.deltas.len() == b.deltas.len(),
        forall|i: int|
            #![trigger a.deltas[i]]
            0 <= i < a.deltas.len() ==> g1_compressed(a.deltas[i]) == g1_compressed(b.deltas[i]),
        a.inverse_public_keys.len() == b.inverse_public_keys.len(),
        forall|i: int|
            #![trigger a.inverse_public_keys[i]]
            0 <= i < a.inverse_public_keys.len() ==> g1_compressed(a.inverse_public_keys[i])
                == g1_compressed(b.inverse_public_keys[i]),
        a.gamma.len() == b.gamma.len(),
        forall|i: int|
            #![trigger a.gamma[i]]
            0 <= i < a.gamma.len() ==> g2_compressed(a.gamma[i]) == g2_compressed(b.gamma[i]),
{
    let (e2, f2) = (
        le_bytes(a.evaluation_domain.len() as int, 8) + (scalars_encoding(a.evaluation_domain)
            + a.points()),
        le_bytes(b.evaluation_domain.len() as int, 8) + (scalars_encoding(b.evaluation_domain)
            + b.points()),
    );
    let (e1, f1) = (
        le_bytes(a.party_offsets.len() as int, 8) + (numbers_encoding(a.party_offsets) + e2),
        le_bytes(b.party_offsets.len() as int, 8) + (numbers_encoding(b.party_offsets) + f2),
    );
    law_numbers_encoding(a.party_weights, b.party_weights);
    law_numbers_encoding(b.party_weights, a.party_weights);
    lemma_same_list(
        a.party_weights.len() as int,
        numbers_encoding(a.party_weights),
        e1,
        b.party_weights.len() as int,
        numbers_encoding(b.party_weights),
        f1,
    );
    law_numbers_encoding(a.party_offsets, b.party_offsets);
    law_numbers_encoding(b.party_offsets, a.party_offsets);
    lemma_same_list(
        a.party_offsets.len() as int,
        numbers_encoding(a.party_offsets),
        e2,
        b.party_offsets.len() as int,
        numbers_encoding(b.party_offsets),
        f2,
    );
    law_scalars_encoding(a.evaluation_domain, b.evaluation_domain);
    law_scalars_encoding(b.evaluation_domain, a.evaluation_domain);
    lemma_same_list(
        a.evaluation_domain.len() as int,
        scalars_encoding(a.evaluation_domain),
        a.points(),
        b.evaluation_domain.len() as int,
        scalars_encoding(b.evaluation_domain),
        b.points(),
    );
    let (e4, f4) = (
        le_bytes(a.gamma.len() as int, 8) + g2_encoding(a.gamma),
        le_bytes(b.gamma.len() as int, 8) + g2_encoding(b.gamma),
    );
    let (e3, f3) = (
        le_bytes(a.inverse_public_keys.len() as int, 8) + (g1_encoding(a.inverse_public_keys)
            + e4),
        le_bytes(b.inverse_public_keys.len() as int, 8) + (g1_encoding(b.inverse_public_keys)
            + f4),
    );
    law_g1_encoding(a.deltas, b.deltas);
    law_g1_encoding(b.deltas, a.deltas);
    lemma_same_list(
        a.deltas.len() as int,
        g1_encoding(a.deltas),
        e3,
        b.deltas.len() as int,
        g1_encoding(b.deltas),
        f3,
    );
    law_g1_encoding(a.inverse_public_keys, b.inverse_public_keys);
    law_g1_encoding(b.inverse_public_keys, a.inverse_public_keys);
    lemma_same_list(
        a.inverse_public_keys.len() as int,
        g1_encoding(a.inverse_public_keys),
        e4,
        b.inverse_public_keys.len() as int,
        g1_encoding(b.inverse_public_keys),
        f4,
    );
    lemma_le_digits(a.gamma.len() as int, 8);
    lemma_le_digits(b.gamma.len() as int, 8);
    lemma_same_parts(
        le_bytes(a.gamma.len() as int, 8),
        g2_encoding(a.gamma),
        le_bytes(b.gamma.len() as int, 8),
        g2_encoding(b.gamma),
    );
    law_g2_encoding(a.gamma, b.gamma);
}

/// A committee that is refused has the fault that it is refused for.
pub proof fn law_refused_committee(parameters: &PublicParameters, config: &KeygenConfig)
    requires
        parameters.wf(),
    ensures
        ({
            let n = parameters.index_space_size as int;
            let weights = config.party_weights@;
            let sum = total(weights);
            match keygen_defect(parameters, config) {
                None => true,
                Some(Error::EmptyCommittee) => weights.len() == 0,
                Some(Error::InvalidPartyWeight { party_index, weight }) => weight == 0
                    && party_index < weights.len() && weights[party_index as int] == 0,
                Some(Error::TotalWeightOverflow) => sum > usize::MAX,
                Some(
                    Error::InvalidCommittee { party_count, total_weight, threshold_weight },
                ) => party_count == weights.len() && total_weight == sum && threshold_weight
                    == config.threshold_weight && threshold_weight >= total_weight,
                Some(Error::InvalidEvaluationDomain { total_weight }) => total_weight == sum
                    && forall|log: nat|
                    log <= 32 && #[trigger] pow2(log) <= usize::MAX ==> pow2(log) < sum,
                Some(Error::ParameterSizeOverflow) => {
                    ||| n * sum > usize::MAX
                    ||| n * sum * size_of::<G2Point>() > isize::MAX
                    ||| n * size_of::<G1Point>() > isize::MAX
                    ||| weights.len() * size_of::<G1Point>() > isize::MAX
                    ||| domain_size_of(sum) * size_of::<Fr>() > isize::MAX
                    ||| weights.len() + 1 > usize::MAX
                    ||| (weights.len() + 1) * size_of::<usize>() > isize::MAX
                },
                Some(_) => false,
            }
        }),
{
    let weights = config.party_weights@;
    let sum = total(weights);
    law_first_zero(weights, 0);
    assert(weights.len() == config.party_weights.len());
    lemma_total_positive(weights);
    if sum > 0 {
        law_has_domain(sum);
    }
}

/// Parameters and keys carry the identifiers of what they hold: those of parameters are computed
/// from their points, and all keys of a committee carry the one of its public key.
pub proof fn law_keys_carry_their_setup(
    material: &KeyMaterial,
    parameters: &PublicParameters,
    config: &KeygenConfig,
    tau: int,
    coefficients: Seq<int>,
    sks: Seq<int>,
)
    requires
        parameters.is_generated(tau),
        material.is_generated(parameters, config, coefficients, sks),
    ensures
        parameters.crs_id@ == crs_id_of(
            parameters.index_space_size as int,
            views(parameters.g_powers@),
            views(parameters.h_powers@),
        ),
        material.public_key.crs_id@ == parameters.crs_id@,
        material.public_key.setup_id@ == setup_id_of(
            SetupMaterial {
                crs_id: parameters.crs_id@,
                index_space_size: parameters.index_space_size as int,
                threshold_weight: config.threshold_weight as int,
                domain_size: material.public_key.domain_size as int,
                party_weights: config.party_weights@,
                party_offsets: material.public_key.party_offsets@,
                evaluation_domain: views(material.public_key.evaluation_domain@),
                deltas: views(material.public_key.deltas@),
                inverse_public_keys: views(material.public_key.inverse_public_keys@),
                gamma: views(material.public_key.gamma@),
            },
        ),
        forall|j: int|
            0 <= j < config.party_weights@.len() ==> (
            #[trigger] material.party_keys@[j]).setup_id@ == material.public_key.setup_id@,
{
}

} // verus!
