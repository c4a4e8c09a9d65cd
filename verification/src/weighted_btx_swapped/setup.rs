//! Trusted-dealer setup and weighted Shamir sharing.
use vstd::arithmetic::power::{lemma_pow1, lemma_pow_adds, pow};
use vstd::arithmetic::power2::pow2;
use vstd::layout::size_of;
use vstd::prelude::*;
use vstd::slice::slice_subrange;
use vstd::string::StringSliceAdditionalSpecFns;

use crate::algebra::lagrange::eval;
use crate::algebra::residue::{
    cong, inv, is_unit, lemma_cong_mul, lemma_inv, lemma_inv_unique, lemma_one, lemma_reduce,
    lemma_reduced, order,
};
use crate::bytes::{
    append, append_u64, le_bytes, lemma_le_digits, lemma_same_digits, lemma_same_parts,
};
use crate::curve::{g1_compressed, views, Element, Fr, G1Point, GtElement, ScalarRng, SystemRng};
use crate::encoding::{
    append_g1, append_numbers, g1_encoding, is_g1_sized, is_gt_sized, law_g1_encoding,
    law_numbers_encoding, lemma_same_gt, numbers_encoding,
};
use crate::fft::{size_root, Radix2Domain};
use crate::hash::{append_gt, digest, gt_encoding, sha256};
use crate::interpolation::root_points;
use crate::numbers::copy_numbers;
use crate::points::scalars_to_g1;
use crate::sampling::{
    are_nonzero_draws, draw, draw_nonzero, drawn_since, kept, law_kept_draws, law_nonzero_draws,
    law_only_zeros_exhaust_a_source, lemma_drawn_since_start,
};
use crate::weighted::{
    are_offsets, cell, evaluation_points, find_zero, first_zero, has_domain, is_share_domain,
    is_table, law_first_zero, law_has_domain, lemma_cell, lemma_offset_order, lemma_offset_step,
    lemma_owner, lemma_table_push, lemma_total_positive, offset, owner, owners_from_offsets,
    prefix_offsets, share_domain, share_evaluations, share_values, total, total_weight,
};
use crate::weighted_btx::error::{Error, Result};

verus! {

#[derive(Clone, Copy, Debug)]
pub struct EncryptionKey {
    pub max_batch_size: usize,
    pub element: GtElement,
    pub setup_id: [u8; 32],
}

/// Public decryption material. The large arrays are tables with one row for every
/// power, which holds the items of all parties or of all virtual shares.
#[derive(Clone, Debug)]
pub struct PublicDecryptionKey {
    pub setup_id: [u8; 32],
    pub max_batch_size: usize,
    pub threshold_weight: usize,
    pub total_weight: usize,
    pub domain_size: usize,
    pub party_weights: Vec<usize>,
    /// Where the virtual shares of every party begin, and the total weight.
    pub party_offsets: Vec<usize>,
    /// The first `total_weight` points of a domain of roots of unity.
    pub evaluation_domain: Vec<Fr>,
    /// The powers of the parties' secrets.
    pub verification_keys: Vec<G1Point>,
    /// The virtual shares over the powers of their owners' secrets.
    pub negative_material: Vec<G1Point>,
    /// The virtual shares times the powers of their owners' secrets.
    pub positive_material: Vec<G1Point>,
}

#[derive(Clone, Copy, Debug)]
pub struct PartySecretKey {
    pub party_index: usize,
    pub setup_id: [u8; 32],
    pub max_batch_size: usize,
    pub q: Fr,
}

#[derive(Clone, Debug)]
pub struct KeyMaterial {
    pub encryption_key: EncryptionKey,
    pub decryption_key: PublicDecryptionKey,
    pub party_keys: Vec<PartySecretKey>,
}

#[derive(Clone, Debug)]
pub struct KeygenConfig {
    pub max_batch_size: usize,
    pub party_weights: Vec<usize>,
    /// A set is authorized when its total weight is greater than this.
    pub threshold_weight: usize,
}

/// Whether so many items of a size can be addressed.
pub open spec fn is_addressable(left: int, right: int, item_size: int) -> bool {
    &&& left * right <= usize::MAX
    &&& left * right * item_size <= isize::MAX
}

impl KeygenConfig {
    pub fn new(max_batch_size: usize, party_weights: &[usize], threshold_weight: usize) -> (config:
        Self)
        ensures
            config.max_batch_size == max_batch_size,
            config.party_weights@ == party_weights@,
            config.threshold_weight == threshold_weight,
    {
        KeygenConfig {
            max_batch_size,
            party_weights: copy_numbers(party_weights),
            threshold_weight,
        }
    }

    /// Why a configuration is refused, where it is.
    pub open spec fn defect(&self) -> Option<Error> {
        let weights = self.party_weights@;
        let sum = total(weights);
        let batch = self.max_batch_size as int;
        let parties = weights.len() as int;
        if batch == 0 {
            Some(Error::BatchIsEmpty)
        } else if parties == 0 {
            Some(Error::EmptyCommittee)
        } else if first_zero(weights, 0) is Some {
            Some(
                Error::InvalidPartyWeight {
                    party_index: first_zero(weights, 0)->0 as usize,
                    weight: 0,
                },
            )
        } else if sum > usize::MAX {
            Some(Error::TotalWeightOverflow)
        } else if self.threshold_weight >= sum {
            Some(
                Error::InvalidCommittee {
                    party_count: parties as usize,
                    total_weight: sum as usize,
                    threshold_weight: self.threshold_weight,
                },
            )
        } else if !has_domain(sum) {
            Some(Error::InvalidEvaluationDomain { total_weight: sum as usize })
        } else if !self.fits() {
            Some(Error::ParameterSizeOverflow)
        } else {
            None
        }
    }

    /// Whether the tables of a key can be addressed.
    pub open spec fn fits(&self) -> bool {
        let sum = total(self.party_weights@);
        let batch = self.max_batch_size as int;
        let parties = self.party_weights@.len() as int;
        &&& is_addressable(batch, parties, size_of::<G1Point>() as int)
        &&& is_addressable(batch, sum, size_of::<G1Point>() as int)
        &&& is_addressable(batch - 1, sum, size_of::<G1Point>() as int)
        &&& is_addressable(batch, parties, size_of::<Fr>() as int)
    }
}

/// The number of items, where so many of the given size can be addressed.
fn checked_count(left: usize, right: usize, item_size: usize) -> (result: Result<usize>)
    ensures
        match result {
            Ok(count) => is_addressable(left as int, right as int, item_size as int) && count
                == left * right,
            Err(error) => !is_addressable(left as int, right as int, item_size as int) && error
                == Error::ParameterSizeOverflow,
        },
{
    let count = match left.checked_mul(right) {
        Some(count) => count,
        None => {
            return Err(Error::ParameterSizeOverflow);
        },
    };
    match count.checked_mul(item_size) {
        Some(bytes) => if bytes > isize::MAX as usize {
            Err(Error::ParameterSizeOverflow)
        } else {
            Ok(count)
        },
        None => Err(Error::ParameterSizeOverflow),
    }
}

pub fn checked_point_count(left: usize, right: usize) -> (result: Result<usize>)
    ensures
        match result {
            Ok(count) => is_addressable(left as int, right as int, size_of::<G1Point>() as int)
                && count == left * right,
            Err(error) => !is_addressable(left as int, right as int, size_of::<G1Point>() as int)
                && error == Error::ParameterSizeOverflow,
        },
{
    checked_count(left, right, core::mem::size_of::<G1Point>())
}

pub fn checked_scalar_count(left: usize, right: usize) -> (result: Result<usize>)
    ensures
        match result {
            Ok(count) => is_addressable(left as int, right as int, size_of::<Fr>() as int)
                && count == left * right,
            Err(error) => !is_addressable(left as int, right as int, size_of::<Fr>() as int)
                && error == Error::ParameterSizeOverflow,
        },
{
    checked_count(left, right, core::mem::size_of::<Fr>())
}

/// The sizes of a key.
#[derive(Clone, Copy, Debug)]
pub struct ValidatedDimensions {
    pub total_weight: usize,
    pub domain: Radix2Domain,
    pub verification_count: usize,
    pub negative_count: usize,
    pub positive_count: usize,
}

pub fn validate_config(config: &KeygenConfig) -> (result: Result<ValidatedDimensions>)
    ensures
        match result {
            Ok(dimensions) => {
                &&& config.defect() is None
                &&& dimensions.total_weight == total(config.party_weights@)
                &&& dimensions.domain.wf()
                &&& is_share_domain(
                    dimensions.domain.spec_size(),
                    dimensions.total_weight as int,
                )
                &&& dimensions.verification_count == config.max_batch_size
                    * config.party_weights@.len()
                &&& dimensions.negative_count == config.max_batch_size * dimensions.total_weight
                &&& dimensions.positive_count == (config.max_batch_size - 1)
                    * dimensions.total_weight
                &&& forall|i: int|
                    0 <= i < config.party_weights@.len() ==> (#[trigger] config.party_weights@[i])
                        > 0
            },
            Err(error) => config.defect() == Some(error),
        },
{
    if config.max_batch_size == 0 {
        return Err(Error::BatchIsEmpty);
    }
    if config.party_weights.len() == 0 {
        return Err(Error::EmptyCommittee);
    }
    if let Some(party_index) = find_zero(&config.party_weights) {
        return Err(Error::InvalidPartyWeight { party_index, weight: 0 });
    }
    let total_weight = match total_weight(&config.party_weights) {
        Some(sum) => sum,
        None => {
            return Err(Error::TotalWeightOverflow);
        },
    };
    if config.threshold_weight >= total_weight {
        return Err(
            Error::InvalidCommittee {
                party_count: config.party_weights.len(),
                total_weight,
                threshold_weight: config.threshold_weight,
            },
        );
    }
    let domain = match share_domain(total_weight) {
        Some(domain) => domain,
        None => {
            return Err(Error::InvalidEvaluationDomain { total_weight });
        },
    };
    let verification_count = checked_point_count(
        config.max_batch_size,
        config.party_weights.len(),
    )?;
    let negative_count = checked_point_count(config.max_batch_size, total_weight)?;
    let positive_count = checked_point_count(config.max_batch_size - 1, total_weight)?;
    let _ = checked_scalar_count(config.max_batch_size, config.party_weights.len())?;
    Ok(
        ValidatedDimensions {
            total_weight,
            domain,
            verification_count,
            negative_count,
            positive_count,
        },
    )
}

/// The powers of the parties' secrets: row `r` holds the powers `r + 1`.
pub open spec fn key_powers(bases: Seq<int>) -> spec_fn(int, int) -> int {
    |row: int, column: int| pow(bases[column], (row + 1) as nat) % order()
}

/// The virtual shares times powers of the bases of their owners.
pub open spec fn material(z: Seq<int>, weights: Seq<usize>, bases: Seq<int>) -> spec_fn(
    int,
    int,
) -> int {
    |row: int, column: int|
        (z[column] * pow(bases[owner(weights, column)], (row + 1) as nat)) % order()
}

/// The inverses of the parties' secrets.
pub open spec fn inverses(qs: Seq<int>) -> Seq<int> {
    Seq::new(qs.len(), |j: int| inv(qs[j]))
}

/// The identifier of a setup: the digest of its sizes, its element and the first
/// rows of its tables.
pub open spec fn setup_id_of(
    element: int,
    max_batch_size: int,
    threshold_weight: int,
    party_weights: Seq<usize>,
    first_verification: Seq<int>,
    first_negative: Seq<int>,
) -> Seq<u8> {
    sha256(
        "WEIGHTED-BTX-SWAPPED-SETUP-ID-v1".spec_bytes() + le_bytes(max_batch_size, 8) + le_bytes(
            threshold_weight,
            8,
        ) + le_bytes(party_weights.len() as int, 8) + numbers_encoding(party_weights)
            + gt_encoding(element) + g1_encoding(first_verification) + g1_encoding(first_negative),
    )
}

fn setup_identifier(
    element: &GtElement,
    max_batch_size: usize,
    threshold_weight: usize,
    party_weights: &Vec<usize>,
    first_verification: &[G1Point],
    first_negative: &[G1Point],
) -> (result: [u8; 32])
    ensures
        result@ == setup_id_of(
            element@,
            max_batch_size as int,
            threshold_weight as int,
            party_weights@,
            views(first_verification@),
            views(first_negative@),
        ),
{
    let mut bytes: Vec<u8> = Vec::new();
    append(&mut bytes, "WEIGHTED-BTX-SWAPPED-SETUP-ID-v1".as_bytes());
    append_u64(&mut bytes, max_batch_size as u64);
    append_u64(&mut bytes, threshold_weight as u64);
    append_u64(&mut bytes, party_weights.len() as u64);
    append_numbers(&mut bytes, party_weights.as_slice());
    append_gt(element, &mut bytes);
    append_g1(&mut bytes, first_verification);
    append_g1(&mut bytes, first_negative);
    proof {
        assert(bytes@ =~= "WEIGHTED-BTX-SWAPPED-SETUP-ID-v1".spec_bytes() + le_bytes(
            max_batch_size as int,
            8,
        ) + le_bytes(threshold_weight as int, 8) + le_bytes(party_weights@.len() as int, 8)
            + numbers_encoding(party_weights@) + gt_encoding(element@) + g1_encoding(
            views(first_verification@),
        ) + g1_encoding(views(first_negative@)));
    }
    digest(bytes.as_slice())
}

impl EncryptionKey {
    pub fn max_batch_size(&self) -> (result: usize)
        ensures
            result == self.max_batch_size,
    {
        self.max_batch_size
    }

    pub fn element(&self) -> (result: GtElement)
        ensures
            result == self.element,
    {
        self.element
    }

    pub fn setup_id(&self) -> (result: [u8; 32])
        ensures
            result == self.setup_id,
    {
        self.setup_id
    }
}

impl PublicDecryptionKey {
    /// What every key satisfies.
    pub open spec fn wf(&self) -> bool {
        let weights = self.party_weights@;
        &&& 1 <= self.max_batch_size
        &&& 1 <= weights.len()
        &&& self.total_weight == total(weights)
        &&& self.threshold_weight < self.total_weight
        &&& is_share_domain(self.domain_size as int, self.total_weight as int)
        &&& are_offsets(self.party_offsets@, weights)
        &&& views(self.evaluation_domain@) == root_points(
            self.domain_size as int,
            self.total_weight as int,
        )
        &&& self.verification_keys@.len() == self.max_batch_size * weights.len()
        &&& self.negative_material@.len() == self.max_batch_size * self.total_weight
        &&& self.positive_material@.len() == (self.max_batch_size - 1) * self.total_weight
    }

    /// The logarithm of a power of a party's secret.
    pub open spec fn verification_log(&self, party: int, power: int) -> int {
        cell(
            views(self.verification_keys@),
            self.party_weights@.len() as int,
            power - 1,
            party,
        )
    }

    /// The logarithm of a virtual share over a power of its owner's secret.
    pub open spec fn negative_log(&self, virtual_index: int, power: int) -> int {
        cell(
            views(self.negative_material@),
            self.total_weight as int,
            power - 1,
            virtual_index,
        )
    }

    /// The logarithm of a virtual share times a power of its owner's secret.
    pub open spec fn positive_log(&self, virtual_index: int, power: int) -> int {
        cell(
            views(self.positive_material@),
            self.total_weight as int,
            power - 1,
            virtual_index,
        )
    }

    /// The identifier of this setup.
    pub fn setup_id(&self) -> (result: [u8; 32])
        ensures
            result == self.setup_id,
    {
        self.setup_id
    }

    pub fn max_batch_size(&self) -> (result: usize)
        ensures
            result == self.max_batch_size,
    {
        self.max_batch_size
    }

    pub fn party_count(&self) -> (result: usize)
        ensures
            result == self.party_weights@.len(),
    {
        self.party_weights.len()
    }

    pub fn total_weight(&self) -> (result: usize)
        ensures
            result == self.total_weight,
    {
        self.total_weight
    }

    pub fn threshold_weight(&self) -> (result: usize)
        ensures
            result == self.threshold_weight,
    {
        self.threshold_weight
    }

    pub fn required_weight(&self) -> (result: usize)
        requires
            self.wf(),
        ensures
            result == self.threshold_weight + 1,
    {
        self.threshold_weight + 1
    }

    pub fn party_weights(&self) -> (result: &Vec<usize>)
        ensures
            *result == self.party_weights,
    {
        &self.party_weights
    }

    pub fn party_weight(&self, party_index: usize) -> (result: Result<usize>)
        ensures
            match result {
                Ok(weight) => party_index < self.party_weights@.len() && weight
                    == self.party_weights@[party_index as int],
                Err(error) => party_index >= self.party_weights@.len() && error
                    == Error::InvalidPartyIndex(party_index),
            },
    {
        if party_index >= self.party_weights.len() {
            return Err(Error::InvalidPartyIndex(party_index));
        }
        Ok(self.party_weights[party_index])
    }

    pub fn domain_points(&self) -> (result: &Vec<Fr>)
        ensures
            *result == self.evaluation_domain,
    {
        &self.evaluation_domain
    }

    pub fn domain_size(&self) -> (result: usize)
        ensures
            result == self.domain_size,
    {
        self.domain_size
    }

    /// The first of a party's virtual shares, and the one after its last.
    pub fn party_range(&self, party_index: usize) -> (result: Result<(usize, usize)>)
        requires
            self.wf(),
        ensures
            match result {
                Ok((start, end)) => {
                    &&& party_index < self.party_weights@.len()
                    &&& start == offset(self.party_weights@, party_index as int)
                    &&& end == start + self.party_weights@[party_index as int]
                    &&& end <= self.total_weight
                },
                Err(error) => party_index >= self.party_weights@.len() && error
                    == Error::InvalidPartyIndex(party_index),
            },
    {
        if party_index >= self.party_count() {
            return Err(Error::InvalidPartyIndex(party_index));
        }
        proof {
            lemma_offset_step(self.party_weights@, party_index as int);
            lemma_offset_order(
                self.party_weights@,
                party_index + 1,
                self.party_weights@.len() as int,
            );
        }
        Ok((self.party_offsets[party_index], self.party_offsets[party_index + 1]))
    }

    /// A power of a party's secret.
    pub fn verification_key(&self, party_index: usize, power: usize) -> (result: Result<G1Point>)
        requires
            self.wf(),
        ensures
            match result {
                Ok(point) => party_index < self.party_weights@.len() && 1 <= power
                    <= self.max_batch_size && point@ == self.verification_log(
                    party_index as int,
                    power as int,
                ),
                Err(error) => if party_index >= self.party_weights@.len() {
                    error == Error::InvalidPartyIndex(party_index)
                } else {
                    !(1 <= power <= self.max_batch_size) && error == (Error::InvalidPower {
                        power,
                        max_power: self.max_batch_size,
                    })
                },
            },
    {
        if party_index >= self.party_count() {
            return Err(Error::InvalidPartyIndex(party_index));
        }
        validate_power(power, self.max_batch_size)?;
        proof {
            lemma_cell(
                self.party_weights@.len() as int,
                self.max_batch_size as int,
                power - 1,
                party_index as int,
            );
        }
        let bound = self.verification_keys.len();
        Ok(self.verification_keys[(power - 1) * self.party_count() + party_index])
    }

    /// The virtual shares over a power of their owners' secrets.
    pub fn negative_power(&self, power: usize) -> (result: Result<Vec<G1Point>>)
        requires
            self.wf(),
        ensures
            match result {
                Ok(points) => {
                    &&& 1 <= power <= self.max_batch_size
                    &&& points@.len() == self.total_weight
                    &&& forall|i: int|
                        0 <= i < self.total_weight ==> (#[trigger] points@[i])@
                            == self.negative_log(i, power as int)
                },
                Err(error) => !(1 <= power <= self.max_batch_size) && error
                    == (Error::InvalidPower { power, max_power: self.max_batch_size }),
            },
    {
        validate_power(power, self.max_batch_size)?;
        Ok(row(&self.negative_material, self.total_weight, self.max_batch_size, power - 1))
    }

    /// The verification keys of all parties for a power.
    pub fn verification_power(&self, power: usize) -> (result: Result<Vec<G1Point>>)
        requires
            self.wf(),
        ensures
            match result {
                Ok(points) => {
                    &&& 1 <= power <= self.max_batch_size
                    &&& points@.len() == self.party_weights@.len()
                    &&& forall|party: int|
                        0 <= party < self.party_weights@.len() ==> (#[trigger] points@[party])@
                            == self.verification_log(party, power as int)
                },
                Err(error) => !(1 <= power <= self.max_batch_size) && error
                    == (Error::InvalidPower { power, max_power: self.max_batch_size }),
            },
    {
        validate_power(power, self.max_batch_size)?;
        Ok(row(&self.verification_keys, self.party_count(), self.max_batch_size, power - 1))
    }

    /// The virtual shares times a power of their owners' secrets.
    pub fn positive_power(&self, power: usize) -> (result: Result<Vec<G1Point>>)
        requires
            self.wf(),
        ensures
            match result {
                Ok(points) => {
                    &&& 1 <= power < self.max_batch_size
                    &&& points@.len() == self.total_weight
                    &&& forall|i: int|
                        0 <= i < self.total_weight ==> (#[trigger] points@[i])@
                            == self.positive_log(i, power as int)
                },
                Err(error) => !(1 <= power < self.max_batch_size) && error
                    == (Error::InvalidPower {
                    power,
                    max_power: (self.max_batch_size - 1) as usize,
                }),
            },
    {
        let max_power: usize = self.max_batch_size - 1;
        validate_power(power, max_power)?;
        Ok(row(&self.positive_material, self.total_weight, max_power, power - 1))
    }
}

/// A row of a table.
pub fn row(items: &Vec<G1Point>, width: usize, rows: usize, number: usize) -> (result: Vec<G1Point>)
    requires
        items@.len() == rows * width,
        number < rows,
    ensures
        result@.len() == width,
        forall|i: int|
            0 <= i < width ==> (#[trigger] result@[i])@ == cell(
                views(items@),
                width as int,
                number as int,
                i,
            ),
{
    let mut result: Vec<G1Point> = Vec::new();
    if width == 0 {
        return result;
    }
    let bound = items.len();
    proof {
        lemma_cell(width as int, rows as int, number as int, 0);
    }
    let start: usize = number * width;
    while result.len() < width
        invariant
            start == number * width,
            start + width <= items@.len() == bound,
            result@.len() <= width,
            forall|i: int|
                0 <= i < result@.len() ==> (#[trigger] result@[i])@ == cell(
                    views(items@),
                    width as int,
                    number as int,
                    i,
                ),
        decreases width - result@.len(),
    {
        result.push(items[start + result.len()]);
    }
    result
}

fn validate_power(power: usize, max_power: usize) -> (result: Result<()>)
    ensures
        match result {
            Ok(()) => 1 <= power <= max_power,
            Err(error) => !(1 <= power <= max_power) && error == (Error::InvalidPower {
                power,
                max_power,
            }),
        },
{
    if power == 0 || power > max_power {
        return Err(Error::InvalidPower { power, max_power });
    }
    Ok(())
}

impl PartySecretKey {
    pub fn setup_id(&self) -> (result: [u8; 32])
        ensures
            result == self.setup_id,
    {
        self.setup_id
    }

    pub fn max_batch_size(&self) -> (result: usize)
        ensures
            result == self.max_batch_size,
    {
        self.max_batch_size
    }

    pub fn secret_scalar(&self) -> (result: Fr)
        ensures
            result == self.q,
    {
        self.q
    }
}

impl KeyMaterial {
    /// Whether the material is what the sharing polynomial and the parties'
    /// secrets give for a configuration.
    pub open spec fn is_generated(
        &self,
        config: &KeygenConfig,
        coefficients: Seq<int>,
        qs: Seq<int>,
    ) -> bool {
        let key = &self.decryption_key;
        let weights = config.party_weights@;
        let sum = total(weights);
        let batch = config.max_batch_size as int;
        let z = share_values(coefficients, key.domain_size as int, sum);
        &&& key.wf()
        &&& key.max_batch_size == config.max_batch_size
        &&& key.threshold_weight == config.threshold_weight
        &&& key.party_weights@ == weights
        &&& coefficients.len() == config.threshold_weight + 1
        &&& qs.len() == weights.len()
        &&& forall|j: int| 0 <= j < weights.len() ==> is_unit(#[trigger] qs[j])
        &&& is_table(
            views(key.verification_keys@),
            weights.len() as int,
            batch,
            key_powers(qs),
        )
        &&& is_table(
            views(key.negative_material@),
            sum,
            batch,
            material(z, weights, inverses(qs)),
        )
        &&& is_table(views(key.positive_material@), sum, batch - 1, material(z, weights, qs))
        &&& key.setup_id@ == setup_id_of(
            coefficients[0],
            batch,
            config.threshold_weight as int,
            weights,
            views(key.verification_keys@).take(weights.len() as int),
            views(key.negative_material@).take(sum),
        )
        &&& self.encryption_key.max_batch_size == config.max_batch_size
        &&& self.encryption_key.element@ == coefficients[0]
        &&& self.encryption_key.setup_id@ == key.setup_id@
        &&& self.party_keys@.len() == weights.len()
        &&& forall|j: int|
            0 <= j < weights.len() ==> {
                &&& (#[trigger] self.party_keys@[j]).party_index == j
                &&& self.party_keys@[j].setup_id@ == key.setup_id@
                &&& self.party_keys@[j].max_batch_size == config.max_batch_size
                &&& self.party_keys@[j].q@ == qs[j]
            }
    }
}

/// Multiplies item by item.
fn multiply_all(current: &mut Vec<Fr>, bases: &Vec<Fr>)
    requires
        old(current)@.len() == bases@.len(),
    ensures
        final(current)@.len() == bases@.len(),
        forall|j: int|
            0 <= j < bases@.len() ==> (#[trigger] final(current)@[j])@ == (old(current)@[j]@
                * bases@[j]@) % order(),
{
    let ghost before = current@;
    let mut index: usize = 0;
    while index < bases.len()
        invariant
            index <= bases@.len() == current@.len() == before.len(),
            forall|j: int| index <= j < bases@.len() ==> #[trigger] current@[j] == before[j],
            forall|j: int|
                0 <= j < index ==> (#[trigger] current@[j])@ == (before[j]@ * bases@[j]@) % order(),
        decreases bases@.len() - index,
    {
        let product = current[index].times(bases[index]);
        current.set(index, product);
        index = index + 1;
    }
}

/// The virtual shares times the given powers of their owners' secrets.
fn fill_material_scalars(z: &Vec<Fr>, owners: &Vec<usize>, party_powers: &Vec<Fr>) -> (output: Vec<
    Fr,
>)
    requires
        owners@.len() == z@.len(),
        forall|i: int| 0 <= i < owners@.len() ==> (#[trigger] owners@[i]) < party_powers@.len(),
    ensures
        output@.len() == z@.len(),
        forall|i: int|
            0 <= i < z@.len() ==> (#[trigger] output@[i])@ == (z@[i]@
                * party_powers@[owners@[i] as int]@) % order(),
{
    let mut output: Vec<Fr> = Vec::new();
    while output.len() < z.len()
        invariant
            owners@.len() == z@.len(),
            forall|i: int|
                0 <= i < owners@.len() ==> (#[trigger] owners@[i]) < party_powers@.len(),
            output@.len() <= z@.len(),
            forall|i: int|
                0 <= i < output@.len() ==> (#[trigger] output@[i])@ == (z@[i]@
                    * party_powers@[owners@[i] as int]@) % order(),
        decreases z@.len() - output@.len(),
    {
        let index = output.len();
        assert(owners@[index as int] < party_powers@.len());
        output.push(z[index].times(party_powers[owners[index]]));
    }
    output
}

/// Appends the generator times every scalar.
fn append_g1_block(output: &mut Vec<G1Point>, scalars: &Vec<Fr>)
    ensures
        views(final(output)@) == views(old(output)@) + views(scalars@),
{
    let ghost start = output@;
    let block = scalars_to_g1(scalars);
    assert(views(block@).len() == views(scalars@).len());
    let mut index: usize = 0;
    while index < block.len()
        invariant
            index <= block@.len(),
            output@ == start + block@.take(index as int),
        decreases block@.len() - index,
    {
        output.push(block[index]);
        index = index + 1;
        assert(output@ =~= start + block@.take(index as int));
    }
    assert(block@.take(index as int) =~= block@);
    assert(views(start + block@) =~= views(start) + views(block@));
}

/// A row of the table of powers of the secrets.
proof fn lemma_key_row(current: Seq<int>, bases: Seq<int>, row: int)
    requires
        current.len() == bases.len(),
        0 <= row,
        forall|j: int|
            0 <= j < bases.len() ==> #[trigger] current[j] == pow(bases[j], (row + 1) as nat)
                % order(),
    ensures
        forall|j: int|
            0 <= j < bases.len() ==> (current[j] * bases[j]) % order() == #[trigger] key_powers(
                bases,
            )(row + 1, j),
{
    assert forall|j: int| 0 <= j < bases.len() implies (current[j] * bases[j]) % order()
        == #[trigger] key_powers(bases)(row + 1, j) by {
        let p = pow(bases[j], (row + 1) as nat);
        lemma_pow1(bases[j]);
        lemma_pow_adds(bases[j], (row + 1) as nat, 1);
        lemma_reduce(p);
        lemma_cong_mul(current[j], p, bases[j], bases[j]);
    }
}

/// Reducing a power before multiplying changes nothing.
proof fn lemma_material_cell(z: int, base: int, exponent: nat)
    ensures
        (z * (pow(base, exponent) % order())) % order() == (z * pow(base, exponent)) % order(),
{
    lemma_reduce(pow(base, exponent));
    lemma_cong_mul(z, z, pow(base, exponent) % order(), pow(base, exponent));
}

/// The key material for the given sharing polynomial and secrets of the parties.
pub fn keygen_with_scalars(
    config: KeygenConfig,
    coefficients: &Vec<Fr>,
    qs: &Vec<Fr>,
) -> (result: Result<KeyMaterial>)
    requires
        config.defect() is None ==> {
            &&& coefficients@.len() == config.threshold_weight + 1
            &&& qs@.len() == config.party_weights@.len()
            &&& forall|j: int| 0 <= j < qs@.len() ==> (#[trigger] qs@[j])@ != 0
        },
    ensures
        match result {
            Ok(material) => config.defect() is None && material.is_generated(
                &config,
                views(coefficients@),
                views(qs@),
            ),
            Err(error) => config.defect() == Some(error),
        },
{
    let dimensions = validate_config(&config)?;
    let domain = dimensions.domain;
    let sum = dimensions.total_weight;
    let batch = config.max_batch_size;
    let parties = config.party_weights.len();
    let ghost weights = config.party_weights@;
    let ghost c = views(coefficients@);
    let ghost secrets = views(qs@);
    let z = share_evaluations(&domain, coefficients, sum);
    let ghost zs = views(z@);
    let evaluation_domain = evaluation_points(&domain, sum);
    let party_offsets = match prefix_offsets(&config.party_weights) {
        Some(offsets) => offsets,
        None => {
            return Err(Error::TotalWeightOverflow);
        },
    };
    let owners = owners_from_offsets(&party_offsets, Ghost(weights));
    assert(zs.len() == sum);
    // The inverses of the secrets.
    let mut bases_inverse: Vec<Fr> = Vec::new();
    while bases_inverse.len() < parties
        invariant
            parties == qs@.len(),
            secrets == views(qs@),
            bases_inverse@.len() <= parties,
            forall|j: int| 0 <= j < qs@.len() ==> (#[trigger] qs@[j])@ != 0,
            forall|j: int| 0 <= j < bases_inverse@.len() ==> is_unit(#[trigger] secrets[j]),
            forall|j: int|
                0 <= j < bases_inverse@.len() ==> (#[trigger] bases_inverse@[j])@ == inv(
                    secrets[j],
                ),
        decreases parties - bases_inverse@.len(),
    {
        let index = bases_inverse.len();
        assert(qs@[index as int]@ != 0);
        let inverse = match qs[index].invert() {
            Some(inverse) => inverse,
            None => {
                return Err(Error::SamplingFailed);
            },
        };
        proof {
            lemma_one();
            lemma_inv_unique(secrets[index as int], inverse@);
            inverse.lemma_range();
            lemma_reduced(inverse@);
        }
        bases_inverse.push(inverse);
    }
    let ghost inv_secrets = inverses(secrets);
    assert(views(bases_inverse@) =~= inv_secrets);
    let mut positive = crate::points::slice_of(qs, 0, parties);
    let mut negative = crate::points::slice_of(&bases_inverse, 0, parties);
    let mut verification_keys: Vec<G1Point> = Vec::new();
    let mut negative_material: Vec<G1Point> = Vec::new();
    let mut positive_material: Vec<G1Point> = Vec::new();
    let mut row: usize = 0;
    proof {
        assert forall|j: int| 0 <= j < parties implies (#[trigger] positive@[j])@ == key_powers(
            secrets,
        )(0, j) by {
            lemma_pow1(secrets[j]);
            positive@[j].lemma_range();
            lemma_reduced(secrets[j]);
        }
        assert forall|j: int| 0 <= j < parties implies (#[trigger] negative@[j])@ == key_powers(
            inv_secrets,
        )(0, j) by {
            lemma_pow1(inv_secrets[j]);
            negative@[j].lemma_range();
            assert(views(bases_inverse@)[j] == inv_secrets[j]);
            lemma_reduced(inv_secrets[j]);
        }
    }
    while row < batch
        invariant
            row <= batch,
            parties == weights.len() == qs@.len() == bases_inverse@.len(),
            secrets == views(qs@),
            inv_secrets == views(bases_inverse@),
            zs == views(z@),
            zs.len() == sum == owners@.len() == total(weights),
            forall|i: int|
                0 <= i < owners@.len() ==> #[trigger] owners@[i] == owner(weights, i) && owners@[i]
                    < weights.len(),
            positive@.len() == parties,
            negative@.len() == parties,
            forall|j: int|
                0 <= j < parties ==> (#[trigger] positive@[j])@ == key_powers(secrets)(
                    row as int,
                    j,
                ),
            forall|j: int|
                0 <= j < parties ==> (#[trigger] negative@[j])@ == key_powers(inv_secrets)(
                    row as int,
                    j,
                ),
            is_table(
                views(verification_keys@),
                parties as int,
                row as int,
                key_powers(secrets),
            ),
            is_table(
                views(negative_material@),
                sum as int,
                row as int,
                material(zs, weights, inv_secrets),
            ),
            is_table(
                views(positive_material@),
                sum as int,
                if row < batch {
                    row as int
                } else {
                    batch - 1
                },
                material(zs, weights, secrets),
            ),
        decreases batch - row,
    {
        let ghost r = row as int;
        let ghost keys_before = views(verification_keys@);
        append_g1_block(&mut verification_keys, &positive);
        proof {
            lemma_table_push(
                keys_before,
                views(positive@),
                parties as int,
                r,
                key_powers(secrets),
            );
        }
        let negative_block = fill_material_scalars(&z, &owners, &negative);
        let ghost negative_before = views(negative_material@);
        append_g1_block(&mut negative_material, &negative_block);
        proof {
            let next = views(negative_block@);
            assert forall|i: int| 0 <= i < sum implies #[trigger] next[i] == material(
                zs,
                weights,
                inv_secrets,
            )(r, i) by {
                let j = owners@[i] as int;
                assert(negative@[j]@ == key_powers(inv_secrets)(r, j));
                lemma_material_cell(zs[i], inv_secrets[j], (r + 1) as nat);
            }
            lemma_table_push(
                negative_before,
                next,
                sum as int,
                r,
                material(zs, weights, inv_secrets),
            );
        }
        if row + 1 < batch {
            let positive_block = fill_material_scalars(&z, &owners, &positive);
            let ghost positive_before = views(positive_material@);
            append_g1_block(&mut positive_material, &positive_block);
            proof {
                let next = views(positive_block@);
                assert forall|i: int| 0 <= i < sum implies #[trigger] next[i] == material(
                    zs,
                    weights,
                    secrets,
                )(r, i) by {
                    let j = owners@[i] as int;
                    assert(positive@[j]@ == key_powers(secrets)(r, j));
                    lemma_material_cell(zs[i], secrets[j], (r + 1) as nat);
                }
                lemma_table_push(
                    positive_before,
                    next,
                    sum as int,
                    r,
                    material(zs, weights, secrets),
                );
            }
        }
        proof {
            lemma_key_row(views(positive@), secrets, r);
            lemma_key_row(views(negative@), inv_secrets, r);
        }
        multiply_all(&mut positive, qs);
        multiply_all(&mut negative, &bases_inverse);
        proof {
            assert forall|j: int| 0 <= j < parties implies (#[trigger] positive@[j])@ == key_powers(
                secrets,
            )(r + 1, j) by {}
            assert forall|j: int| 0 <= j < parties implies (#[trigger] negative@[j])@ == key_powers(
                inv_secrets,
            )(r + 1, j) by {}
        }
        row = row + 1;
    }
    let element = GtElement::generator().times(coefficients[0]);
    proof {
        coefficients@[0].lemma_range();
        lemma_reduced(c[0]);
        assert(1 * c[0] == c[0]);
        lemma_cell(parties as int, batch as int, 0, 0);
        lemma_cell(sum as int, batch as int, 0, 0);
        assert(views(verification_keys@).len() == verification_keys@.len());
        assert(views(negative_material@).len() == negative_material@.len());
        assert(views(positive_material@).len() == positive_material@.len());
    }
    let first_keys = slice_subrange(verification_keys.as_slice(), 0, parties);
    let first_negative = slice_subrange(negative_material.as_slice(), 0, sum);
    proof {
        assert(views(first_keys@) =~= views(verification_keys@).take(parties as int));
        assert(views(first_negative@) =~= views(negative_material@).take(sum as int));
    }
    let setup_id = setup_identifier(
        &element,
        batch,
        config.threshold_weight,
        &config.party_weights,
        first_keys,
        first_negative,
    );
    let mut party_keys: Vec<PartySecretKey> = Vec::new();
    while party_keys.len() < parties
        invariant
            parties == qs@.len(),
            secrets == views(qs@),
            party_keys@.len() <= parties,
            forall|j: int|
                0 <= j < party_keys@.len() ==> {
                    &&& (#[trigger] party_keys@[j]).party_index == j
                    &&& party_keys@[j].setup_id == setup_id
                    &&& party_keys@[j].max_batch_size == batch
                    &&& party_keys@[j].q@ == secrets[j]
                },
        decreases parties - party_keys@.len(),
    {
        let party_index = party_keys.len();
        party_keys.push(
            PartySecretKey { party_index, setup_id, max_batch_size: batch, q: qs[party_index] },
        );
    }
    let encryption_key = EncryptionKey { max_batch_size: batch, element, setup_id };
    let decryption_key = PublicDecryptionKey {
        setup_id,
        max_batch_size: batch,
        threshold_weight: config.threshold_weight,
        total_weight: sum,
        domain_size: domain.size(),
        party_weights: copy_numbers(config.party_weights.as_slice()),
        party_offsets,
        evaluation_domain,
        verification_keys,
        negative_material,
        positive_material,
    };
    Ok(KeyMaterial { encryption_key, decryption_key, party_keys })
}

/// Whether key material was made for a configuration with some polynomial and secrets.
pub open spec fn is_keygen_outcome(config: &KeygenConfig, result: Result<KeyMaterial>) -> bool {
    match config.defect() {
        Some(error) => result == Err::<KeyMaterial, Error>(error),
        None => match result {
            Ok(material) => exists|coefficients: Seq<int>, qs: Seq<int>| #[trigger]
                material.is_generated(config, coefficients, qs),
            Err(error) => error == Error::SamplingFailed,
        },
    }
}

/// Whether an outcome is that of making key material with what a source drew: the
/// polynomial, and then the secrets, which are the draws that are kept.
pub open spec fn is_drawn_keygen(
    config: &KeygenConfig,
    draws: Seq<int>,
    result: Result<KeyMaterial>,
) -> bool {
    let count = config.threshold_weight + 1;
    let rest = draws.skip(count);
    let parties = config.party_weights@.len() as int;
    match config.defect() {
        Some(error) => result == Err::<KeyMaterial, Error>(error) && draws.len() == 0,
        None => {
            &&& count <= draws.len()
            &&& match result {
                Ok(material) => are_nonzero_draws(rest, parties, Some(kept(rest)))
                    && material.is_generated(config, draws.take(count), kept(rest)),
                Err(error) => error == Error::SamplingFailed && are_nonzero_draws(
                    rest,
                    parties,
                    None,
                ),
            }
        },
    }
}

/// Key material with a polynomial and secrets drawn from `rng`, in this order; the
/// secrets are the draws that are kept. It fails where the source runs out of them.
pub fn keygen_with_rng<R: ScalarRng>(config: KeygenConfig, rng: &mut R) -> (result: Result<
    KeyMaterial,
>)
    ensures
        is_keygen_outcome(&config, result),
        old(rng).drawn().is_prefix_of(final(rng).drawn()),
        is_drawn_keygen(&config, drawn_since(old(rng).drawn(), final(rng).drawn()), result),
{
    let _ = validate_config(&config)?;
    let ghost start = rng.drawn();
    let coefficients = draw(rng, config.threshold_weight + 1);
    let ghost middle = rng.drawn();
    let drawn = draw_nonzero(rng, config.party_weights.len());
    proof {
        let draws = drawn_since(start, rng.drawn());
        assert(rng.drawn() =~= middle + drawn_since(middle, rng.drawn()));
        assert(views(coefficients@).len() == config.threshold_weight + 1);
        assert(draws.take(config.threshold_weight + 1) =~= views(coefficients@));
        assert(draws.skip(config.threshold_weight + 1) =~= drawn_since(middle, rng.drawn()));
    }
    let qs = match drawn {
        Some(qs) => qs,
        None => {
            return Err(Error::SamplingFailed);
        },
    };
    keygen_with_scalars(config, &coefficients, &qs)
}

/// Whether an outcome is that of making key material with what the system's source drew.
pub open spec fn is_system_keygen(config: &KeygenConfig, result: Result<KeyMaterial>) -> bool {
    exists|rng: SystemRng| is_drawn_keygen(config, #[trigger] rng.scalar_record(), result)
}

/// Key material with the system's randomness.
pub fn keygen(max_batch_size: usize, party_weights: &[usize], threshold_weight: usize) -> (result:
    Result<KeyMaterial>)
    ensures
        exists|config: KeygenConfig|
            config.max_batch_size == max_batch_size && config.party_weights@ == party_weights@
                && config.threshold_weight == threshold_weight && #[trigger] is_keygen_outcome(
                &config,
                result,
            ) && is_system_keygen(&config, result),
{
    let mut rng = SystemRng::new();
    let config = KeygenConfig::new(max_batch_size, party_weights, threshold_weight);
    let ghost made_for = config;
    let result = keygen_with_rng(config, &mut rng);
    proof {
        lemma_drawn_since_start(rng.scalar_record());
        assert(is_drawn_keygen(&made_for, rng.scalar_record(), result));
        assert(is_keygen_outcome(&made_for, result));
    }
    result
}

/// A configuration is accepted where the batch is not empty, every party has a weight, the
/// weights add up to more than the threshold, and there are a domain for them and addresses for
/// the tables.
pub proof fn law_accepted_configuration(config: &KeygenConfig)
    ensures
        config.defect() is None <==> {
            let batch = config.max_batch_size as int;
            let weights = config.party_weights@;
            let sum = total(weights);
            let point = size_of::<G1Point>() as int;
            &&& 1 <= batch
            &&& 1 <= weights.len()
            &&& forall|i: int| 0 <= i < weights.len() ==> #[trigger] weights[i] > 0
            &&& config.threshold_weight < sum <= usize::MAX
            &&& exists|log: nat| log <= 32 && sum <= #[trigger] pow2(log) <= usize::MAX
            &&& batch * weights.len() <= usize::MAX
            &&& batch * weights.len() * point <= isize::MAX
            &&& batch * weights.len() * size_of::<Fr>() <= isize::MAX
            &&& batch * sum <= usize::MAX
            &&& batch * sum * point <= isize::MAX
        },
        config.defect() matches Some(Error::InvalidPartyWeight { party_index, weight }) ==> {
            &&& weight == 0
            &&& party_index < config.party_weights@.len()
            &&& config.party_weights@[party_index as int] == 0
            &&& forall|i: int|
                0 <= i < party_index ==> #[trigger] config.party_weights@[i] > 0
        },
{
    let batch = config.max_batch_size as int;
    let weights = config.party_weights@;
    let sum = total(weights);
    let point = size_of::<G1Point>() as int;
    law_first_zero(weights, 0);
    assert(weights.len() == config.party_weights.len());
    if 1 <= batch && 0 < sum {
        law_has_domain(sum);
        // the smaller table fits where the larger one does
        assert((batch - 1) * sum <= batch * sum) by (nonlinear_arith)
            requires
                0 < sum,
        ;
        assert((batch - 1) * sum * point <= batch * sum * point) by (nonlinear_arith)
            requires
                (batch - 1) * sum <= batch * sum,
                0 <= point,
        ;
    }
}

/// An accepted configuration gets its keys unless the source ends with `u64::MAX` zeros.
pub proof fn law_keygen_fails_only_on_zeros(
    config: &KeygenConfig,
    draws: Seq<int>,
    result: Result<KeyMaterial>,
)
    requires
        is_drawn_keygen(config, draws, result),
        config.defect() is None,
    ensures
        match result {
            Ok(_) => true,
            Err(error) => {
                &&& error == Error::SamplingFailed
                &&& draws.len() >= u64::MAX + config.threshold_weight + 1
                &&& forall|i: int|
                    draws.len() - u64::MAX <= i < draws.len() ==> #[trigger] draws[i] == 0
            },
        },
{
    let count = config.threshold_weight + 1;
    let rest = draws.skip(count);
    law_only_zeros_exhaust_a_source(rest, config.party_weights@.len() as int);
    if result is Err {
        assert forall|i: int| draws.len() - u64::MAX <= i < draws.len() implies #[trigger] draws[i]
            == 0 by {
            assert(rest[i - count] == draws[i]);
        }
    }
}

/// The sharing polynomial is the first draws, as many as the threshold and one, and the
/// secrets of the parties are the draws behind them that are not zero, in their order: the
/// element, the secrets and every virtual share follow from them.
pub proof fn law_keys_follow_their_draws(
    config: &KeygenConfig,
    draws: Seq<int>,
    material: KeyMaterial,
)
    requires
        is_drawn_keygen(config, draws, Ok(material)),
    ensures
        ({
            let count = config.threshold_weight + 1;
            let weights = config.party_weights@;
            let key = material.decryption_key;
            let secrets = draws.skip(count).filter(|draw: int| draw != 0);
            &&& count + weights.len() <= draws.len()
            &&& draws.last() != 0
            &&& material.encryption_key.element@ == draws[0]
            &&& secrets.len() == material.party_keys@.len() == weights.len()
            &&& forall|j: int|
                0 <= j < weights.len() ==> (#[trigger] material.party_keys@[j]).q@ == secrets[j]
                    && secrets[j] != 0
            &&& forall|j: int, k: int|
                0 <= j < weights.len() && offset(weights, j) <= k < offset(weights, j + 1)
                    ==> #[trigger] cong(
                    key.negative_material@[k]@ * material.party_keys@[j].q@,
                    eval(
                        draws.take(count),
                        pow(size_root(key.domain_size as int), k as nat) % order(),
                    ),
                )
        }),
{
    let count = config.threshold_weight + 1;
    let weights = config.party_weights@;
    let key = material.decryption_key;
    let sum = total(weights);
    let coefficients = draws.take(count);
    let rest = draws.skip(count);
    let qs = kept(rest);
    let parties = weights.len() as int;
    let z = share_values(coefficients, key.domain_size as int, sum);
    law_accepted_configuration(config);
    law_nonzero_draws(rest, 0, qs, parties);
    law_kept_draws(rest, 0);
    rest.lemma_filter_len(|draw: int| draw != 0);
    assert(rest.last() == draws.last());
    assert forall|j: int| 0 <= j < weights.len() implies (#[trigger] material.party_keys@[j]).q@
        == qs[j] && qs[j] != 0 by {}
    assert forall|j: int, k: int|
        0 <= j < weights.len() && offset(weights, j) <= k < offset(
            weights,
            j + 1,
        ) implies #[trigger] cong(
        key.negative_material@[k]@ * material.party_keys@[j].q@,
        eval(coefficients, pow(size_root(key.domain_size as int), k as nat) % order()),
    ) by {
        lemma_owner(weights, j, k);
        lemma_offset_order(weights, 0, j);
        lemma_offset_order(weights, j + 1, parties);
        assert(weights.take(parties) =~= weights);
        assert(weights.take(0) =~= Seq::<usize>::empty());
        let q = qs[j];
        let value = eval(coefficients, pow(size_root(key.domain_size as int), k as nat) % order());
        let items = views(key.negative_material@);
        lemma_cell(sum, config.max_batch_size as int, 0, k);
        assert(0 * sum + k == k);
        assert(cell(items, sum, 0, k) == items[k]);
        assert(is_unit(q));
        lemma_inv(q);
        assert(inverses(qs)[j] == inv(q));
        vstd::arithmetic::power::lemma_pow1(inv(q));
        assert(items[k] == (z[k] * pow(inv(q), (0 + 1) as nat)) % order());
        assert(z[k] == value % order());
        // dividing by the secret and multiplying by it again
        lemma_reduce(z[k] * inv(q));
        lemma_reduce(value);
        lemma_cong_mul(items[k], z[k] * inv(q), q, q);
        lemma_cong_mul(z[k], value, inv(q) * q, 1);
        assert(z[k] * inv(q) * q == z[k] * (inv(q) * q)) by (nonlinear_arith);
        assert(inv(q) * q == q * inv(q)) by (nonlinear_arith);
    }
}

/// What the identifier of a setup is the digest of.
pub struct SetupMaterial {
    pub element: int,
    pub max_batch_size: int,
    pub threshold_weight: int,
    pub party_weights: Seq<usize>,
    pub first_verification: Seq<int>,
    pub first_negative: Seq<int>,
}

impl SetupMaterial {
    /// Whether the numbers, the lists and the encodings are as large as they are in a setup.
    pub open spec fn is_sized(self) -> bool {
        &&& 0 <= self.max_batch_size < 0x1_0000_0000_0000_0000
        &&& 0 <= self.threshold_weight < 0x1_0000_0000_0000_0000
        &&& self.party_weights.len() < 0x1_0000_0000_0000_0000
        &&& self.first_verification.len() == self.party_weights.len()
        &&& self.first_negative.len() == total(self.party_weights)
        &&& is_gt_sized(self.element)
        &&& forall|i: int|
            0 <= i < self.first_verification.len() ==> is_g1_sized(
                #[trigger] self.first_verification[i],
            )
        &&& forall|i: int|
            0 <= i < self.first_negative.len() ==> is_g1_sized(#[trigger] self.first_negative[i])
    }

    /// The identifier.
    pub open spec fn id(self) -> Seq<u8> {
        setup_id_of(
            self.element,
            self.max_batch_size,
            self.threshold_weight,
            self.party_weights,
            self.first_verification,
            self.first_negative,
        )
    }
}

/// The identifier of a setup is the digest of some string, and that string determines the
/// sizes, the weights, the element and the first rows of the tables.
pub proof fn law_setup_id_is_bound(a: SetupMaterial, b: SetupMaterial)
    requires
        a.is_sized(),
        b.is_sized(),
    ensures
        exists|s: Seq<u8>, t: Seq<u8>|
            {
                &&& a.id() == #[trigger] sha256(s)
                &&& b.id() == #[trigger] sha256(t)
                &&& s == "WEIGHTED-BTX-SWAPPED-SETUP-ID-v1".spec_bytes() + le_bytes(
                    a.max_batch_size,
                    8,
                ) + le_bytes(a.threshold_weight, 8) + le_bytes(a.party_weights.len() as int, 8)
                    + numbers_encoding(a.party_weights) + gt_encoding(a.element) + g1_encoding(
                    a.first_verification,
                ) + g1_encoding(a.first_negative)
                &&& s == t ==> {
                    &&& a.max_batch_size == b.max_batch_size
                    &&& a.threshold_weight == b.threshold_weight
                    &&& a.party_weights == b.party_weights
                    &&& gt_encoding(a.element) == gt_encoding(b.element)
                    &&& forall|i: int|
                        #![trigger a.first_verification[i]]
                        0 <= i < a.party_weights.len() ==> g1_compressed(a.first_verification[i])
                            == g1_compressed(b.first_verification[i])
                    &&& forall|i: int|
                        #![trigger a.first_negative[i]]
                        0 <= i < total(a.party_weights) ==> g1_compressed(a.first_negative[i])
                            == g1_compressed(b.first_negative[i])
                }
            },
{
    let tag = "WEIGHTED-BTX-SWAPPED-SETUP-ID-v1".spec_bytes();
    let (a1, b1) = (le_bytes(a.max_batch_size, 8), le_bytes(b.max_batch_size, 8));
    let (a2, b2) = (le_bytes(a.threshold_weight, 8), le_bytes(b.threshold_weight, 8));
    let (na, nb) = (a.party_weights.len() as int, b.party_weights.len() as int);
    let (a3, b3) = (le_bytes(na, 8), le_bytes(nb, 8));
    let (a4, b4) = (numbers_encoding(a.party_weights), numbers_encoding(b.party_weights));
    let (a5, b5) = (gt_encoding(a.element), gt_encoding(b.element));
    let (a6, b6) = (g1_encoding(a.first_verification), g1_encoding(b.first_verification));
    let (a7, b7) = (g1_encoding(a.first_negative), g1_encoding(b.first_negative));
    let s = tag + a1 + a2 + a3 + a4 + a5 + a6 + a7;
    let t = tag + b1 + b2 + b3 + b4 + b5 + b6 + b7;
    if s == t {
        lemma_le_digits(a.max_batch_size, 8);
        lemma_le_digits(b.max_batch_size, 8);
        lemma_le_digits(a.threshold_weight, 8);
        lemma_le_digits(b.threshold_weight, 8);
        lemma_le_digits(na, 8);
        lemma_le_digits(nb, 8);
        law_numbers_encoding(a.party_weights, b.party_weights);
        law_numbers_encoding(b.party_weights, a.party_weights);
        law_g1_encoding(a.first_verification, b.first_verification);
        law_g1_encoding(b.first_verification, a.first_verification);
        law_g1_encoding(a.first_negative, b.first_negative);
        let (x6, y6) = (a6 + a7, b6 + b7);
        let (x5, y5) = (a5 + x6, b5 + y6);
        let (x4, y4) = (a4 + x5, b4 + y5);
        assert(s =~= (tag + a1 + a2 + a3) + x4);
        assert(t =~= (tag + b1 + b2 + b3) + y4);
        lemma_same_parts(tag + a1 + a2 + a3, x4, tag + b1 + b2 + b3, y4);
        lemma_same_parts(tag + a1 + a2, a3, tag + b1 + b2, b3);
        lemma_same_parts(tag + a1, a2, tag + b1, b2);
        lemma_same_parts(tag, a1, tag, b1);
        lemma_same_digits(na, nb);
        lemma_same_digits(a.max_batch_size, b.max_batch_size);
        lemma_same_digits(a.threshold_weight, b.threshold_weight);
        lemma_same_parts(a4, x5, b4, y5);
        lemma_same_gt(a.element, x6, b.element, y6);
        lemma_same_parts(a6, a7, b6, b7);
    }
    assert(a.id() == sha256(s));
    assert(b.id() == sha256(t));
}

/// A configuration that is refused has the fault that it is refused for.
pub proof fn law_refused_configuration(config: &KeygenConfig)
    ensures
        ({
            let weights = config.party_weights@;
            let sum = total(weights);
            let batch = config.max_batch_size as int;
            match config.defect() {
                None => true,
                Some(Error::BatchIsEmpty) => batch == 0,
                Some(Error::EmptyCommittee) => weights.len() == 0,
                Some(Error::InvalidPartyWeight { party_index, weight }) => weight == 0
                    && party_index < weights.len() && weights[party_index as int] == 0,
                Some(Error::TotalWeightOverflow) => sum > usize::MAX,
                Some(
                    Error::InvalidCommittee { party_count, total_weight, threshold_weight },
                ) => party_count == weights.len() && total_weight == sum && threshold_weight
                    == config.threshold_weight && threshold_weight >= total_weight,
                Some(Error::InvalidEvaluationDomain { total_weight }) => total_weight == sum
                    && forall|log: nat|
                    log <= 32 && #[trigger] pow2(log) <= usize::MAX ==> pow2(log) < sum,
                Some(Error::ParameterSizeOverflow) => {
                    ||| batch * weights.len() > usize::MAX
                    ||| batch * weights.len() * size_of::<G1Point>() > isize::MAX
                    ||| batch * weights.len() * size_of::<Fr>() > isize::MAX
                    ||| batch * sum > usize::MAX
                    ||| batch * sum * size_of::<G1Point>() > isize::MAX
                },
                Some(_) => false,
            }
        }),
{
    let weights = config.party_weights@;
    let sum = total(weights);
    law_accepted_configuration(config);
    law_first_zero(weights, 0);
    assert(weights.len() == config.party_weights.len());
    lemma_total_positive(weights);
    if sum > 0 {
        law_has_domain(sum);
    }
}

/// All keys of a setup carry its identifier, which is computed from what is published.
pub proof fn law_keys_carry_their_setup(
    material: &KeyMaterial,
    config: &KeygenConfig,
    coefficients: Seq<int>,
    qs: Seq<int>,
)
    requires
        material.is_generated(config, coefficients, qs),
    ensures
        ({
            let key = material.decryption_key;
            let weights = config.party_weights@;
            &&& key.setup_id@ == (SetupMaterial {
                element: material.encryption_key.element@,
                max_batch_size: config.max_batch_size as int,
                threshold_weight: config.threshold_weight as int,
                party_weights: weights,
                first_verification: views(key.verification_keys@).take(weights.len() as int),
                first_negative: views(key.negative_material@).take(total(weights)),
            }).id()
            &&& material.encryption_key.setup_id@ == key.setup_id@
            &&& forall|j: int|
                0 <= j < weights.len() ==> (#[trigger] material.party_keys@[j]).setup_id@
                    == key.setup_id@
        }),
{
}

} // verus!
