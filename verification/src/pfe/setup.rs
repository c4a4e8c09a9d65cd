//! Trusted-dealer setup and threshold sharing.
use vstd::arithmetic::power::{lemma_pow_multiplies, pow};
use vstd::arithmetic::power2::pow2;
use vstd::prelude::*;

use crate::algebra::fractions::lemma_two_is_outside;
use crate::algebra::lagrange::eval;
use crate::algebra::primality::lemma_nonzero_is_unit;
use crate::algebra::residue::{
    cong, inv, is_unit, lemma_cong_mul, lemma_cong_neg, lemma_cong_pow, lemma_cong_sub, lemma_inv,
    lemma_inv_unique, lemma_one, lemma_order, lemma_pow_one, lemma_reduce, lemma_reduced,
    lemma_unit_cong, order,
};
use crate::algebra::roots::{lemma_domain_root, lemma_root_period, lemma_two_unit};
use crate::algebra::sums::sum_of;
use crate::curve::{views, Element, Fr, G1Point, G2Point, GtElement, ScalarRng, SystemRng, G1};
use crate::fft::{is_domain_size, lemma_size_root, scalar_pow, size_root, Radix2Domain};
use crate::pfe::error::{Error, Result};
use crate::points::{g2_elements, power_range, powers_of, scalars_to_g2, slice_of, sum_all};
use crate::polynomial::evaluate_polynomial;
use crate::sampling::{draw, drawn_since, lemma_drawn_since_start, lemma_row, nested_views};

verus! {

#[derive(Clone, Copy, Debug)]
pub struct EncryptionKey {
    pub batch_size: usize,
    /// The sum of the fractions over both auxiliary labels and all slots.
    pub relation_base: G1Point,
    /// The fraction of the label zero, in the target group.
    pub masking_base: GtElement,
}

#[derive(Clone, Debug)]
pub struct PublicDecryptionKey {
    pub batch_size: usize,
    pub server_count: usize,
    pub threshold: usize,
    /// The fractions of the slots, whose labels are the roots of unity in order.
    pub fraction_keys: Vec<G2Point>,
    pub fraction_key_sum: G2Point,
    pub server_domain: Vec<Fr>,
    /// For every server, its shares in the second source group.
    pub share_commitments: Option<Vec<Vec<G2Point>>>,
}

#[derive(Clone, Debug)]
pub struct ServerSecretKey {
    pub server_index: usize,
    pub domain_point: Fr,
    pub fraction_shares: Vec<Fr>,
}

#[derive(Clone, Debug)]
pub struct KeyMaterial {
    pub encryption_key: EncryptionKey,
    pub decryption_key: PublicDecryptionKey,
    pub server_keys: Vec<ServerSecretKey>,
}

#[derive(Clone, Copy, Debug)]
pub struct KeygenConfig {
    pub batch_size: usize,
    pub server_count: usize,
    /// How many servers may be corrupt. It takes `threshold + 1` shares to reconstruct.
    pub threshold: usize,
    pub publish_share_commitments: bool,
}

impl KeygenConfig {
    pub fn new(batch_size: usize, server_count: usize, threshold: usize) -> (config: Self)
        ensures
            config == (KeygenConfig {
                batch_size,
                server_count,
                threshold,
                publish_share_commitments: true,
            }),
    {
        KeygenConfig { batch_size, server_count, threshold, publish_share_commitments: true }
    }

    /// Why a configuration is refused, where it is.
    pub open spec fn defect(self) -> Option<Error> {
        if !is_domain_size(self.batch_size as int) {
            Some(Error::InvalidBatchSize(self.batch_size))
        } else if self.threshold >= self.server_count {
            Some(
                Error::InvalidCommittee {
                    server_count: self.server_count,
                    threshold: self.threshold,
                },
            )
        } else {
            None
        }
    }
}

pub fn validate_config(config: KeygenConfig) -> (result: Result<()>)
    ensures
        result is Ok <==> config.defect() is None,
        result matches Err(error) ==> config.defect() == Some(error),
{
    if Radix2Domain::new(config.batch_size).is_none() {
        return Err(Error::InvalidBatchSize(config.batch_size));
    }
    if config.server_count == 0 || config.threshold >= config.server_count {
        return Err(
            Error::InvalidCommittee {
                server_count: config.server_count,
                threshold: config.threshold,
            },
        );
    }
    Ok(())
}

/// The labels of the slots: the roots of unity of the batch's size.
pub open spec fn slot_labels(size: int) -> Seq<int> {
    power_range(size_root(size), 0, size)
}

/// All labels: zero, one half and those of the slots.
pub open spec fn labels(size: int) -> Seq<int> {
    seq![0, inv(2)] + slot_labels(size)
}

/// Whether the secret can be divided by at every label.
pub open spec fn avoids_poles(x: int, size: int) -> bool {
    forall|i: int| 0 <= i < size + 2 ==> !cong(x + #[trigger] labels(size)[i], 0)
}

/// The fractions of the secret over all labels.
pub open spec fn fractions(x: int, size: int) -> Seq<int> {
    Seq::new((size + 2) as nat, |i: int| inv(x + labels(size)[i]))
}

/// The fractions of the slots.
pub open spec fn slot_fractions(x: int, size: int) -> Seq<int> {
    Seq::new(size as nat, |i: int| inv(x + slot_labels(size)[i]))
}

pub fn index_points(batch_size: usize) -> (result: Result<Vec<Fr>>)
    ensures
        match result {
            Ok(points) => is_domain_size(batch_size as int) && views(points@) == slot_labels(
                batch_size as int,
            ),
            Err(error) => !is_domain_size(batch_size as int) && error == Error::InvalidBatchSize(
                batch_size,
            ),
        },
{
    match Radix2Domain::new(batch_size) {
        Some(domain) => Ok(powers_of(domain.generator(), batch_size)),
        None => Err(Error::InvalidBatchSize(batch_size)),
    }
}

/// Two is not a root of unity of any domain's size.
pub proof fn lemma_outside(size: int)
    requires
        is_domain_size(size),
    ensures
        !cong(pow(2, size as nat), 1),
{
    let log = choose|log: nat| log <= 32 && size == #[trigger] pow2(log);
    lemma_two_is_outside(log);
}

/// The second auxiliary label and its inverse. The inverse is the first integer
/// from two on that is no root of unity of the batch's size, so that multiplying
/// by it is cheap.
pub fn extra_index_data(batch_size: usize) -> (result: Result<(Fr, u64)>)
    ensures
        match result {
            Ok(data) => {
                &&& is_domain_size(batch_size as int)
                &&& data.0@ == inv(2)
                &&& is_unit(2)
                &&& data.1 == 2
                &&& !cong(pow(2, batch_size as nat), 1)
            },
            Err(error) => !is_domain_size(batch_size as int) && error == Error::InvalidBatchSize(
                batch_size,
            ),
        },
{
    if Radix2Domain::new(batch_size).is_none() {
        return Err(Error::InvalidBatchSize(batch_size));
    }
    proof {
        lemma_outside(batch_size as int);
        lemma_order();
        lemma_one();
        lemma_reduced(2);
    }
    let mut candidate: u64 = 2;
    while candidate < u64::MAX
        invariant
            candidate == 2,
            is_domain_size(batch_size as int),
            !cong(pow(2, batch_size as nat), 1),
            2int % order() == 2,
            1int % order() == 1,
        decreases u64::MAX - candidate,
    {
        let value = Fr::from_u64(candidate);
        if scalar_pow(value, batch_size as u64) != Fr::one() {
            match value.invert() {
                Some(inverse) => {
                    proof {
                        inverse.lemma_range();
                        lemma_reduced(inverse@);
                        lemma_inv_unique(2, inverse@);
                    }
                    return Ok((inverse, candidate));
                },
                None => {},
            }
        }
        candidate = candidate + 1;
    }
    Err(Error::InvalidBatchSize(batch_size))
}

impl PublicDecryptionKey {
    /// What every key satisfies.
    pub open spec fn wf(&self) -> bool {
        &&& is_domain_size(self.batch_size as int)
        &&& self.threshold < self.server_count
        &&& self.fraction_keys@.len() == self.batch_size
        &&& self.fraction_key_sum@ == sum_of(views(self.fraction_keys@)) % order()
        &&& self.server_domain@.len() == self.server_count
        &&& forall|j: int|
            0 <= j < self.server_count ==> (#[trigger] self.server_domain@[j])@ == j + 1
        &&& self.share_commitments matches Some(commitments) ==> {
            &&& commitments@.len() == self.server_count
            &&& forall|j: int|
                0 <= j < self.server_count ==> (#[trigger] commitments@[j])@.len()
                    == self.batch_size
        }
    }

    pub fn batch_size(&self) -> (result: usize)
        ensures
            result == self.batch_size,
    {
        self.batch_size
    }

    pub fn server_count(&self) -> (result: usize)
        ensures
            result == self.server_count,
    {
        self.server_count
    }

    pub fn threshold(&self) -> (result: usize)
        ensures
            result == self.threshold,
    {
        self.threshold
    }

    pub fn required_shares(&self) -> (result: usize)
        requires
            self.wf(),
        ensures
            result == self.threshold + 1,
    {
        self.threshold + 1
    }

    pub fn server_domain(&self) -> (result: &Vec<Fr>)
        ensures
            *result == self.server_domain,
    {
        &self.server_domain
    }

    pub fn has_share_commitments(&self) -> (result: bool)
        ensures
            result == self.share_commitments is Some,
    {
        self.share_commitments.is_some()
    }

    pub fn fraction_keys(&self) -> (result: &Vec<G2Point>)
        ensures
            *result == self.fraction_keys,
    {
        &self.fraction_keys
    }

    pub fn fraction_key_sum(&self) -> (result: G2Point)
        ensures
            result == self.fraction_key_sum,
    {
        self.fraction_key_sum
    }

    /// Why a share commitment cannot be had, where it cannot.
    pub open spec fn commitment_defect(&self, server_index: int, slot: int) -> Option<Error> {
        if server_index >= self.server_count {
            Some(Error::InvalidServerIndex(server_index as usize))
        } else if slot >= self.batch_size {
            Some(Error::InvalidBatchSize((slot + 1) as usize))
        } else if self.share_commitments is None {
            Some(Error::InvalidShare)
        } else {
            None
        }
    }

    /// The logarithm of the commitment to a server's share for a slot.
    pub open spec fn commitment_log(&self, server_index: int, slot: int) -> int {
        (self.share_commitments->0)@[server_index]@[slot]@
    }

    pub fn share_commitment(&self, server_index: usize, slot: usize) -> (result: Result<G2Point>)
        requires
            self.wf(),
            slot < usize::MAX,
        ensures
            match result {
                Ok(point) => self.commitment_defect(server_index as int, slot as int) is None
                    && point@ == self.commitment_log(server_index as int, slot as int),
                Err(error) => self.commitment_defect(server_index as int, slot as int) == Some(
                    error,
                ),
            },
    {
        if server_index >= self.server_count {
            return Err(Error::InvalidServerIndex(server_index));
        }
        if slot >= self.batch_size {
            return Err(Error::InvalidBatchSize(slot + 1));
        }
        match &self.share_commitments {
            Some(commitments) => Ok(commitments[server_index][slot]),
            None => Err(Error::InvalidShare),
        }
    }
}

impl ServerSecretKey {
    pub fn batch_size(&self) -> (result: usize)
        ensures
            result == self.fraction_shares@.len(),
    {
        self.fraction_shares.len()
    }

    pub fn fraction_shares(&self) -> (result: &Vec<Fr>)
        ensures
            *result == self.fraction_shares,
    {
        &self.fraction_shares
    }

    /// Whether this is the key of server `server` for the slots' fractions and tails.
    pub open spec fn is_key_of(
        &self,
        server: int,
        constants: Seq<int>,
        tails: Seq<Seq<int>>,
    ) -> bool {
        &&& self.server_index == server
        &&& self.domain_point@ == server + 1
        &&& self.fraction_shares@.len() == constants.len()
        &&& forall|i: int|
            0 <= i < constants.len() ==> (#[trigger] self.fraction_shares@[i])@ == eval(
                seq![constants[i]] + tails[i],
                server + 1,
            ) % order()
    }
}

impl KeyMaterial {
    /// Whether the material is what the secret and the tails of the sharing
    /// polynomials give for a configuration.
    pub open spec fn is_generated(
        &self,
        config: KeygenConfig,
        x: int,
        tails: Seq<Seq<int>>,
    ) -> bool {
        let size = config.batch_size as int;
        &&& forall|i: int| 0 <= i < size + 2 ==> is_unit(x + #[trigger] labels(size)[i])
        &&& self.encryption_key.batch_size == config.batch_size
        &&& self.encryption_key.relation_base@ == sum_of(fractions(x, size)) % order()
        &&& self.encryption_key.masking_base@ == inv(x)
        &&& self.decryption_key.wf()
        &&& self.decryption_key.batch_size == config.batch_size
        &&& self.decryption_key.server_count == config.server_count
        &&& self.decryption_key.threshold == config.threshold
        &&& views(self.decryption_key.fraction_keys@) == slot_fractions(x, size)
        &&& self.server_keys@.len() == config.server_count
        &&& forall|j: int|
            0 <= j < config.server_count ==> (#[trigger] self.server_keys@[j]).is_key_of(
                j,
                slot_fractions(x, size),
                tails,
            )
        &&& self.decryption_key.share_commitments is Some <==> config.publish_share_commitments
        &&& self.decryption_key.share_commitments matches Some(commitments) ==> forall|j: int|
            0 <= j < config.server_count ==> views((#[trigger] commitments@[j])@) == views(
                self.server_keys@[j].fraction_shares@,
            )
    }
}

/// Whether there is a tail of `threshold` coefficients for every slot.
pub open spec fn tails_fit(config: KeygenConfig, tails: Seq<Seq<int>>) -> bool {
    &&& tails.len() == config.batch_size
    &&& forall|i: int| 0 <= i < tails.len() ==> (#[trigger] tails[i]).len() == config.threshold
}

/// The secret plus each of the labels.
fn denominators_of(x: Fr, gamma: Fr, points: &Vec<Fr>) -> (denominators: Vec<Fr>)
    ensures
        denominators@.len() == points@.len() + 2,
        forall|i: int|
            0 <= i < denominators@.len() ==> (#[trigger] denominators@[i])@ == (x@ + (seq![
                0,
                gamma@,
            ] + views(points@))[i]) % order(),
{
    let mut denominators: Vec<Fr> = Vec::new();
    proof {
        x.lemma_range();
        lemma_reduced(x@);
    }
    denominators.push(x);
    denominators.push(x.plus(gamma));
    let ghost all = seq![0, gamma@] + views(points@);
    let mut index: usize = 0;
    while index < points.len()
        invariant
            index <= points@.len(),
            all == seq![0, gamma@] + views(points@),
            denominators@.len() == index + 2,
            forall|i: int|
                0 <= i < denominators@.len() ==> (#[trigger] denominators@[i])@ == (x@ + all[i])
                    % order(),
        decreases points@.len() - index,
    {
        assert(all[index + 2] == points@[index as int]@);
        denominators.push(x.plus(points[index]));
        index = index + 1;
    }
    denominators
}

/// Whether one of the scalars is zero.
fn any_zero(scalars: &Vec<Fr>) -> (result: bool)
    ensures
        result == exists|i: int| 0 <= i < scalars@.len() && (#[trigger] scalars@[i])@ == 0,
{
    let mut index: usize = 0;
    while index < scalars.len()
        invariant
            index <= scalars@.len(),
            forall|i: int| 0 <= i < index ==> (#[trigger] scalars@[i])@ != 0,
        decreases scalars@.len() - index,
    {
        if scalars[index].is_zero() {
            return true;
        }
        index = index + 1;
    }
    false
}

/// The key of one server.
fn server_key(server_index: usize, constants: &Vec<Fr>, tails: &Vec<Vec<Fr>>) -> (key:
    ServerSecretKey)
    requires
        server_index < usize::MAX,
        constants@.len() == tails@.len(),
    ensures
        key.is_key_of(server_index as int, views(constants@), nested_views(tails@)),
{
    let domain_point = Fr::from_u64(server_index as u64 + 1);
    proof {
        lemma_order();
        lemma_reduced(server_index + 1);
    }
    let mut fraction_shares: Vec<Fr> = Vec::new();
    while fraction_shares.len() < tails.len()
        invariant
            fraction_shares@.len() <= tails@.len() == constants@.len(),
            domain_point@ == server_index + 1,
            forall|i: int|
                0 <= i < fraction_shares@.len() ==> (#[trigger] fraction_shares@[i])@ == eval(
                    seq![views(constants@)[i]] + nested_views(tails@)[i],
                    server_index + 1,
                ) % order(),
        decreases tails@.len() - fraction_shares@.len(),
    {
        let index = fraction_shares.len();
        let mut coefficients: Vec<Fr> = Vec::new();
        coefficients.push(constants[index]);
        let mut position: usize = 0;
        while position < tails[index].len()
            invariant
                index < tails@.len() == constants@.len(),
                position <= tails@[index as int]@.len(),
                coefficients@ == seq![constants@[index as int]] + tails@[index as int]@.take(
                    position as int,
                ),
            decreases tails@[index as int]@.len() - position,
        {
            coefficients.push(tails[index][position]);
            position = position + 1;
            assert(coefficients@ =~= seq![constants@[index as int]] + tails@[index as int]@.take(
                position as int,
            ));
        }
        proof {
            assert(views(coefficients@) =~= seq![views(constants@)[index as int]] + nested_views(
                tails@,
            )[index as int]);
        }
        fraction_shares.push(evaluate_polynomial(&coefficients, domain_point));
    }
    ServerSecretKey { server_index, domain_point, fraction_shares }
}

/// The key material for the given secret and tails of the sharing polynomials.
pub fn keygen_with_scalars(config: KeygenConfig, x: Fr, tails: &Vec<Vec<Fr>>) -> (result: Result<
    KeyMaterial,
>)
    requires
        config.defect() is None ==> avoids_poles(x@, config.batch_size as int) && tails_fit(
            config,
            nested_views(tails@),
        ),
    ensures
        match result {
            Ok(material) => config.defect() is None && material.is_generated(
                config,
                x@,
                nested_views(tails@),
            ),
            Err(error) => config.defect() == Some(error),
        },
{
    match validate_config(config) {
        Ok(()) => {},
        Err(error) => {
            return Err(error);
        },
    }
    let batch_size = config.batch_size;
    let ghost size = batch_size as int;
    let points = index_points(batch_size)?;
    let (gamma, _) = extra_index_data(batch_size)?;
    let mut inverses = denominators_of(x, gamma, &points);
    let ghost sums = inverses@;
    let ghost all = labels(size);
    Fr::batch_invert(&mut inverses);
    proof {
        assert(views(points@).len() == points@.len());
        assert(all =~= seq![0, gamma@] + views(points@));
        assert forall|i: int| 0 <= i < size + 2 implies is_unit(x@ + #[trigger] all[i])
            && inverses@[i]@ == inv(x@ + all[i]) by {
            lemma_reduce(x@ + all[i]);
            lemma_one();
            assert(!cong(x@ + all[i], 0));
            assert(sums[i]@ != 0);
            let inverse = inverses@[i]@;
            inverses@[i].lemma_range();
            lemma_reduced(inverse);
            lemma_inv_unique(sums[i]@, inverse);
            lemma_unit_cong(sums[i]@, x@ + all[i]);
        }
        assert(views(inverses@) =~= fractions(x@, size));
        assert(inverses@[0]@ == inv(x@ + all[0]));
    }
    let relation_sum = sum_all(&inverses);
    let relation_base = G1::generator().times(relation_sum).to_affine();
    let masking_base = GtElement::generator().times(inverses[0]);
    proof {
        relation_sum.lemma_range();
        lemma_reduced(relation_sum@);
        inverses@[0].lemma_range();
        lemma_reduced(inverses@[0]@);
        assert(1 * relation_sum@ == relation_sum@);
        assert(1 * inverses@[0]@ == inverses@[0]@);
    }
    let encryption_key = EncryptionKey { batch_size, relation_base, masking_base };
    let constants = slice_of(&inverses, 2, inverses.len());
    proof {
        assert(views(constants@) =~= slot_fractions(x@, size)) by {
            assert forall|i: int| 0 <= i < size implies #[trigger] constants@[i]@ == inv(
                x@ + slot_labels(size)[i],
            ) by {
                assert(inverses@[i + 2]@ == inv(x@ + all[i + 2]));
                assert(all[i + 2] == slot_labels(size)[i]);
            }
        }
    }
    let fraction_keys = scalars_to_g2(&constants);
    let fraction_key_sum = sum_all(&g2_elements(&fraction_keys)).to_affine();
    let ghost rows = nested_views(tails@);
    let ghost secrets = slot_fractions(x@, size);
    let mut server_domain: Vec<Fr> = Vec::new();
    let mut server_keys: Vec<ServerSecretKey> = Vec::new();
    let mut commitments: Vec<Vec<G2Point>> = Vec::new();
    let mut index: usize = 0;
    while index < config.server_count
        invariant
            index <= config.server_count,
            size == config.batch_size == tails@.len() == constants@.len(),
            views(constants@) == secrets,
            rows == nested_views(tails@),
            server_domain@.len() == index,
            forall|j: int| 0 <= j < index ==> (#[trigger] server_domain@[j])@ == j + 1,
            server_keys@.len() == index,
            forall|j: int|
                0 <= j < index ==> (#[trigger] server_keys@[j]).is_key_of(j, secrets, rows),
            commitments@.len() == (if config.publish_share_commitments {
                index
            } else {
                0
            }),
            forall|j: int|
                0 <= j < commitments@.len() ==> views((#[trigger] commitments@[j])@) == views(
                    server_keys@[j].fraction_shares@,
                ),
        decreases config.server_count - index,
    {
        let key = server_key(index, &constants, tails);
        server_domain.push(key.domain_point);
        if config.publish_share_commitments {
            commitments.push(scalars_to_g2(&key.fraction_shares));
        }
        server_keys.push(key);
        index = index + 1;
    }
    let share_commitments = if config.publish_share_commitments {
        Some(commitments)
    } else {
        None
    };
    proof {
        assert(views(fraction_keys@).len() == fraction_keys@.len());
        if share_commitments is Some {
            let rows_of_points = share_commitments->0;
            assert forall|j: int| 0 <= j < config.server_count implies (
            #[trigger] rows_of_points@[j])@.len() == size by {
                assert(views(rows_of_points@[j]@) == views(server_keys@[j].fraction_shares@));
                assert(views(rows_of_points@[j]@).len() == rows_of_points@[j]@.len());
                assert(server_keys@[j].is_key_of(j, secrets, rows));
                assert(secrets.len() == size);
            }
        }
    }
    let decryption_key = PublicDecryptionKey {
        batch_size,
        server_count: config.server_count,
        threshold: config.threshold,
        fraction_keys,
        fraction_key_sum,
        server_domain,
        share_commitments,
    };
    Ok(KeyMaterial { encryption_key, decryption_key, server_keys })
}

/// Whether a secret that can be divided by at every label was drawn for, with the given
/// outcome: the draws end with the first that can, or, with none, after `u64::MAX` that
/// cannot.
pub open spec fn is_secret_draw(draws: Seq<int>, size: int, outcome: Option<int>) -> bool {
    match outcome {
        Some(x) => {
            &&& 1 <= draws.len() <= u64::MAX
            &&& draws.last() == x
            &&& avoids_poles(x, size)
            &&& forall|i: int|
                0 <= i < draws.len() - 1 ==> !avoids_poles(#[trigger] draws[i], size)
        },
        None => {
            &&& draws.len() == u64::MAX
            &&& forall|i: int| 0 <= i < draws.len() ==> !avoids_poles(#[trigger] draws[i], size)
        },
    }
}

/// A secret drawn from `rng` that can be divided by at every label; there is none
/// where no draw was one.
fn sample_secret<R: ScalarRng>(batch_size: usize, rng: &mut R) -> (result: Result<Fr>)
    requires
        is_domain_size(batch_size as int),
    ensures
        old(rng).drawn().is_prefix_of(final(rng).drawn()),
        ({
            let draws = drawn_since(old(rng).drawn(), final(rng).drawn());
            match result {
                Ok(x) => is_secret_draw(draws, batch_size as int, Some(x@)),
                Err(error) => error == Error::SamplingFailed && is_secret_draw(
                    draws,
                    batch_size as int,
                    None,
                ),
            }
        }),
{
    let ghost start = rng.drawn();
    let points = index_points(batch_size)?;
    let (gamma, _) = extra_index_data(batch_size)?;
    let ghost size = batch_size as int;
    assert(views(points@).len() == points@.len());
    assert(labels(size) =~= seq![0, gamma@] + views(points@));
    let mut attempts: u64 = 0;
    while attempts < u64::MAX
        invariant
            size == batch_size,
            points@.len() == batch_size,
            labels(size) == seq![0, gamma@] + views(points@),
            start == old(rng).drawn(),
            start.is_prefix_of(rng.drawn()),
            rng.drawn().len() == start.len() + attempts,
            forall|i: int|
                0 <= i < attempts ==> !avoids_poles(
                    #[trigger] drawn_since(start, rng.drawn())[i],
                    size,
                ),
        decreases u64::MAX - attempts,
    {
        let ghost earlier = drawn_since(start, rng.drawn());
        let x = rng.random_scalar();
        let denominators = denominators_of(x, gamma, &points);
        assert(drawn_since(start, rng.drawn()) =~= earlier.push(x@));
        if !any_zero(&denominators) {
            proof {
                lemma_one();
                assert forall|i: int| 0 <= i < size + 2 implies !cong(
                    x@ + #[trigger] labels(size)[i],
                    0,
                ) by {
                    assert(denominators@[i]@ != 0);
                }
            }
            return Ok(x);
        }
        proof {
            let i = choose|i: int|
                0 <= i < denominators@.len() && (#[trigger] denominators@[i])@ == 0;
            lemma_one();
            assert(cong(x@ + labels(size)[i], 0));
            assert(!avoids_poles(x@, size));
        }
        attempts = attempts + 1;
    }
    Err(Error::SamplingFailed)
}

/// Whether an outcome is that of making key material with what a source drew: the draws for
/// the secret, and then the sharing polynomials.
pub open spec fn is_drawn_keygen(
    config: KeygenConfig,
    draws: Seq<int>,
    result: Result<KeyMaterial>,
) -> bool {
    let size = config.batch_size as int;
    match config.defect() {
        Some(error) => result == Err::<KeyMaterial, Error>(error) && draws.len() == 0,
        None => match result {
            Ok(material) => exists|sampled: Seq<int>, x: int, tails: Seq<Seq<int>>|
                #![trigger is_secret_draw(sampled, size, Some(x)), material.is_generated(
                    config,
                    x,
                    tails,
                )]
                is_secret_draw(sampled, size, Some(x)) && tails_fit(config, tails) && draws
                    == sampled + tails.flatten() && material.is_generated(config, x, tails),
            Err(error) => error == Error::SamplingFailed && is_secret_draw(
                draws,
                size,
                None,
            ),
        },
    }
}

/// Key material with a secret and sharing polynomials drawn from `rng`. It fails where
/// the source yields no secret that can be divided by at every label.
pub fn keygen_with_rng<R: ScalarRng>(config: KeygenConfig, rng: &mut R) -> (result: Result<
    KeyMaterial,
>)
    ensures
        old(rng).drawn().is_prefix_of(final(rng).drawn()),
        is_drawn_keygen(config, drawn_since(old(rng).drawn(), final(rng).drawn()), result),
{
    match validate_config(config) {
        Ok(()) => {},
        Err(error) => {
            return Err(error);
        },
    }
    let ghost start = rng.drawn();
    let x = match sample_secret(config.batch_size, rng) {
        Ok(x) => x,
        Err(error) => {
            return Err(error);
        },
    };
    let ghost sampled = drawn_since(start, rng.drawn());
    let mut tails: Vec<Vec<Fr>> = Vec::new();
    assert(nested_views(tails@).flatten() =~= Seq::<int>::empty());
    assert(rng.drawn() =~= start + sampled + nested_views(tails@).flatten());
    while tails.len() < config.batch_size
        invariant
            tails@.len() <= config.batch_size,
            rng.drawn() == start + sampled + nested_views(tails@).flatten(),
            forall|i: int|
                0 <= i < tails@.len() ==> (#[trigger] tails@[i])@.len() == config.threshold,
        decreases config.batch_size - tails@.len(),
    {
        let ghost earlier = nested_views(tails@);
        let row = draw(rng, config.threshold);
        let ghost last = views(row@);
        tails.push(row);
        proof {
            earlier.lemma_flatten_push(last);
            assert(nested_views(tails@) =~= earlier.push(last));
            assert(rng.drawn() =~= start + sampled + nested_views(tails@).flatten());
        }
    }
    assert(drawn_since(start, rng.drawn()) =~= sampled + nested_views(tails@).flatten());
    proof {
        let rows = nested_views(tails@);
        assert forall|i: int| 0 <= i < rows.len() implies (#[trigger] rows[i]).len()
            == config.threshold by {
            assert(tails@[i]@.len() == config.threshold);
        }
        assert(tails_fit(config, rows));
        assert(is_secret_draw(sampled, config.batch_size as int, Some(x@)));
    }
    keygen_with_scalars(config, x, &tails)
}

/// Key material with the system's randomness.
pub fn keygen(batch_size: usize, server_count: usize, threshold: usize) -> (result: Result<
    KeyMaterial,
>)
    ensures
        ({
            let config = KeygenConfig {
                batch_size,
                server_count,
                threshold,
                publish_share_commitments: true,
            };
            match config.defect() {
                Some(error) => result == Err::<KeyMaterial, Error>(error),
                None => match result {
                    Ok(material) => exists|x: int, tails: Seq<Seq<int>>|
                        tails_fit(config, tails) && #[trigger] material.is_generated(
                            config,
                            x,
                            tails,
                        ),
                    Err(error) => error == Error::SamplingFailed,
                },
            }
        }),
        exists|rng: SystemRng|
            is_drawn_keygen(
                (KeygenConfig {
                    batch_size,
                    server_count,
                    threshold,
                    publish_share_commitments: true,
                }),
                #[trigger] rng.scalar_record(),
                result,
            ),
{
    let mut rng = SystemRng::new();
    let config = KeygenConfig::new(batch_size, server_count, threshold);
    let result = keygen_with_rng(config, &mut rng);
    proof {
        lemma_drawn_since_start(rng.scalar_record());
        assert(is_drawn_keygen(config, rng.scalar_record(), result));
    }
    result
}

/// A configuration is accepted where the batch size is a power of two up to `2^32` and the
/// servers are more than the threshold; of the others a wrong size is named first.
pub proof fn law_accepted_configuration(config: KeygenConfig)
    ensures
        config.defect() is None <==> (exists|log: nat|
            log <= 32 && config.batch_size == #[trigger] pow2(log)) && config.threshold
            < config.server_count,
        config.defect() matches Some(error) ==> if exists|log: nat|
            log <= 32 && config.batch_size == #[trigger] pow2(log) {
            error == (Error::InvalidCommittee {
                server_count: config.server_count,
                threshold: config.threshold,
            })
        } else {
            error == Error::InvalidBatchSize(config.batch_size)
        },
{
}

/// A secret that cannot be divided by at some label is zero, or minus one half, or minus a
/// root of unity of the batch's size.
proof fn lemma_pole(x: int, size: int)
    requires
        is_domain_size(size),
        !avoids_poles(x, size),
    ensures
        cong(x, 0) || cong(2 * x, -1) || cong(pow(-x, size as nat), 1),
{
    let i = choose|i: int| 0 <= i < size + 2 && cong(x + #[trigger] labels(size)[i], 0);
    let log = choose|log: nat| log <= 32 && size == #[trigger] pow2(log);
    let label = labels(size)[i];
    if i == 1 {
        lemma_two_unit();
        lemma_inv(2);
        lemma_cong_mul(2, 2, x + inv(2), 0);
        lemma_cong_sub(2 * (x + inv(2)), 0, 2 * inv(2), 1);
        assert(2 * (x + inv(2)) - 2 * inv(2) == 2 * x);
    } else if i >= 2 {
        let w = size_root(size);
        let e = (i - 2) as nat;
        lemma_size_root(log);
        lemma_domain_root(log);
        lemma_root_period(w, size);
        assert(label == pow(w, (0 + (i - 2)) as nat) % order());
        lemma_reduce(pow(w, e));
        lemma_cong_sub(x + label, 0, x, x);
        lemma_cong_neg(x + label - x, 0 - x);
        lemma_cong_neg(label, -x);
        // minus the secret is a power of the root
        assert(cong(-x, pow(w, e)));
        lemma_cong_pow(-x, pow(w, e), size as nat);
        lemma_pow_multiplies(w, e, size as nat);
        lemma_pow_multiplies(w, size as nat, e);
        assert(e * size == size * e) by (nonlinear_arith);
        lemma_cong_pow(pow(w, size as nat), 1, e);
        lemma_pow_one(e);
    }
}

/// An accepted configuration gets its keys unless the source yields `u64::MAX` scalars each of
/// which is zero, or minus one half, or minus a root of unity of the batch's size.
pub proof fn law_keygen_fails_only_at_poles(
    config: KeygenConfig,
    draws: Seq<int>,
    result: Result<KeyMaterial>,
)
    requires
        is_drawn_keygen(config, draws, result),
        exists|log: nat| log <= 32 && config.batch_size == #[trigger] pow2(log),
        config.threshold < config.server_count,
    ensures
        match result {
            Ok(_) => true,
            Err(error) => {
                &&& error == Error::SamplingFailed
                &&& draws.len() == u64::MAX
                &&& forall|i: int|
                    0 <= i < draws.len() ==> cong(#[trigger] draws[i], 0) || cong(2 * draws[i], -1)
                        || cong(pow(-draws[i], config.batch_size as nat), 1)
            },
        },
{
    if result is Err {
        assert forall|i: int| 0 <= i < draws.len() implies cong(#[trigger] draws[i], 0) || cong(
            2 * draws[i],
            -1,
        ) || cong(pow(-draws[i], config.batch_size as nat), 1) by {
            lemma_pole(draws[i], config.batch_size as int);
        }
    }
}

/// The secret is the first draw that avoids the poles, and the sharing polynomials are the
/// draws behind it in their order: what the key hides messages with, and every server's every
/// share, follow from them.
pub proof fn law_keys_follow_their_draws(
    config: KeygenConfig,
    draws: Seq<int>,
    material: KeyMaterial,
)
    requires
        is_drawn_keygen(config, draws, Ok(material)),
    ensures
        exists|place: int|
            {
                let size = config.batch_size as int;
                let degree = config.threshold as int;
                let x = #[trigger] draws[place];
                &&& 0 <= place
                &&& draws.len() == place + 1 + size * degree
                &&& !cong(x, 0)
                &&& forall|i: int|
                    0 <= i < place ==> cong(#[trigger] draws[i], 0) || cong(2 * draws[i], -1)
                        || cong(pow(-draws[i], size as nat), 1)
                &&& cong(material.encryption_key.masking_base@ * x, 1)
                &&& material.server_keys@.len() == config.server_count
                &&& forall|j: int, i: int|
                    0 <= j < config.server_count && 0 <= i < size
                        ==> (#[trigger] material.server_keys@[j].fraction_shares@[i])@ == eval(
                        seq![inv(x + pow(size_root(size), i as nat) % order())] + draws.subrange(
                            place + 1 + i * degree,
                            place + 1 + (i + 1) * degree,
                        ),
                        j + 1,
                    ) % order()
            },
{
    let size = config.batch_size as int;
    let degree = config.threshold as int;
    let (sampled, x, tails) = choose|sampled: Seq<int>, x: int, tails: Seq<Seq<int>>|
        #![trigger is_secret_draw(sampled, size, Some(x)), material.is_generated(config, x, tails)]
        is_secret_draw(sampled, size, Some(x)) && tails_fit(config, tails) && draws == sampled
            + tails.flatten() && material.is_generated(config, x, tails);
    lemma_row(tails, degree, 0);
    let place = sampled.len() - 1;
    assert(draws[place] == x);
    assert(labels(size)[0] == 0);
    assert(!cong(x + labels(size)[0], 0));
    lemma_nonzero_is_unit(x);
    lemma_inv(x);
    assert forall|i: int| 0 <= i < place implies cong(#[trigger] draws[i], 0) || cong(
        2 * draws[i],
        -1,
    ) || cong(pow(-draws[i], size as nat), 1) by {
        assert(!avoids_poles(sampled[i], size));
        lemma_pole(draws[i], size);
    }
    assert forall|j: int, i: int| 0 <= j < config.server_count && 0 <= i < size implies (
    #[trigger] material.server_keys@[j].fraction_shares@[i])@ == eval(
        seq![inv(x + pow(size_root(size), i as nat) % order())] + draws.subrange(
            place + 1 + i * degree,
            place + 1 + (i + 1) * degree,
        ),
        j + 1,
    ) % order() by {
        lemma_row(tails, degree, i);
        assert(tails[i] =~= draws.subrange(
            place + 1 + i * degree,
            place + 1 + (i + 1) * degree,
        ));
        assert(slot_labels(size)[i] == pow(size_root(size), (0 + i) as nat) % order());
    }
}

/// What is published for a slot is one over the sum of the secret and the slot's root of unity;
/// messages are hidden with one over the secret, and a server's commitments are its shares.
pub proof fn law_published_fractions(
    material: &KeyMaterial,
    config: KeygenConfig,
    x: int,
    tails: Seq<Seq<int>>,
)
    requires
        material.is_generated(config, x, tails),
        1 <= config.batch_size,
    ensures
        ({
            let key = material.decryption_key;
            let size = config.batch_size as int;
            &&& cong(material.encryption_key.masking_base@ * x, 1)
            &&& key.fraction_keys@.len() == size
            &&& forall|i: int|
                0 <= i < size ==> #[trigger] cong(
                    key.fraction_keys@[i]@ * (x + pow(size_root(size), i as nat) % order()),
                    1,
                )
            &&& key.share_commitments matches Some(commitments) ==> forall|j: int, i: int|
                0 <= j < config.server_count && 0 <= i < size ==> (
                #[trigger] commitments@[j]@[i])@ == material.server_keys@[j].fraction_shares@[i]@
        }),
{
    let key = material.decryption_key;
    let size = config.batch_size as int;
    assert(labels(size)[0] == 0);
    assert(is_unit(x + labels(size)[0]));
    lemma_inv(x);
    assert(inv(x) * x == x * inv(x)) by (nonlinear_arith);
    assert forall|i: int| 0 <= i < size implies #[trigger] cong(
        key.fraction_keys@[i]@ * (x + pow(size_root(size), i as nat) % order()),
        1,
    ) by {
        let d = x + pow(size_root(size), i as nat) % order();
        assert(slot_labels(size)[i] == pow(size_root(size), (0 + i) as nat) % order());
        assert(labels(size)[i + 2] == slot_labels(size)[i]);
        assert(is_unit(x + labels(size)[i + 2]));
        lemma_inv(d);
        assert(views(key.fraction_keys@)[i] == slot_fractions(x, size)[i]);
        assert(inv(d) * d == d * inv(d)) by (nonlinear_arith);
    }
    if let Some(commitments) = key.share_commitments {
        assert forall|j: int, i: int| 0 <= j < config.server_count && 0 <= i < size implies (
        #[trigger] commitments@[j]@[i])@ == material.server_keys@[j].fraction_shares@[i]@ by {
            assert(material.server_keys@[j].is_key_of(j, slot_fractions(x, size), tails));
            assert(views(commitments@[j]@)[i]
                == views(material.server_keys@[j].fraction_shares@)[i]);
        }
    }
}

/// A commitment can be had for every server and slot where commitments are published, and for no
/// other.
pub proof fn law_commitments_that_can_be_had(
    key: &PublicDecryptionKey,
    server_index: int,
    slot: int,
)
    ensures
        key.commitment_defect(server_index, slot) is None <==> server_index < key.server_count
            && slot < key.batch_size && key.share_commitments is Some,
        key.commitment_defect(server_index, slot) matches Some(error) ==> error == if server_index
            >= key.server_count {
            Error::InvalidServerIndex(server_index as usize)
        } else if slot >= key.batch_size {
            Error::InvalidBatchSize((slot + 1) as usize)
        } else {
            Error::InvalidShare
        },
{
}

} // verus!
