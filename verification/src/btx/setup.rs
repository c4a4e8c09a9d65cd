//! Trusted-dealer setup and Shamir sharing.
use vstd::arithmetic::power::pow;
use vstd::prelude::*;

use crate::algebra::lagrange::eval;
use crate::algebra::residue::{lemma_order, lemma_reduced, order};
use crate::btx::error::{Error, Result};
use crate::curve::{views, Element, Fr, G2Point, GtElement, ScalarRng, SystemRng};
use crate::points::{power_range, powers_of, scalars_to_g2, slice_of};
use crate::polynomial::evaluate_polynomial;
use crate::sampling::{
    draw, drawn_since, is_nonzero_draw, law_nonzero_draws, law_only_zeros_exhaust_a_source,
    lemma_drawn_since_start, lemma_row, nested_views, sample_nonzero,
};

verus! {

#[derive(Clone, Copy, Debug)]
pub struct EncryptionKey {
    pub max_batch_size: usize,
    pub element: GtElement,
}

#[derive(Clone, Debug)]
pub struct PublicDecryptionKey {
    pub max_batch_size: usize,
    pub server_count: usize,
    pub threshold: usize,
    /// The powers `1..=max_batch_size` of the secret, in the second source group.
    pub low_powers: Vec<G2Point>,
    /// The powers `max_batch_size + 2..=2 * max_batch_size` of the secret.
    pub high_powers: Vec<G2Point>,
    pub server_domain: Vec<Fr>,
    /// For every server, its shares in the second source group.
    pub share_commitments: Option<Vec<Vec<G2Point>>>,
}

#[derive(Clone, Debug)]
pub struct ServerSecretKey {
    pub server_index: usize,
    pub domain_point: Fr,
    pub shares: Vec<Fr>,
}

#[derive(Clone, Debug)]
pub struct KeyMaterial {
    pub encryption_key: EncryptionKey,
    pub decryption_key: PublicDecryptionKey,
    pub server_keys: Vec<ServerSecretKey>,
}

#[derive(Clone, Copy, Debug)]
pub struct KeygenConfig {
    pub max_batch_size: usize,
    pub server_count: usize,
    /// The scheme reconstructs from `threshold + 1` shares.
    pub threshold: usize,
    pub publish_share_commitments: bool,
}

impl KeygenConfig {
    pub fn new(max_batch_size: usize, server_count: usize, threshold: usize) -> (config: Self)
        ensures
            config == (KeygenConfig {
                max_batch_size,
                server_count,
                threshold,
                publish_share_commitments: true,
            }),
    {
        KeygenConfig { max_batch_size, server_count, threshold, publish_share_commitments: true }
    }

    /// Why a configuration is refused, where it is.
    pub open spec fn defect(self) -> Option<Error> {
        if self.max_batch_size == 0 {
            Some(Error::BatchIsEmpty)
        } else if self.threshold >= self.server_count {
            Some(
                Error::InvalidCommittee {
                    server_count: self.server_count,
                    threshold: self.threshold,
                },
            )
        } else {
            None
        }
    }

    /// Whether the powers of the secret can be numbered on this machine.
    pub open spec fn fits(self) -> bool {
        2 * self.max_batch_size + 1 <= isize::MAX
    }
}

pub fn validate_config(config: KeygenConfig) -> (result: Result<()>)
    ensures
        result is Ok <==> config.defect() is None,
        result matches Err(error) ==> config.defect() == Some(error),
{
    if config.max_batch_size == 0 {
        return Err(Error::BatchIsEmpty);
    }
    if config.server_count == 0 || config.threshold >= config.server_count {
        return Err(
            Error::InvalidCommittee {
                server_count: config.server_count,
                threshold: config.threshold,
            },
        );
    }
    Ok(())
}

/// The coefficients of the polynomial that shares the power `index + 1` of the
/// secret: that power, and the tail drawn for it.
pub open spec fn sharing_polynomial(tau: int, tail: Seq<int>, index: int) -> Seq<int> {
    seq![pow(tau, (index + 1) as nat) % order()] + tail
}

impl PublicDecryptionKey {
    /// What every key satisfies.
    pub open spec fn wf(&self) -> bool {
        &&& 1 <= self.max_batch_size
        &&& 2 * self.max_batch_size + 1 <= isize::MAX
        &&& self.threshold < self.server_count
        &&& self.low_powers@.len() == self.max_batch_size
        &&& self.high_powers@.len() == self.max_batch_size - 1
        &&& self.server_domain@.len() == self.server_count
        &&& forall|j: int|
            0 <= j < self.server_count ==> (#[trigger] self.server_domain@[j])@ == j + 1
        &&& self.share_commitments matches Some(commitments) ==> {
            &&& commitments@.len() == self.server_count
            &&& forall|j: int|
                0 <= j < self.server_count ==> (#[trigger] commitments@[j])@.len()
                    == self.max_batch_size
        }
    }

    /// Whether the powers are those of `tau`.
    pub open spec fn has_powers(&self, tau: int) -> bool {
        &&& views(self.low_powers@) == power_range(tau, 1, self.max_batch_size as int)
        &&& views(self.high_powers@) == power_range(
            tau,
            self.max_batch_size + 2,
            self.max_batch_size - 1,
        )
    }

    /// Whether the power with this exponent is published.
    pub open spec fn has_power(&self, exponent: int) -> bool {
        1 <= exponent <= 2 * self.max_batch_size && exponent != self.max_batch_size + 1
    }

    /// The logarithm of the published power with this exponent.
    pub open spec fn power_log(&self, exponent: int) -> int {
        if exponent <= self.max_batch_size {
            self.low_powers@[exponent - 1]@
        } else {
            self.high_powers@[exponent - self.max_batch_size - 2]@
        }
    }

    /// The published power whose exponent lies `offset` from the one left out.
    pub open spec fn centered_log(&self, offset: int) -> int {
        self.power_log(self.max_batch_size + 1 + offset)
    }

    pub fn max_batch_size(&self) -> (result: usize)
        ensures
            result == self.max_batch_size,
    {
        self.max_batch_size
    }

    pub fn server_count(&self) -> (result: usize)
        ensures
            result == self.server_count,
    {
        self.server_count
    }

    pub fn threshold(&self) -> (result: usize)
        ensures
            result == self.threshold,
    {
        self.threshold
    }

    pub fn required_shares(&self) -> (result: usize)
        requires
            self.wf(),
        ensures
            result == self.threshold + 1,
    {
        self.threshold + 1
    }

    pub fn server_domain(&self) -> (result: &Vec<Fr>)
        ensures
            *result == self.server_domain,
    {
        &self.server_domain
    }

    pub fn has_share_commitments(&self) -> (result: bool)
        ensures
            result == self.share_commitments is Some,
    {
        self.share_commitments.is_some()
    }

    /// The power of the secret with this exponent.
    pub fn power(&self, exponent: usize) -> (result: Result<G2Point>)
        requires
            self.wf(),
        ensures
            match result {
                Ok(point) => self.has_power(exponent as int) && point@ == self.power_log(
                    exponent as int,
                ),
                Err(error) => !self.has_power(exponent as int) && error
                    == Error::InvalidBatchSize(exponent),
            },
    {
        if 1 <= exponent && exponent <= self.max_batch_size {
            return Ok(self.low_powers[exponent - 1]);
        }
        if self.max_batch_size + 2 <= exponent && exponent <= 2 * self.max_batch_size {
            return Ok(self.high_powers[exponent - self.max_batch_size - 2]);
        }
        Err(Error::InvalidBatchSize(exponent))
    }

    /// The power of the secret whose exponent lies `offset` from the one left out.
    pub fn centered_power(&self, offset: isize) -> (result: Result<G2Point>)
        requires
            self.wf(),
            self.max_batch_size + 1 + offset <= isize::MAX,
        ensures
            ({
                let exponent = self.max_batch_size + 1 + offset;
                match result {
                    Ok(point) => self.has_power(exponent) && point@ == self.centered_log(
                        offset as int,
                    ),
                    Err(error) => !self.has_power(exponent) && error == Error::InvalidBatchSize(
                        if exponent <= 0 {
                            0
                        } else {
                            exponent as usize
                        },
                    ),
                }
            }),
    {
        let exponent: isize = self.max_batch_size as isize + 1 + offset;
        if exponent <= 0 {
            return Err(Error::InvalidBatchSize(0));
        }
        self.power(exponent as usize)
    }

    /// Why a share commitment cannot be had, where it cannot.
    pub open spec fn commitment_defect(&self, server_index: int, slot: int) -> Option<Error> {
        if server_index >= self.server_count {
            Some(Error::InvalidServerIndex(server_index as usize))
        } else if slot >= self.max_batch_size {
            Some(
                Error::BatchTooLarge {
                    batch_size: (slot + 1) as usize,
                    max_batch_size: self.max_batch_size,
                },
            )
        } else if self.share_commitments is None {
            Some(Error::InvalidShare)
        } else {
            None
        }
    }

    /// The logarithm of the commitment to a server's share for a slot.
    pub open spec fn commitment_log(&self, server_index: int, slot: int) -> int {
        (self.share_commitments->0)@[server_index]@[slot]@
    }

    pub fn share_commitment(&self, server_index: usize, slot: usize) -> (result: Result<G2Point>)
        requires
            self.wf(),
            slot < usize::MAX,
        ensures
            match result {
                Ok(point) => self.commitment_defect(server_index as int, slot as int) is None
                    && point@ == self.commitment_log(server_index as int, slot as int),
                Err(error) => self.commitment_defect(server_index as int, slot as int) == Some(
                    error,
                ),
            },
    {
        if server_index >= self.server_count {
            return Err(Error::InvalidServerIndex(server_index));
        }
        if slot >= self.max_batch_size {
            return Err(
                Error::BatchTooLarge {
                    batch_size: slot + 1,
                    max_batch_size: self.max_batch_size,
                },
            );
        }
        match &self.share_commitments {
            Some(commitments) => Ok(commitments[server_index][slot]),
            None => Err(Error::InvalidShare),
        }
    }
}

impl ServerSecretKey {
    pub fn max_batch_size(&self) -> (result: usize)
        ensures
            result == self.shares@.len(),
    {
        self.shares.len()
    }

    /// The shares for the first `batch_size` slots.
    pub fn shares_for_batch(&self, batch_size: usize) -> (result: Result<Vec<Fr>>)
        ensures
            match result {
                Ok(shares) => batch_size <= self.shares@.len() && shares@ == self.shares@.take(
                    batch_size as int,
                ),
                Err(error) => batch_size > self.shares@.len() && error == (Error::BatchTooLarge {
                    batch_size,
                    max_batch_size: self.shares@.len() as usize,
                }),
            },
    {
        if batch_size > self.shares.len() {
            return Err(
                Error::BatchTooLarge { batch_size, max_batch_size: self.shares.len() },
            );
        }
        Ok(slice_of(&self.shares, 0, batch_size))
    }

    /// Whether this is the key of server `server` under the secret and the tails.
    pub open spec fn is_key_of(
        &self,
        server: int,
        batch: int,
        tau: int,
        tails: Seq<Seq<int>>,
    ) -> bool {
        &&& self.server_index == server
        &&& self.domain_point@ == server + 1
        &&& self.shares@.len() == batch
        &&& forall|i: int|
            0 <= i < batch ==> (#[trigger] self.shares@[i])@ == eval(
                sharing_polynomial(tau, tails[i], i),
                server + 1,
            ) % order()
    }
}

impl KeyMaterial {
    /// Whether the material is what the secret and the tails of the sharing
    /// polynomials give for a configuration.
    pub open spec fn is_generated(
        &self,
        config: KeygenConfig,
        tau: int,
        tails: Seq<Seq<int>>,
    ) -> bool {
        let batch = config.max_batch_size as int;
        &&& self.encryption_key.max_batch_size == config.max_batch_size
        &&& self.encryption_key.element@ == pow(tau, (batch + 1) as nat) % order()
        &&& self.decryption_key.wf()
        &&& self.decryption_key.max_batch_size == config.max_batch_size
        &&& self.decryption_key.server_count == config.server_count
        &&& self.decryption_key.threshold == config.threshold
        &&& self.decryption_key.has_powers(tau)
        &&& self.server_keys@.len() == config.server_count
        &&& forall|j: int|
            0 <= j < config.server_count ==> (#[trigger] self.server_keys@[j]).is_key_of(
                j,
                batch,
                tau,
                tails,
            )
        &&& self.decryption_key.share_commitments is Some <==> config.publish_share_commitments
        &&& self.decryption_key.share_commitments matches Some(commitments) ==> forall|j: int|
            0 <= j < config.server_count ==> views((#[trigger] commitments@[j])@) == views(
                self.server_keys@[j].shares@,
            )
    }
}

/// Whether there is a tail of `threshold` coefficients for every power.
pub open spec fn tails_fit(config: KeygenConfig, tails: Seq<Seq<int>>) -> bool {
    &&& tails.len() == config.max_batch_size
    &&& forall|i: int| 0 <= i < tails.len() ==> (#[trigger] tails[i]).len() == config.threshold
}

/// The key of one server.
fn server_key(server_index: usize, tau_powers: &Vec<Fr>, tails: &Vec<Vec<Fr>>, Ghost(tau): Ghost<
    int,
>) -> (key: ServerSecretKey)
    requires
        server_index < usize::MAX,
        tau_powers@.len() > tails@.len(),
        views(tau_powers@) == power_range(tau, 0, tau_powers@.len() as int),
    ensures
        key.is_key_of(server_index as int, tails@.len() as int, tau, nested_views(tails@)),
{
    let domain_point = Fr::from_u64(server_index as u64 + 1);
    proof {
        lemma_order();
        lemma_reduced(server_index + 1);
    }
    let mut shares: Vec<Fr> = Vec::new();
    while shares.len() < tails.len()
        invariant
            shares@.len() <= tails@.len() < tau_powers@.len(),
            views(tau_powers@) == power_range(tau, 0, tau_powers@.len() as int),
            domain_point@ == server_index + 1,
            forall|i: int|
                0 <= i < shares@.len() ==> (#[trigger] shares@[i])@ == eval(
                    sharing_polynomial(tau, nested_views(tails@)[i], i),
                    server_index + 1,
                ) % order(),
        decreases tails@.len() - shares@.len(),
    {
        let index = shares.len();
        let mut coefficients: Vec<Fr> = Vec::new();
        coefficients.push(tau_powers[index + 1]);
        let mut position: usize = 0;
        while position < tails[index].len()
            invariant
                index < tails@.len() < tau_powers@.len(),
                position <= tails@[index as int]@.len(),
                coefficients@ == seq![tau_powers@[index + 1]] + tails@[index as int]@.take(
                    position as int,
                ),
            decreases tails@[index as int]@.len() - position,
        {
            coefficients.push(tails[index][position]);
            position = position + 1;
            assert(coefficients@ =~= seq![tau_powers@[index + 1]] + tails@[index as int]@.take(
                position as int,
            ));
        }
        proof {
            assert(views(tau_powers@)[index + 1] == pow(tau, (index + 1) as nat) % order());
            assert(views(coefficients@) =~= sharing_polynomial(
                tau,
                nested_views(tails@)[index as int],
                index as int,
            ));
        }
        shares.push(evaluate_polynomial(&coefficients, domain_point));
    }
    ServerSecretKey { server_index, domain_point, shares }
}

/// The key material for the given secret and tails of the sharing polynomials.
pub fn keygen_with_scalars(config: KeygenConfig, tau: Fr, tails: &Vec<Vec<Fr>>) -> (result: Result<
    KeyMaterial,
>)
    requires
        config.fits(),
        config.defect() is None ==> tails_fit(config, nested_views(tails@)),
    ensures
        match result {
            Ok(material) => config.defect() is None && material.is_generated(
                config,
                tau@,
                nested_views(tails@),
            ),
            Err(error) => config.defect() == Some(error),
        },
{
    match validate_config(config) {
        Ok(()) => {},
        Err(error) => {
            return Err(error);
        },
    }
    let batch = config.max_batch_size;
    let tau_powers = powers_of(tau, 2 * batch + 1);
    let ghost secret = tau@;
    let ghost rows = nested_views(tails@);
    proof {
        assert(views(tau_powers@).len() == 2 * batch + 1);
        assert(views(tau_powers@)[batch + 1] == pow(secret, (batch + 1) as nat) % order());
        lemma_reduced_power(secret, (batch + 1) as nat);
    }
    let element = GtElement::generator().times(tau_powers[batch + 1]);
    let encryption_key = EncryptionKey { max_batch_size: batch, element };
    let low_powers = scalars_to_g2(&slice_of(&tau_powers, 1, batch + 1));
    let high_powers = scalars_to_g2(&slice_of(&tau_powers, batch + 2, 2 * batch + 1));
    proof {
        let all = views(tau_powers@);
        assert(views(tau_powers@.subrange(1, batch + 1)) =~= power_range(secret, 1, batch as int))
            by {
            assert forall|i: int| 0 <= i < batch implies #[trigger] tau_powers@[i + 1]@ == pow(
                secret,
                (1 + i) as nat,
            ) % order() by {
                assert(all[i + 1] == pow(secret, (0 + (i + 1)) as nat) % order());
            }
        }
        assert(views(tau_powers@.subrange(batch + 2, 2 * batch + 1)) =~= power_range(
            secret,
            batch + 2,
            batch - 1,
        )) by {
            assert forall|i: int| 0 <= i < batch - 1 implies #[trigger] tau_powers@[i + (batch
                + 2)]@ == pow(secret, (batch + 2 + i) as nat) % order() by {
                assert(all[i + (batch + 2)] == pow(secret, (0 + (i + (batch + 2))) as nat)
                    % order());
            }
        }
        assert(views(low_powers@).len() == batch);
        assert(views(high_powers@).len() == batch - 1);
    }
    let mut server_domain: Vec<Fr> = Vec::new();
    let mut server_keys: Vec<ServerSecretKey> = Vec::new();
    let mut commitments: Vec<Vec<G2Point>> = Vec::new();
    let mut index: usize = 0;
    while index < config.server_count
        invariant
            index <= config.server_count,
            batch == config.max_batch_size == tails@.len(),
            tau_powers@.len() == 2 * batch + 1,
            views(tau_powers@) == power_range(secret, 0, 2 * batch + 1),
            rows == nested_views(tails@),
            server_domain@.len() == index,
            forall|j: int| 0 <= j < index ==> (#[trigger] server_domain@[j])@ == j + 1,
            server_keys@.len() == index,
            forall|j: int|
                0 <= j < index ==> (#[trigger] server_keys@[j]).is_key_of(
                    j,
                    batch as int,
                    secret,
                    rows,
                ),
            commitments@.len() == (if config.publish_share_commitments {
                index
            } else {
                0
            }),
            forall|j: int|
                0 <= j < commitments@.len() ==> views((#[trigger] commitments@[j])@) == views(
                    server_keys@[j].shares@,
                ),
        decreases config.server_count - index,
    {
        let key = server_key(index, &tau_powers, tails, Ghost(secret));
        server_domain.push(key.domain_point);
        if config.publish_share_commitments {
            commitments.push(scalars_to_g2(&key.shares));
        }
        server_keys.push(key);
        index = index + 1;
    }
    let share_commitments = if config.publish_share_commitments {
        Some(commitments)
    } else {
        None
    };
    proof {
        if share_commitments is Some {
            let rows_of_points = share_commitments->0;
            assert forall|j: int| 0 <= j < config.server_count implies (
            #[trigger] rows_of_points@[j])@.len() == batch by {
                assert(views(rows_of_points@[j]@) == views(server_keys@[j].shares@));
                assert(views(rows_of_points@[j]@).len() == rows_of_points@[j]@.len());
                assert(server_keys@[j].is_key_of(j, batch as int, secret, rows));
            }
        }
    }
    let decryption_key = PublicDecryptionKey {
        max_batch_size: batch,
        server_count: config.server_count,
        threshold: config.threshold,
        low_powers,
        high_powers,
        server_domain,
        share_commitments,
    };
    Ok(KeyMaterial { encryption_key, decryption_key, server_keys })
}

proof fn lemma_reduced_power(base: int, exponent: nat)
    ensures
        (1 * (pow(base, exponent) % order())) % order() == pow(base, exponent) % order(),
{
    crate::algebra::residue::lemma_reduce(pow(base, exponent));
    lemma_reduced(pow(base, exponent) % order());
}

/// Whether an outcome is that of making key material with what a source drew: the draws for
/// the secret, and then the sharing polynomials.
pub open spec fn is_drawn_keygen(
    config: KeygenConfig,
    draws: Seq<int>,
    result: Result<KeyMaterial>,
) -> bool {
    match config.defect() {
        Some(error) => result == Err::<KeyMaterial, Error>(error) && draws.len() == 0,
        None => match result {
            Ok(material) => exists|sampled: Seq<int>, tau: int, tails: Seq<Seq<int>>|
                #![trigger is_nonzero_draw(sampled, Some(tau)), material.is_generated(
                    config,
                    tau,
                    tails,
                )]
                0 < tau < order() && is_nonzero_draw(sampled, Some(tau)) && tails_fit(
                    config,
                    tails,
                ) && draws == sampled + tails.flatten() && material.is_generated(
                    config,
                    tau,
                    tails,
                ),
            Err(error) => error == Error::SamplingFailed && is_nonzero_draw(draws, None),
        },
    }
}

/// Key material with a secret, which is not zero, and sharing polynomials drawn from
/// `rng`. It fails where the source yields nothing but zeros for the secret.
pub fn keygen_with_rng<R: ScalarRng>(config: KeygenConfig, rng: &mut R) -> (result: Result<
    KeyMaterial,
>)
    requires
        config.fits(),
    ensures
        old(rng).drawn().is_prefix_of(final(rng).drawn()),
        is_drawn_keygen(config, drawn_since(old(rng).drawn(), final(rng).drawn()), result),
{
    match validate_config(config) {
        Ok(()) => {},
        Err(error) => {
            return Err(error);
        },
    }
    let ghost start = rng.drawn();
    let tau = match sample_nonzero(rng) {
        Some(tau) => tau,
        None => {
            return Err(Error::SamplingFailed);
        },
    };
    let ghost sampled = drawn_since(start, rng.drawn());
    let mut tails: Vec<Vec<Fr>> = Vec::new();
    assert(nested_views(tails@).flatten() =~= Seq::<int>::empty());
    assert(rng.drawn() =~= start + sampled + nested_views(tails@).flatten());
    while tails.len() < config.max_batch_size
        invariant
            tails@.len() <= config.max_batch_size,
            rng.drawn() == start + sampled + nested_views(tails@).flatten(),
            forall|i: int|
                0 <= i < tails@.len() ==> (#[trigger] tails@[i])@.len() == config.threshold,
        decreases config.max_batch_size - tails@.len(),
    {
        let ghost earlier = nested_views(tails@);
        let row = draw(rng, config.threshold);
        let ghost last = views(row@);
        tails.push(row);
        proof {
            earlier.lemma_flatten_push(last);
            assert(nested_views(tails@) =~= earlier.push(last));
            assert(rng.drawn() =~= start + sampled + nested_views(tails@).flatten());
        }
    }
    assert(drawn_since(start, rng.drawn()) =~= sampled + nested_views(tails@).flatten());
    proof {
        tau.lemma_range();
        let rows = nested_views(tails@);
        assert forall|i: int| 0 <= i < rows.len() implies (#[trigger] rows[i]).len()
            == config.threshold by {
            assert(tails@[i]@.len() == config.threshold);
        }
        assert(tails_fit(config, rows));
        assert(is_nonzero_draw(sampled, Some(tau@)));
    }
    keygen_with_scalars(config, tau, &tails)
}

/// Key material with the system's randomness.
pub fn keygen(max_batch_size: usize, server_count: usize, threshold: usize) -> (result: Result<
    KeyMaterial,
>)
    requires
        2 * max_batch_size + 1 <= isize::MAX,
    ensures
        ({
            let config = KeygenConfig {
                max_batch_size,
                server_count,
                threshold,
                publish_share_commitments: true,
            };
            match config.defect() {
                Some(error) => result == Err::<KeyMaterial, Error>(error),
                None => match result {
                    Ok(material) => exists|tau: int, tails: Seq<Seq<int>>|
                        0 < tau < order() && tails_fit(config, tails)
                            && #[trigger] material.is_generated(config, tau, tails),
                    Err(error) => error == Error::SamplingFailed,
                },
            }
        }),
        exists|rng: SystemRng|
            is_drawn_keygen(
                (KeygenConfig {
                    max_batch_size,
                    server_count,
                    threshold,
                    publish_share_commitments: true,
                }),
                #[trigger] rng.scalar_record(),
                result,
            ),
{
    let mut rng = SystemRng::new();
    let config = KeygenConfig::new(max_batch_size, server_count, threshold);
    let result = keygen_with_rng(config, &mut rng);
    proof {
        lemma_drawn_since_start(rng.scalar_record());
        assert(is_drawn_keygen(config, rng.scalar_record(), result));
    }
    result
}

/// A configuration is accepted where the batch is not empty and the servers are more than the
/// threshold; of the others an empty batch is named first.
pub proof fn law_accepted_configuration(config: KeygenConfig)
    ensures
        config.defect() is None <==> 1 <= config.max_batch_size && config.threshold
            < config.server_count,
        config.defect() matches Some(error) ==> if config.max_batch_size == 0 {
            error == Error::BatchIsEmpty
        } else {
            error == (Error::InvalidCommittee {
                server_count: config.server_count,
                threshold: config.threshold,
            })
        },
{
}

/// An accepted configuration gets its keys unless the source yields `u64::MAX` zeros.
pub proof fn law_keygen_fails_only_on_zeros(
    config: KeygenConfig,
    draws: Seq<int>,
    result: Result<KeyMaterial>,
)
    requires
        is_drawn_keygen(config, draws, result),
        1 <= config.max_batch_size,
        config.threshold < config.server_count,
    ensures
        match result {
            Ok(_) => true,
            Err(error) => {
                &&& error == Error::SamplingFailed
                &&& draws.len() == u64::MAX
                &&& forall|i: int| 0 <= i < draws.len() ==> #[trigger] draws[i] == 0
            },
        },
{
    law_only_zeros_exhaust_a_source(draws, 1);
}

/// The secret is the first draw that is not zero, and the sharing polynomials are the draws
/// behind it in their order: what the key hides messages with, and every server's every share,
/// follow from them.
pub proof fn law_keys_follow_their_draws(
    config: KeygenConfig,
    draws: Seq<int>,
    material: KeyMaterial,
)
    requires
        is_drawn_keygen(config, draws, Ok(material)),
    ensures
        exists|place: int|
            {
                let batch = config.max_batch_size as int;
                let degree = config.threshold as int;
                let tau = #[trigger] draws[place];
                &&& 0 <= place
                &&& draws.len() == place + 1 + batch * degree
                &&& tau != 0
                &&& forall|i: int| 0 <= i < place ==> #[trigger] draws[i] == 0
                &&& material.encryption_key.element@ == pow(tau, (batch + 1) as nat) % order()
                &&& material.server_keys@.len() == config.server_count
                &&& forall|j: int, i: int|
                    0 <= j < config.server_count && 0 <= i < batch
                        ==> (#[trigger] material.server_keys@[j].shares@[i])@ == eval(
                        seq![pow(tau, (i + 1) as nat) % order()] + draws.subrange(
                            place + 1 + i * degree,
                            place + 1 + (i + 1) * degree,
                        ),
                        j + 1,
                    ) % order()
            },
{
    let batch = config.max_batch_size as int;
    let degree = config.threshold as int;
    let (sampled, tau, tails) = choose|sampled: Seq<int>, tau: int, tails: Seq<Seq<int>>|
        #![trigger is_nonzero_draw(sampled, Some(tau)), material.is_generated(config, tau, tails)]
        0 < tau < order() && is_nonzero_draw(sampled, Some(tau)) && tails_fit(config, tails)
            && draws == sampled + tails.flatten() && material.is_generated(config, tau, tails);
    law_nonzero_draws(sampled, tau, Seq::empty(), 0);
    lemma_row(tails, degree, 0);
    let place = sampled.len() - 1;
    assert(draws[place] == tau);
    assert forall|i: int| 0 <= i < place implies #[trigger] draws[i] == 0 by {
        assert(sampled[i] == 0);
    }
    assert forall|j: int, i: int| 0 <= j < config.server_count && 0 <= i < batch implies (
    #[trigger] material.server_keys@[j].shares@[i])@ == eval(
        seq![pow(tau, (i + 1) as nat) % order()] + draws.subrange(
            place + 1 + i * degree,
            place + 1 + (i + 1) * degree,
        ),
        j + 1,
    ) % order() by {
        assert(material.server_keys@[j].is_key_of(j, batch, tau, tails));
        lemma_row(tails, degree, i);
        assert(tails[i] =~= draws.subrange(
            place + 1 + i * degree,
            place + 1 + (i + 1) * degree,
        ));
    }
}

/// What is published are the powers of the secret up to twice the batch size without the one
/// that messages are hidden with, and a server's commitments are its shares.
pub proof fn law_published_powers(
    material: &KeyMaterial,
    config: KeygenConfig,
    tau: int,
    tails: Seq<Seq<int>>,
)
    requires
        material.is_generated(config, tau, tails),
    ensures
        ({
            let key = material.decryption_key;
            let batch = config.max_batch_size as int;
            &&& material.encryption_key.element@ == pow(tau, (batch + 1) as nat) % order()
            &&& key.low_powers@.len() == batch
            &&& key.high_powers@.len() == batch - 1
            &&& forall|i: int|
                0 <= i < batch ==> (#[trigger] key.low_powers@[i])@ == pow(tau, (i + 1) as nat)
                    % order()
            &&& forall|i: int|
                0 <= i < batch - 1 ==> (#[trigger] key.high_powers@[i])@ == pow(
                    tau,
                    (batch + 2 + i) as nat,
                ) % order()
            &&& key.share_commitments matches Some(commitments) ==> forall|j: int, i: int|
                0 <= j < config.server_count && 0 <= i < batch ==> (
                #[trigger] commitments@[j]@[i])@ == material.server_keys@[j].shares@[i]@
        }),
{
    let key = material.decryption_key;
    let batch = config.max_batch_size as int;
    assert forall|i: int| 0 <= i < batch implies (#[trigger] key.low_powers@[i])@ == pow(
        tau,
        (i + 1) as nat,
    ) % order() by {
        assert(views(key.low_powers@)[i] == power_range(tau, 1, batch)[i]);
        assert(1 + i == i + 1);
    }
    assert forall|i: int| 0 <= i < batch - 1 implies (#[trigger] key.high_powers@[i])@ == pow(
        tau,
        (batch + 2 + i) as nat,
    ) % order() by {
        assert(views(key.high_powers@)[i] == power_range(tau, batch + 2, batch - 1)[i]);
    }
    if let Some(commitments) = key.share_commitments {
        assert forall|j: int, i: int| 0 <= j < config.server_count && 0 <= i < batch implies (
        #[trigger] commitments@[j]@[i])@ == material.server_keys@[j].shares@[i]@ by {
            assert(material.server_keys@[j].is_key_of(j, batch, tau, tails));
            assert(views(commitments@[j]@)[i] == views(material.server_keys@[j].shares@)[i]);
        }
    }
}

/// A commitment can be had for every server and slot where commitments are published, and for no
/// other.
pub proof fn law_commitments_that_can_be_had(
    key: &PublicDecryptionKey,
    server_index: int,
    slot: int,
)
    ensures
        key.commitment_defect(server_index, slot) is None <==> server_index < key.server_count
            && slot < key.max_batch_size && key.share_commitments is Some,
        key.commitment_defect(server_index, slot) matches Some(error) ==> error == if server_index
            >= key.server_count {
            Error::InvalidServerIndex(server_index as usize)
        } else if slot >= key.max_batch_size {
            Error::BatchTooLarge {
                batch_size: (slot + 1) as usize,
                max_batch_size: key.max_batch_size,
            }
        } else {
            Error::InvalidShare
        },
{
}

} // verus!
