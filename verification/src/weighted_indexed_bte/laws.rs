//! What the phases promise together.
use vstd::arithmetic::power::{lemma_pow_adds, pow};
use vstd::prelude::*;

use crate::algebra::lagrange::{eval, lemma_interpolate, weight};
use crate::algebra::residue::{
    cong, inv, is_unit, lemma_cong_mul, lemma_cong_sub, lemma_inv, lemma_reduce, lemma_reduced,
    order,
};
use crate::algebra::sums::{
    dot, lemma_sum_add, lemma_sum_cong, lemma_sum_ext, lemma_sum_scale, lemma_sum_shift,
    lemma_sum_single, lemma_sum_sub, lemma_sum_zero, products, sum,
};
use crate::curve::views;
use crate::interpolation::{is_selection, lemma_roots_separated, root_points, selected_points};
use crate::middle::{cross_term, cross_terms_of};
use crate::points::power_range;
use crate::weighted::{
    cell, has_domain, lemma_ascending_count, lemma_flatten, lemma_none_unknown, lemma_offset_order,
    lemma_offset_step, lemma_owner, lemma_position_item, lemma_position_step,
    lemma_virtual_selection, offset, party_weight_sum, position_offset, share_values, total,
    virtual_indices,
};
use crate::weighted_indexed_bte::decryption::{
    batch_digest_of, batch_size_defect, beta_of, first_defect, first_duplicate, flagged_above,
    flagged_weight, gamma_row, gathered, has_share, has_valid, holds_before, is_acceptance,
    is_crossed, is_decryption, is_decryption_of_batch, is_finish, is_preparation, is_validation,
    lambda_of, law_considered_shares, lemma_share_of, opening_key, opening_table, pad_of, passes,
    ranks_before, rejected_before, server_context_of, share_check, share_defect, share_of,
    share_parties, share_sigmas, shares_before, shares_defect, valid_firsts, valid_parties,
    AcceptedDecryptionShares, BatchPrecomputation, DecryptionPrecomputation, DecryptionShare,
    IndexedMiddleProductKernel, ValidatedBatch,
};
use crate::weighted_indexed_bte::dleq::{Claim, ProofPurpose, Statement};
use crate::weighted_indexed_bte::encryption::{
    auxiliary_index, client_context_of, law_masking_is_involutive, mask_of, masked, Ciphertext,
};
use crate::weighted_indexed_bte::error::{Error, Result};
use crate::weighted_indexed_bte::setup::{
    gamma_table, masked_shares, KeyMaterial, KeygenConfig, MasterPublicKey, PublicParameters,
};

verus! {

/// The response that a party makes passes its check.
pub proof fn law_honest_share_passes(
    keys: &KeyMaterial,
    parameters: &PublicParameters,
    config: &KeygenConfig,
    coefficients: Seq<int>,
    sks: Seq<int>,
    batch: &ValidatedBatch,
    party: int,
    share: DecryptionShare,
)
    requires
        keys.is_generated(parameters, config, coefficients, sks),
        batch.setup_id@ == keys.public_key.setup_id@,
        batch.index_space == keys.public_key.index_space_size,
        0 <= party < config.party_weights@.len(),
        share.is_share_of(&keys.party_keys@[party], batch),
    ensures
        passes(&keys.public_key, batch, share),
        share_check(&keys.public_key, batch, share) == Ok::<bool, Error>(true),
{
    assert(keys.party_keys@[party].party_index == party);
    assert(keys.public_key.inverse_public_keys@[party]@ == inv(sks[party]));
}

/// Fewer flags, less weight.
proof fn lemma_flagged_monotone(
    party_weights: Seq<usize>,
    fewer: Seq<bool>,
    more: Seq<bool>,
    end: int,
)
    requires
        forall|p: int| 0 <= p < end && #[trigger] fewer[p] ==> more[p],
    ensures
        flagged_weight(party_weights, fewer, end) <= flagged_weight(party_weights, more, end),
    decreases end,
{
    if end > 0 {
        lemma_flagged_monotone(party_weights, fewer, more, end - 1);
    }
}

/// Where the gathered weight is not enough, every flagged party was taken.
proof fn lemma_all_taken(
    party_weights: Seq<usize>,
    flags: Seq<bool>,
    threshold_weight: int,
    party: int,
)
    requires
        flags.len() == party_weights.len(),
        0 <= party < flags.len(),
        flags[party],
        flagged_weight(
            party_weights,
            gathered(party_weights, flags, threshold_weight),
            flags.len() as int,
        ) <= threshold_weight,
    ensures
        gathered(party_weights, flags, threshold_weight)[party],
    decreases usize::MAX - party_weights[party], party,
{
    let taken = gathered(party_weights, flags, threshold_weight);
    let above = flagged_above(party_weights, flags, party);
    assert forall|a: int| 0 <= a < flags.len() && #[trigger] above[a] implies taken[a] by {
        lemma_all_taken(party_weights, flags, threshold_weight, a);
    }
    lemma_flagged_monotone(party_weights, above, taken, flags.len() as int);
}

/// Gathering reaches more than the threshold wherever all flagged parties together do.
pub proof fn law_gathered_weight_is_enough(
    party_weights: Seq<usize>,
    flags: Seq<bool>,
    threshold_weight: int,
)
    requires
        flags.len() == party_weights.len(),
        flagged_weight(party_weights, flags, flags.len() as int) > threshold_weight,
    ensures
        flagged_weight(
            party_weights,
            gathered(party_weights, flags, threshold_weight),
            flags.len() as int,
        ) > threshold_weight,
{
    let n = flags.len() as int;
    let taken = gathered(party_weights, flags, threshold_weight);
    if flagged_weight(party_weights, taken, n) <= threshold_weight {
        assert forall|p: int| 0 <= p < n && #[trigger] flags[p] implies taken[p] by {
            lemma_all_taken(party_weights, flags, threshold_weight, p);
        }
        lemma_flagged_monotone(party_weights, flags, taken, n);
    }
}

/// How many parties before `end` are flagged.
pub open spec fn flag_count(flags: Seq<bool>, end: int) -> int
    decreases end,
{
    if end <= 0 {
        0
    } else {
        flag_count(flags, end - 1) + (if flags[end - 1] {
            1int
        } else {
            0int
        })
    }
}

/// Whether a party is flagged and all other flagged ones before `end` rank before it.
spec fn is_lowest(party_weights: Seq<usize>, flags: Seq<bool>, end: int, party: int) -> bool {
    &&& 0 <= party < end
    &&& flags[party]
    &&& forall|a: int|
        0 <= a < end && a != party && #[trigger] flags[a] ==> ranks_before(
            party_weights,
            a,
            party,
        )
}

spec fn flagged_exists(flags: Seq<bool>, end: int) -> bool {
    exists|a: int| 0 <= a < end && #[trigger] flags[a]
}

proof fn lemma_lowest(party_weights: Seq<usize>, flags: Seq<bool>, end: int) -> (lowest: int)
    requires
        0 <= end <= flags.len() == party_weights.len(),
        flagged_exists(flags, end),
    ensures
        is_lowest(party_weights, flags, end, lowest),
    decreases end,
{
    let witness = choose|a: int| 0 <= a < end && #[trigger] flags[a];
    if flagged_exists(flags, end - 1) {
        let other = lemma_lowest(party_weights, flags, end - 1);
        if flags[end - 1] && party_weights[end - 1] <= party_weights[other] {
            assert forall|a: int|
                0 <= a < end && a != end - 1 && #[trigger] flags[a] implies ranks_before(
                party_weights,
                a,
                end - 1,
            ) by {
                if a != other {
                    assert(ranks_before(party_weights, a, other));
                }
            }
            end - 1
        } else {
            other
        }
    } else {
        assert(witness == end - 1) by {
            if witness < end - 1 {
                assert(flagged_exists(flags, end - 1));
            }
        }
        assert forall|a: int|
            0 <= a < end && a != end - 1 && #[trigger] flags[a] implies ranks_before(
            party_weights,
            a,
            end - 1,
        ) by {
            assert(flagged_exists(flags, end - 1));
        }
        end - 1
    }
}

/// Where everything that is in the one set and not in the other weighs at most
/// `w`, and everything the other way round at least `w`, the weights differ by at
/// most `w` for each party that the sizes differ by.
proof fn lemma_exchange(
    party_weights: Seq<usize>,
    ones: Seq<bool>,
    others: Seq<bool>,
    w: int,
    end: int,
)
    requires
        forall|p: int|
            0 <= p < end && #[trigger] ones[p] && !others[p] ==> party_weights[p] <= w,
        forall|p: int|
            0 <= p < end && !ones[p] && #[trigger] others[p] ==> party_weights[p] >= w,
    ensures
        flagged_weight(party_weights, ones, end) - flagged_weight(party_weights, others, end) <= w
            * (flag_count(ones, end) - flag_count(others, end)),
    decreases end,
{
    if end > 0 {
        lemma_exchange(party_weights, ones, others, w, end - 1);
        let d = flag_count(ones, end - 1) - flag_count(others, end - 1);
        assert(w * (d + 1) == w * d + w) by (nonlinear_arith);
        assert(w * (d - 1) == w * d - w) by (nonlinear_arith);
        assert(ones[end - 1] || !ones[end - 1]);
        assert(others[end - 1] || !others[end - 1]);
    } else {
        assert(w * 0 == 0);
    }
}

/// Removing one flagged party.
proof fn lemma_remove(flags: Seq<bool>, party: int, end: int)
    requires
        0 <= party < flags.len(),
        flags[party],
        0 <= end <= flags.len(),
    ensures
        flag_count(flags.update(party, false), end) == flag_count(flags, end) - (if party < end {
            1int
        } else {
            0int
        }),
    decreases end,
{
    if end > 0 {
        lemma_remove(flags, party, end - 1);
    }
}

/// Gathering takes as few parties as it can: any set of flagged parties that
/// weighs more than the threshold has at least as many members.
pub proof fn law_gathered_is_smallest(
    party_weights: Seq<usize>,
    flags: Seq<bool>,
    threshold_weight: int,
    other: Seq<bool>,
)
    requires
        flags.len() == party_weights.len() == other.len(),
        0 <= threshold_weight,
        forall|p: int| 0 <= p < flags.len() && #[trigger] other[p] ==> flags[p],
        flagged_weight(party_weights, other, flags.len() as int) > threshold_weight,
    ensures
        flag_count(other, flags.len() as int) >= flag_count(
            gathered(party_weights, flags, threshold_weight),
            flags.len() as int,
        ),
{
    let n = flags.len() as int;
    let taken = gathered(party_weights, flags, threshold_weight);
    if flagged_exists(taken, n) {
        let last = lemma_lowest(party_weights, taken, n);
        let above = flagged_above(party_weights, flags, last);
        let rest = taken.update(last, false);
        // what ranks above the last one taken is what else was taken
        assert forall|a: int| 0 <= a < n implies #[trigger] above[a] == rest[a] by {
            if above[a] {
                let higher = flagged_above(party_weights, flags, a);
                assert forall|b: int| 0 <= b < n && #[trigger] higher[b] implies above[b] by {}
                lemma_flagged_monotone(party_weights, higher, above, n);
                assert(taken[a]);
                assert(a != last);
            } else if a != last && taken[a] {
                assert(ranks_before(party_weights, a, last));
            }
        }
        assert(above =~= rest);
        lemma_remove(taken, last, n);
        let w = party_weights[last] as int;
        if flag_count(other, n) < flag_count(taken, n) {
            assert forall|p: int| 0 <= p < n && #[trigger] other[p] && !above[p] implies
                party_weights[p] <= w by {
                assert(flags[p]);
            }
            lemma_exchange(party_weights, other, above, w, n);
            let d = flag_count(other, n) - flag_count(above, n);
            assert(w * d <= 0) by (nonlinear_arith)
                requires
                    w >= 0,
                    d <= 0,
            ;
            assert(flagged_weight(party_weights, above, n) <= threshold_weight) by {
                assert(taken[last]);
            }
        }
    } else {
        lemma_none_counted(taken, n);
        lemma_count_nonnegative(other, n);
    }
}

proof fn lemma_none_counted(flags: Seq<bool>, end: int)
    requires
        !flagged_exists(flags, end),
    ensures
        flag_count(flags, end) == 0,
    decreases end,
{
    if end > 0 {
        if flagged_exists(flags, end - 1) {
            let a = choose|a: int| 0 <= a < end - 1 && #[trigger] flags[a];
            assert(flags[a]);
        }
        lemma_none_counted(flags, end - 1);
    }
}

proof fn lemma_count_nonnegative(flags: Seq<bool>, end: int)
    ensures
        flag_count(flags, end) >= 0,
    decreases end,
{
    if end > 0 {
        lemma_count_nonnegative(flags, end - 1);
    }
}

/// The accepted shares: in the order of their parties, each that of a flagged
/// party, and with the weight that was counted.
proof fn lemma_shares_before(
    party_weights: Seq<usize>,
    shares: Seq<DecryptionShare>,
    flags: Seq<bool>,
    end: int,
)
    requires
        0 <= end <= flags.len() == party_weights.len(),
        forall|p: int| 0 <= p < flags.len() && #[trigger] flags[p] ==> has_share(shares, p),
    ensures
        ({
            let accepted = shares_before(shares, flags, end);
            let parties = share_parties(accepted);
            &&& party_weight_sum(party_weights, parties) == flagged_weight(
                party_weights,
                flags,
                end,
            )
            &&& forall|i: int| 0 <= i < parties.len() ==> (#[trigger] parties[i]) < end
            &&& forall|i: int, j: int|
                0 <= i < j < parties.len() ==> #[trigger] parties[i] < #[trigger] parties[j]
        }),
    decreases end,
{
    if end > 0 {
        lemma_shares_before(party_weights, shares, flags, end - 1);
        let before = shares_before(shares, flags, end - 1);
        let accepted = shares_before(shares, flags, end);
        let parties = share_parties(accepted);
        if flags[end - 1] {
            assert(has_share(shares, end - 1));
            assert(share_of(shares, end - 1).party_index == end - 1);
            assert(parties.drop_last() =~= share_parties(before));
            assert(parties.last() == end - 1);
            assert forall|i: int| 0 <= i < parties.len() implies (#[trigger] parties[i]) < end by {
                if i < before.len() {
                    assert(share_parties(before)[i] == parties[i]);
                }
            }
            assert forall|i: int, j: int| 0 <= i < j < parties.len() implies #[trigger] parties[i]
                < #[trigger] parties[j] by {
                assert(share_parties(before)[i] == parties[i]);
                if j < before.len() {
                    assert(share_parties(before)[j] == parties[j]);
                }
            }
        }
    } else {
        assert(share_parties(shares_before(shares, flags, 0)) =~= Seq::<usize>::empty());
    }
}

spec fn z_of(
    keys: &KeyMaterial,
    config: &KeygenConfig,
    coefficients: Seq<int>,
) -> Seq<int> {
    share_values(
        coefficients,
        keys.public_key.domain_size as int,
        total(config.party_weights@),
    )
}

/// The terms of the weighted sum of the selected virtual shares.
spec fn share_terms(z: Seq<int>, lambda: Seq<int>, selected: Seq<usize>) -> spec_fn(int) -> int {
    |i: int| lambda[i] * z[selected[i] as int]
}

/// A virtual share of a party in the row of an index, times its weight.
proof fn lemma_opening_term(
    keys: &KeyMaterial,
    parameters: &PublicParameters,
    config: &KeygenConfig,
    coefficients: Seq<int>,
    sks: Seq<int>,
    parties: Seq<usize>,
    index: int,
    p: int,
    k: int,
)
    requires
        keys.is_generated(parameters, config, coefficients, sks),
        0 <= index < parameters.index_space_size,
        0 <= p < parties.len(),
        parties[p] < config.party_weights@.len(),
        0 <= k < config.party_weights@[parties[p] as int],
    ensures
        ({
            let party_weights = config.party_weights@;
            let party = parties[p] as int;
            let start = position_offset(party_weights, parties, p);
            let begin = offset(party_weights, party);
            let selected = virtual_indices(party_weights, parties);
            let lambda = lambda_of(&keys.public_key, parties);
            let z = z_of(keys, config, coefficients);
            let h = parameters.h_log(parameters.index_space_size + 2 + index);
            &&& start + k < lambda.len()
            &&& begin + k < total(party_weights)
            &&& cong(
                gamma_row(&keys.public_key, index)[begin + k] * lambda[start + k],
                (h * sks[party]) * share_terms(z, lambda, selected)(start + k),
            )
        }),
{
    let pk = &keys.public_key;
    let party_weights = config.party_weights@;
    let selected = virtual_indices(party_weights, parties);
    let lambda = lambda_of(pk, parties);
    let z = z_of(keys, config, coefficients);
    let h = parameters.h_log(parameters.index_space_size + 2 + index);
    let party = parties[p] as int;
    let sk = sks[party];
    let i = k + position_offset(party_weights, parties, p);
    let v = offset(party_weights, party) + k;
    lemma_position_step(party_weights, parties, p);
    lemma_offset_step(party_weights, party);
    lemma_offset_order(party_weights, party + 1, party_weights.len() as int);
    lemma_offset_order(party_weights, party, party + 1);
    assert(parties.take(parties.len() as int) =~= parties);
    lemma_position_item(party_weights, parties, p, parties.len() as int, k);
    assert(selected[i] == v as usize);
    lemma_owner(party_weights, party, v);
    assert(cell(views(pk.gamma@), total(party_weights), index, v) == gamma_table(
        parameters,
        masked_shares(z, party_weights, sks),
    )(index, v));
    let m = masked_shares(z, party_weights, sks)[v];
    let a = gamma_row(pk, index)[v];
    assert(a == (h * m) % order());
    assert(lambda.len() == selected.len());
    lemma_reduce(z[v] * sk);
    lemma_reduce(h * m);
    lemma_cong_mul(h, h, m, z[v] * sk);
    lemma_cong_mul(a, h * (z[v] * sk), lambda[i], lambda[i]);
    let (x, l) = (z[v], lambda[i]);
    assert((h * (x * sk)) * l == (h * sk) * (l * x)) by (nonlinear_arith);
}

/// The opening key of a party: its part of the weighted sum, times the party's secret and the
/// power of the index.
proof fn lemma_opening_part(
    keys: &KeyMaterial,
    parameters: &PublicParameters,
    config: &KeygenConfig,
    coefficients: Seq<int>,
    sks: Seq<int>,
    parties: Seq<usize>,
    index: int,
    p: int,
)
    requires
        keys.is_generated(parameters, config, coefficients, sks),
        0 <= index < parameters.index_space_size,
        0 <= p < parties.len(),
        parties[p] < config.party_weights@.len(),
    ensures
        ({
            let party_weights = config.party_weights@;
            let selected = virtual_indices(party_weights, parties);
            let lambda = lambda_of(&keys.public_key, parties);
            let h = parameters.h_log(parameters.index_space_size + 2 + index);
            cong(
                opening_key(&keys.public_key, parties, index, p),
                (h * sks[parties[p] as int]) * sum(
                    share_terms(z_of(keys, config, coefficients), lambda, selected),
                    position_offset(party_weights, parties, p),
                    position_offset(party_weights, parties, p + 1),
                ),
            )
        }),
{
    let pk = &keys.public_key;
    let party_weights = config.party_weights@;
    let selected = virtual_indices(party_weights, parties);
    let lambda = lambda_of(pk, parties);
    let z = z_of(keys, config, coefficients);
    let h = parameters.h_log(parameters.index_space_size + 2 + index);
    let party = parties[p] as int;
    let start = position_offset(party_weights, parties, p);
    let begin = offset(party_weights, party);
    let count = party_weights[party] as int;
    let row = gamma_row(pk, index);
    let a = row.subrange(begin, begin + count);
    let b = lambda.subrange(start, start + count);
    let t = share_terms(z, lambda, selected);
    let factor = h * sks[party];
    lemma_position_step(party_weights, parties, p);
    lemma_offset_step(party_weights, party);
    lemma_offset_order(party_weights, party + 1, party_weights.len() as int);
    lemma_offset_order(party_weights, party, party + 1);
    let moved = |k: int| t(k + start);
    let scaled = |k: int| factor * moved(k);
    if count > 0 {
        lemma_opening_term(
            keys,
            parameters,
            config,
            coefficients,
            sks,
            parties,
            index,
            p,
            count - 1,
        );
    }
    assert forall|k: int| 0 <= k < count implies cong(
        #[trigger] products(a, b)(k),
        scaled(k),
    ) by {
        lemma_opening_term(keys, parameters, config, coefficients, sks, parties, index, p, k);
        assert(a[k] == row[begin + k]);
        assert(b[k] == lambda[start + k]);
        assert(start + k == k + start);
    }
    lemma_sum_cong(products(a, b), scaled, 0, count);
    lemma_sum_scale(factor, moved, scaled, 0, count);
    lemma_sum_shift(t, moved, 0, count, start);
    assert(a.len() == count);
    lemma_reduce(dot(a, b));
}

/// A party's secret cancels with its inverse.
proof fn lemma_secret_cancels(
    sigma: int,
    key: int,
    aggregate: int,
    sk: int,
    h: int,
    part: int,
)
    requires
        is_unit(sk),
        cong(sigma, aggregate * inv(sk)),
        cong(key, (h * sk) * part),
    ensures
        cong(sigma * key, (h * aggregate) * part),
{
    lemma_inv(sk);
    let i = inv(sk);
    let factor = h * sk;
    lemma_cong_mul(sigma, aggregate * i, key, factor * part);
    lemma_cong_mul(sk * i, 1, (h * aggregate) * part, (h * aggregate) * part);
    let c = aggregate * part;
    assert((aggregate * i) * (factor * part) == (i * factor) * c) by (nonlinear_arith)
        requires
            c == aggregate * part,
    ;
    assert(i * factor == (sk * i) * h) by (nonlinear_arith)
        requires
            factor == h * sk,
    ;
    let u = sk * i;
    assert((u * h) * c == u * (h * c)) by (nonlinear_arith);
    assert(h * c == (h * aggregate) * part) by (nonlinear_arith)
        requires
            c == aggregate * part,
    ;
    assert(1 * ((h * aggregate) * part) == (h * aggregate) * part);
}

/// The pairing of one share with its opening key: the party's part of the
/// weighted sum, times the aggregate and the power of the index.
proof fn lemma_alpha_part(
    keys: &KeyMaterial,
    parameters: &PublicParameters,
    config: &KeygenConfig,
    coefficients: Seq<int>,
    sks: Seq<int>,
    parties: Seq<usize>,
    index: int,
    p: int,
    aggregate: int,
    sigma: int,
)
    requires
        keys.is_generated(parameters, config, coefficients, sks),
        0 <= index < parameters.index_space_size,
        0 <= p < parties.len(),
        parties[p] < config.party_weights@.len(),
        cong(sigma, aggregate * inv(sks[parties[p] as int])),
    ensures
        ({
            let party_weights = config.party_weights@;
            let selected = virtual_indices(party_weights, parties);
            let lambda = lambda_of(&keys.public_key, parties);
            let h = parameters.h_log(parameters.index_space_size + 2 + index);
            cong(
                sigma * opening_key(&keys.public_key, parties, index, p),
                (h * aggregate) * sum(
                    share_terms(z_of(keys, config, coefficients), lambda, selected),
                    position_offset(party_weights, parties, p),
                    position_offset(party_weights, parties, p + 1),
                ),
            )
        }),
{
    let party_weights = config.party_weights@;
    let lambda = lambda_of(&keys.public_key, parties);
    let selected = virtual_indices(party_weights, parties);
    let party = parties[p] as int;
    lemma_opening_part(keys, parameters, config, coefficients, sks, parties, index, p);
    assert(is_unit(sks[party]));
    lemma_secret_cancels(
        sigma,
        opening_key(&keys.public_key, parties, index, p),
        aggregate,
        sks[party],
        parameters.h_log(parameters.index_space_size + 2 + index),
        sum(
            share_terms(z_of(keys, config, coefficients), lambda, selected),
            position_offset(party_weights, parties, p),
            position_offset(party_weights, parties, p + 1),
        ),
    );
}

/// The weighted sum of the selected virtual shares is the master secret.
proof fn lemma_interpolated(
    keys: &KeyMaterial,
    parameters: &PublicParameters,
    config: &KeygenConfig,
    coefficients: Seq<int>,
    sks: Seq<int>,
    parties: Seq<usize>,
)
    requires
        keys.is_generated(parameters, config, coefficients, sks),
        forall|i: int|
            0 <= i < parties.len() ==> (#[trigger] parties[i]) < config.party_weights@.len(),
        forall|i: int, j: int|
            0 <= i < j < parties.len() ==> #[trigger] parties[i] < #[trigger] parties[j],
        party_weight_sum(config.party_weights@, parties) > config.threshold_weight,
    ensures
        ({
            let selected = virtual_indices(config.party_weights@, parties);
            cong(
                sum(
                    share_terms(
                        z_of(keys, config, coefficients),
                        lambda_of(&keys.public_key, parties),
                        selected,
                    ),
                    0,
                    selected.len() as int,
                ),
                coefficients[0],
            )
        }),
{
    let pk = &keys.public_key;
    let party_weights = config.party_weights@;
    let selected = virtual_indices(party_weights, parties);
    let w = total(party_weights);
    let size = pk.domain_size as int;
    lemma_virtual_selection(party_weights, parties);
    assert forall|i: int, j: int| 0 <= i < j < selected.len() implies #[trigger] selected[i]
        != #[trigger] selected[j] by {
        assert(selected[i] < selected[j]);
    }
    assert(is_selection(w, selected));
    lemma_roots_separated(size, w, selected);
    let all = root_points(size, w);
    let xs = selected_points(all, selected);
    assert(views(pk.evaluation_domain@) == all);
    lemma_interpolate(xs, coefficients);
    let z = z_of(keys, config, coefficients);
    let lambda = lambda_of(pk, parties);
    let reduced = |i: int| weight(xs, i) * eval(coefficients, xs[i]);
    let terms = share_terms(z, lambda, selected);
    assert forall|i: int| 0 <= i < selected.len() implies cong(
        #[trigger] terms(i),
        reduced(i),
    ) by {
        let v = selected[i] as int;
        assert(v < w);
        let e = eval(coefficients, xs[i]);
        assert(z[v] == e % order());
        lemma_reduce(e);
        lemma_cong_mul(lambda[i], lambda[i], z[v], e);
        assert(lambda[i] == weight(xs, i));
    }
    lemma_sum_cong(terms, reduced, 0, selected.len() as int);
}

/// The powers of the second source group are those of the secret.
proof fn lemma_h_log(parameters: &PublicParameters, tau: int, exponent: int)
    requires
        parameters.is_generated(tau),
        parameters.has_h_power(exponent),
    ensures
        parameters.h_log(exponent) == pow(tau, exponent as nat) % order(),
{
    let n = parameters.index_space_size as int;
    let all = power_range(tau, 1, n) + power_range(tau, n + 2, n);
    if exponent <= n {
        assert(views(parameters.h_powers@)[exponent - 1] == all[exponent - 1]);
        assert(1 + (exponent - 1) == exponent);
    } else {
        assert(views(parameters.h_powers@)[exponent - 2] == all[exponent - 2]);
        assert(n + 2 + (exponent - 2 - n) == exponent);
    }
}

/// A delta times the power at the distance of two indices depends on the second
/// index alone.
proof fn lemma_delta_power(
    keys: &KeyMaterial,
    parameters: &PublicParameters,
    config: &KeygenConfig,
    tau: int,
    coefficients: Seq<int>,
    sks: Seq<int>,
    j: int,
    i: int,
)
    requires
        parameters.is_generated(tau),
        keys.is_generated(parameters, config, coefficients, sks),
        0 <= j < parameters.index_space_size,
        0 <= i < parameters.index_space_size,
        i != j,
    ensures
        cong(
            keys.public_key.deltas@[j]@ * parameters.centered_log(i - j),
            coefficients[0] * parameters.h_log(parameters.index_space_size + 2 + i),
        ),
{
    let n = parameters.index_space_size as int;
    let c0 = coefficients[0];
    let (p, q) = (pow(tau, (j + 1) as nat), pow(tau, (n + 1 + i - j) as nat));
    assert(views(parameters.g_powers@)[j] == power_range(tau, 1, n)[j]);
    assert(parameters.g_powers@[j]@ == p % order());
    lemma_h_log(parameters, tau, n + 1 + (i - j));
    lemma_h_log(parameters, tau, n + 2 + i);
    lemma_pow_adds(tau, (j + 1) as nat, (n + 1 + i - j) as nat);
    lemma_reduce(p);
    lemma_reduce(q);
    lemma_reduce(p * q);
    let g = parameters.g_powers@[j]@;
    let delta = keys.public_key.deltas@[j]@;
    lemma_reduce(g * c0);
    lemma_cong_mul(g, p, c0, c0);
    lemma_cong_mul(delta, p * c0, parameters.centered_log(i - j), q);
    assert((p * c0) * q == c0 * (p * q)) by (nonlinear_arith);
    lemma_cong_mul(c0, c0, p * q, (p * q) % order());
}

/// No two valid slots before `end` hold the same index.
spec fn are_distinct(keys: &KeyMaterial, ciphertexts: Seq<Ciphertext>) -> bool {
    forall|s: int, t: int|
        0 <= s < t < ciphertexts.len() && (#[trigger] ciphertexts[s]).is_valid(&keys.public_key)
            && (#[trigger] ciphertexts[t]).is_valid(&keys.public_key) ==> ciphertexts[s].index
            != ciphertexts[t].index
}

proof fn lemma_distinct(keys: &KeyMaterial, ciphertexts: Seq<Ciphertext>, from: int)
    requires
        0 <= from <= ciphertexts.len(),
        first_duplicate(&keys.public_key, ciphertexts, from) is None,
    ensures
        forall|s: int, t: int|
            0 <= s < t < ciphertexts.len() && from <= t && (#[trigger] ciphertexts[s]).is_valid(
                &keys.public_key,
            ) && (#[trigger] ciphertexts[t]).is_valid(&keys.public_key) ==> ciphertexts[s].index
                != ciphertexts[t].index,
    decreases ciphertexts.len() - from,
{
    let pk = &keys.public_key;
    if from < ciphertexts.len() {
        lemma_distinct(keys, ciphertexts, from + 1);
        assert forall|s: int, t: int|
            0 <= s < t < ciphertexts.len() && from <= t && (#[trigger] ciphertexts[s]).is_valid(pk)
                && (#[trigger] ciphertexts[t]).is_valid(pk) implies ciphertexts[s].index
            != ciphertexts[t].index by {
            if t == from && ciphertexts[s].index == ciphertexts[t].index {
                assert(holds_before(pk, ciphertexts, from, ciphertexts[t].index as int));
            }
        }
    }
}

/// The first component of the valid slot before `end` that holds an index, or nothing.
spec fn first_at(keys: &KeyMaterial, ciphertexts: Seq<Ciphertext>, end: int) -> spec_fn(int) -> int {
    |index: int|
        if holds_before(&keys.public_key, ciphertexts, end, index) {
            ciphertexts[holder(keys, ciphertexts, end, index)].first@
        } else {
            0
        }
}

spec fn holder(keys: &KeyMaterial, ciphertexts: Seq<Ciphertext>, end: int, index: int) -> int {
    choose|slot: int|
        0 <= slot < end && (#[trigger] ciphertexts[slot]).is_valid(&keys.public_key)
            && ciphertexts[slot].index == index
}

proof fn lemma_holder(keys: &KeyMaterial, ciphertexts: Seq<Ciphertext>, end: int, slot: int)
    requires
        are_distinct(keys, ciphertexts),
        0 <= slot < end <= ciphertexts.len(),
        ciphertexts[slot].is_valid(&keys.public_key),
    ensures
        holds_before(&keys.public_key, ciphertexts, end, ciphertexts[slot].index as int),
        holder(keys, ciphertexts, end, ciphertexts[slot].index as int) == slot,
{
    let index = ciphertexts[slot].index as int;
    assert(ciphertexts[slot].is_valid(&keys.public_key) && ciphertexts[slot].index == index);
    let other = holder(keys, ciphertexts, end, index);
    assert(ciphertexts[other].is_valid(&keys.public_key));
    if other < slot {
        assert(ciphertexts[other].index != ciphertexts[slot].index);
    } else if slot < other {
        assert(ciphertexts[slot].index != ciphertexts[other].index);
    }
}

/// A value of the valid slot before `end` that holds an index, or nothing.
spec fn placed(
    keys: &KeyMaterial,
    ciphertexts: Seq<Ciphertext>,
    values: spec_fn(int) -> int,
    end: int,
) -> spec_fn(int) -> int {
    |index: int|
        if holds_before(&keys.public_key, ciphertexts, end, index) {
            values(holder(keys, ciphertexts, end, index))
        } else {
            0
        }
}

/// The values of the valid slots, with nothing in the others.
spec fn valid_only(
    keys: &KeyMaterial,
    ciphertexts: Seq<Ciphertext>,
    values: spec_fn(int) -> int,
) -> spec_fn(int) -> int {
    |slot: int|
        if ciphertexts[slot].is_valid(&keys.public_key) {
            values(slot)
        } else {
            0
        }
}

/// Values of the valid slots, added up by slot and by index.
proof fn lemma_by_index(
    keys: &KeyMaterial,
    ciphertexts: Seq<Ciphertext>,
    values: spec_fn(int) -> int,
    end: int,
    n: int,
)
    requires
        are_distinct(keys, ciphertexts),
        0 <= end <= ciphertexts.len(),
        n == keys.public_key.index_space_size,
    ensures
        sum(placed(keys, ciphertexts, values, end), 0, n) == sum(
            valid_only(keys, ciphertexts, values),
            0,
            end,
        ),
    decreases end,
{
    let pk = &keys.public_key;
    let now = placed(keys, ciphertexts, values, end);
    if end > 0 {
        lemma_by_index(keys, ciphertexts, values, end - 1, n);
        let before = placed(keys, ciphertexts, values, end - 1);
        let slot = end - 1;
        if ciphertexts[slot].is_valid(pk) {
            let index = ciphertexts[slot].index as int;
            lemma_holder(keys, ciphertexts, end, slot);
            let added = |j: int| if j == index { values(slot) } else { 0 };
            assert forall|j: int| 0 <= j < n implies #[trigger] now(j) == before(j) + added(j) by {
                if j == index {
                    if holds_before(pk, ciphertexts, slot, index) {
                        let other = holder(keys, ciphertexts, slot, index);
                        assert(ciphertexts[other].is_valid(pk));
                        assert(ciphertexts[other].index != ciphertexts[slot].index);
                    }
                } else {
                    lemma_same_holder(keys, ciphertexts, values, end, j);
                }
            }
            lemma_sum_add(before, added, now, 0, n);
            lemma_sum_single(added, 0, n, index);
        } else {
            assert forall|j: int| 0 <= j < n implies #[trigger] now(j) == before(j) by {
                lemma_same_holder(keys, ciphertexts, values, end, j);
            }
            lemma_sum_ext(now, before, 0, n);
        }
    } else {
        assert forall|j: int| 0 <= j < n implies #[trigger] now(j) == 0 by {}
        lemma_sum_zero(now, 0, n);
    }
}

/// Where the last slot does not hold an index, the others do as before.
proof fn lemma_same_holder(
    keys: &KeyMaterial,
    ciphertexts: Seq<Ciphertext>,
    values: spec_fn(int) -> int,
    end: int,
    j: int,
)
    requires
        are_distinct(keys, ciphertexts),
        0 < end <= ciphertexts.len(),
        !ciphertexts[end - 1].is_valid(&keys.public_key) || ciphertexts[end - 1].index != j,
    ensures
        placed(keys, ciphertexts, values, end)(j) == placed(keys, ciphertexts, values, end - 1)(j),
{
    let pk = &keys.public_key;
    if holds_before(pk, ciphertexts, end, j) {
        let slot = holder(keys, ciphertexts, end, j);
        assert(ciphertexts[slot].is_valid(pk) && ciphertexts[slot].index == j);
        lemma_holder(keys, ciphertexts, end - 1, slot);
    } else if holds_before(pk, ciphertexts, end - 1, j) {
        let slot = holder(keys, ciphertexts, end - 1, j);
        assert(ciphertexts[slot].is_valid(pk) && ciphertexts[slot].index == j);
    }
}

/// The first components of the valid slots, added up by slot and by index.
proof fn lemma_firsts_by_index(keys: &KeyMaterial, ciphertexts: Seq<Ciphertext>, n: int)
    requires
        are_distinct(keys, ciphertexts),
        n == keys.public_key.index_space_size,
    ensures
        sum(first_at(keys, ciphertexts, ciphertexts.len() as int), 0, n) == sum(
            valid_firsts(&keys.public_key, ciphertexts),
            0,
            ciphertexts.len() as int,
        ),
{
    let end = ciphertexts.len() as int;
    let values = |slot: int| ciphertexts[slot].first@;
    lemma_by_index(keys, ciphertexts, values, end, n);
    lemma_sum_ext(
        first_at(keys, ciphertexts, end),
        placed(keys, ciphertexts, values, end),
        0,
        n,
    );
    lemma_sum_ext(
        valid_firsts(&keys.public_key, ciphertexts),
        valid_only(keys, ciphertexts, values),
        0,
        end,
    );
}

/// The entry of the kernel at the distance of two indices: nothing at zero, else the power
/// that lies so far from the one left out.
proof fn lemma_entry(
    parameters: &PublicParameters,
    kernel: &IndexedMiddleProductKernel,
    i: int,
    j: int,
)
    requires
        kernel.is_kernel_of(parameters),
        0 <= i < parameters.index_space_size,
        0 <= j < parameters.index_space_size,
    ensures
        kernel.entries().len() == kernel.transform_size,
        kernel.entries()[(i - j) % (kernel.transform_size as int)] == if i == j {
            0
        } else {
            parameters.centered_log(i - j)
        },
{
    let m = kernel.transform_size as int;
    let wraps: int = if i >= j {
        0
    } else {
        1
    };
    vstd::arithmetic::div_mod::lemma_fundamental_div_mod_converse(
        i - j,
        m,
        -wraps,
        i - j + m * wraps,
    );
    if i > j {
        assert(kernel.positive_powers@[i - j]@ == parameters.centered_log(i - j));
    } else if j > i {
        assert(kernel.negative_powers@[j - i]@ == parameters.centered_log(-(j - i)));
    }
}

/// What the punctured points hold at an index that no valid slot does: nothing.
proof fn lemma_unused(
    keys: &KeyMaterial,
    batch: &ValidatedBatch,
    ciphertexts: Seq<Ciphertext>,
    j: int,
)
    requires
        batch.is_batch_of(&keys.public_key, ciphertexts),
        0 <= j < keys.public_key.index_space_size,
        !holds_before(&keys.public_key, ciphertexts, ciphertexts.len() as int, j),
    ensures
        batch.punctured_logs()[j] == 0,
{
    let n = keys.public_key.index_space_size as int;
    if batch.punctured_by_index@[j]@ != 0 {
        assert(batch.used_indices@.contains(j as usize));
        crate::weighted_indexed_bte::decryption::lemma_used_before(
            &keys.public_key,
            ciphertexts,
            n,
        );
        let k = choose|k: int|
            0 <= k < batch.used_indices@.len() && batch.used_indices@[k] == j as usize;
        assert(batch.used_indices@[k] < n);
    }
}

/// The terms of the cross term of a slot: for every other valid slot its punctured point
/// times the power at the distance of their indices.
pub open spec fn slot_terms(
    parameters: &PublicParameters,
    public_key: &MasterPublicKey,
    ciphertexts: Seq<Ciphertext>,
    slot: int,
) -> spec_fn(int) -> int {
    |other: int|
        if other != slot && ciphertexts[other].is_valid(public_key) {
            ciphertexts[other].punctured@ * parameters.centered_log(
                ciphertexts[slot].index - ciphertexts[other].index,
            )
        } else {
            0
        }
}

/// The cross term of a valid slot is the sum over the other valid slots of their punctured
/// points, each times the power at the distance of the indices; that of another slot is
/// nothing. This holds however the terms were computed, and for every committee under the
/// parameters.
pub proof fn law_cross_terms_are_direct(
    keys: &KeyMaterial,
    parameters: &PublicParameters,
    kernel: &IndexedMiddleProductKernel,
    batch: &ValidatedBatch,
    ciphertexts: Seq<Ciphertext>,
    slot: int,
)
    requires
        keys.public_key.index_space_size == parameters.index_space_size,
        kernel.is_kernel_of(parameters),
        batch.is_batch_of(&keys.public_key, ciphertexts),
        first_duplicate(&keys.public_key, ciphertexts, 0) is None,
        0 <= slot < ciphertexts.len(),
    ensures
        beta_of(kernel, batch, slot) == if ciphertexts[slot].is_valid(&keys.public_key) {
            sum(
                slot_terms(parameters, &keys.public_key, ciphertexts, slot),
                0,
                ciphertexts.len() as int,
            ) % order()
        } else {
            0
        },
{
    let pk = &keys.public_key;
    let n = parameters.index_space_size as int;
    let end = ciphertexts.len() as int;
    assert(batch.valid@[slot] == ciphertexts[slot].is_valid(pk));
    if ciphertexts[slot].is_valid(pk) {
        lemma_distinct(keys, ciphertexts, 0);
        let i = ciphertexts[slot].index as int;
        assert(batch.valid_index_by_slot@[slot] == Some(ciphertexts[slot].index));
        let values = |other: int|
            if ciphertexts[other].index == i {
                0
            } else {
                ciphertexts[other].punctured@ * parameters.centered_log(
                    i - ciphertexts[other].index,
                )
            };
        let p = batch.punctured_logs();
        let f = cross_terms_of(p, kernel.entries(), i);
        let g = placed(keys, ciphertexts, values, end);
        assert forall|j: int| 0 <= j < n implies #[trigger] f(j) == g(j) by {
            lemma_entry(parameters, kernel, i, j);
            if holds_before(pk, ciphertexts, end, j) {
                let other = holder(keys, ciphertexts, end, j);
                assert(ciphertexts[other].is_valid(pk) && ciphertexts[other].index == j);
                assert(p[j] == ciphertexts[other].punctured@);
                assert(p[j] * 0 == 0);
            } else {
                lemma_unused(keys, batch, ciphertexts, j);
                let entry = kernel.entries()[(i - j) % (kernel.transform_size as int)];
                assert(0 * entry == 0);
            }
        }
        assert(p.len() == n);
        lemma_sum_ext(f, g, 0, n);
        lemma_by_index(keys, ciphertexts, values, end, n);
        let direct = slot_terms(parameters, pk, ciphertexts, slot);
        let valid = valid_only(keys, ciphertexts, values);
        assert forall|other: int| 0 <= other < end implies #[trigger] direct(other) == valid(
            other,
        ) by {
            if ciphertexts[other].is_valid(pk) && other != slot {
                if other < slot {
                    assert(ciphertexts[other].index != ciphertexts[slot].index);
                } else {
                    assert(ciphertexts[slot].index != ciphertexts[other].index);
                }
            }
        }
        lemma_sum_ext(direct, valid, 0, end);
    }
}

/// The virtual shares of enough parties recover the mask of an index: the inverse keys of
/// the parties, each times its opening key, add up to any other index's delta times the
/// power at the distance of the two.
pub proof fn law_gamma_recovers_mask(
    keys: &KeyMaterial,
    parameters: &PublicParameters,
    config: &KeygenConfig,
    tau: int,
    coefficients: Seq<int>,
    sks: Seq<int>,
    parties: Seq<usize>,
    index: int,
    other: int,
)
    requires
        parameters.is_generated(tau),
        keys.is_generated(parameters, config, coefficients, sks),
        forall|i: int|
            0 <= i < parties.len() ==> (#[trigger] parties[i]) < config.party_weights@.len(),
        forall|i: int, j: int|
            0 <= i < j < parties.len() ==> #[trigger] parties[i] < #[trigger] parties[j],
        party_weight_sum(config.party_weights@, parties) > config.threshold_weight,
        0 <= index < parameters.index_space_size,
        0 <= other < parameters.index_space_size,
        index != other,
    ensures
        ({
            let pk = &keys.public_key;
            let inverses = Seq::new(
                parties.len(),
                |p: int| pk.inverse_public_keys@[parties[p] as int]@,
            );
            let openings = Seq::new(
                parties.len(),
                |p: int| opening_key(pk, parties, index, p),
            );
            cong(
                dot(inverses, openings),
                pk.deltas@[other]@ * parameters.centered_log(index - other),
            )
        }),
{
    let pk = &keys.public_key;
    let party_weights = config.party_weights@;
    let inverses = Seq::new(parties.len(), |p: int| pk.inverse_public_keys@[parties[p] as int]@);
    let openings = Seq::new(parties.len(), |p: int| opening_key(pk, parties, index, p));
    let h = parameters.h_log(parameters.index_space_size + 2 + index);
    let c0 = coefficients[0];
    let selected = virtual_indices(party_weights, parties);
    let lambda = lambda_of(pk, parties);
    let t = share_terms(z_of(keys, config, coefficients), lambda, selected);
    let scaled = |k: int| h * t(k);
    assert forall|p: int| 0 <= p < parties.len() implies cong(
        #[trigger] products(inverses, openings)(p),
        sum(
            scaled,
            position_offset(party_weights, parties, p),
            position_offset(party_weights, parties, p + 1),
        ),
    ) by {
        let party = parties[p] as int;
        assert(pk.inverse_public_keys@[party]@ == inv(sks[party]));
        assert(1 * inv(sks[party]) == inv(sks[party]));
        lemma_alpha_part(
            keys,
            parameters,
            config,
            coefficients,
            sks,
            parties,
            index,
            p,
            1,
            inverses[p],
        );
        assert(h * 1 == h);
        lemma_sum_scale(
            h,
            t,
            scaled,
            position_offset(party_weights, parties, p),
            position_offset(party_weights, parties, p + 1),
        );
    }
    lemma_flatten(
        party_weights,
        parties,
        scaled,
        products(inverses, openings),
        parties.len() as int,
    );
    assert(parties.take(parties.len() as int) =~= parties);
    lemma_sum_scale(h, t, scaled, 0, selected.len() as int);
    lemma_interpolated(keys, parameters, config, coefficients, sks, parties);
    lemma_cong_mul(h, h, sum(t, 0, selected.len() as int), c0);
    assert(dot(inverses, openings) == sum(
        products(inverses, openings),
        0,
        parties.len() as int,
    ));
    lemma_delta_power(keys, parameters, config, tau, coefficients, sks, other, index);
    assert(h * c0 == c0 * h) by (nonlinear_arith);
}

/// The cross term of an index: the first components at the other indices, times
/// the master secret and the power of the index.
proof fn lemma_beta(
    keys: &KeyMaterial,
    parameters: &PublicParameters,
    config: &KeygenConfig,
    tau: int,
    coefficients: Seq<int>,
    sks: Seq<int>,
    kernel: &IndexedMiddleProductKernel,
    batch: &ValidatedBatch,
    ciphertexts: Seq<Ciphertext>,
    i: int,
)
    requires
        parameters.is_generated(tau),
        keys.is_generated(parameters, config, coefficients, sks),
        kernel.is_kernel_of(parameters),
        batch.is_batch_of(&keys.public_key, ciphertexts),
        are_distinct(keys, ciphertexts),
        forall|slot: int|
            0 <= slot < ciphertexts.len() && (#[trigger] ciphertexts[slot]).is_valid(
                &keys.public_key,
            ) ==> ciphertexts[slot].is_consistent(&keys.public_key),
        0 <= i < parameters.index_space_size,
    ensures
        ({
            let n = parameters.index_space_size as int;
            let r = first_at(keys, ciphertexts, ciphertexts.len() as int);
            let factor = coefficients[0] * parameters.h_log(n + 2 + i);
            cong(
                cross_term(batch.punctured_logs(), kernel.entries(), i),
                factor * (sum(r, 0, n) - r(i)),
            )
        }),
{
    let pk = &keys.public_key;
    let n = parameters.index_space_size as int;
    let m = kernel.transform_size as int;
    let end = ciphertexts.len() as int;
    let r = first_at(keys, ciphertexts, end);
    let factor = coefficients[0] * parameters.h_log(n + 2 + i);
    let p = batch.punctured_logs();
    let f = cross_terms_of(p, kernel.entries(), i);
    let others = |j: int| if j == i { 0 } else { r(j) };
    let scaled = |j: int| factor * others(j);
    assert(kernel.entries().len() == m);
    assert forall|j: int| 0 <= j < n implies cong(#[trigger] f(j), scaled(j)) by {
        lemma_entry(parameters, kernel, i, j);
        if j == i {
            assert(p[j] * 0 == 0 && factor * 0 == 0);
        } else {
            let entry = parameters.centered_log(i - j);
            assert(f(j) == p[j] * entry);
            if holds_before(pk, ciphertexts, end, j) {
                let slot = holder(keys, ciphertexts, end, j);
                assert(ciphertexts[slot].is_valid(pk) && ciphertexts[slot].index == j);
                let first = ciphertexts[slot].first@;
                let delta = pk.deltas@[j]@;
                assert(p[j] == (delta * first) % order());
                lemma_reduce(delta * first);
                lemma_cong_mul(p[j], delta * first, entry, entry);
                lemma_delta_power(
                    keys,
                    parameters,
                    config,
                    tau,
                    coefficients,
                    sks,
                    j,
                    i,
                );
                lemma_cong_mul(delta * entry, factor, first, first);
                assert((delta * first) * entry == (delta * entry) * first) by (nonlinear_arith);
            } else {
                lemma_unused(keys, batch, ciphertexts, j);
                assert(0 * entry == 0 && factor * 0 == 0);
            }
        }
    }
    lemma_sum_cong(f, scaled, 0, n);
    lemma_sum_scale(factor, others, scaled, 0, n);
    let own = |j: int| if j == i { r(i) } else { 0 };
    assert forall|j: int| 0 <= j < n implies #[trigger] others(j) == r(j) - own(j) by {}
    lemma_sum_sub(r, own, others, 0, n);
    lemma_sum_single(own, 0, n, i);
    assert(p.len() == n);
}

/// Opening gives back the message. For a batch whose valid ciphertexts are
/// consistent, and accepted shares that are the aggregate times their parties'
/// secrets, what a valid slot opens to is the message that its ciphertext was made
/// of, whatever stands in the slots that are not valid.
pub proof fn law_open_recovers_message(
    keys: &KeyMaterial,
    parameters: &PublicParameters,
    config: &KeygenConfig,
    tau: int,
    coefficients: Seq<int>,
    sks: Seq<int>,
    kernel: &IndexedMiddleProductKernel,
    batch: &ValidatedBatch,
    ciphertexts: Seq<Ciphertext>,
    shares: Seq<DecryptionShare>,
    accepted: AcceptedDecryptionShares,
    precomputation: &DecryptionPrecomputation,
    slot: int,
    message: Seq<u8>,
)
    requires
        parameters.is_generated(tau),
        keys.is_generated(parameters, config, coefficients, sks),
        kernel.is_kernel_of(parameters),
        first_duplicate(&keys.public_key, ciphertexts, 0) is None,
        batch.is_batch_of(&keys.public_key, ciphertexts),
        forall|s: int|
            0 <= s < ciphertexts.len() && (#[trigger] ciphertexts[s]).is_valid(&keys.public_key)
                ==> ciphertexts[s].is_consistent(&keys.public_key),
        shares_defect(&keys.public_key, batch, shares) is None,
        is_acceptance(&keys.public_key, batch, shares, Ok(accepted)),
        forall|k: int|
            0 <= k < accepted.shares@.len() ==> cong(
                (#[trigger] accepted.shares@[k]).sigma@,
                batch.aggregate_first@ * inv(sks[accepted.shares@[k].party_index as int]),
            ),
        precomputation.is_prepared(
            &keys.public_key,
            share_parties(accepted.shares@),
            batch.used_indices@,
        ),
        0 <= slot < batch.batch_size,
        batch.valid@[slot],
        ciphertexts[slot].encrypts(parameters, &keys.public_key, message),
    ensures
        masked(
            pad_of(
                share_sigmas(accepted.shares@),
                precomputation.opening_logs(batch.used_position_by_slot@[slot]->0 as int),
                beta_of(kernel, batch, slot),
            ),
            batch.setup_id@,
            ciphertexts[slot].index as int,
            ciphertexts[slot].masked_message@,
        ) == message,
{
    let pk = &keys.public_key;
    let party_weights = config.party_weights@;
    let n = parameters.index_space_size as int;
    let end = ciphertexts.len() as int;
    let i = ciphertexts[slot].index as int;
    let first = ciphertexts[slot].first@;
    let r = first_at(keys, ciphertexts, end);
    let h = parameters.h_log(n + 2 + i);
    let c0 = coefficients[0];
    lemma_distinct(keys, ciphertexts, 0);
    assert(ciphertexts[slot].is_valid(pk));
    lemma_holder(keys, ciphertexts, end, slot);
    assert(r(i) == first);
    // what was taken
    let valid = valid_parties(pk, batch, shares);
    let taken = gathered(party_weights, valid, pk.threshold_weight as int);
    assert forall|p: int| 0 <= p < taken.len() && #[trigger] taken[p] implies has_share(
        shares,
        p,
    ) by {
        assert(valid[p]);
        assert(has_valid(pk, batch, shares, p));
    }
    lemma_shares_before(party_weights, shares, taken, party_weights.len() as int);
    law_gathered_weight_is_enough(party_weights, valid, pk.threshold_weight as int);
    let parties = share_parties(accepted.shares@);
    // the pairings of the shares
    let row = batch.used_position_by_slot@[slot]->0 as int;
    assert(batch.valid_index_by_slot@[slot] == Some(ciphertexts[slot].index));
    assert(batch.used_indices@[row] == i);
    let sigmas = share_sigmas(accepted.shares@);
    let opening = precomputation.opening_logs(row);
    let selected = virtual_indices(party_weights, parties);
    let lambda = lambda_of(pk, parties);
    let t = share_terms(z_of(keys, config, coefficients), lambda, selected);
    let aggregate = batch.aggregate_first@;
    let factor = h * aggregate;
    let scaled = |k: int| factor * t(k);
    assert forall|p: int| 0 <= p < parties.len() implies cong(
        #[trigger] products(sigmas, opening)(p),
        sum(
            scaled,
            position_offset(party_weights, parties, p),
            position_offset(party_weights, parties, p + 1),
        ),
    ) by {
        assert(accepted.shares@[p].party_index == parties[p]);
        lemma_alpha_part(
            keys,
            parameters,
            config,
            coefficients,
            sks,
            parties,
            i,
            p,
            aggregate,
            sigmas[p],
        );
        lemma_sum_scale(
            factor,
            t,
            scaled,
            position_offset(party_weights, parties, p),
            position_offset(party_weights, parties, p + 1),
        );
        assert(cell(
            views(precomputation.opening_keys@),
            parties.len() as int,
            row,
            p,
        ) == opening_table(pk, parties, batch.used_indices@)(row, p));
    }
    lemma_flatten(party_weights, parties, scaled, products(sigmas, opening), parties.len() as int);
    assert(parties.take(parties.len() as int) =~= parties);
    lemma_sum_scale(factor, t, scaled, 0, selected.len() as int);
    lemma_interpolated(keys, parameters, config, coefficients, sks, parties);
    let whole = sum(t, 0, selected.len() as int);
    lemma_cong_mul(factor, factor, whole, c0);
    assert(dot(sigmas, opening) == sum(products(sigmas, opening), 0, parties.len() as int));
    assert(cong(dot(sigmas, opening), factor * c0));
    // the aggregate by index
    lemma_firsts_by_index(keys, ciphertexts, n);
    let all = sum(r, 0, n);
    assert(cong(aggregate, all));
    let g = c0 * h;
    lemma_cong_mul(g, g, aggregate, all);
    assert(factor * c0 == g * aggregate) by (nonlinear_arith)
        requires
            factor == h * aggregate,
            g == c0 * h,
    ;
    // without the cross term
    lemma_beta(
        keys,
        parameters,
        config,
        tau,
        coefficients,
        sks,
        kernel,
        batch,
        ciphertexts,
        i,
    );
    let beta = cross_term(batch.punctured_logs(), kernel.entries(), i);
    lemma_reduce(beta);
    lemma_cong_sub(
        dot(sigmas, opening),
        g * all,
        beta_of(kernel, batch, slot),
        g * (all - first),
    );
    assert(g * all - g * (all - first) == g * first) by (nonlinear_arith);
    // is the mask
    let auxiliary = auxiliary_index(i);
    lemma_delta_power(keys, parameters, config, tau, coefficients, sks, auxiliary, i);
    let delta = pk.deltas@[auxiliary]@;
    let power = parameters.centered_log(i - auxiliary);
    lemma_cong_mul(delta * power, g, first, first);
    assert(delta * first * power == (delta * power) * first) by (nonlinear_arith);
    law_masking_is_involutive(
        mask_of(parameters, pk, i, first),
        batch.setup_id@,
        i,
        message,
    );
}

/// The weights of the parties before `party` that have a share.
spec fn holders_weight(party_weights: Seq<usize>, shares: Seq<DecryptionShare>, party: int) -> int
    decreases party,
{
    if party <= 0 {
        0
    } else {
        holders_weight(party_weights, shares, party - 1) + (if has_share(shares, party - 1) {
            party_weights[party - 1] as int
        } else {
            0
        })
    }
}

/// Without its last share a set has the weight of that share's party less.
proof fn lemma_holders_last(party_weights: Seq<usize>, shares: Seq<DecryptionShare>, party: int)
    requires
        shares.len() > 0,
        have_distinct_parties(shares),
        0 <= party <= party_weights.len(),
    ensures
        holders_weight(party_weights, shares, party) == holders_weight(
            party_weights,
            shares.drop_last(),
            party,
        ) + (if shares.last().party_index < party {
            party_weights[shares.last().party_index as int] as int
        } else {
            0
        }),
    decreases party,
{
    if party > 0 {
        lemma_holders_last(party_weights, shares, party - 1);
        let p = party - 1;
        let front = shares.drop_last();
        let last = shares.len() - 1;
        if has_share(front, p) {
            let k = choose|k: int| 0 <= k < front.len() && (#[trigger] front[k]).party_index == p;
            assert(shares[k].party_index == p);
            assert(shares[k].party_index != shares[last].party_index);
        }
        if shares[last].party_index == p {
            assert(has_share(shares, p));
        } else if has_share(shares, p) {
            let k = choose|k: int| 0 <= k < shares.len() && (#[trigger] shares[k]).party_index == p;
            assert(front[k].party_index == p);
        }
    }
}

/// Whether shares are of different parties.
pub open spec fn have_distinct_parties(shares: Seq<DecryptionShare>) -> bool {
    forall|i: int, j: int|
        0 <= i < j < shares.len() ==> (#[trigger] shares[i]).party_index != (
        #[trigger] shares[j]).party_index
}

/// The weight of the parties that have a share is the sum over the shares.
proof fn lemma_holders(party_weights: Seq<usize>, shares: Seq<DecryptionShare>)
    requires
        have_distinct_parties(shares),
        forall|k: int|
            0 <= k < shares.len() ==> (#[trigger] shares[k]).party_index < party_weights.len(),
    ensures
        holders_weight(party_weights, shares, party_weights.len() as int) == party_weight_sum(
            party_weights,
            share_parties(shares),
        ),
    decreases shares.len(),
{
    let n = party_weights.len() as int;
    if shares.len() > 0 {
        let front = shares.drop_last();
        assert forall|i: int, j: int| 0 <= i < j < front.len() implies (
        #[trigger] front[i]).party_index != (#[trigger] front[j]).party_index by {
            assert(shares[i].party_index != shares[j].party_index);
        }
        assert forall|k: int| 0 <= k < front.len() implies (#[trigger] front[k]).party_index
            < party_weights.len() by {
            assert(shares[k].party_index < party_weights.len());
        }
        lemma_holders(party_weights, front);
        lemma_holders_last(party_weights, shares, n);
        assert(shares[shares.len() - 1].party_index < n);
        assert(share_parties(shares).drop_last() =~= share_parties(front));
    } else {
        lemma_no_holders(party_weights, shares, n);
    }
}

proof fn lemma_no_holders(party_weights: Seq<usize>, shares: Seq<DecryptionShare>, party: int)
    requires
        shares.len() == 0,
    ensures
        holders_weight(party_weights, shares, party) == 0,
    decreases party,
{
    if party > 0 {
        lemma_no_holders(party_weights, shares, party - 1);
    }
}

proof fn lemma_no_share_defect(party_count: int, shares: Seq<DecryptionShare>, from: int)
    requires
        0 <= from,
        have_distinct_parties(shares),
        forall|k: int| 0 <= k < shares.len() ==> (#[trigger] shares[k]).party_index < party_count,
    ensures
        first_defect(party_count, shares, from) is None,
    decreases shares.len() - from,
{
    if from < shares.len() {
        assert(shares[from].party_index < party_count);
        lemma_no_share_defect(party_count, shares, from + 1);
    }
}

/// There are no more shares of different parties than there are parties.
proof fn lemma_share_count(party_count: int, shares: Seq<DecryptionShare>)
    requires
        have_distinct_parties(shares),
        forall|k: int| 0 <= k < shares.len() ==> (#[trigger] shares[k]).party_index < party_count,
        0 <= party_count,
    ensures
        shares.len() <= party_count,
{
    let numbers = Seq::new(shares.len(), |k: int| shares[k].party_index as int);
    let set = numbers.to_set();
    assert(numbers.no_duplicates());
    numbers.unique_seq_to_set();
    let range = vstd::set_lib::set_int_range(0, party_count);
    vstd::set_lib::lemma_int_range(0, party_count);
    assert(set.subset_of(range));
    vstd::set_lib::lemma_len_subset(set, range);
}

/// Where every party with a share is flagged, the flagged weight is that of all such parties.
proof fn lemma_flagged_holders(
    party_weights: Seq<usize>,
    shares: Seq<DecryptionShare>,
    flags: Seq<bool>,
    end: int,
)
    requires
        0 <= end <= flags.len(),
        forall|p: int| 0 <= p < flags.len() ==> #[trigger] flags[p] == has_share(shares, p),
    ensures
        flagged_weight(party_weights, flags, end) == holders_weight(party_weights, shares, end),
    decreases end,
{
    if end > 0 {
        lemma_flagged_holders(party_weights, shares, flags, end - 1);
        assert(flags[end - 1] == has_share(shares, end - 1));
    }
}

/// The accepted shares are among those given.
proof fn lemma_accepted_are_given(shares: Seq<DecryptionShare>, flags: Seq<bool>, end: int)
    requires
        0 <= end <= flags.len(),
        forall|p: int| 0 <= p < flags.len() && #[trigger] flags[p] ==> has_share(shares, p),
    ensures
        forall|i: int|
            0 <= i < shares_before(shares, flags, end).len() ==> shares.contains(
                #[trigger] shares_before(shares, flags, end)[i],
            ),
    decreases end,
{
    if end > 0 {
        lemma_accepted_are_given(shares, flags, end - 1);
        let before = shares_before(shares, flags, end - 1);
        if flags[end - 1] {
            assert(has_share(shares, end - 1));
            let k = choose|k: int|
                0 <= k < shares.len() && (#[trigger] shares[k]).party_index == end - 1;
            assert(shares[k] == share_of(shares, end - 1));
            assert(shares.contains(share_of(shares, end - 1)));
            let all = before.push(share_of(shares, end - 1));
            assert forall|i: int| 0 <= i < all.len() implies shares.contains(#[trigger] all[i]) by {
                if i < before.len() {
                    assert(shares.contains(before[i]));
                }
            }
        }
    }
}

/// Whether an outcome holds the messages of a batch: in each slot its message where the
/// slot's ciphertext is valid, and nothing where it is not.
pub open spec fn holds_messages(
    public_key: &MasterPublicKey,
    ciphertexts: Seq<Ciphertext>,
    messages: Seq<Seq<u8>>,
    opened: Seq<Option<Vec<u8>>>,
) -> bool {
    &&& opened.len() == ciphertexts.len()
    &&& forall|i: int|
        0 <= i < ciphertexts.len() ==> match #[trigger] opened[i] {
            Some(message) => ciphertexts[i].is_valid(public_key) && message@ == messages[i],
            None => !ciphertexts[i].is_valid(public_key),
        }
}

/// Decryption gives back the messages. Where the shares are those that different parties make
/// of the batch and their weight exceeds the threshold, decryption opens every valid slot to
/// the message that its ciphertext was made of, and the others to nothing.
pub proof fn law_decrypt_recovers_messages(
    keys: &KeyMaterial,
    parameters: &PublicParameters,
    config: &KeygenConfig,
    tau: int,
    coefficients: Seq<int>,
    sks: Seq<int>,
    batch: &ValidatedBatch,
    ciphertexts: Seq<Ciphertext>,
    messages: Seq<Seq<u8>>,
    shares: Seq<DecryptionShare>,
    result: Result<Vec<Option<Vec<u8>>>>,
)
    requires
        parameters.is_generated(tau),
        keys.is_generated(parameters, config, coefficients, sks),
        has_domain(2 * parameters.index_space_size),
        parameters.index_space_size * config.party_weights@.len() <= usize::MAX,
        batch_size_defect(parameters.index_space_size, ciphertexts.len() as int) is None,
        first_duplicate(&keys.public_key, ciphertexts, 0) is None,
        batch.is_batch_of(&keys.public_key, ciphertexts),
        messages.len() == ciphertexts.len(),
        forall|i: int|
            0 <= i < ciphertexts.len() && (#[trigger] ciphertexts[i]).is_valid(&keys.public_key)
                ==> ciphertexts[i].is_consistent(&keys.public_key) && ciphertexts[i].encrypts(
                parameters,
                &keys.public_key,
                messages[i],
            ),
        have_distinct_parties(shares),
        forall|k: int|
            0 <= k < shares.len() ==> (#[trigger] shares[k]).party_index
                < config.party_weights@.len() && shares[k].is_share_of(
                &keys.party_keys@[shares[k].party_index as int],
                batch,
            ),
        party_weight_sum(config.party_weights@, share_parties(shares)) > config.threshold_weight,
        is_decryption(parameters, &keys.public_key, ciphertexts, shares, result),
    ensures
        result matches Ok(opened) && holds_messages(
            &keys.public_key,
            ciphertexts,
            messages,
            opened@,
        ),
{
    let pk = &keys.public_key;
    let weights = config.party_weights@;
    let n = weights.len() as int;
    let validation = choose|validation: Result<ValidatedBatch>|
        #[trigger] is_validation(pk, ciphertexts, validation) && match validation {
            Err(error) => result == Err::<Vec<Option<Vec<u8>>>, Error>(error),
            Ok(batch) => is_decryption_of_batch(
                parameters,
                pk,
                &batch,
                ciphertexts,
                shares,
                result,
            ),
        };
    let other = validation->Ok_0;
    let outcome = choose|outcome: Result<AcceptedDecryptionShares>|
        #[trigger] is_acceptance(pk, &other, shares, outcome) && match outcome {
            Err(error) => result == Err::<Vec<Option<Vec<u8>>>, Error>(error),
            Ok(accepted) => is_finish(parameters, pk, &accepted, &other, ciphertexts, result),
        };
    // the batch is the one that the shares were made of
    other.aggregate_first.lemma_range();
    batch.aggregate_first.lemma_range();
    lemma_reduced(other.aggregate_first@);
    lemma_reduced(batch.aggregate_first@);
    assert forall|k: int| 0 <= k < shares.len() implies passes(pk, &other, #[trigger] shares[k])
        && cong(
        shares[k].sigma@,
        other.aggregate_first@ * inv(sks[shares[k].party_index as int]),
    ) by {
        let party = shares[k].party_index as int;
        assert(keys.party_keys@[party].party_index == party);
        assert(shares[k].is_share_of(&keys.party_keys@[party], batch));
        assert(shares[k].is_share_of(&keys.party_keys@[party], &other));
        law_honest_share_passes(
            keys,
            parameters,
            config,
            coefficients,
            sks,
            &other,
            party,
            shares[k],
        );
        lemma_reduce(other.aggregate_first@ * inv(sks[party]));
    }
    let valid = valid_parties(pk, &other, shares);
    assert forall|p: int| 0 <= p < valid.len() implies #[trigger] valid[p] == has_share(
        shares,
        p,
    ) by {
        if has_share(shares, p) {
            let k = choose|k: int| 0 <= k < shares.len() && (#[trigger] shares[k]).party_index == p;
            assert(passes(pk, &other, shares[k]));
        }
    }
    lemma_no_share_defect(n, shares, 0);
    lemma_share_count(n, shares);
    lemma_flagged_holders(weights, shares, valid, n);
    lemma_holders(weights, shares);
    law_gathered_weight_is_enough(weights, valid, config.threshold_weight as int);
    let taken = gathered(weights, valid, config.threshold_weight as int);
    assert forall|p: int| 0 <= p < taken.len() && #[trigger] taken[p] implies has_share(
        shares,
        p,
    ) by {
        assert(valid[p]);
    }
    let accepted = outcome->Ok_0;
    lemma_shares_before(weights, shares, taken, n);
    lemma_accepted_are_given(shares, taken, n);
    let parties = share_parties(accepted.shares@);
    assert forall|k: int| 0 <= k < accepted.shares@.len() implies cong(
        (#[trigger] accepted.shares@[k]).sigma@,
        other.aggregate_first@ * inv(sks[accepted.shares@[k].party_index as int]),
    ) by {
        assert(shares.contains(accepted.shares@[k]));
        let i = shares.index_of(accepted.shares@[k]);
        assert(passes(pk, &other, shares[i]));
    }
    let used = accepted.used_indices@;
    let space = parameters.index_space_size as int;
    lemma_none_unknown(parties, n, 0);
    lemma_none_unknown(used, space, 0);
    lemma_virtual_selection(weights, parties);
    lemma_ascending_count(parties, n);
    lemma_ascending_count(used, space);
    assert(used.len() * parties.len() <= space * n) by (nonlinear_arith)
        requires
            0 <= parties.len() <= n,
            0 <= used.len() <= space,
    ;
    assert(is_finish(parameters, pk, &accepted, &other, ciphertexts, result));
    let preparation = choose|preparation: Result<DecryptionPrecomputation>|
        #[trigger] is_preparation(pk, &accepted, preparation) && match preparation {
            Err(error) => result == Err::<Vec<Option<Vec<u8>>>, Error>(error),
            Ok(fixed) => exists|kernel: IndexedMiddleProductKernel, cross: BatchPrecomputation|
                #[trigger] is_crossed(
                    parameters,
                    &fixed,
                    &accepted,
                    &other,
                    ciphertexts,
                    result,
                    &kernel,
                    &cross,
                ),
        };
    let fixed = preparation->Ok_0;
    let (kernel, cross) = choose|kernel: IndexedMiddleProductKernel, cross: BatchPrecomputation|
        #[trigger] is_crossed(
            parameters,
            &fixed,
            &accepted,
            &other,
            ciphertexts,
            result,
            &kernel,
            &cross,
        );
    let opened = result->Ok_0;
    assert forall|i: int| 0 <= i < ciphertexts.len() implies match #[trigger] opened@[i] {
        Some(message) => ciphertexts[i].is_valid(pk) && message@ == messages[i],
        None => !ciphertexts[i].is_valid(pk),
    } by {
        if other.valid@[i] {
            assert(ciphertexts[i].is_valid(pk));
            law_open_recovers_message(
                keys,
                parameters,
                config,
                tau,
                coefficients,
                sks,
                &kernel,
                &other,
                ciphertexts,
                shares,
                accepted,
                &fixed,
                i,
                messages[i],
            );
            assert(cross.beta@[i]@ == beta_of(&kernel, &other, i));
        }
    }
}

/// Whether two outcomes hold the same.
pub open spec fn is_same_outcome(
    result: Result<AcceptedDecryptionShares>,
    other: Result<AcceptedDecryptionShares>,
) -> bool {
    match (result, other) {
        (Ok(a), Ok(b)) => {
            &&& a.setup_id@ == b.setup_id@
            &&& a.index_space == b.index_space
            &&& a.batch_size == b.batch_size
            &&& a.digest@ == b.digest@
            &&& a.used_indices@ == b.used_indices@
            &&& a.accepted_weight == b.accepted_weight
            &&& a.shares@ == b.shares@
            &&& a.rejected_parties@ == b.rejected_parties@
        },
        (
            Err(Error::InsufficientWeight { accepted, required, rejected_parties }),
            Err(
                Error::InsufficientWeight {
                    accepted: other_accepted,
                    required: other_required,
                    rejected_parties: other_parties,
                },
            ),
        ) => accepted == other_accepted && required == other_required && rejected_parties@
            == other_parties@,
        _ => false,
    }
}

/// What is accepted does not depend on the order of the shares.
pub proof fn law_acceptance_ignores_order(
    public_key: &MasterPublicKey,
    batch: &ValidatedBatch,
    shares: Seq<DecryptionShare>,
    result: Result<AcceptedDecryptionShares>,
    reordered: Seq<DecryptionShare>,
    other: Result<AcceptedDecryptionShares>,
)
    requires
        shares_defect(public_key, batch, shares) is None,
        reordered.to_multiset() == shares.to_multiset(),
        is_acceptance(public_key, batch, shares, result),
        is_acceptance(public_key, batch, reordered, other),
    ensures
        is_same_outcome(result, other),
{
    let party_weights = public_key.party_weights@;
    let n = party_weights.len() as int;
    lemma_no_defect(n, shares, 0);
    shares.to_multiset_ensures();
    reordered.to_multiset_ensures();
    assert(shares.no_duplicates());
    shares.lemma_multiset_has_no_duplicates();
    reordered.lemma_multiset_has_no_duplicates_conv();
    assert forall|share: DecryptionShare| #[trigger]
        reordered.contains(share) == shares.contains(share) by {
        assert(shares.contains(share) <==> shares.to_multiset().count(share) > 0);
        assert(reordered.contains(share) <==> reordered.to_multiset().count(share) > 0);
    }
    assert forall|k: int| 0 <= k < reordered.len() implies (#[trigger] reordered[k]).party_index
        < n by {
        assert(reordered.contains(reordered[k]));
        assert(shares.contains(reordered[k]));
    }
    assert forall|i: int, j: int| 0 <= i < j < reordered.len() implies (
    #[trigger] reordered[i]).party_index != (#[trigger] reordered[j]).party_index by {
        assert(reordered.contains(reordered[i]) && reordered.contains(reordered[j]));
        let (a, b) = (shares.index_of(reordered[i]), shares.index_of(reordered[j]));
        assert(shares[a] != shares[b]);
        if a < b {
            assert(shares[a].party_index != shares[b].party_index);
        } else {
            assert(shares[b].party_index != shares[a].party_index);
        }
    }
    lemma_no_share_defect(n, reordered, 0);
    let valid = valid_parties(public_key, batch, shares);
    assert forall|party: int| #[trigger]
        has_share(shares, party) == has_share(reordered, party) && (has_share(shares, party)
            ==> share_of(shares, party) == share_of(reordered, party)) by {
        if has_share(shares, party) {
            let k = choose|k: int|
                0 <= k < shares.len() && (#[trigger] shares[k]).party_index == party;
            assert(reordered.contains(shares[k]));
            let i = reordered.index_of(shares[k]);
            assert(reordered[i].party_index == party);
            lemma_share_of(shares, k);
            lemma_share_of(reordered, i);
        }
        if has_share(reordered, party) {
            let i = choose|i: int|
                0 <= i < reordered.len() && (#[trigger] reordered[i]).party_index == party;
            assert(reordered.contains(reordered[i]));
            let k = shares.index_of(reordered[i]);
            assert(shares[k].party_index == party);
        }
    }
    assert(valid =~= valid_parties(public_key, batch, reordered));
    let taken = gathered(party_weights, valid, public_key.threshold_weight as int);
    lemma_same_shares(shares, reordered, taken, valid, n);
}

/// Shares without a defect are of different parties that there are.
proof fn lemma_no_defect(party_count: int, shares: Seq<DecryptionShare>, from: int)
    requires
        0 <= from <= shares.len(),
        first_defect(party_count, shares, from) is None,
    ensures
        forall|k: int|
            from <= k < shares.len() ==> (#[trigger] shares[k]).party_index < party_count,
        forall|i: int, j: int|
            0 <= i < j < shares.len() && from <= j ==> (#[trigger] shares[i]).party_index != (
            #[trigger] shares[j]).party_index,
    decreases shares.len() - from,
{
    if from < shares.len() {
        assert(share_defect(party_count, shares, from) is None);
        lemma_no_defect(party_count, shares, from + 1);
        assert forall|i: int, j: int|
            0 <= i < j < shares.len() && from <= j implies (#[trigger] shares[i]).party_index != (
        #[trigger] shares[j]).party_index by {
            if j == from && shares[i].party_index == shares[j].party_index {
                assert(exists|m: int|
                    0 <= m < from && (#[trigger] shares[m]).party_index
                        == shares[from].party_index);
            }
        }
    }
}

/// Where the parties have the same shares, those of the taken ones are the same, and the
/// same parties are rejected.
proof fn lemma_same_shares(
    shares: Seq<DecryptionShare>,
    reordered: Seq<DecryptionShare>,
    taken: Seq<bool>,
    valid: Seq<bool>,
    end: int,
)
    requires
        end <= taken.len() == valid.len(),
        forall|party: int| #[trigger]
            has_share(shares, party) == has_share(reordered, party) && (has_share(shares, party)
                ==> share_of(shares, party) == share_of(reordered, party)),
        forall|party: int|
            0 <= party < taken.len() && #[trigger] taken[party] ==> has_share(shares, party),
    ensures
        shares_before(shares, taken, end) == shares_before(reordered, taken, end),
        rejected_before(shares, valid, end) == rejected_before(reordered, valid, end),
    decreases end,
{
    if end > 0 {
        lemma_same_shares(shares, reordered, taken, valid, end - 1);
        assert(has_share(shares, end - 1) == has_share(reordered, end - 1));
    }
}

/// A batch is refused for an index exactly where two of its valid ciphertexts have it: the first
/// such ciphertext is named by its index.
pub proof fn law_first_duplicate(
    public_key: &MasterPublicKey,
    ciphertexts: Seq<Ciphertext>,
    from: int,
)
    requires
        0 <= from <= ciphertexts.len(),
    ensures
        match first_duplicate(public_key, ciphertexts, from) {
            None => forall|i: int, j: int|
                0 <= i < j < ciphertexts.len() && from <= j && (
                #[trigger] ciphertexts[i]).is_valid(public_key) && (
                #[trigger] ciphertexts[j]).is_valid(public_key) ==> ciphertexts[i].index
                    != ciphertexts[j].index,
            Some(index) => exists|i: int, j: int|
                {
                    &&& 0 <= i < j < ciphertexts.len()
                    &&& from <= j
                    &&& (#[trigger] ciphertexts[i]).is_valid(public_key)
                    &&& (#[trigger] ciphertexts[j]).is_valid(public_key)
                    &&& ciphertexts[i].index == index
                    &&& ciphertexts[j].index == index
                },
        },
    decreases ciphertexts.len() - from,
{
    if from < ciphertexts.len() {
        let index = ciphertexts[from].index as int;
        let repeated = holds_before(public_key, ciphertexts, from, index);
        if ciphertexts[from].is_valid(public_key) && repeated {
            let slot = choose|slot: int|
                0 <= slot < from && (#[trigger] ciphertexts[slot]).is_valid(public_key)
                    && ciphertexts[slot].index == index;
            assert(ciphertexts[slot].is_valid(public_key));
        } else {
            law_first_duplicate(public_key, ciphertexts, from + 1);
            if first_duplicate(public_key, ciphertexts, from) is None {
                assert forall|i: int, j: int|
                    0 <= i < j < ciphertexts.len() && from <= j && (
                    #[trigger] ciphertexts[i]).is_valid(public_key) && (
                    #[trigger] ciphertexts[j]).is_valid(public_key) implies ciphertexts[i].index
                    != ciphertexts[j].index by {
                    if j == from && ciphertexts[i].index == ciphertexts[j].index {
                        assert(holds_before(public_key, ciphertexts, from, index));
                    }
                }
            }
        }
    }
}

/// The parties that are named as rejected are those with a share that is not flagged, each once
/// and in ascending order.
pub proof fn law_rejected_parties(shares: Seq<DecryptionShare>, flags: Seq<bool>, end: int)
    requires
        0 <= end <= flags.len() <= usize::MAX,
    ensures
        forall|party: int|
            0 <= party < end ==> (#[trigger] rejected_before(shares, flags, end).contains(
                party as usize,
            ) <==> !flags[party] && exists|k: int|
                0 <= k < shares.len() && (#[trigger] shares[k]).party_index == party),
        forall|i: int|
            0 <= i < rejected_before(shares, flags, end).len() ==> (
            #[trigger] rejected_before(shares, flags, end)[i]) < end,
        forall|i: int, j: int|
            0 <= i < j < rejected_before(shares, flags, end).len() ==> (
            #[trigger] rejected_before(shares, flags, end)[i]) < (
            #[trigger] rejected_before(shares, flags, end)[j]),
    decreases end,
{
    if end > 0 {
        law_rejected_parties(shares, flags, end - 1);
        let rest = rejected_before(shares, flags, end - 1);
        let now = rejected_before(shares, flags, end);
        assert forall|party: int| 0 <= party < end implies (#[trigger] now.contains(
            party as usize,
        ) <==> !flags[party] && exists|k: int|
            0 <= k < shares.len() && (#[trigger] shares[k]).party_index == party) by {
            if party < end - 1 {
                assert(rest.contains(party as usize) <==> !flags[party] && has_share(
                    shares,
                    party,
                ));
                if rest.contains(party as usize) {
                    let i = rest.index_of(party as usize);
                    assert(now[i] == party);
                }
                if now.contains(party as usize) {
                    let i = now.index_of(party as usize);
                    assert(i < rest.len());
                    assert(rest[i] == party);
                }
            } else {
                if now.contains(party as usize) {
                    let i = now.index_of(party as usize);
                    if i < rest.len() {
                        assert(rest[i] < end - 1);
                    }
                }
                if has_share(shares, party) && !flags[party] {
                    assert(now.last() == party);
                    assert(now[now.len() - 1] == party);
                }
            }
        }
    }
}

/// The weight of flagged parties is the sum of their weights.
pub proof fn law_flagged_weight(party_weights: Seq<usize>, flags: Seq<bool>, end: int)
    ensures
        flagged_weight(party_weights, flags, end) == sum(
            |p: int| if flags[p] { party_weights[p] as int } else { 0 },
            0,
            end,
        ),
    decreases end,
{
    let f = |p: int| if flags[p] { party_weights[p] as int } else { 0 };
    if end > 0 {
        law_flagged_weight(party_weights, flags, end - 1);
        assert(f(end - 1) == if flags[end - 1] {
            party_weights[end - 1] as int
        } else {
            0
        });
    }
}

/// Of shares that are considered, enough are accepted if and only if the parties whose share
/// passes its check weigh more than the threshold together. What is accepted passed its check,
/// is in the order of the parties and weighs more than the threshold; the parties whose share
/// did not pass are rejected, in order.
pub proof fn law_acceptance(
    public_key: &MasterPublicKey,
    batch: &ValidatedBatch,
    shares: Seq<DecryptionShare>,
    result: Result<AcceptedDecryptionShares>,
)
    requires
        is_acceptance(public_key, batch, shares, result),
        batch.setup_id@ == public_key.setup_id@,
        batch.index_space == public_key.index_space_size,
        shares.len() <= public_key.party_weights@.len(),
        forall|i: int|
            0 <= i < shares.len() ==> (#[trigger] shares[i]).party_index
                < public_key.party_weights@.len(),
        forall|i: int, j: int|
            0 <= i < j < shares.len() ==> (#[trigger] shares[i]).party_index != (
            #[trigger] shares[j]).party_index,
    ensures
        ({
            let party_weights = public_key.party_weights@;
            let n = party_weights.len() as int;
            let passed = |p: int|
                exists|k: int|
                    0 <= k < shares.len() && (#[trigger] shares[k]).party_index == p && passes(
                        public_key,
                        batch,
                        shares[k],
                    );
            let weight = sum(
                |p: int|
                    if passed(p) {
                        party_weights[p] as int
                    } else {
                        0
                    },
                0,
                n,
            );
            match result {
                Ok(accepted) => {
                    &&& weight > public_key.threshold_weight
                    &&& forall|i: int|
                        0 <= i < accepted.shares@.len() ==> shares.contains(
                            #[trigger] accepted.shares@[i],
                        ) && passes(public_key, batch, accepted.shares@[i])
                    &&& forall|i: int, j: int|
                        0 <= i < j < accepted.shares@.len() ==> (
                        #[trigger] accepted.shares@[i]).party_index < (
                        #[trigger] accepted.shares@[j]).party_index
                    &&& accepted.accepted_weight == party_weight_sum(
                        party_weights,
                        share_parties(accepted.shares@),
                    )
                    &&& accepted.accepted_weight > public_key.threshold_weight
                },
                Err(error) => {
                    &&& weight <= public_key.threshold_weight
                    &&& error matches Error::InsufficientWeight { accepted, required, .. }
                        && accepted == weight && required == public_key.threshold_weight + 1
                },
            }
        }),
{
    let party_weights = public_key.party_weights@;
    let n = party_weights.len() as int;
    let valid = valid_parties(public_key, batch, shares);
    let taken = gathered(party_weights, valid, public_key.threshold_weight as int);
    law_considered_shares(public_key, batch, shares);
    let passed = |p: int|
        exists|k: int|
            0 <= k < shares.len() && (#[trigger] shares[k]).party_index == p && passes(
                public_key,
                batch,
                shares[k],
            );
    assert forall|p: int| 0 <= p < n implies #[trigger] valid[p] == passed(p) by {
        if has_share(shares, p) {
            let k = choose|k: int| 0 <= k < shares.len() && (#[trigger] shares[k]).party_index == p;
            lemma_share_of(shares, k);
            if passed(p) {
                let m = choose|k: int|
                    0 <= k < shares.len() && (#[trigger] shares[k]).party_index == p && passes(
                        public_key,
                        batch,
                        shares[k],
                    );
                lemma_share_of(shares, m);
            }
        }
    }
    let f = |p: int| if valid[p] { party_weights[p] as int } else { 0 };
    let g = |p: int| if passed(p) { party_weights[p] as int } else { 0 };
    law_flagged_weight(party_weights, valid, n);
    assert forall|p: int| 0 <= p < n implies #[trigger] f(p) == g(p) by {
        assert(valid[p] == passed(p));
    }
    lemma_sum_ext(f, g, 0, n);
    if result is Ok {
        let accepted = result->Ok_0;
        law_gathered_weight_is_enough(party_weights, valid, public_key.threshold_weight as int);
        lemma_shares_before(party_weights, shares, taken, n);
        assert forall|i: int| 0 <= i < accepted.shares@.len() implies shares.contains(
            #[trigger] accepted.shares@[i],
        ) && passes(public_key, batch, accepted.shares@[i]) by {
            lemma_share_passes(public_key, batch, shares, taken, n, i);
        }
        let parties = share_parties(accepted.shares@);
        assert forall|i: int, j: int| 0 <= i < j < accepted.shares@.len() implies (
        #[trigger] accepted.shares@[i]).party_index < (
        #[trigger] accepted.shares@[j]).party_index by {
            assert(parties[i] < parties[j]);
        }
    }
}

/// The share of a party that has one that passes is a share that passes.
proof fn lemma_share_passes(
    public_key: &MasterPublicKey,
    batch: &ValidatedBatch,
    shares: Seq<DecryptionShare>,
    flags: Seq<bool>,
    end: int,
    i: int,
)
    requires
        end <= flags.len(),
        forall|p: int|
            0 <= p < flags.len() && #[trigger] flags[p] ==> has_valid(
                public_key,
                batch,
                shares,
                p,
            ),
        0 <= i < shares_before(shares, flags, end).len(),
    ensures
        shares.contains(shares_before(shares, flags, end)[i]),
        passes(public_key, batch, shares_before(shares, flags, end)[i]),
    decreases end,
{
    let before = shares_before(shares, flags, end - 1);
    if i < before.len() {
        lemma_share_passes(public_key, batch, shares, flags, end - 1, i);
    } else {
        let last = share_of(shares, end - 1);
        assert(has_valid(public_key, batch, shares, end - 1));
        let k = choose|k: int|
            0 <= k < shares.len() && (#[trigger] shares[k]).party_index == end - 1;
        assert(shares[k] == last);
    }
}

/// A batch leaves out the ciphertexts whose proof does not hold, and only those: the others add
/// their first components to its aggregate.
pub proof fn law_invalid_ciphertexts_are_left_out(
    public_key: &MasterPublicKey,
    batch: &ValidatedBatch,
    ciphertexts: Seq<Ciphertext>,
)
    requires
        batch.is_batch_of(public_key, ciphertexts),
    ensures
        batch.setup_id@ == public_key.setup_id@,
        batch.digest@ == batch_digest_of(ciphertexts),
        batch.valid@.len() == ciphertexts.len(),
        forall|i: int|
            0 <= i < ciphertexts.len() ==> (#[trigger] batch.valid@[i] <==> ciphertexts[i].is_valid(
                public_key,
            )),
        cong(
            batch.aggregate_first@,
            sum(
                |i: int|
                    if ciphertexts[i].is_valid(public_key) {
                        ciphertexts[i].first@
                    } else {
                        0
                    },
                0,
                ciphertexts.len() as int,
            ),
        ),
{
    let f = valid_firsts(public_key, ciphertexts);
    let g = |i: int|
        if ciphertexts[i].is_valid(public_key) {
            ciphertexts[i].first@
        } else {
            0
        };
    assert forall|i: int| 0 <= i < ciphertexts.len() implies #[trigger] f(i) == g(i) by {}
    lemma_sum_ext(f, g, 0, ciphertexts.len() as int);
}

/// A share passes its check exactly where it was made for the batch and its proof holds of the
/// claim that the party's published point and the share's point are the same multiple of the
/// generator and of the batch's aggregate, for that batch and party.
pub proof fn law_passing_share_proves_its_claim(
    public_key: &MasterPublicKey,
    batch: &ValidatedBatch,
    share: DecryptionShare,
)
    ensures
        passes(public_key, batch, share) <==> share.setup_id@ == batch.setup_id@
            && share.batch_digest@ == batch.digest@ && (Claim {
            purpose: ProofPurpose::Server,
            setup_id: batch.setup_id@,
            context: server_context_of(batch.digest@, share.party_index as int),
            statement: Statement {
                first_base: 1,
                first_target: public_key.inverse_public_keys@[share.party_index as int]@,
                second_base: batch.aggregate_first@,
                second_target: share.sigma@,
            },
        }).holds(share.proof),
{
}

/// A ciphertext is valid exactly where its index is in the index space and its proof holds of the
/// claim that its two points are the same multiple of the generator and of the index's delta,
/// for that index and payload.
pub proof fn law_valid_ciphertext_proves_its_claim(
    public_key: &MasterPublicKey,
    ciphertext: &Ciphertext,
)
    ensures
        ciphertext.is_valid(public_key) <==> ciphertext.index < public_key.index_space_size && (
        Claim {
            purpose: ProofPurpose::Client,
            setup_id: public_key.setup_id@,
            context: client_context_of(ciphertext.index as int, ciphertext.masked_message@),
            statement: Statement {
                first_base: 1,
                first_target: ciphertext.first@,
                second_base: public_key.deltas@[ciphertext.index as int]@,
                second_target: ciphertext.punctured@,
            },
        }).holds(ciphertext.proof),
{
}

/// Bad shares do no harm. Where the shares are of different parties, those that pass their check
/// are what their parties make of the batch and weigh more than the threshold, decryption opens
/// every valid slot to the message that its ciphertext was made of, whatever the other shares
/// are.
pub proof fn law_decrypt_recovers_messages_despite_bad_shares(
    keys: &KeyMaterial,
    parameters: &PublicParameters,
    config: &KeygenConfig,
    tau: int,
    coefficients: Seq<int>,
    sks: Seq<int>,
    batch: &ValidatedBatch,
    ciphertexts: Seq<Ciphertext>,
    messages: Seq<Seq<u8>>,
    shares: Seq<DecryptionShare>,
    result: Result<Vec<Option<Vec<u8>>>>,
)
    requires
        parameters.is_generated(tau),
        keys.is_generated(parameters, config, coefficients, sks),
        has_domain(2 * parameters.index_space_size),
        parameters.index_space_size * config.party_weights@.len() <= usize::MAX,
        batch_size_defect(parameters.index_space_size, ciphertexts.len() as int) is None,
        first_duplicate(&keys.public_key, ciphertexts, 0) is None,
        batch.is_batch_of(&keys.public_key, ciphertexts),
        messages.len() == ciphertexts.len(),
        forall|i: int|
            0 <= i < ciphertexts.len() && (#[trigger] ciphertexts[i]).is_valid(&keys.public_key)
                ==> ciphertexts[i].is_consistent(&keys.public_key) && ciphertexts[i].encrypts(
                parameters,
                &keys.public_key,
                messages[i],
            ),
        have_distinct_parties(shares),
        forall|k: int|
            0 <= k < shares.len() ==> (#[trigger] shares[k]).party_index
                < config.party_weights@.len(),
        forall|k: int|
            0 <= k < shares.len() && passes(&keys.public_key, batch, #[trigger] shares[k])
                ==> shares[k].sigma@ == (batch.aggregate_first@
                * keys.party_keys@[shares[k].party_index as int].inverse_scalar@) % order(),
        flagged_weight(
            config.party_weights@,
            valid_parties(&keys.public_key, batch, shares),
            config.party_weights@.len() as int,
        ) > config.threshold_weight,
        is_decryption(parameters, &keys.public_key, ciphertexts, shares, result),
    ensures
        result matches Ok(opened) && holds_messages(
            &keys.public_key,
            ciphertexts,
            messages,
            opened@,
        ),
{
    let pk = &keys.public_key;
    let weights = config.party_weights@;
    let n = weights.len() as int;
    let validation = choose|validation: Result<ValidatedBatch>|
        #[trigger] is_validation(pk, ciphertexts, validation) && match validation {
            Err(error) => result == Err::<Vec<Option<Vec<u8>>>, Error>(error),
            Ok(batch) => is_decryption_of_batch(
                parameters,
                pk,
                &batch,
                ciphertexts,
                shares,
                result,
            ),
        };
    let other = validation->Ok_0;
    let outcome = choose|outcome: Result<AcceptedDecryptionShares>|
        #[trigger] is_acceptance(pk, &other, shares, outcome) && match outcome {
            Err(error) => result == Err::<Vec<Option<Vec<u8>>>, Error>(error),
            Ok(accepted) => is_finish(parameters, pk, &accepted, &other, ciphertexts, result),
        };
    // the batch is the one that the shares were made of
    other.aggregate_first.lemma_range();
    batch.aggregate_first.lemma_range();
    lemma_reduced(other.aggregate_first@);
    lemma_reduced(batch.aggregate_first@);
    assert forall|k: int| 0 <= k < shares.len() && passes(
        pk,
        &other,
        #[trigger] shares[k],
    ) implies cong(
        shares[k].sigma@,
        other.aggregate_first@ * inv(sks[shares[k].party_index as int]),
    ) by {
        let party = shares[k].party_index as int;
        assert(passes(pk, batch, shares[k]));
        assert(keys.party_keys@[party].inverse_scalar@ == inv(sks[party]));
        lemma_reduce(other.aggregate_first@ * inv(sks[party]));
    }
    let valid = valid_parties(pk, &other, shares);
    assert(valid =~= valid_parties(pk, batch, shares)) by {
        assert forall|p: int| 0 <= p < n implies #[trigger] valid[p] == valid_parties(
            pk,
            batch,
            shares,
        )[p] by {
            assert(has_valid(pk, &other, shares, p) == has_valid(pk, batch, shares, p));
        }
    }
    lemma_no_share_defect(n, shares, 0);
    lemma_share_count(n, shares);
    law_gathered_weight_is_enough(weights, valid, config.threshold_weight as int);
    let taken = gathered(weights, valid, config.threshold_weight as int);
    assert forall|p: int| 0 <= p < taken.len() && #[trigger] taken[p] implies has_share(
        shares,
        p,
    ) by {
        assert(valid[p]);
    }
    let accepted = outcome->Ok_0;
    lemma_shares_before(weights, shares, taken, n);
    let parties = share_parties(accepted.shares@);
    assert forall|k: int| 0 <= k < accepted.shares@.len() implies cong(
        (#[trigger] accepted.shares@[k]).sigma@,
        other.aggregate_first@ * inv(sks[accepted.shares@[k].party_index as int]),
    ) by {
        lemma_share_passes(pk, &other, shares, taken, n, k);
        let i = shares.index_of(accepted.shares@[k]);
        assert(passes(pk, &other, shares[i]));
    }
    let used = accepted.used_indices@;
    let space = parameters.index_space_size as int;
    lemma_none_unknown(parties, n, 0);
    lemma_none_unknown(used, space, 0);
    lemma_virtual_selection(weights, parties);
    lemma_ascending_count(parties, n);
    lemma_ascending_count(used, space);
    assert(used.len() * parties.len() <= space * n) by (nonlinear_arith)
        requires
            0 <= parties.len() <= n,
            0 <= used.len() <= space,
    ;
    assert(is_finish(parameters, pk, &accepted, &other, ciphertexts, result));
    let preparation = choose|preparation: Result<DecryptionPrecomputation>|
        #[trigger] is_preparation(pk, &accepted, preparation) && match preparation {
            Err(error) => result == Err::<Vec<Option<Vec<u8>>>, Error>(error),
            Ok(fixed) => exists|kernel: IndexedMiddleProductKernel, cross: BatchPrecomputation|
                #[trigger] is_crossed(
                    parameters,
                    &fixed,
                    &accepted,
                    &other,
                    ciphertexts,
                    result,
                    &kernel,
                    &cross,
                ),
        };
    let fixed = preparation->Ok_0;
    let (kernel, cross) = choose|kernel: IndexedMiddleProductKernel, cross: BatchPrecomputation|
        #[trigger] is_crossed(
            parameters,
            &fixed,
            &accepted,
            &other,
            ciphertexts,
            result,
            &kernel,
            &cross,
        );
    let opened = result->Ok_0;
    assert forall|i: int| 0 <= i < ciphertexts.len() implies match #[trigger] opened@[i] {
        Some(message) => ciphertexts[i].is_valid(pk) && message@ == messages[i],
        None => !ciphertexts[i].is_valid(pk),
    } by {
        if other.valid@[i] {
            assert(ciphertexts[i].is_valid(pk));
            law_open_recovers_message(
                keys,
                parameters,
                config,
                tau,
                coefficients,
                sks,
                &kernel,
                &other,
                ciphertexts,
                shares,
                accepted,
                &fixed,
                i,
                messages[i],
            );
            assert(cross.beta@[i]@ == beta_of(&kernel, &other, i));
        }
    }
}

} // verus!
