//! What the phases promise together.
use vstd::arithmetic::power::{lemma_pow0, lemma_pow_adds, pow};
use vstd::prelude::*;

use crate::algebra::lagrange::{eval, lemma_interpolate, weight};
use crate::algebra::primality::{lemma_one_difference, lemma_one_weight};
use crate::algebra::residue::{
    cong, inv, is_unit, lemma_cong_mul, lemma_cong_sub, lemma_inv, lemma_one, lemma_pow_inverse,
    lemma_reduce, lemma_reduced, order,
};
use crate::algebra::sums::{
    dot, lemma_sum_cong, lemma_sum_ext, lemma_sum_scale, lemma_sum_shift, lemma_sum_single,
    lemma_sum_sub, lemma_sum_swap, products, sum,
};
use crate::curve::{views, Element, GtElement, SystemRng};
use crate::interpolation::{is_selection, lemma_roots_separated, root_points, selected_points};
use crate::middle::{cross_term, cross_terms_of};
use crate::points::power_range;
use crate::sampling::{are_nonzero_draws, kept, law_only_zeros_exhaust_a_source};
use crate::weighted::{
    cell, has_domain, lemma_ascending_count, lemma_flatten, lemma_none_unknown, lemma_offset_order,
    lemma_offset_step, lemma_owner, lemma_position_item, lemma_position_step,
    lemma_virtual_selection, offset, owner, party_weight_sum, position_offset, share_values, total,
    virtual_indices,
};
use crate::weighted_btx::error::{Error, Result};
use crate::weighted_btx_swapped::decryption::{
    acceptance, accepted_before, aggregate_holds, batch_digest_of, batch_size_defect, beta_of,
    effective, expected_sigma, expected_sigmas, first_defect, has_share, is_accept_outcome,
    is_acceptance, is_candidate, is_crossed, is_decryption, is_drawn_acceptance, is_finish,
    is_last_phase, is_preparation, key_logs, lambda_of, lemma_share_of, negative_row, opened_log,
    opening_key, opening_row, opening_table, passes, positive_selection, rejected_before,
    share_check, share_defect, share_of, share_parties, share_sigmas, shares_defect, weight_before,
    AcceptedDecryptionShares, BatchPrecomputation, DecryptionPrecomputation, DecryptionShare,
    ValidatedBatch,
};
use crate::weighted_btx_swapped::encryption::Ciphertext;
use crate::weighted_btx_swapped::setup::{
    inverses, key_powers, material, KeyMaterial, KeygenConfig, PublicDecryptionKey,
};

verus! {

/// The share that a party makes passes its check.
pub proof fn law_honest_share_passes(
    keys: &KeyMaterial,
    config: &KeygenConfig,
    coefficients: Seq<int>,
    qs: Seq<int>,
    batch: &ValidatedBatch,
    party: int,
    share: DecryptionShare,
)
    requires
        keys.is_generated(config, coefficients, qs),
        batch.wf(),
        batch.setup_id@ == keys.decryption_key.setup_id@,
        batch_size_defect(&keys.decryption_key, batch.batch_size) is None,
        0 <= party < config.party_weights@.len(),
        share.is_share_of(&keys.party_keys@[party], batch),
    ensures
        passes(&keys.decryption_key, batch, share),
        share_check(&keys.decryption_key, batch, share) == Ok::<bool, Error>(true),
{
    let dk = &keys.decryption_key;
    let n = batch.batch_size as int;
    let a = batch.firsts();
    let logs = key_logs(dk, party);
    let powers = power_range(keys.party_keys@[party].q@, 1, n);
    assert forall|i: int| 0 <= i < n implies #[trigger] products(a, powers)(i) == products(
        a,
        logs,
    )(i) by {
        assert(cell(
            views(dk.verification_keys@),
            config.party_weights@.len() as int,
            i,
            party,
        ) == key_powers(qs)(i, party));
        assert(1 + i == i + 1);
    }
    lemma_sum_ext(products(a, powers), products(a, logs), 0, n);
    lemma_reduce(dot(a, powers));
}

/// Shares that all pass their checks are accepted whatever the challenges are.
pub proof fn law_valid_shares_are_accepted(
    decryption_key: &PublicDecryptionKey,
    batch: &ValidatedBatch,
    shares: Seq<DecryptionShare>,
    challenges: Seq<int>,
)
    requires
        challenges.len() >= shares.len(),
        forall|k: int|
            0 <= k < shares.len() && is_candidate(decryption_key, batch, #[trigger] shares[k])
                ==> passes(decryption_key, batch, shares[k]),
    ensures
        aggregate_holds(decryption_key, batch, shares, challenges),
{
    let c = effective(decryption_key, batch, shares, challenges);
    let s = share_sigmas(shares);
    let e = expected_sigmas(decryption_key, batch, shares);
    assert forall|k: int| 0 <= k < shares.len() implies cong(
        #[trigger] products(s, c)(k),
        products(e, c)(k),
    ) by {
        if is_candidate(decryption_key, batch, shares[k]) {
            lemma_cong_mul(s[k], e[k], c[k], c[k]);
        } else {
            assert(s[k] * 0 == 0 && e[k] * 0 == 0);
        }
    }
    lemma_sum_cong(products(s, c), products(e, c), 0, shares.len() as int);
}

/// Where exactly one of the shares made for the batch does not pass its check, the shares
/// are refused together, whatever the challenges are, as long as that share's is not zero.
pub proof fn law_one_bad_share_is_refused(
    decryption_key: &PublicDecryptionKey,
    batch: &ValidatedBatch,
    shares: Seq<DecryptionShare>,
    challenges: Seq<int>,
    bad: int,
)
    requires
        challenges.len() >= shares.len(),
        0 <= bad < shares.len(),
        is_candidate(decryption_key, batch, shares[bad]),
        !passes(decryption_key, batch, shares[bad]),
        forall|k: int|
            0 <= k < shares.len() && k != bad && is_candidate(
                decryption_key,
                batch,
                #[trigger] shares[k],
            ) ==> passes(decryption_key, batch, shares[k]),
        0 < challenges[bad] < order(),
    ensures
        !aggregate_holds(decryption_key, batch, shares, challenges),
        forall|k: int|
            0 <= k < shares.len() ==> (acceptance(decryption_key, batch, shares, challenges)(
                #[trigger] shares[k],
            ) <==> is_candidate(decryption_key, batch, shares[k]) && k != bad),
{
    let c = effective(decryption_key, batch, shares, challenges);
    let s = share_sigmas(shares);
    let e = expected_sigmas(decryption_key, batch, shares);
    // a share for another batch has no weight, so that it may as well be what it should be
    let t = Seq::new(
        shares.len(),
        |k: int|
            if is_candidate(decryption_key, batch, shares[k]) {
                s[k]
            } else {
                e[k]
            },
    );
    let n = shares.len() as int;
    assert forall|k: int| 0 <= k < n implies #[trigger] products(t, c)(k) == products(s, c)(k) by {
        assert(t[k] * 0 == 0 && s[k] * 0 == 0);
    }
    lemma_sum_ext(products(t, c), products(s, c), 0, n);
    assert forall|k: int| 0 <= k < n && k != bad implies cong(#[trigger] t[k], e[k]) by {
        if is_candidate(decryption_key, batch, shares[k]) {
            assert(passes(decryption_key, batch, shares[k]));
        }
    }
    lemma_reduced(challenges[bad]);
    lemma_one();
    lemma_one_difference(t, e, c, bad);
}

/// A share that passes its check is accepted whatever the other shares and the
/// challenges are; one that was made for another batch or setup never is.
pub proof fn law_acceptance(
    decryption_key: &PublicDecryptionKey,
    batch: &ValidatedBatch,
    shares: Seq<DecryptionShare>,
    challenges: Seq<int>,
    share: DecryptionShare,
)
    ensures
        ({
            let ok = acceptance(decryption_key, batch, shares, challenges);
            &&& is_candidate(decryption_key, batch, share) && passes(decryption_key, batch, share)
                ==> ok(share)
            &&& !is_candidate(decryption_key, batch, share) ==> !ok(share)
            &&& !aggregate_holds(decryption_key, batch, shares, challenges) && !passes(
                decryption_key,
                batch,
                share,
            ) ==> !ok(share)
        }),
{
}

/// Whether the check at once does not err: it holds only where every share made for the
/// batch passes its own.
pub open spec fn errs_not(
    decryption_key: &PublicDecryptionKey,
    batch: &ValidatedBatch,
    shares: Seq<DecryptionShare>,
    challenges: Seq<int>,
) -> bool {
    aggregate_holds(decryption_key, batch, shares, challenges) ==> forall|k: int|
        0 <= k < shares.len() && is_candidate(decryption_key, batch, #[trigger] shares[k])
            ==> passes(decryption_key, batch, shares[k])
}

/// Whether two outcomes hold the same.
pub open spec fn is_same_outcome(
    result: Result<AcceptedDecryptionShares>,
    other: Result<AcceptedDecryptionShares>,
) -> bool {
    match (result, other) {
        (Ok(a), Ok(b)) => {
            &&& a.setup_id@ == b.setup_id@
            &&& a.batch_size == b.batch_size
            &&& a.digest@ == b.digest@
            &&& a.accepted_weight == b.accepted_weight
            &&& a.shares@ == b.shares@
            &&& a.rejected_parties@ == b.rejected_parties@
        },
        (
            Err(Error::InsufficientWeight { accepted, required, rejected_parties }),
            Err(
                Error::InsufficientWeight {
                    accepted: other_accepted,
                    required: other_required,
                    rejected_parties: other_parties,
                },
            ),
        ) => accepted == other_accepted && required == other_required && rejected_parties@
            == other_parties@,
        _ => false,
    }
}

/// What is accepted does not depend on the order of the shares, nor on the challenges where
/// the check at once does not err: then it is the shares that were made for the batch and
/// pass their own check.
pub proof fn law_acceptance_ignores_order(
    decryption_key: &PublicDecryptionKey,
    batch: &ValidatedBatch,
    shares: Seq<DecryptionShare>,
    challenges: Seq<int>,
    result: Result<AcceptedDecryptionShares>,
    reordered: Seq<DecryptionShare>,
    other_challenges: Seq<int>,
    other: Result<AcceptedDecryptionShares>,
)
    requires
        shares_defect(decryption_key, batch, shares) is None,
        reordered.to_multiset() == shares.to_multiset(),
        challenges.len() >= shares.len(),
        other_challenges.len() >= reordered.len(),
        errs_not(decryption_key, batch, shares, challenges),
        errs_not(decryption_key, batch, reordered, other_challenges),
        is_acceptance(decryption_key, batch, shares, challenges, result),
        is_acceptance(decryption_key, batch, reordered, other_challenges, other),
    ensures
        is_same_outcome(result, other),
        forall|k: int|
            0 <= k < shares.len() ==> (acceptance(decryption_key, batch, shares, challenges)(
                #[trigger] shares[k],
            ) <==> is_candidate(decryption_key, batch, shares[k]) && passes(
                decryption_key,
                batch,
                shares[k],
            )),
{
    let n = decryption_key.party_weights@.len() as int;
    lemma_no_defect(n, shares, 0);
    shares.to_multiset_ensures();
    reordered.to_multiset_ensures();
    assert(shares.no_duplicates());
    shares.lemma_multiset_has_no_duplicates();
    reordered.lemma_multiset_has_no_duplicates_conv();
    assert forall|share: DecryptionShare| #[trigger]
        reordered.contains(share) == shares.contains(share) by {
        assert(shares.contains(share) <==> shares.to_multiset().count(share) > 0);
        assert(reordered.contains(share) <==> reordered.to_multiset().count(share) > 0);
    }
    assert forall|k: int| 0 <= k < reordered.len() implies (#[trigger] reordered[k]).party_index
        < n by {
        assert(reordered.contains(reordered[k]));
        assert(shares.contains(reordered[k]));
    }
    assert forall|i: int, j: int| 0 <= i < j < reordered.len() implies (
    #[trigger] reordered[i]).party_index != (#[trigger] reordered[j]).party_index by {
        assert(reordered.contains(reordered[i]) && reordered.contains(reordered[j]));
        let (a, b) = (shares.index_of(reordered[i]), shares.index_of(reordered[j]));
        assert(shares[a] != shares[b]);
        if a < b {
            assert(shares[a].party_index != shares[b].party_index);
        } else {
            assert(shares[b].party_index != shares[a].party_index);
        }
    }
    lemma_no_share_defect(n, reordered, 0);
    let ok = acceptance(decryption_key, batch, shares, challenges);
    let other_ok = acceptance(decryption_key, batch, reordered, other_challenges);
    assert forall|k: int| 0 <= k < shares.len() implies ok(#[trigger] shares[k]) == other_ok(
        shares[k],
    ) by {
        assert(reordered.contains(shares[k]));
        let i = reordered.index_of(shares[k]);
        assert(reordered[i] == shares[k]);
    }
    lemma_same_acceptance(decryption_key.party_weights@, shares, ok, reordered, other_ok, n);
}

/// The check at once does not err where at most one share does not pass its own, as long as
/// no challenge is zero.
pub proof fn law_one_bad_share_is_no_error(
    decryption_key: &PublicDecryptionKey,
    batch: &ValidatedBatch,
    shares: Seq<DecryptionShare>,
    challenges: Seq<int>,
    bad: int,
)
    requires
        challenges.len() >= shares.len(),
        forall|k: int| 0 <= k < challenges.len() ==> 0 < #[trigger] challenges[k] < order(),
        forall|k: int|
            0 <= k < shares.len() && k != bad && is_candidate(
                decryption_key,
                batch,
                #[trigger] shares[k],
            ) ==> passes(decryption_key, batch, shares[k]),
    ensures
        errs_not(decryption_key, batch, shares, challenges),
{
    if 0 <= bad < shares.len() && is_candidate(decryption_key, batch, shares[bad]) && !passes(
        decryption_key,
        batch,
        shares[bad],
    ) {
        law_one_bad_share_is_refused(decryption_key, batch, shares, challenges, bad);
    }
}

/// Whether a share was made for the batch and passes its own check.
pub open spec fn own_check(
    decryption_key: &PublicDecryptionKey,
    batch: &ValidatedBatch,
) -> spec_fn(DecryptionShare) -> bool {
    |share: DecryptionShare|
        is_candidate(decryption_key, batch, share) && passes(decryption_key, batch, share)
}

/// Where the check at once does not err, what is accepted are the shares that were made for
/// the batch and pass their own check, in the order of their parties; the other parties
/// are rejected, in order; and there is an outcome where the weight exceeds the threshold.
pub proof fn law_accepted_are_those_that_pass(
    decryption_key: &PublicDecryptionKey,
    batch: &ValidatedBatch,
    shares: Seq<DecryptionShare>,
    challenges: Seq<int>,
    result: Result<AcceptedDecryptionShares>,
)
    requires
        shares_defect(decryption_key, batch, shares) is None,
        challenges.len() >= shares.len(),
        errs_not(decryption_key, batch, shares, challenges),
        is_acceptance(decryption_key, batch, shares, challenges, result),
    ensures
        ({
            let n = decryption_key.party_weights@.len() as int;
            let own = own_check(decryption_key, batch);
            let weight = weight_before(decryption_key.party_weights@, shares, own, n);
            &&& result is Ok <==> weight > decryption_key.threshold_weight
            &&& match result {
                Ok(accepted) => {
                    &&& accepted.shares@ == accepted_before(shares, own, n)
                    &&& accepted.rejected_parties@ == rejected_before(shares, own, n)
                    &&& accepted.accepted_weight == weight
                },
                Err(error) => error matches Error::InsufficientWeight {
                    accepted,
                    rejected_parties,
                    ..
                } && accepted == weight && rejected_parties@ == rejected_before(shares, own, n),
            }
        }),
{
    let n = decryption_key.party_weights@.len() as int;
    let own = own_check(decryption_key, batch);
    let ok = acceptance(decryption_key, batch, shares, challenges);
    lemma_no_defect(n, shares, 0);
    assert forall|k: int| 0 <= k < shares.len() implies ok(#[trigger] shares[k]) == own(
        shares[k],
    ) by {}
    lemma_same_acceptance(decryption_key.party_weights@, shares, ok, shares, own, n);
}

/// Shares without a defect are of different parties that there are.
proof fn lemma_no_defect(party_count: int, shares: Seq<DecryptionShare>, from: int)
    requires
        0 <= from <= shares.len(),
        first_defect(party_count, shares, from) is None,
    ensures
        forall|k: int|
            from <= k < shares.len() ==> (#[trigger] shares[k]).party_index < party_count,
        forall|i: int, j: int|
            0 <= i < j < shares.len() && from <= j ==> (#[trigger] shares[i]).party_index != (
            #[trigger] shares[j]).party_index,
    decreases shares.len() - from,
{
    if from < shares.len() {
        assert(share_defect(party_count, shares, from) is None);
        lemma_no_defect(party_count, shares, from + 1);
        assert forall|i: int, j: int|
            0 <= i < j < shares.len() && from <= j implies (#[trigger] shares[i]).party_index != (
        #[trigger] shares[j]).party_index by {
            if j == from && shares[i].party_index == shares[j].party_index {
                assert(exists|m: int|
                    0 <= m < from && (#[trigger] shares[m]).party_index
                        == shares[from].party_index);
            }
        }
    }
}

/// The same shares of different parties are accepted alike in any order.
proof fn lemma_same_acceptance(
    party_weights: Seq<usize>,
    shares: Seq<DecryptionShare>,
    ok: spec_fn(DecryptionShare) -> bool,
    reordered: Seq<DecryptionShare>,
    other_ok: spec_fn(DecryptionShare) -> bool,
    party: int,
)
    requires
        are_distinct(shares),
        are_distinct(reordered),
        forall|share: DecryptionShare| #[trigger]
            reordered.contains(share) == shares.contains(share),
        forall|k: int| 0 <= k < shares.len() ==> ok(#[trigger] shares[k]) == other_ok(shares[k]),
    ensures
        weight_before(party_weights, shares, ok, party) == weight_before(
            party_weights,
            reordered,
            other_ok,
            party,
        ),
        accepted_before(shares, ok, party) == accepted_before(reordered, other_ok, party),
        rejected_before(shares, ok, party) == rejected_before(reordered, other_ok, party),
    decreases party,
{
    if party > 0 {
        lemma_same_acceptance(party_weights, shares, ok, reordered, other_ok, party - 1);
        if has_share(shares, party - 1) {
            let k = choose|k: int|
                0 <= k < shares.len() && (#[trigger] shares[k]).party_index == party - 1;
            assert(reordered.contains(shares[k]));
            let i = reordered.index_of(shares[k]);
            assert(reordered[i].party_index == party - 1);
            lemma_share_of(shares, k);
            lemma_share_of(reordered, i);
        }
        if has_share(reordered, party - 1) {
            let i = choose|i: int|
                0 <= i < reordered.len() && (#[trigger] reordered[i]).party_index == party - 1;
            assert(reordered.contains(reordered[i]));
            let k = shares.index_of(reordered[i]);
            assert(shares[k].party_index == party - 1);
        }
    }
}

/// The accepted shares before a party: in the order of their parties, and with
/// the weight that was counted.
pub proof fn lemma_accepted_before(
    party_weights: Seq<usize>,
    shares: Seq<DecryptionShare>,
    ok: spec_fn(DecryptionShare) -> bool,
    party: int,
)
    requires
        0 <= party <= party_weights.len(),
    ensures
        ({
            let accepted = accepted_before(shares, ok, party);
            let parties = share_parties(accepted);
            &&& party_weight_sum(party_weights, parties) == weight_before(
                party_weights,
                shares,
                ok,
                party,
            )
            &&& forall|i: int| 0 <= i < parties.len() ==> (#[trigger] parties[i]) < party
            &&& forall|i: int, j: int|
                0 <= i < j < parties.len() ==> #[trigger] parties[i] < #[trigger] parties[j]
        }),
    decreases party,
{
    if party > 0 {
        lemma_accepted_before(party_weights, shares, ok, party - 1);
        let before = accepted_before(shares, ok, party - 1);
        let accepted = accepted_before(shares, ok, party);
        let parties = share_parties(accepted);
        if has_share(shares, party - 1) && ok(share_of(shares, party - 1)) {
            assert(share_of(shares, party - 1).party_index == party - 1);
            assert(parties.drop_last() =~= share_parties(before));
            assert(parties.last() == party - 1);
            assert forall|i: int| 0 <= i < parties.len() implies (#[trigger] parties[i]) < party by {
                if i < before.len() {
                    assert(share_parties(before)[i] == parties[i]);
                }
            }
            assert forall|i: int, j: int| 0 <= i < j < parties.len() implies #[trigger] parties[i]
                < #[trigger] parties[j] by {
                assert(share_parties(before)[i] == parties[i]);
                if j < before.len() {
                    assert(share_parties(before)[j] == parties[j]);
                }
            }
        }
    } else {
        assert(share_parties(accepted_before(shares, ok, 0)) =~= Seq::<usize>::empty());
    }
}

/// A power of a unit, with an exponent of either sign.
pub open spec fn signed_pow(q: int, e: int) -> int {
    if e >= 0 {
        pow(q, e as nat)
    } else {
        pow(inv(q), (-e) as nat)
    }
}

/// Exponents of opposite sign cancel.
pub proof fn lemma_signed_pow(q: int, up: nat, down: nat)
    requires
        is_unit(q),
    ensures
        cong(pow(q, up) * pow(inv(q), down), signed_pow(q, up - down)),
{
    lemma_inv(q);
    let i = inv(q);
    if up >= down {
        let rest = (up - down) as nat;
        lemma_pow_adds(q, rest, down);
        lemma_pow_inverse(q, i, down);
        let (a, b, c) = (pow(q, rest), pow(q, down), pow(i, down));
        lemma_cong_mul(a, a, b * c, 1);
        assert((a * b) * c == a * (b * c)) by (nonlinear_arith);
        assert(a * 1 == a);
    } else {
        let rest = (down - up) as nat;
        lemma_pow_adds(i, up, rest);
        lemma_pow_inverse(q, i, up);
        let (a, b, c) = (pow(q, up), pow(i, up), pow(i, rest));
        lemma_cong_mul(a * b, 1, c, c);
        assert(a * (b * c) == (a * b) * c) by (nonlinear_arith);
        assert(1 * c == c);
    }
}

/// The terms of a weighted sum of the selected virtual shares, each times a power
/// of its owner's secret.
pub open spec fn mixed_terms(
    party_weights: Seq<usize>,
    qs: Seq<int>,
    z: Seq<int>,
    lambda: Seq<int>,
    selected: Seq<usize>,
    e: int,
) -> spec_fn(int) -> int {
    |i: int|
        (lambda[i] * z[selected[i] as int]) * signed_pow(
            qs[owner(party_weights, selected[i] as int)],
            e,
        )
}

pub open spec fn mixed(
    party_weights: Seq<usize>,
    qs: Seq<int>,
    z: Seq<int>,
    lambda: Seq<int>,
    selected: Seq<usize>,
    e: int,
) -> int {
    sum(
        mixed_terms(party_weights, qs, z, lambda, selected, e),
        0,
        selected.len() as int,
    )
}

/// What the parties of an accepted set and its selection satisfy.
spec fn is_committee(
    keys: &KeyMaterial,
    config: &KeygenConfig,
    coefficients: Seq<int>,
    qs: Seq<int>,
    parties: Seq<usize>,
) -> bool {
    let party_weights = config.party_weights@;
    let selected = virtual_indices(party_weights, parties);
    &&& keys.is_generated(config, coefficients, qs)
    &&& forall|i: int| 0 <= i < parties.len() ==> (#[trigger] parties[i]) < party_weights.len()
    &&& forall|i: int| 0 <= i < selected.len() ==> (#[trigger] selected[i]) < total(party_weights)
}

spec fn z_of(keys: &KeyMaterial, config: &KeygenConfig, coefficients: Seq<int>) -> Seq<int> {
    share_values(
        coefficients,
        keys.decryption_key.domain_size as int,
        total(config.party_weights@),
    )
}

/// A term of an opening key.
proof fn lemma_negative_term(
    keys: &KeyMaterial,
    config: &KeygenConfig,
    coefficients: Seq<int>,
    qs: Seq<int>,
    parties: Seq<usize>,
    i: int,
    power: int,
)
    requires
        is_committee(keys, config, coefficients, qs, parties),
        0 <= i < virtual_indices(config.party_weights@, parties).len(),
        1 <= power <= config.max_batch_size,
    ensures
        ({
            let dk = &keys.decryption_key;
            let selected = virtual_indices(config.party_weights@, parties);
            let lambda = lambda_of(dk, parties);
            cong(
                dk.negative_log(selected[i] as int, power) * lambda[i],
                mixed_terms(
                    config.party_weights@,
                    qs,
                    z_of(keys, config, coefficients),
                    lambda,
                    selected,
                    -power,
                )(i),
            )
        }),
{
    let dk = &keys.decryption_key;
    let party_weights = config.party_weights@;
    let selected = virtual_indices(party_weights, parties);
    let lambda = lambda_of(dk, parties);
    let z = z_of(keys, config, coefficients);
    let v = selected[i] as int;
    assert(v < total(party_weights));
    crate::weighted::lemma_has_owner(party_weights, v);
    let q = qs[owner(party_weights, v)];
    assert(cell(views(dk.negative_material@), total(party_weights), power - 1, v) == material(
        z,
        party_weights,
        inverses(qs),
    )(power - 1, v));
    let p = pow(inv(q), power as nat);
    assert(inverses(qs)[owner(party_weights, v)] == inv(q));
    assert(power - 1 + 1 == power);
    lemma_reduce(z[v] * p);
    lemma_cong_mul(dk.negative_log(v, power), z[v] * p, lambda[i], lambda[i]);
    let (l, y) = (lambda[i], z[v]);
    assert((y * p) * l == (l * y) * p) by (nonlinear_arith);
    assert(-(-power) == power);
}

/// A term of the kernel for a distance above zero.
proof fn lemma_positive_term(
    keys: &KeyMaterial,
    config: &KeygenConfig,
    coefficients: Seq<int>,
    qs: Seq<int>,
    parties: Seq<usize>,
    i: int,
    power: int,
)
    requires
        is_committee(keys, config, coefficients, qs, parties),
        0 <= i < virtual_indices(config.party_weights@, parties).len(),
        1 <= power < config.max_batch_size,
    ensures
        ({
            let dk = &keys.decryption_key;
            let selected = virtual_indices(config.party_weights@, parties);
            let lambda = lambda_of(dk, parties);
            cong(
                dk.positive_log(selected[i] as int, power) * lambda[i],
                mixed_terms(
                    config.party_weights@,
                    qs,
                    z_of(keys, config, coefficients),
                    lambda,
                    selected,
                    power,
                )(i),
            )
        }),
{
    let dk = &keys.decryption_key;
    let party_weights = config.party_weights@;
    let selected = virtual_indices(party_weights, parties);
    let lambda = lambda_of(dk, parties);
    let z = z_of(keys, config, coefficients);
    let v = selected[i] as int;
    assert(v < total(party_weights));
    let q = qs[owner(party_weights, v)];
    assert(cell(views(dk.positive_material@), total(party_weights), power - 1, v) == material(
        z,
        party_weights,
        qs,
    )(power - 1, v));
    let p = pow(q, power as nat);
    assert(power - 1 + 1 == power);
    lemma_reduce(z[v] * p);
    lemma_cong_mul(dk.positive_log(v, power), z[v] * p, lambda[i], lambda[i]);
    let (l, y) = (lambda[i], z[v]);
    assert((y * p) * l == (l * y) * p) by (nonlinear_arith);
}

/// One term of an opening key.
proof fn lemma_opening_term(
    keys: &KeyMaterial,
    config: &KeygenConfig,
    coefficients: Seq<int>,
    qs: Seq<int>,
    parties: Seq<usize>,
    slot: int,
    position: int,
    k: int,
)
    requires
        is_committee(keys, config, coefficients, qs, parties),
        0 <= slot < config.max_batch_size,
        0 <= position < parties.len(),
        0 <= k < config.party_weights@[parties[position] as int],
    ensures
        ({
            let dk = &keys.decryption_key;
            let party_weights = config.party_weights@;
            let party = parties[position] as int;
            let start = position_offset(party_weights, parties, position);
            let begin = offset(party_weights, party);
            let count = party_weights[party] as int;
            cong(
                negative_row(dk, slot + 1).subrange(begin, begin + count)[k] * lambda_of(
                    dk,
                    parties,
                ).subrange(start, start + count)[k],
                mixed_terms(
                    party_weights,
                    qs,
                    z_of(keys, config, coefficients),
                    lambda_of(dk, parties),
                    virtual_indices(party_weights, parties),
                    -(slot + 1),
                )(k + start),
            )
        }),
{
    let dk = &keys.decryption_key;
    let party_weights = config.party_weights@;
    let selected = virtual_indices(party_weights, parties);
    let lambda = lambda_of(dk, parties);
    let party = parties[position] as int;
    let start = position_offset(party_weights, parties, position);
    let begin = offset(party_weights, party);
    let count = party_weights[party] as int;
    assert(parties[position] < party_weights.len());
    lemma_position_step(party_weights, parties, position);
    lemma_offset_step(party_weights, party);
    lemma_offset_order(party_weights, party + 1, party_weights.len() as int);
    lemma_offset_order(party_weights, party, party + 1);
    assert(parties.take(parties.len() as int) =~= parties);
    lemma_position_item(party_weights, parties, position, parties.len() as int, k);
    let i = k + start;
    assert(selected[i] == (begin + k) as usize);
    assert(lambda.len() == selected.len());
    lemma_negative_term(keys, config, coefficients, qs, parties, i, slot + 1);
    assert(negative_row(dk, slot + 1).subrange(begin, begin + count)[k] == dk.negative_log(
        begin + k,
        slot + 1,
    ));
    assert(lambda.subrange(start, start + count)[k] == lambda[i]);
}

/// An opening key is the party's part of the weighted sum for the slot's power.
#[verifier::rlimit(60)]
#[verifier::spinoff_prover]
proof fn lemma_opening_key(
    keys: &KeyMaterial,
    config: &KeygenConfig,
    coefficients: Seq<int>,
    qs: Seq<int>,
    parties: Seq<usize>,
    slot: int,
    position: int,
)
    requires
        is_committee(keys, config, coefficients, qs, parties),
        0 <= slot < config.max_batch_size,
        0 <= position < parties.len(),
    ensures
        ({
            let dk = &keys.decryption_key;
            let party_weights = config.party_weights@;
            cong(
                opening_key(dk, parties, slot, position),
                sum(
                    mixed_terms(
                        party_weights,
                        qs,
                        z_of(keys, config, coefficients),
                        lambda_of(dk, parties),
                        virtual_indices(party_weights, parties),
                        -(slot + 1),
                    ),
                    position_offset(party_weights, parties, position),
                    position_offset(party_weights, parties, position + 1),
                ),
            )
        }),
{
    let dk = &keys.decryption_key;
    let party_weights = config.party_weights@;
    let party = parties[position] as int;
    let start = position_offset(party_weights, parties, position);
    let begin = offset(party_weights, party);
    let count = party_weights[party] as int;
    let a = negative_row(dk, slot + 1).subrange(begin, begin + count);
    let b = lambda_of(dk, parties).subrange(start, start + count);
    let h = mixed_terms(
        party_weights,
        qs,
        z_of(keys, config, coefficients),
        lambda_of(dk, parties),
        virtual_indices(party_weights, parties),
        -(slot + 1),
    );
    lemma_position_step(party_weights, parties, position);
    let moved = |k: int| h(k + start);
    assert forall|k: int| 0 <= k < count implies cong(
        #[trigger] products(a, b)(k),
        moved(k),
    ) by {
        lemma_opening_term(keys, config, coefficients, qs, parties, slot, position, k);
    }
    lemma_sum_cong(products(a, b), moved, 0, count);
    lemma_sum_shift(h, moved, 0, count, start);
    lemma_reduce(dot(a, b));
    assert(a.len() == count) by {
        assert(parties[position] < party_weights.len());
        lemma_offset_step(party_weights, party);
        lemma_offset_order(party_weights, party + 1, party_weights.len() as int);
        lemma_offset_order(party_weights, party, party + 1);
    }
}

/// The kernel's entry at the distance of two slots.
proof fn lemma_entry(
    keys: &KeyMaterial,
    config: &KeygenConfig,
    coefficients: Seq<int>,
    qs: Seq<int>,
    precomputation: &DecryptionPrecomputation,
    parties: Seq<usize>,
    slot: int,
    j: int,
)
    requires
        is_committee(keys, config, coefficients, qs, parties),
        precomputation.is_prepared(
            &keys.decryption_key,
            parties,
            precomputation.batch_size,
        ),
        precomputation.batch_size <= config.max_batch_size,
        0 <= slot < precomputation.batch_size,
        0 <= j < precomputation.batch_size,
    ensures
        ({
            let entry = precomputation.entries()[(slot - j)
                % (precomputation.entries().len() as int)];
            if slot == j {
                entry == 0
            } else {
                cong(
                    entry,
                    mixed(
                        config.party_weights@,
                        qs,
                        z_of(keys, config, coefficients),
                        lambda_of(&keys.decryption_key, parties),
                        virtual_indices(config.party_weights@, parties),
                        j - slot,
                    ),
                )
            }
        }),
{
    let dk = &keys.decryption_key;
    let party_weights = config.party_weights@;
    let selected = virtual_indices(party_weights, parties);
    let lambda = lambda_of(dk, parties);
    let z = z_of(keys, config, coefficients);
    let m = precomputation.transform_size as int;
    assert(precomputation.entries().len() == m);
    let wraps: int = if slot >= j {
        0
    } else {
        1
    };
    vstd::arithmetic::div_mod::lemma_fundamental_div_mod_converse(
        slot - j,
        m,
        -wraps,
        slot - j + m * wraps,
    );
    if slot > j {
        let d = slot - j;
        let h = mixed_terms(party_weights, qs, z, lambda, selected, -d);
        let blocks = opening_row(dk, parties, d - 1);
        assert forall|p: int| 0 <= p < parties.len() implies cong(
            #[trigger] blocks(p),
            sum(
                h,
                position_offset(party_weights, parties, p),
                position_offset(party_weights, parties, p + 1),
            ),
        ) by {
            lemma_opening_key(keys, config, coefficients, qs, parties, d - 1, p);
            assert(-(d - 1 + 1) == -d);
        }
        lemma_flatten(party_weights, parties, h, blocks, parties.len() as int);
        assert(parties.take(parties.len() as int) =~= parties);
        lemma_reduce(sum(blocks, 0, parties.len() as int));
        assert(j - slot == -d);
    } else if slot < j {
        let d = j - slot;
        let a = positive_selection(dk, parties, d);
        let h = mixed_terms(party_weights, qs, z, lambda, selected, d);
        assert forall|i: int| 0 <= i < selected.len() implies cong(
            #[trigger] products(a, lambda)(i),
            h(i),
        ) by {
            lemma_positive_term(keys, config, coefficients, qs, parties, i, d);
        }
        lemma_sum_cong(products(a, lambda), h, 0, selected.len() as int);
        lemma_reduce(dot(a, lambda));
        assert(m - (m - d) == d);
    }
}

/// What a party's share is, with the powers of its secret spelled out.
pub open spec fn sigma_terms(firsts: Seq<int>, q: int) -> spec_fn(int) -> int {
    |j: int| firsts[j] * pow(q, (j + 1) as nat)
}

/// The secret of the owner of the selected virtual share at a place.
spec fn secret_at(party_weights: Seq<usize>, qs: Seq<int>, selected: Seq<usize>, i: int) -> int {
    qs[owner(party_weights, selected[i] as int)]
}

/// The terms of a weighted sum, each times what the share of its owner is.
spec fn shared_terms(
    party_weights: Seq<usize>,
    qs: Seq<int>,
    selected: Seq<usize>,
    g: spec_fn(int) -> int,
    firsts: Seq<int>,
) -> spec_fn(int) -> int {
    |i: int|
        g(i) * sum(
            sigma_terms(firsts, secret_at(party_weights, qs, selected, i)),
            0,
            firsts.len() as int,
        )
}

/// What the share of a party should be, in terms of the party's secret.
proof fn lemma_expected(
    keys: &KeyMaterial,
    config: &KeygenConfig,
    coefficients: Seq<int>,
    qs: Seq<int>,
    batch: &ValidatedBatch,
    party: int,
)
    requires
        keys.is_generated(config, coefficients, qs),
        batch.wf(),
        batch.batch_size <= config.max_batch_size,
        0 <= party < config.party_weights@.len(),
    ensures
        cong(
            expected_sigma(&keys.decryption_key, batch, party),
            sum(sigma_terms(batch.firsts(), qs[party]), 0, batch.batch_size as int),
        ),
{
    let dk = &keys.decryption_key;
    let firsts = batch.firsts();
    let n = batch.batch_size as int;
    let q = qs[party];
    let logs = key_logs(dk, party);
    assert forall|j: int| 0 <= j < n implies cong(
        #[trigger] products(firsts, logs)(j),
        sigma_terms(firsts, q)(j),
    ) by {
        assert(cell(
            views(dk.verification_keys@),
            config.party_weights@.len() as int,
            j,
            party,
        ) == key_powers(qs)(j, party));
        lemma_reduce(pow(q, (j + 1) as nat));
        lemma_cong_mul(firsts[j], firsts[j], logs[j], pow(q, (j + 1) as nat));
    }
    lemma_sum_cong(products(firsts, logs), sigma_terms(firsts, q), 0, n);
}

/// Over the part of one party, all terms are multiplied by the same share.
proof fn lemma_shared_part(
    party_weights: Seq<usize>,
    qs: Seq<int>,
    parties: Seq<usize>,
    g: spec_fn(int) -> int,
    firsts: Seq<int>,
    p: int,
)
    requires
        0 <= p < parties.len(),
        parties[p] < party_weights.len(),
        total(party_weights) <= usize::MAX,
    ensures
        ({
            let selected = virtual_indices(party_weights, parties);
            let (a, b) = (
                position_offset(party_weights, parties, p),
                position_offset(party_weights, parties, p + 1),
            );
            sum(shared_terms(party_weights, qs, selected, g, firsts), a, b) == sum(
                sigma_terms(firsts, qs[parties[p] as int]),
                0,
                firsts.len() as int,
            ) * sum(g, a, b)
        }),
{
    let selected = virtual_indices(party_weights, parties);
    let h = shared_terms(party_weights, qs, selected, g, firsts);
    let party = parties[p] as int;
    let (a, b) = (
        position_offset(party_weights, parties, p),
        position_offset(party_weights, parties, p + 1),
    );
    let s = sum(sigma_terms(firsts, qs[party]), 0, firsts.len() as int);
    lemma_position_step(party_weights, parties, p);
    assert(parties.take(parties.len() as int) =~= parties);
    lemma_offset_step(party_weights, party);
    lemma_offset_order(party_weights, party, party + 1);
    lemma_offset_order(party_weights, party + 1, party_weights.len() as int);
    assert forall|i: int| a <= i < b implies #[trigger] h(i) == s * g(i) by {
        let k = i - a;
        lemma_position_item(party_weights, parties, p, parties.len() as int, k);
        assert(selected[i] == offset(party_weights, party) + k);
        lemma_owner(party_weights, party, selected[i] as int);
        let x = g(i);
        assert(x * s == s * x) by (nonlinear_arith);
    }
    lemma_sum_scale(s, g, h, a, b);
}

/// The pairing of one share with its opening key.
proof fn lemma_alpha_part(
    keys: &KeyMaterial,
    config: &KeygenConfig,
    coefficients: Seq<int>,
    qs: Seq<int>,
    batch: &ValidatedBatch,
    parties: Seq<usize>,
    slot: int,
    p: int,
    sigma: int,
)
    requires
        is_committee(keys, config, coefficients, qs, parties),
        batch.wf(),
        batch.batch_size <= config.max_batch_size,
        0 <= slot < batch.batch_size,
        0 <= p < parties.len(),
        cong(sigma, expected_sigma(&keys.decryption_key, batch, parties[p] as int)),
    ensures
        ({
            let party_weights = config.party_weights@;
            let selected = virtual_indices(party_weights, parties);
            let g = mixed_terms(
                party_weights,
                qs,
                z_of(keys, config, coefficients),
                lambda_of(&keys.decryption_key, parties),
                selected,
                -(slot + 1),
            );
            cong(
                opening_key(&keys.decryption_key, parties, slot, p) * sigma,
                sum(
                    shared_terms(party_weights, qs, selected, g, batch.firsts()),
                    position_offset(party_weights, parties, p),
                    position_offset(party_weights, parties, p + 1),
                ),
            )
        }),
{
    let dk = &keys.decryption_key;
    let party_weights = config.party_weights@;
    let selected = virtual_indices(party_weights, parties);
    let lambda = lambda_of(dk, parties);
    let z = z_of(keys, config, coefficients);
    let firsts = batch.firsts();
    let n = batch.batch_size as int;
    let g = mixed_terms(party_weights, qs, z, lambda, selected, -(slot + 1));
    let h = shared_terms(party_weights, qs, selected, g, firsts);
    let party = parties[p] as int;
    let q = qs[party];
    let (a, b) = (
        position_offset(party_weights, parties, p),
        position_offset(party_weights, parties, p + 1),
    );
    let s = sum(sigma_terms(firsts, q), 0, n);
    lemma_opening_key(keys, config, coefficients, qs, parties, slot, p);
    lemma_expected(keys, config, coefficients, qs, batch, party);
    let key = opening_key(dk, parties, slot, p);
    lemma_cong_mul(key, sum(g, a, b), sigma, s);
    lemma_shared_part(party_weights, qs, parties, g, firsts, p);
    let t = sum(g, a, b);
    assert(t * s == s * t) by (nonlinear_arith);
}

/// The sum over the virtual shares, in the other order.
proof fn lemma_alpha_exchange(
    party_weights: Seq<usize>,
    qs: Seq<int>,
    z: Seq<int>,
    lambda: Seq<int>,
    selected: Seq<usize>,
    firsts: Seq<int>,
    slot: int,
    g: spec_fn(int) -> int,
    f: spec_fn(int) -> int,
)
    requires
        0 <= slot,
        forall|j: int| 0 <= j < party_weights.len() ==> is_unit(#[trigger] qs[j]),
        forall|i: int|
            0 <= i < selected.len() ==> (#[trigger] selected[i]) < total(party_weights),
        g == mixed_terms(party_weights, qs, z, lambda, selected, -(slot + 1)),
        forall|j: int|
            0 <= j < firsts.len() ==> #[trigger] f(j) == firsts[j] * mixed(
                party_weights,
                qs,
                z,
                lambda,
                selected,
                j - slot,
            ),
    ensures
        cong(
            sum(
                shared_terms(party_weights, qs, selected, g, firsts),
                0,
                selected.len() as int,
            ),
            sum(f, 0, firsts.len() as int),
        ),
{
    let n = firsts.len() as int;
    let count = selected.len() as int;
    let h = shared_terms(party_weights, qs, selected, g, firsts);
    let t = |i: int, j: int|
        g(i) * (firsts[j] * pow(secret_at(party_weights, qs, selected, i), (j + 1) as nat));
    let rows = |i: int| sum(|j: int| t(i, j), 0, n);
    let columns = |j: int| sum(|i: int| t(i, j), 0, count);
    assert forall|i: int| 0 <= i < count implies #[trigger] h(i) == rows(i) by {
        let row = |j: int| t(i, j);
        lemma_sum_scale(
            g(i),
            sigma_terms(firsts, secret_at(party_weights, qs, selected, i)),
            row,
            0,
            n,
        );
    }
    lemma_sum_ext(h, rows, 0, count);
    lemma_sum_swap(t, count, n);
    assert forall|j: int| 0 <= j < n implies cong(#[trigger] columns(j), f(j)) by {
        let column = |i: int| t(i, j);
        let target = mixed_terms(party_weights, qs, z, lambda, selected, j - slot);
        let scaled = |i: int| firsts[j] * target(i);
        assert forall|i: int| 0 <= i < count implies cong(#[trigger] column(i), scaled(i)) by {
            let v = selected[i] as int;
            assert(v < total(party_weights));
            crate::weighted::lemma_has_owner(party_weights, v);
            let q = secret_at(party_weights, qs, selected, i);
            assert(is_unit(qs[owner(party_weights, v)]));
            lemma_signed_pow(q, (j + 1) as nat, (slot + 1) as nat);
            let (x, up, down, e) = (
                lambda[i] * z[v],
                pow(q, (j + 1) as nat),
                pow(inv(q), (slot + 1) as nat),
                signed_pow(q, j - slot),
            );
            assert(signed_pow(q, -(slot + 1)) == down);
            let y = firsts[j];
            lemma_cong_mul(y * x, y * x, up * down, e);
            assert((x * down) * (y * up) == (y * x) * (up * down)) by (nonlinear_arith);
            assert((y * x) * e == y * (x * e)) by (nonlinear_arith);
        }
        lemma_sum_cong(column, scaled, 0, count);
        lemma_sum_scale(firsts[j], target, scaled, 0, count);
        assert(columns(j) == sum(column, 0, count));
    }
    lemma_sum_cong(columns, f, 0, n);
}

/// The pairings of the shares with their opening keys, added up: for every slot
/// `j`, the first component there times the weighted sum for the distance.
proof fn lemma_alpha(
    keys: &KeyMaterial,
    config: &KeygenConfig,
    coefficients: Seq<int>,
    qs: Seq<int>,
    precomputation: &DecryptionPrecomputation,
    batch: &ValidatedBatch,
    shares: Seq<DecryptionShare>,
    slot: int,
    f: spec_fn(int) -> int,
)
    requires
        is_committee(keys, config, coefficients, qs, share_parties(shares)),
        precomputation.is_prepared(
            &keys.decryption_key,
            share_parties(shares),
            batch.batch_size,
        ),
        batch.wf(),
        batch.batch_size <= config.max_batch_size,
        0 <= slot < batch.batch_size,
        forall|k: int|
            0 <= k < shares.len() ==> passes(&keys.decryption_key, batch, #[trigger] shares[k]),
        forall|j: int|
            0 <= j < batch.batch_size ==> #[trigger] f(j) == batch.firsts()[j] * mixed(
                config.party_weights@,
                qs,
                z_of(keys, config, coefficients),
                lambda_of(&keys.decryption_key, share_parties(shares)),
                virtual_indices(config.party_weights@, share_parties(shares)),
                j - slot,
            ),
    ensures
        cong(
            dot(precomputation.opening_logs(slot), share_sigmas(shares)),
            sum(f, 0, batch.batch_size as int),
        ),
{
    let dk = &keys.decryption_key;
    let parties = share_parties(shares);
    let party_weights = config.party_weights@;
    let selected = virtual_indices(party_weights, parties);
    let lambda = lambda_of(dk, parties);
    let z = z_of(keys, config, coefficients);
    let firsts = batch.firsts();
    let opening = precomputation.opening_logs(slot);
    let sigmas = share_sigmas(shares);
    let g = mixed_terms(party_weights, qs, z, lambda, selected, -(slot + 1));
    let h = shared_terms(party_weights, qs, selected, g, firsts);
    assert forall|p: int| 0 <= p < parties.len() implies cong(
        #[trigger] products(opening, sigmas)(p),
        sum(
            h,
            position_offset(party_weights, parties, p),
            position_offset(party_weights, parties, p + 1),
        ),
    ) by {
        assert(passes(dk, batch, shares[p]));
        lemma_alpha_part(
            keys,
            config,
            coefficients,
            qs,
            batch,
            parties,
            slot,
            p,
            sigmas[p],
        );
        assert(cell(
            views(precomputation.opening_keys@),
            parties.len() as int,
            slot,
            p,
        ) == opening_table(dk, parties)(slot, p));
    }
    lemma_flatten(party_weights, parties, h, products(opening, sigmas), parties.len() as int);
    assert(parties.take(parties.len() as int) =~= parties);
    assert(dot(opening, sigmas) == sum(products(opening, sigmas), 0, parties.len() as int));
    lemma_alpha_exchange(party_weights, qs, z, lambda, selected, firsts, slot, g, f);
}

/// Opening gives back the message. For shares of which enough, by weight, were
/// accepted, and which all pass their checks, what a valid slot opens to is the
/// message that its ciphertext was made of, whatever stands in the other slots.
pub proof fn law_open_recovers_message(
    keys: &KeyMaterial,
    config: &KeygenConfig,
    coefficients: Seq<int>,
    qs: Seq<int>,
    batch: &ValidatedBatch,
    ciphertexts: Seq<Ciphertext>,
    shares: Seq<DecryptionShare>,
    challenges: Seq<int>,
    accepted: AcceptedDecryptionShares,
    precomputation: &DecryptionPrecomputation,
    slot: int,
    message: int,
)
    requires
        keys.is_generated(config, coefficients, qs),
        batch_size_defect(&keys.decryption_key, batch.batch_size) is None,
        batch.is_batch_of(keys.decryption_key.setup_id@, ciphertexts),
        shares_defect(&keys.decryption_key, batch, shares) is None,
        is_acceptance(&keys.decryption_key, batch, shares, challenges, Ok(accepted)),
        forall|k: int|
            0 <= k < accepted.shares@.len() ==> passes(
                &keys.decryption_key,
                batch,
                #[trigger] accepted.shares@[k],
            ),
        precomputation.is_prepared(
            &keys.decryption_key,
            share_parties(accepted.shares@),
            batch.batch_size,
        ),
        0 <= slot < batch.batch_size,
        batch.valid@[slot],
        ciphertexts[slot].encrypts(&keys.encryption_key, message),
        0 <= message < order(),
    ensures
        opened_log(
            ciphertexts[slot].second@,
            precomputation.opening_logs(slot),
            share_sigmas(accepted.shares@),
            beta_of(precomputation, batch, slot),
        ) == message,
{
    let dk = &keys.decryption_key;
    let party_weights = config.party_weights@;
    let ok = acceptance(dk, batch, shares, challenges);
    let parties = share_parties(accepted.shares@);
    let selected = virtual_indices(party_weights, parties);
    let lambda = lambda_of(dk, parties);
    let z = z_of(keys, config, coefficients);
    let firsts = batch.firsts();
    let n = batch.batch_size as int;
    lemma_accepted_before(party_weights, shares, ok, party_weights.len() as int);
    lemma_virtual_selection(party_weights, parties);
    let f = |j: int|
        firsts[j] * mixed(party_weights, qs, z, lambda, selected, j - slot);
    lemma_alpha(
        keys,
        config,
        coefficients,
        qs,
        precomputation,
        batch,
        accepted.shares@,
        slot,
        f,
    );
    let cross = cross_terms_of(firsts, precomputation.entries(), slot);
    let difference = |j: int| f(j) - cross(j);
    let c0 = coefficients[0];
    let target = |j: int| if j == slot { firsts[slot] * c0 } else { 0 };
    assert forall|j: int| 0 <= j < n implies cong(#[trigger] difference(j), target(j)) by {
        lemma_entry(keys, config, coefficients, qs, precomputation, parties, slot, j);
        let entry = precomputation.entries()[(slot - j) % (precomputation.entries().len() as int)];
        if j != slot {
            let g = mixed(party_weights, qs, z, lambda, selected, j - slot);
            lemma_cong_mul(firsts[j], firsts[j], entry, g);
            lemma_cong_sub(firsts[j] * g, firsts[j] * g, firsts[j] * entry, firsts[j] * g);
        } else {
            lemma_interpolated(keys, config, coefficients, qs, parties);
            let g = mixed(party_weights, qs, z, lambda, selected, 0);
            lemma_cong_mul(firsts[j], firsts[j], g, c0);
            assert(firsts[j] * 0 == 0);
        }
    }
    lemma_sum_cong(difference, target, 0, n);
    lemma_sum_single(target, 0, n, slot);
    lemma_sum_sub(f, cross, difference, 0, n);
    let alpha = dot(precomputation.opening_logs(slot), share_sigmas(accepted.shares@));
    let beta = cross_term(firsts, precomputation.entries(), slot);
    let second = ciphertexts[slot].second@;
    lemma_reduce(beta);
    lemma_cong_sub(alpha, sum(f, 0, n), beta_of(precomputation, batch, slot), beta);
    let first = ciphertexts[slot].first@;
    assert(batch.first_affine@[slot]@ == first);
    assert(firsts[slot] == first);
    let mask = keys.encryption_key.element@ * first;
    lemma_reduce(message + mask);
    lemma_cong_sub(
        second,
        message + mask,
        alpha - beta_of(precomputation, batch, slot),
        first * c0,
    );
    assert(mask == first * c0) by (nonlinear_arith)
        requires
            mask == c0 * first,
    ;
    lemma_reduced(message);
}

/// The weighted sum of the selected virtual shares is the shared secret.
proof fn lemma_interpolated(
    keys: &KeyMaterial,
    config: &KeygenConfig,
    coefficients: Seq<int>,
    qs: Seq<int>,
    parties: Seq<usize>,
)
    requires
        keys.is_generated(config, coefficients, qs),
        forall|i: int|
            0 <= i < parties.len() ==> (#[trigger] parties[i]) < config.party_weights@.len(),
        forall|i: int, j: int|
            0 <= i < j < parties.len() ==> #[trigger] parties[i] < #[trigger] parties[j],
        party_weight_sum(config.party_weights@, parties) > config.threshold_weight,
    ensures
        cong(
            mixed(
                config.party_weights@,
                qs,
                z_of(keys, config, coefficients),
                lambda_of(&keys.decryption_key, parties),
                virtual_indices(config.party_weights@, parties),
                0,
            ),
            coefficients[0],
        ),
{
    let dk = &keys.decryption_key;
    let party_weights = config.party_weights@;
    let selected = virtual_indices(party_weights, parties);
    let w = total(party_weights);
    let size = dk.domain_size as int;
    lemma_virtual_selection(party_weights, parties);
    assert forall|i: int, j: int| 0 <= i < j < selected.len() implies #[trigger] selected[i]
        != #[trigger] selected[j] by {
        assert(selected[i] < selected[j]);
    }
    assert(is_selection(w, selected));
    lemma_roots_separated(size, w, selected);
    let all = root_points(size, w);
    let xs = selected_points(all, selected);
    assert(views(dk.evaluation_domain@) == all);
    lemma_interpolate(xs, coefficients);
    let z = z_of(keys, config, coefficients);
    let lambda = lambda_of(dk, parties);
    let reduced = |i: int| weight(xs, i) * eval(coefficients, xs[i]);
    let terms = mixed_terms(party_weights, qs, z, lambda, selected, 0);
    assert forall|i: int| 0 <= i < selected.len() implies cong(
        #[trigger] terms(i),
        reduced(i),
    ) by {
        let v = selected[i] as int;
        assert(v < w);
        lemma_pow0(qs[owner(party_weights, v)]);
        let e = eval(coefficients, xs[i]);
        assert(z[v] == e % order());
        lemma_reduce(e);
        lemma_cong_mul(lambda[i], lambda[i], z[v], e);
        assert(lambda[i] == weight(xs, i));
        assert((lambda[i] * z[v]) * 1 == lambda[i] * z[v]);
    }
    lemma_sum_cong(terms, reduced, 0, selected.len() as int);
}

/// The weights of the parties before `party` that have a share.
spec fn holders_weight(party_weights: Seq<usize>, shares: Seq<DecryptionShare>, party: int) -> int
    decreases party,
{
    if party <= 0 {
        0
    } else {
        holders_weight(party_weights, shares, party - 1) + (if has_share(shares, party - 1) {
            party_weights[party - 1] as int
        } else {
            0
        })
    }
}

/// Without its last share a set has the weight of that share's party less.
proof fn lemma_holders_last(party_weights: Seq<usize>, shares: Seq<DecryptionShare>, party: int)
    requires
        shares.len() > 0,
        are_distinct(shares),
        0 <= party <= party_weights.len(),
    ensures
        holders_weight(party_weights, shares, party) == holders_weight(
            party_weights,
            shares.drop_last(),
            party,
        ) + (if shares.last().party_index < party {
            party_weights[shares.last().party_index as int] as int
        } else {
            0
        }),
    decreases party,
{
    if party > 0 {
        lemma_holders_last(party_weights, shares, party - 1);
        let p = party - 1;
        let front = shares.drop_last();
        let last = shares.len() - 1;
        if has_share(front, p) {
            let k = choose|k: int| 0 <= k < front.len() && (#[trigger] front[k]).party_index == p;
            assert(shares[k].party_index == p);
            assert(shares[k].party_index != shares[last].party_index);
        }
        if shares[last].party_index == p {
            assert(has_share(shares, p));
        } else if has_share(shares, p) {
            let k = choose|k: int| 0 <= k < shares.len() && (#[trigger] shares[k]).party_index == p;
            assert(front[k].party_index == p);
        }
    }
}

/// Whether shares are of different parties.
pub open spec fn are_distinct(shares: Seq<DecryptionShare>) -> bool {
    forall|i: int, j: int|
        0 <= i < j < shares.len() ==> (#[trigger] shares[i]).party_index != (
        #[trigger] shares[j]).party_index
}

/// The weight of the parties that have a share is the sum over the shares.
proof fn lemma_holders(party_weights: Seq<usize>, shares: Seq<DecryptionShare>)
    requires
        are_distinct(shares),
        forall|k: int|
            0 <= k < shares.len() ==> (#[trigger] shares[k]).party_index < party_weights.len(),
    ensures
        holders_weight(party_weights, shares, party_weights.len() as int) == party_weight_sum(
            party_weights,
            share_parties(shares),
        ),
    decreases shares.len(),
{
    let n = party_weights.len() as int;
    if shares.len() > 0 {
        let front = shares.drop_last();
        assert forall|i: int, j: int| 0 <= i < j < front.len() implies (
        #[trigger] front[i]).party_index != (#[trigger] front[j]).party_index by {
            assert(shares[i].party_index != shares[j].party_index);
        }
        assert forall|k: int| 0 <= k < front.len() implies (#[trigger] front[k]).party_index
            < party_weights.len() by {
            assert(shares[k].party_index < party_weights.len());
        }
        lemma_holders(party_weights, front);
        lemma_holders_last(party_weights, shares, n);
        assert(shares[shares.len() - 1].party_index < n);
        assert(share_parties(shares).drop_last() =~= share_parties(front));
    } else {
        lemma_no_holders(party_weights, shares, n);
    }
}

proof fn lemma_no_holders(party_weights: Seq<usize>, shares: Seq<DecryptionShare>, party: int)
    requires
        shares.len() == 0,
    ensures
        holders_weight(party_weights, shares, party) == 0,
    decreases party,
{
    if party > 0 {
        lemma_no_holders(party_weights, shares, party - 1);
    }
}

/// Where every share is accepted, the accepted weight is that of all parties with a share, and
/// the accepted shares are among those given.
proof fn lemma_all_accepted(
    party_weights: Seq<usize>,
    shares: Seq<DecryptionShare>,
    ok: spec_fn(DecryptionShare) -> bool,
    party: int,
)
    requires
        forall|k: int| 0 <= k < shares.len() ==> ok(#[trigger] shares[k]),
        0 <= party <= party_weights.len(),
    ensures
        weight_before(party_weights, shares, ok, party) == holders_weight(
            party_weights,
            shares,
            party,
        ),
        forall|i: int|
            0 <= i < accepted_before(shares, ok, party).len() ==> shares.contains(
                #[trigger] accepted_before(shares, ok, party)[i],
            ),
    decreases party,
{
    if party > 0 {
        lemma_all_accepted(party_weights, shares, ok, party - 1);
        let p = party - 1;
        if has_share(shares, p) {
            let k = choose|k: int| 0 <= k < shares.len() && (#[trigger] shares[k]).party_index == p;
            assert(ok(shares[k]));
            assert(shares.contains(share_of(shares, p)));
            let before = accepted_before(shares, ok, p);
            assert(accepted_before(shares, ok, party) == before.push(share_of(shares, p)));
            assert forall|i: int| 0 <= i < before.len() + 1 implies shares.contains(
                #[trigger] before.push(share_of(shares, p))[i],
            ) by {
                if i < before.len() {
                    assert(shares.contains(before[i]));
                }
            }
        }
    }
}

proof fn lemma_no_share_defect(party_count: int, shares: Seq<DecryptionShare>, from: int)
    requires
        0 <= from,
        are_distinct(shares),
        forall|k: int| 0 <= k < shares.len() ==> (#[trigger] shares[k]).party_index < party_count,
    ensures
        first_defect(party_count, shares, from) is None,
    decreases shares.len() - from,
{
    if from < shares.len() {
        assert(shares[from].party_index < party_count);
        lemma_no_share_defect(party_count, shares, from + 1);
    }
}

/// Enough honest weight is accepted. Where the shares are of different parties that there are,
/// fit the batch, and the weight of those that pass their own check exceeds the threshold,
/// they are accepted: all that pass are among the accepted, whatever the others are. It fails
/// only where the system's source yielded nothing but zeros, `u64::MAX` of them in a row.
pub proof fn law_enough_weight_is_accepted(
    decryption_key: &PublicDecryptionKey,
    batch: &ValidatedBatch,
    shares: Seq<DecryptionShare>,
    result: Result<AcceptedDecryptionShares>,
)
    requires
        1 <= batch.batch_size <= decryption_key.max_batch_size,
        batch.setup_id@ == decryption_key.setup_id@,
        are_distinct(shares),
        forall|k: int|
            0 <= k < shares.len() ==> (#[trigger] shares[k]).party_index
                < decryption_key.party_weights@.len(),
        weight_before(
            decryption_key.party_weights@,
            shares,
            own_check(decryption_key, batch),
            decryption_key.party_weights@.len() as int,
        ) > decryption_key.threshold_weight,
        is_accept_outcome(decryption_key, batch, shares, result),
    ensures
        (result matches Ok(accepted) && accepted.accepted_weight > decryption_key.threshold_weight
            && forall|k: int|
            0 <= k < shares.len() && is_candidate(decryption_key, batch, #[trigger] shares[k])
                && passes(decryption_key, batch, shares[k])
                    ==> accepted.shares@.contains(shares[k]))
            || (result == Err::<AcceptedDecryptionShares, Error>(Error::SamplingFailed) && exists|
            rng: SystemRng,
        | #[trigger]
            rng.scalar_record().len() >= u64::MAX && forall|i: int|
                rng.scalar_record().len() - u64::MAX <= i < rng.scalar_record().len()
                    ==> #[trigger] rng.scalar_record()[i] == 0),
{
    let n = decryption_key.party_weights@.len() as int;
    let own = own_check(decryption_key, batch);
    lemma_no_share_defect(n, shares, 0);
    lemma_share_count(n, shares);
    let rng = choose|rng: SystemRng|
        is_drawn_acceptance(decryption_key, batch, shares, #[trigger] rng.scalar_record(), result);
    law_only_zeros_exhaust_a_source(rng.scalar_record(), shares.len() as int);
    if !are_nonzero_draws(rng.scalar_record(), shares.len() as int, None) {
        let ok = acceptance(decryption_key, batch, shares, kept(rng.scalar_record()));
        lemma_more_weight(decryption_key.party_weights@, shares, own, ok, n);
        let accepted = result->Ok_0;
        assert forall|k: int|
            0 <= k < shares.len() && is_candidate(decryption_key, batch, #[trigger] shares[k])
                && passes(
                decryption_key,
                batch,
                shares[k],
            ) implies accepted.shares@.contains(shares[k]) by {
            lemma_share_of(shares, k);
            lemma_is_accepted(shares, ok, shares[k].party_index as int, n);
        }
    }
}

/// Accepting more shares makes for more weight.
proof fn lemma_more_weight(
    party_weights: Seq<usize>,
    shares: Seq<DecryptionShare>,
    ok: spec_fn(DecryptionShare) -> bool,
    wider: spec_fn(DecryptionShare) -> bool,
    party: int,
)
    requires
        forall|share: DecryptionShare| #[trigger] ok(share) ==> wider(share),
    ensures
        weight_before(party_weights, shares, ok, party) <= weight_before(
            party_weights,
            shares,
            wider,
            party,
        ),
    decreases party,
{
    if party > 0 {
        lemma_more_weight(party_weights, shares, ok, wider, party - 1);
    }
}

/// The share of a party is among the accepted where it is accepted.
proof fn lemma_is_accepted(
    shares: Seq<DecryptionShare>,
    ok: spec_fn(DecryptionShare) -> bool,
    party: int,
    end: int,
)
    requires
        0 <= party < end,
        has_share(shares, party),
        ok(share_of(shares, party)),
    ensures
        accepted_before(shares, ok, end).contains(share_of(shares, party)),
    decreases end,
{
    let all = accepted_before(shares, ok, end);
    if party == end - 1 {
        assert(all.last() == share_of(shares, party));
    } else {
        lemma_is_accepted(shares, ok, party, end - 1);
        let rest = accepted_before(shares, ok, end - 1);
        let k = rest.index_of(share_of(shares, party));
        assert(all[k] == rest[k]);
    }
}

/// Whether an outcome holds the messages of a batch: in each slot its message where the
/// slot's proof holds, and nothing where it does not.
pub open spec fn holds_messages(
    setup_id: Seq<u8>,
    ciphertexts: Seq<Ciphertext>,
    messages: Seq<int>,
    opened: Seq<Option<GtElement>>,
) -> bool {
    &&& opened.len() == ciphertexts.len()
    &&& forall|i: int|
        0 <= i < ciphertexts.len() ==> match #[trigger] opened[i] {
            Some(message) => ciphertexts[i].is_valid(setup_id) && message@ == messages[i],
            None => !ciphertexts[i].is_valid(setup_id),
        }
}

/// Decryption gives back the messages. Where the shares are those that different parties make
/// of the batch and their weight exceeds the threshold, decryption opens every slot whose
/// proof holds to the message that its ciphertext was made of, and the others to nothing. It
/// fails only where the system's source yielded nothing but zeros, `u64::MAX` of them in a
/// row.
pub proof fn law_decrypt_recovers_messages(
    keys: &KeyMaterial,
    config: &KeygenConfig,
    coefficients: Seq<int>,
    qs: Seq<int>,
    batch: &ValidatedBatch,
    ciphertexts: Seq<Ciphertext>,
    messages: Seq<int>,
    shares: Seq<DecryptionShare>,
    result: Result<Vec<Option<GtElement>>>,
)
    requires
        keys.is_generated(config, coefficients, qs),
        ciphertexts.len() <= usize::MAX,
        batch_size_defect(&keys.decryption_key, ciphertexts.len() as usize) is None,
        has_domain(2 * ciphertexts.len() as int),
        batch.is_batch_of(keys.decryption_key.setup_id@, ciphertexts),
        messages.len() == ciphertexts.len(),
        forall|i: int|
            0 <= i < ciphertexts.len() ==> 0 <= messages[i] < order()
                && (#[trigger] ciphertexts[i]).encrypts(&keys.encryption_key, messages[i]),
        are_distinct(shares),
        forall|k: int|
            0 <= k < shares.len() ==> (#[trigger] shares[k]).party_index
                < config.party_weights@.len() && shares[k].is_share_of(
                &keys.party_keys@[shares[k].party_index as int],
                batch,
            ),
        party_weight_sum(config.party_weights@, share_parties(shares)) > config.threshold_weight,
        is_decryption(&keys.decryption_key, ciphertexts, shares, result),
    ensures
        (result matches Ok(opened) && holds_messages(
            keys.decryption_key.setup_id@,
            ciphertexts,
            messages,
            opened@,
        )) || (result == Err::<Vec<Option<GtElement>>, Error>(Error::SamplingFailed) && exists|
            rng: SystemRng,
        | #[trigger]
            rng.scalar_record().len() >= u64::MAX && forall|i: int|
                rng.scalar_record().len() - u64::MAX <= i < rng.scalar_record().len()
                    ==> #[trigger] rng.scalar_record()[i] == 0),
{
    let dk = &keys.decryption_key;
    let setup_id = dk.setup_id@;
    let weights = config.party_weights@;
    let n = weights.len() as int;
    let (other, outcome) = choose|
        other: ValidatedBatch,
        outcome: Result<AcceptedDecryptionShares>,
    |
        other.is_batch_of(setup_id, ciphertexts) && #[trigger] is_accept_outcome(
            dk,
            &other,
            shares,
            outcome,
        ) && match outcome {
            Err(error) => result == Err::<Vec<Option<GtElement>>, Error>(error),
            Ok(accepted) => is_finish(dk, &accepted, &other, ciphertexts, result),
        };
    // the batch is the one that the shares were made of
    assert(other.firsts() =~= batch.firsts()) by {
        assert forall|i: int| 0 <= i < ciphertexts.len() implies #[trigger] other.firsts()[i]
            == batch.firsts()[i] by {
            assert(other.valid@[i] == batch.valid@[i]);
            assert(other.first_affine@[i]@ == batch.first_affine@[i]@);
        }
    }
    assert forall|k: int| 0 <= k < shares.len() implies is_candidate(
        dk,
        &other,
        #[trigger] shares[k],
    ) && passes(dk, &other, shares[k]) by {
        let party = shares[k].party_index as int;
        assert(shares[k].is_share_of(&keys.party_keys@[party], batch));
        law_honest_share_passes(keys, config, coefficients, qs, &other, party, shares[k]);
    }
    lemma_no_share_defect(n, shares, 0);
    lemma_share_count(n, shares);
    let rng = choose|rng: SystemRng|
        is_drawn_acceptance(dk, &other, shares, #[trigger] rng.scalar_record(), outcome);
    let challenges = kept(rng.scalar_record());
    law_only_zeros_exhaust_a_source(rng.scalar_record(), shares.len() as int);
    if !are_nonzero_draws(rng.scalar_record(), shares.len() as int, None) {
        let ok = acceptance(dk, &other, shares, challenges);
        lemma_all_accepted(weights, shares, ok, n);
        lemma_holders(weights, shares);
        let accepted = outcome->Ok_0;
        lemma_accepted_before(weights, shares, ok, n);
        let parties = share_parties(accepted.shares@);
        assert forall|k: int| 0 <= k < accepted.shares@.len() implies passes(
            dk,
            &other,
            #[trigger] accepted.shares@[k],
        ) by {
            assert(shares.contains(accepted.shares@[k]));
            let i = shares.index_of(accepted.shares@[k]);
            assert(passes(dk, &other, shares[i]));
        }
        lemma_none_unknown(parties, n, 0);
        lemma_virtual_selection(weights, parties);
        lemma_ascending_count(parties, n);
        assert(ciphertexts.len() * parties.len() <= dk.max_batch_size * n) by (nonlinear_arith)
            requires
                0 <= parties.len() <= n,
                0 <= ciphertexts.len() <= dk.max_batch_size,
        ;
        assert(dk.verification_keys.len() == dk.max_batch_size * n);
        assert(is_finish(dk, &accepted, &other, ciphertexts, result));
        let preparation = choose|preparation: Result<DecryptionPrecomputation>|
            #[trigger] is_preparation(dk, &accepted, preparation) && match preparation {
                Err(error) => result == Err::<Vec<Option<GtElement>>, Error>(error),
                Ok(fixed) => is_last_phase(&fixed, &accepted, &other, ciphertexts, result),
            };
        let fixed = preparation->Ok_0;
        let cross = choose|cross: BatchPrecomputation| #[trigger]
            is_crossed(&fixed, &accepted, &other, ciphertexts, result, &cross);
        let opened = result->Ok_0;
        assert forall|i: int| 0 <= i < ciphertexts.len() implies match #[trigger] opened@[i] {
            Some(message) => ciphertexts[i].is_valid(setup_id) && message@ == messages[i],
            None => !ciphertexts[i].is_valid(setup_id),
        } by {
            assert(ciphertexts[i].encrypts(&keys.encryption_key, messages[i]));
            if other.valid@[i] {
                law_open_recovers_message(
                    keys,
                    config,
                    coefficients,
                    qs,
                    &other,
                    ciphertexts,
                    shares,
                    challenges,
                    accepted,
                    &fixed,
                    i,
                    messages[i],
                );
                assert(cross.beta@[i]@ == beta_of(&fixed, &other, i));
            }
        }
    }
}

/// There are no more shares of different parties than there are parties.
proof fn lemma_share_count(party_count: int, shares: Seq<DecryptionShare>)
    requires
        are_distinct(shares),
        forall|k: int| 0 <= k < shares.len() ==> (#[trigger] shares[k]).party_index < party_count,
        0 <= party_count,
    ensures
        shares.len() <= party_count,
{
    let numbers = Seq::new(shares.len(), |k: int| shares[k].party_index as int);
    let set = numbers.to_set();
    assert(numbers.no_duplicates());
    numbers.unique_seq_to_set();
    let range = vstd::set_lib::set_int_range(0, party_count);
    vstd::set_lib::lemma_int_range(0, party_count);
    assert(set.subset_of(range));
    vstd::set_lib::lemma_len_subset(set, range);
}

/// Whatever the other shares and challenges are, a share that does not pass its check gets by in
/// the check of all shares at once with at most one challenge of its own.
pub proof fn law_bad_share_passes_with_one_challenge(
    decryption_key: &PublicDecryptionKey,
    batch: &ValidatedBatch,
    shares: Seq<DecryptionShare>,
    challenges: Seq<int>,
    others: Seq<int>,
    bad: int,
)
    requires
        challenges.len() >= shares.len(),
        others.len() >= shares.len(),
        0 <= bad < shares.len(),
        is_candidate(decryption_key, batch, shares[bad]),
        !passes(decryption_key, batch, shares[bad]),
        forall|k: int| 0 <= k < shares.len() && k != bad ==> #[trigger] challenges[k] == others[k],
        0 <= challenges[bad] < order(),
        0 <= others[bad] < order(),
        challenges[bad] != others[bad],
    ensures
        !(aggregate_holds(decryption_key, batch, shares, challenges) && aggregate_holds(
            decryption_key,
            batch,
            shares,
            others,
        )),
{
    if aggregate_holds(decryption_key, batch, shares, challenges) {
        let c = effective(decryption_key, batch, shares, challenges);
        let d = effective(decryption_key, batch, shares, others);
        lemma_reduced(challenges[bad]);
        lemma_reduced(others[bad]);
        assert forall|k: int| 0 <= k < shares.len() && k != bad implies #[trigger] c[k] == d[k] by {
            assert(challenges[k] == others[k]);
        }
        lemma_one_weight(
            share_sigmas(shares),
            expected_sigmas(decryption_key, batch, shares),
            c,
            d,
            bad,
        );
    }
}

/// A share that passes its check is, for its party, the one that the party makes.
pub proof fn law_passing_share_is_honest(
    keys: &KeyMaterial,
    config: &KeygenConfig,
    coefficients: Seq<int>,
    qs: Seq<int>,
    batch: &ValidatedBatch,
    share: DecryptionShare,
    honest: DecryptionShare,
)
    requires
        keys.is_generated(config, coefficients, qs),
        batch.wf(),
        batch.setup_id@ == keys.decryption_key.setup_id@,
        1 <= batch.batch_size <= keys.decryption_key.max_batch_size,
        share_check(&keys.decryption_key, batch, share) == Ok::<bool, Error>(true),
        honest.is_share_of(&keys.party_keys@[share.party_index as int], batch),
    ensures
        share.party_index < config.party_weights@.len(),
        share.sigma@ == honest.sigma@,
        share.batch_digest@ == batch.digest@,
        share.setup_id@ == keys.decryption_key.setup_id@,
{
    law_honest_share_passes(
        keys,
        config,
        coefficients,
        qs,
        batch,
        share.party_index as int,
        honest,
    );
    share.sigma.lemma_range();
    honest.sigma.lemma_range();
    lemma_reduced(share.sigma@);
    lemma_reduced(honest.sigma@);
}

/// A share is judged where the batch is one of the key's setup and size and its party is one of
/// the committee; for another batch or setup it is refused without an error.
pub proof fn law_judged_shares(
    decryption_key: &PublicDecryptionKey,
    batch: &ValidatedBatch,
    share: DecryptionShare,
)
    requires
        batch.setup_id@ == decryption_key.setup_id@,
        1 <= batch.batch_size <= decryption_key.max_batch_size,
    ensures
        share.batch_digest@ != batch.digest@ || share.setup_id@ != batch.setup_id@ ==> share_check(
            decryption_key,
            batch,
            share,
        ) == Ok::<bool, Error>(false),
        share.batch_digest@ == batch.digest@ && share.setup_id@ == batch.setup_id@
            ==> match share_check(decryption_key, batch, share) {
            Ok(_) => share.party_index < decryption_key.party_weights@.len(),
            Err(error) => share.party_index >= decryption_key.party_weights@.len() && error
                == Error::InvalidPartyIndex(share.party_index),
        },
{
}

/// The weight of accepted shares is the sum of the weights of their parties, and the parties that
/// are rejected are those with a share that is not accepted, in ascending order.
pub proof fn law_counted_weight(
    party_weights: Seq<usize>,
    shares: Seq<DecryptionShare>,
    ok: spec_fn(DecryptionShare) -> bool,
    party: int,
)
    requires
        0 <= party <= party_weights.len() <= usize::MAX,
    ensures
        weight_before(party_weights, shares, ok, party) == sum(
            |p: int|
                if has_share(shares, p) && ok(share_of(shares, p)) {
                    party_weights[p] as int
                } else {
                    0
                },
            0,
            party,
        ),
        forall|p: int|
            0 <= p < party ==> (#[trigger] rejected_before(shares, ok, party).contains(
                p as usize,
            ) <==> has_share(shares, p) && !ok(share_of(shares, p))),
        forall|i: int|
            0 <= i < rejected_before(shares, ok, party).len() ==> (
            #[trigger] rejected_before(shares, ok, party)[i]) < party,
        forall|i: int, j: int|
            0 <= i < j < rejected_before(shares, ok, party).len() ==> (
            #[trigger] rejected_before(shares, ok, party)[i]) < (
            #[trigger] rejected_before(shares, ok, party)[j]),
    decreases party,
{
    let f = |p: int|
        if has_share(shares, p) && ok(share_of(shares, p)) {
            party_weights[p] as int
        } else {
            0
        };
    if party > 0 {
        law_counted_weight(party_weights, shares, ok, party - 1);
        let rest = rejected_before(shares, ok, party - 1);
        let now = rejected_before(shares, ok, party);
        assert(f(party - 1) == if has_share(shares, party - 1) && ok(share_of(shares, party - 1)) {
            party_weights[party - 1] as int
        } else {
            0
        });
        assert forall|p: int| 0 <= p < party implies (#[trigger] now.contains(p as usize)
            <==> has_share(shares, p) && !ok(share_of(shares, p))) by {
            if p < party - 1 {
                assert(rest.contains(p as usize) <==> has_share(shares, p) && !ok(
                    share_of(shares, p),
                ));
                if rest.contains(p as usize) {
                    let i = rest.index_of(p as usize);
                    assert(now[i] == p);
                }
                if now.contains(p as usize) {
                    let i = now.index_of(p as usize);
                    assert(i < rest.len());
                    assert(rest[i] == p);
                }
            } else {
                if now.contains(p as usize) {
                    let i = now.index_of(p as usize);
                    if i < rest.len() {
                        assert(rest[i] < party - 1);
                    }
                }
                if has_share(shares, p) && !ok(share_of(shares, p)) {
                    assert(now[now.len() - 1] == p);
                }
            }
        }
    }
}

/// A batch leaves out the ciphertexts whose proof does not hold under the setup, and only those.
pub proof fn law_invalid_ciphertexts_are_left_out(
    batch: &ValidatedBatch,
    setup_id: Seq<u8>,
    ciphertexts: Seq<Ciphertext>,
    i: int,
)
    requires
        batch.is_batch_of(setup_id, ciphertexts),
        0 <= i < ciphertexts.len(),
    ensures
        batch.valid@[i] <==> ciphertexts[i].proof.accepts(
            ciphertexts[i].first@,
            ciphertexts[i].second@,
            setup_id,
        ),
        batch.setup_id@ == setup_id,
        batch.digest@ == batch_digest_of(ciphertexts),
        batch.first_affine@[i]@ == if batch.valid@[i] {
            ciphertexts[i].first@
        } else {
            0
        },
{
}

/// What is accepted is among the shares, and was found good.
proof fn lemma_accepted_is_good(
    shares: Seq<DecryptionShare>,
    ok: spec_fn(DecryptionShare) -> bool,
    party: int,
    i: int,
)
    requires
        0 <= i < accepted_before(shares, ok, party).len(),
    ensures
        shares.contains(accepted_before(shares, ok, party)[i]),
        ok(accepted_before(shares, ok, party)[i]),
    decreases party,
{
    let before = accepted_before(shares, ok, party - 1);
    if i < before.len() {
        lemma_accepted_is_good(shares, ok, party - 1, i);
    } else {
        let last = share_of(shares, party - 1);
        let k = choose|k: int|
            0 <= k < shares.len() && (#[trigger] shares[k]).party_index == party - 1;
        assert(shares[k] == last);
    }
}

/// Bad shares do no harm. Where the shares are of different parties and those that pass their own
/// check weigh more than the threshold, decryption opens every valid slot to the message that its
/// ciphertext was made of, whatever the other shares are. It does not only where the system's
/// source ended with `u64::MAX` zeros, or drew challenges with which shares of which one is bad
/// hold together.
pub proof fn law_decrypt_recovers_messages_despite_bad_shares(
    keys: &KeyMaterial,
    config: &KeygenConfig,
    coefficients: Seq<int>,
    qs: Seq<int>,
    batch: &ValidatedBatch,
    ciphertexts: Seq<Ciphertext>,
    messages: Seq<int>,
    shares: Seq<DecryptionShare>,
    result: Result<Vec<Option<GtElement>>>,
)
    requires
        keys.is_generated(config, coefficients, qs),
        1 <= ciphertexts.len() <= keys.decryption_key.max_batch_size,
        has_domain(2 * ciphertexts.len() as int),
        batch.is_batch_of(keys.decryption_key.setup_id@, ciphertexts),
        messages.len() == ciphertexts.len(),
        forall|i: int|
            0 <= i < ciphertexts.len() ==> 0 <= messages[i] < order()
                && (#[trigger] ciphertexts[i]).encrypts(&keys.encryption_key, messages[i]),
        are_distinct(shares),
        forall|k: int|
            0 <= k < shares.len() ==> (#[trigger] shares[k]).party_index
                < config.party_weights@.len(),
        weight_before(
            config.party_weights@,
            shares,
            own_check(&keys.decryption_key, batch),
            config.party_weights@.len() as int,
        ) > config.threshold_weight,
        is_decryption(&keys.decryption_key, ciphertexts, shares, result),
    ensures
        (result matches Ok(opened) && holds_messages(
            keys.decryption_key.setup_id@,
            ciphertexts,
            messages,
            opened@,
        )) || (result == Err::<Vec<Option<GtElement>>, Error>(Error::SamplingFailed) && exists|
            rng: SystemRng,
        | #[trigger]
            rng.scalar_record().len() >= u64::MAX && forall|i: int|
                rng.scalar_record().len() - u64::MAX <= i < rng.scalar_record().len()
                    ==> #[trigger] rng.scalar_record()[i] == 0) || (exists|rng: SystemRng|
            aggregate_holds(
                &keys.decryption_key,
                batch,
                shares,
                kept(#[trigger] rng.scalar_record()),
            ) && exists|k: int|
                0 <= k < shares.len() && is_candidate(
                    &keys.decryption_key,
                    batch,
                    #[trigger] shares[k],
                ) && !passes(&keys.decryption_key, batch, shares[k])),
{
    let dk = &keys.decryption_key;
    let setup_id = dk.setup_id@;
    let weights = config.party_weights@;
    let n = weights.len() as int;
    let (other, outcome) = choose|
        other: ValidatedBatch,
        outcome: Result<AcceptedDecryptionShares>,
    |
        other.is_batch_of(setup_id, ciphertexts) && #[trigger] is_accept_outcome(
            dk,
            &other,
            shares,
            outcome,
        ) && match outcome {
            Err(error) => result == Err::<Vec<Option<GtElement>>, Error>(error),
            Ok(accepted) => is_finish(dk, &accepted, &other, ciphertexts, result),
        };
    assert(other.firsts() =~= batch.firsts()) by {
        assert forall|i: int| 0 <= i < ciphertexts.len() implies #[trigger] other.firsts()[i]
            == batch.firsts()[i] by {
            assert(other.valid@[i] == batch.valid@[i]);
            assert(other.first_affine@[i]@ == batch.first_affine@[i]@);
        }
    }
    let own = own_check(dk, batch);
    let theirs = own_check(dk, &other);
    assert forall|k: int| 0 <= k < shares.len() implies own(#[trigger] shares[k]) == theirs(
        shares[k],
    ) by {}
    lemma_same_acceptance(weights, shares, own, shares, theirs, n);
    lemma_no_share_defect(n, shares, 0);
    lemma_share_count(n, shares);
    let rng = choose|rng: SystemRng|
        is_drawn_acceptance(dk, &other, shares, #[trigger] rng.scalar_record(), outcome);
    let challenges = kept(rng.scalar_record());
    law_only_zeros_exhaust_a_source(rng.scalar_record(), shares.len() as int);
    if !are_nonzero_draws(rng.scalar_record(), shares.len() as int, None) {
        if errs_not(dk, &other, shares, challenges) {
            law_accepted_are_those_that_pass(dk, &other, shares, challenges, outcome);
            let accepted = outcome->Ok_0;
            lemma_accepted_before(weights, shares, theirs, n);
            let parties = share_parties(accepted.shares@);
            assert forall|k: int| 0 <= k < accepted.shares@.len() implies passes(
                dk,
                &other,
                #[trigger] accepted.shares@[k],
            ) by {
                lemma_accepted_is_good(shares, theirs, n, k);
            }
            lemma_none_unknown(parties, n, 0);
            lemma_virtual_selection(weights, parties);
            lemma_ascending_count(parties, n);
            assert(ciphertexts.len() * parties.len() <= dk.max_batch_size * n) by (nonlinear_arith)
                requires
                    0 <= parties.len() <= n,
                    0 <= ciphertexts.len() <= dk.max_batch_size,
            ;
            assert(dk.verification_keys.len() == dk.max_batch_size * n);
            assert(is_finish(dk, &accepted, &other, ciphertexts, result));
            let preparation = choose|preparation: Result<DecryptionPrecomputation>|
                #[trigger] is_preparation(dk, &accepted, preparation) && match preparation {
                    Err(error) => result == Err::<Vec<Option<GtElement>>, Error>(error),
                    Ok(fixed) => is_last_phase(&fixed, &accepted, &other, ciphertexts, result),
                };
            let fixed = preparation->Ok_0;
            let cross = choose|cross: BatchPrecomputation| #[trigger]
                is_crossed(&fixed, &accepted, &other, ciphertexts, result, &cross);
            let opened = result->Ok_0;
            assert forall|i: int| 0 <= i < ciphertexts.len() implies match #[trigger] opened@[i] {
                Some(message) => ciphertexts[i].is_valid(setup_id) && message@ == messages[i],
                None => !ciphertexts[i].is_valid(setup_id),
            } by {
                assert(ciphertexts[i].encrypts(&keys.encryption_key, messages[i]));
                if other.valid@[i] {
                    law_open_recovers_message(
                        keys,
                        config,
                        coefficients,
                        qs,
                        &other,
                        ciphertexts,
                        shares,
                        challenges,
                        accepted,
                        &fixed,
                        i,
                        messages[i],
                    );
                    assert(cross.beta@[i]@ == beta_of(&fixed, &other, i));
                }
            }
        } else {
            let k = choose|k: int|
                0 <= k < shares.len() && is_candidate(dk, &other, #[trigger] shares[k])
                    && !passes(dk, &other, shares[k]);
            assert(is_candidate(dk, batch, shares[k]) && !passes(dk, batch, shares[k]));
            assert(effective(dk, &other, shares, challenges) =~= effective(
                dk,
                batch,
                shares,
                challenges,
            ));
            assert(expected_sigmas(dk, &other, shares) =~= expected_sigmas(dk, batch, shares));
            assert(aggregate_holds(dk, batch, shares, kept(rng.scalar_record())));
        }
    }
}

} // verus!
