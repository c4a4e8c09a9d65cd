//! What the phases promise together.
use vstd::arithmetic::power::{lemma_pow_adds, pow};
use vstd::prelude::*;

use crate::algebra::lagrange::{eval, lemma_interpolate, separated, weight, weights};
use crate::algebra::residue::{
    cong, lemma_cong_mul, lemma_cong_sub, lemma_reduce, lemma_reduced, order,
};
use crate::algebra::sums::{
    dot, lemma_sum_cong, lemma_sum_ext, lemma_sum_scale, lemma_sum_single, lemma_sum_sub,
    lemma_sum_swap, products, sum,
};
use crate::btx::decryption::{
    batch_digest_of, batch_size_defect, beta_of, check_error, combined, commitment_logs,
    commitments_defect, first_defect, is_material, is_recoverable, low_logs, opened_log, passing,
    share_check, share_points, share_sigmas, sigma_holds, DecryptionShare, MiddleProductKernel,
    ValidatedBatch,
};
use crate::btx::encryption::Ciphertext;
use crate::btx::error::Error;
use crate::btx::setup::{
    sharing_polynomial, tails_fit, KeyMaterial, KeygenConfig, PublicDecryptionKey,
};
use crate::curve::{views, Element};
use crate::middle::{cross_term, cross_terms_of};
use crate::points::power_range;
use crate::slots::{lemma_valid_before, valid_before};

verus! {

/// The published powers are those of the secret.
proof fn lemma_power(decryption_key: &PublicDecryptionKey, tau: int, exponent: int)
    requires
        decryption_key.wf(),
        decryption_key.has_powers(tau),
        decryption_key.has_power(exponent),
    ensures
        decryption_key.power_log(exponent) == pow(tau, exponent as nat) % order(),
{
    let b = decryption_key.max_batch_size as int;
    if exponent <= b {
        assert(views(decryption_key.low_powers@)[exponent - 1] == power_range(tau, 1, b)[exponent
            - 1]);
        assert(1 + (exponent - 1) == exponent);
    } else {
        let place = exponent - b - 2;
        assert(views(decryption_key.high_powers@)[place] == power_range(tau, b + 2, b - 1)[place]);
        assert(b + 2 + place == exponent);
    }
}

/// The entry of the kernel that slots `j` and `i` meet at is the power whose
/// exponent lies `j - i` from the one left out, or nothing where they are the same.
proof fn lemma_kernel_entry(
    kernel: &MiddleProductKernel,
    decryption_key: &PublicDecryptionKey,
    i: int,
    j: int,
)
    requires
        kernel.is_kernel_of(decryption_key),
        0 <= i < kernel.batch_size,
        0 <= j < kernel.batch_size,
    ensures
        kernel.entries()[(i - j) % (kernel.transform_size as int)] == (if i == j {
            0
        } else {
            decryption_key.centered_log(j - i)
        }),
        kernel.entries().len() == kernel.transform_size,
{
    let m = kernel.transform_size as int;
    let wraps: int = if i >= j {
        0
    } else {
        1
    };
    vstd::arithmetic::div_mod::lemma_fundamental_div_mod_converse(
        i - j,
        m,
        -wraps,
        i - j + m * wraps,
    );
}

/// Opening gives back the message. For a batch of at most the maximal size and a
/// combined point that passes its check, what a valid slot opens to is the
/// message that its ciphertext was made of, whatever stands in the other slots.
pub proof fn law_open_recovers_message(
    material: &KeyMaterial,
    config: KeygenConfig,
    tau: int,
    tails: Seq<Seq<int>>,
    kernel: &MiddleProductKernel,
    batch: &ValidatedBatch,
    ciphertexts: Seq<Ciphertext>,
    verify_proofs: bool,
    sigma: int,
    slot: int,
    message: int,
)
    requires
        material.is_generated(config, tau, tails),
        batch_size_defect(&material.decryption_key, batch.batch_size) is None,
        kernel.is_kernel_of(&material.decryption_key),
        kernel.batch_size == batch.batch_size,
        batch.is_batch_of(ciphertexts, verify_proofs),
        sigma_holds(&material.decryption_key, batch, sigma),
        0 <= slot < batch.batch_size,
        batch.valid@[slot],
        ciphertexts[slot].encrypts(&material.encryption_key, message),
        0 <= message < order(),
    ensures
        opened_log(
            ciphertexts[slot].second@,
            sigma,
            kernel.opening_powers@[slot]@,
            beta_of(kernel, batch, slot),
        ) == message,
{
    let dk = &material.decryption_key;
    let b = dk.max_batch_size as int;
    let n = batch.batch_size as int;
    let m = kernel.transform_size as int;
    let f = views(batch.first_projective@);
    let low = low_logs(dk);
    let power = kernel.opening_powers@[slot]@;
    let element = material.encryption_key.element@;
    let first = ciphertexts[slot].first@;
    let second = ciphertexts[slot].second@;
    assert(f[slot] == first);
    // sigma * power, term by term
    lemma_power(dk, tau, b - slot);
    assert(power == pow(tau, (b - slot) as nat) % order());
    let g = products(f, low);
    let scaled = |j: int| power * g(j);
    let alpha = |j: int| f[j] * (pow(tau, (b + 1 + j - slot) as nat) % order());
    assert forall|j: int| 0 <= j < n implies cong(#[trigger] scaled(j), alpha(j)) by {
        lemma_power(dk, tau, j + 1);
        assert(low[j] == dk.power_log(j + 1));
        let (p, q) = (pow(tau, (b - slot) as nat), pow(tau, (j + 1) as nat));
        lemma_pow_adds(tau, (b - slot) as nat, (j + 1) as nat);
        lemma_reduce(p);
        lemma_reduce(q);
        lemma_reduce(p * q);
        lemma_cong_mul(power, p, low[j], q);
        lemma_cong_mul(f[j], f[j], power * low[j], (p * q) % order());
        assert(power * (f[j] * low[j]) == f[j] * (power * low[j])) by (nonlinear_arith);
    }
    lemma_sum_scale(power, g, scaled, 0, n);
    lemma_sum_cong(scaled, alpha, 0, n);
    lemma_cong_mul(sigma, dot(f, low), power, power);
    assert(power * dot(f, low) == dot(f, low) * power) by (nonlinear_arith);
    // the cross term, term by term
    let cross = cross_terms_of(f, kernel.entries(), slot);
    let difference = |j: int| alpha(j) - cross(j);
    assert forall|j: int| 0 <= j < n && j != slot implies #[trigger] difference(j) == 0 by {
        lemma_kernel_entry(kernel, dk, slot, j);
        lemma_power(dk, tau, b + 1 + (j - slot));
    }
    lemma_kernel_entry(kernel, dk, slot, slot);
    lemma_sum_sub(alpha, cross, difference, 0, n);
    lemma_sum_single(difference, 0, n, slot);
    assert(cross(slot) == f[slot] * 0);
    assert(difference(slot) == first * element);
    // what is left is the mask
    let beta = cross_term(f, kernel.entries(), slot);
    lemma_reduce(beta);
    lemma_cong_sub(sigma * power, sum(alpha, 0, n), beta_of(kernel, batch, slot), beta);
    assert(cong(sigma * power - beta_of(kernel, batch, slot), first * element));
    lemma_reduce(message + element * first);
    lemma_cong_sub(
        second,
        message + element * first,
        sigma * power - beta_of(kernel, batch, slot),
        first * element,
    );
    assert(element * first == first * element) by (nonlinear_arith);
    lemma_reduced(message);
}

/// The share that a server makes passes its check: where the shares are
/// committed to, checking it against the commitments succeeds.
pub proof fn law_honest_share_passes(
    material: &KeyMaterial,
    config: KeygenConfig,
    tau: int,
    tails: Seq<Seq<int>>,
    batch: &ValidatedBatch,
    server: int,
    share: DecryptionShare,
)
    requires
        material.is_generated(config, tau, tails),
        config.publish_share_commitments,
        batch.wf(),
        batch_size_defect(&material.decryption_key, batch.batch_size) is None,
        0 <= server < config.server_count,
        share.is_share_of(&material.server_keys@[server], batch),
    ensures
        share_check(&material.decryption_key, batch, share) == Ok::<bool, Error>(true),
{
    let dk = &material.decryption_key;
    let key = material.server_keys@[server];
    assert(key.is_key_of(server, config.max_batch_size as int, tau, tails));
    let slots = valid_before(batch.valid@, batch.batch_size as int);
    lemma_no_defect(dk, batch, server, 0);
    let a = views(batch.first_projective@);
    let shares = views(key.shares@);
    let logs = commitment_logs(dk, server);
    assert forall|i: int| 0 <= i < a.len() implies #[trigger] products(a, shares)(i) == products(
        a,
        logs,
    )(i) by {
        let commitments = dk.share_commitments->0;
        assert(views(commitments@[server]@) == shares);
        assert(views(commitments@[server]@)[i] == shares[i]);
    }
    lemma_sum_ext(products(a, shares), products(a, logs), 0, a.len() as int);
    lemma_reduce(dot(a, shares));
}

proof fn lemma_no_defect(
    decryption_key: &PublicDecryptionKey,
    batch: &ValidatedBatch,
    server: int,
    from: int,
)
    requires
        decryption_key.wf(),
        decryption_key.share_commitments is Some,
        batch.wf(),
        batch.batch_size <= decryption_key.max_batch_size,
        0 <= server < decryption_key.server_count,
        0 <= from,
    ensures
        commitments_defect(
            decryption_key,
            server,
            valid_before(batch.valid@, batch.batch_size as int),
            from,
        ) is None,
    decreases valid_before(batch.valid@, batch.batch_size as int).len() - from,
{
    let slots = valid_before(batch.valid@, batch.batch_size as int);
    if from < slots.len() {
        lemma_valid_before(batch.valid@, batch.batch_size as int);
        assert(slots[from] < batch.batch_size);
        lemma_no_defect(decryption_key, batch, server, from + 1);
    }
}

/// Whether shares are what different servers make of a batch, enough of them.
pub open spec fn are_honest(
    material: &KeyMaterial,
    config: KeygenConfig,
    batch: &ValidatedBatch,
    shares: Seq<DecryptionShare>,
) -> bool {
    &&& batch_size_defect(&material.decryption_key, batch.batch_size) is None
    &&& config.threshold < shares.len()
    &&& forall|k: int|
        0 <= k < shares.len() ==> (#[trigger] shares[k]).server_index < config.server_count
            && shares[k].is_share_of(
            &material.server_keys@[shares[k].server_index as int],
            batch,
        )
    &&& forall|k: int, l: int|
        0 <= k < l < shares.len() ==> (#[trigger] shares[k]).server_index != (
        #[trigger] shares[l]).server_index
}

/// The shares of enough different servers combine to a point that passes its
/// check. That their points are separated is what combining them finds out.
pub proof fn lemma_honest_shares_combine(
    material: &KeyMaterial,
    config: KeygenConfig,
    tau: int,
    tails: Seq<Seq<int>>,
    batch: &ValidatedBatch,
    shares: Seq<DecryptionShare>,
)
    requires
        material.is_generated(config, tau, tails),
        tails_fit(config, tails),
        batch.wf(),
        are_honest(material, config, batch, shares),
        shares.len() <= usize::MAX,
        separated(share_points(shares)),
    ensures
        combined(&material.decryption_key, batch, shares) matches Ok(sigma) && sigma_holds(
            &material.decryption_key,
            batch,
            sigma,
        ),
{
    let dk = &material.decryption_key;
    lemma_no_share_defect(dk, batch, shares, 0);
    let xs = share_points(shares);
    let ws = weights(xs);
    let sigmas = share_sigmas(shares);
    let f = views(batch.first_projective@);
    let low = low_logs(dk);
    let n = batch.batch_size as int;
    let s = shares.len() as int;
    // sum over the servers of weight * sum over the slots of first * share
    let t = |k: int, i: int| f[i] * (ws[k] * eval(sharing_polynomial(tau, tails[i], i), xs[k]));
    let rows = |k: int| sum(|i: int| t(k, i), 0, n);
    let columns = |i: int| sum(|k: int| t(k, i), 0, s);
    let outer = products(sigmas, ws);
    assert forall|k: int| 0 <= k < s implies cong(#[trigger] outer(k), rows(k)) by {
        let server = shares[k].server_index as int;
        let key = material.server_keys@[server];
        assert(key.is_key_of(server, config.max_batch_size as int, tau, tails));
        let held = views(key.shares@);
        lemma_reduce(dot(f, held));
        lemma_cong_mul(sigmas[k], dot(f, held), ws[k], ws[k]);
        let row = |i: int| t(k, i);
        let g = |i: int| ws[k] * products(f, held)(i);
        lemma_sum_scale(ws[k], products(f, held), g, 0, n);
        assert(dot(f, held) * ws[k] == ws[k] * dot(f, held)) by (nonlinear_arith);
        assert forall|i: int| 0 <= i < n implies cong(#[trigger] g(i), row(i)) by {
            let e = eval(sharing_polynomial(tau, tails[i], i), xs[k]);
            assert(held[i] == e % order());
            lemma_reduce(e);
            lemma_cong_mul(ws[k] * f[i], ws[k] * f[i], held[i], e);
            assert(ws[k] * (f[i] * held[i]) == (ws[k] * f[i]) * held[i]) by (nonlinear_arith);
            assert((ws[k] * f[i]) * e == f[i] * (ws[k] * e)) by (nonlinear_arith);
        }
        lemma_sum_cong(g, row, 0, n);
    }
    lemma_sum_cong(outer, rows, 0, s);
    lemma_sum_swap(t, s, n);
    let target = products(f, low);
    assert forall|i: int| 0 <= i < n implies cong(#[trigger] columns(i), target(i)) by {
        let c = sharing_polynomial(tau, tails[i], i);
        assert(tails[i].len() == config.threshold);
        lemma_interpolate(xs, c);
        let weighted = |k: int| weight(xs, k) * eval(c, xs[k]);
        let column = |k: int| t(k, i);
        lemma_sum_scale(f[i], weighted, column, 0, s);
        lemma_cong_mul(f[i], f[i], sum(weighted, 0, s), c[0]);
        lemma_power(dk, tau, i + 1);
        assert(low[i] == dk.power_log(i + 1));
        assert(columns(i) == sum(column, 0, s));
    }
    lemma_sum_cong(columns, target, 0, n);
    lemma_reduce(dot(sigmas, ws));
}

proof fn lemma_no_share_defect(
    decryption_key: &PublicDecryptionKey,
    batch: &ValidatedBatch,
    shares: Seq<DecryptionShare>,
    from: int,
)
    requires
        0 <= from,
        forall|k: int|
            0 <= k < shares.len() ==> (#[trigger] shares[k]).server_index
                < decryption_key.server_count && shares[k].batch_digest@ == batch.digest@,
        forall|k: int, l: int|
            0 <= k < l < shares.len() ==> (#[trigger] shares[k]).server_index != (
            #[trigger] shares[l]).server_index,
    ensures
        first_defect(decryption_key.server_count, batch.digest@, shares, from) is None,
    decreases shares.len() - from,
{
    if from < shares.len() {
        lemma_no_share_defect(decryption_key, batch, shares, from + 1);
        assert(shares[from].batch_digest@ == batch.digest@);
    }
}

/// A share that passes its check is the one that its server makes.
pub proof fn law_passing_share_is_honest(
    material: &KeyMaterial,
    config: KeygenConfig,
    tau: int,
    tails: Seq<Seq<int>>,
    batch: &ValidatedBatch,
    share: DecryptionShare,
)
    requires
        material.is_generated(config, tau, tails),
        batch.wf(),
        batch_size_defect(&material.decryption_key, batch.batch_size) is None,
        share_check(&material.decryption_key, batch, share) == Ok::<bool, Error>(true),
        config.publish_share_commitments,
    ensures
        share.server_index < config.server_count,
        share.is_share_of(&material.server_keys@[share.server_index as int], batch),
{
    let dk = &material.decryption_key;
    let server = share.server_index as int;
    let key = material.server_keys@[server];
    assert(key.is_key_of(server, config.max_batch_size as int, tau, tails));
    let a = views(batch.first_projective@);
    let held = views(key.shares@);
    let logs = commitment_logs(dk, server);
    assert forall|i: int| 0 <= i < a.len() implies #[trigger] products(a, held)(i) == products(
        a,
        logs,
    )(i) by {
        let commitments = dk.share_commitments->0;
        assert(views(commitments@[server]@) == held);
        assert(views(commitments@[server]@)[i] == held[i]);
    }
    lemma_sum_ext(products(a, held), products(a, logs), 0, a.len() as int);
    share.sigma.lemma_range();
    lemma_reduced(share.sigma@);
}

/// Whether shares are of different servers of a committee, for a batch.
pub open spec fn are_distinct(
    server_count: usize,
    batch: &ValidatedBatch,
    shares: Seq<DecryptionShare>,
) -> bool {
    &&& forall|k: int|
        0 <= k < shares.len() ==> (#[trigger] shares[k]).server_index < server_count
            && shares[k].batch_digest@ == batch.digest@
    &&& forall|k: int, l: int|
        0 <= k < l < shares.len() ==> (#[trigger] shares[k]).server_index != (
        #[trigger] shares[l]).server_index
}

/// The shares that pass are among those given, each of them passes, and their
/// servers are different where all are.
proof fn lemma_passing(
    decryption_key: &PublicDecryptionKey,
    batch: &ValidatedBatch,
    shares: Seq<DecryptionShare>,
)
    requires
        are_distinct(decryption_key.server_count, batch, shares),
    ensures
        ({
            let rest = passing(decryption_key, batch, shares);
            &&& rest.len() <= shares.len()
            &&& are_distinct(decryption_key.server_count, batch, rest)
            &&& forall|k: int|
                0 <= k < rest.len() ==> share_check(decryption_key, batch, #[trigger] rest[k])
                    == Ok::<bool, Error>(true) && shares.contains(rest[k])
        }),
    decreases shares.len(),
{
    if shares.len() > 0 {
        let front = shares.drop_last();
        let before = passing(decryption_key, batch, front);
        let rest = passing(decryption_key, batch, shares);
        assert forall|k: int, l: int| 0 <= k < l < front.len() implies (
        #[trigger] front[k]).server_index != (#[trigger] front[l]).server_index by {
            assert(shares[k].server_index != shares[l].server_index);
        }
        assert forall|k: int| 0 <= k < front.len() implies (#[trigger] front[k]).server_index
            < decryption_key.server_count && front[k].batch_digest@ == batch.digest@ by {
            assert(shares[k].server_index < decryption_key.server_count);
        }
        lemma_passing(decryption_key, batch, front);
        assert forall|k: int| 0 <= k < before.len() implies (#[trigger] before[k]).server_index
            != shares.last().server_index && shares.contains(before[k]) by {
            assert(front.contains(before[k]));
            let i = front.index_of(before[k]);
            assert(front[i] == before[k]);
            assert(shares[i] == before[k]);
            assert(shares[i].server_index != shares[shares.len() - 1].server_index);
        }
        assert(shares.contains(shares.last())) by {
            assert(shares[shares.len() - 1] == shares.last());
        }
        assert(shares[shares.len() - 1].server_index < decryption_key.server_count);
        if share_check(decryption_key, batch, shares.last()) == Ok::<bool, Error>(true) {
            assert(rest == before.push(shares.last()));
        } else {
            assert(rest == before);
        }
    }
}

/// Bad shares are left out: where the servers are different ones of the committee
/// and enough of the shares pass their checks, those that pass are honest.
pub proof fn law_bad_shares_are_left_out(
    material: &KeyMaterial,
    config: KeygenConfig,
    tau: int,
    tails: Seq<Seq<int>>,
    batch: &ValidatedBatch,
    shares: Seq<DecryptionShare>,
)
    requires
        material.is_generated(config, tau, tails),
        config.publish_share_commitments,
        batch.wf(),
        batch_size_defect(&material.decryption_key, batch.batch_size) is None,
        are_distinct(config.server_count, batch, shares),
        passing(&material.decryption_key, batch, shares).len() > config.threshold,
    ensures
        are_honest(
            material,
            config,
            batch,
            passing(&material.decryption_key, batch, shares),
        ),
{
    let rest = passing(&material.decryption_key, batch, shares);
    lemma_passing(&material.decryption_key, batch, shares);
    assert forall|k: int| 0 <= k < rest.len() implies (#[trigger] rest[k]).server_index
        < config.server_count && rest[k].is_share_of(
        &material.server_keys@[rest[k].server_index as int],
        batch,
    ) by {
        law_passing_share_is_honest(material, config, tau, tails, batch, rest[k]);
    }
}

/// Shares of which enough pass can be combined, and none of their checks is an error.
pub proof fn lemma_recoverable(
    decryption_key: &PublicDecryptionKey,
    batch: &ValidatedBatch,
    shares: Seq<DecryptionShare>,
)
    requires
        is_recoverable(decryption_key, batch, shares),
        decryption_key.wf(),
    ensures
        combined(decryption_key, batch, shares) is Ok,
        check_error(decryption_key, batch, shares, 0) is None,
{
    lemma_passing(decryption_key, batch, shares);
    lemma_no_share_defect(decryption_key, batch, shares, 0);
    lemma_no_check_error(decryption_key, batch, shares, 0);
}

proof fn lemma_no_check_error(
    decryption_key: &PublicDecryptionKey,
    batch: &ValidatedBatch,
    shares: Seq<DecryptionShare>,
    from: int,
)
    requires
        is_recoverable(decryption_key, batch, shares),
        decryption_key.wf(),
        0 <= from,
    ensures
        check_error(decryption_key, batch, shares, from) is None,
    decreases shares.len() - from,
{
    if from < shares.len() {
        assert(shares[from].server_index < decryption_key.server_count);
        lemma_no_defect(decryption_key, batch, shares[from].server_index as int, 0);
        lemma_no_check_error(decryption_key, batch, shares, from + 1);
    }
}

/// The shares that pass, where enough do, are honest shares of some key material.
pub proof fn lemma_recovery(
    decryption_key: &PublicDecryptionKey,
    batch: &ValidatedBatch,
    shares: Seq<DecryptionShare>,
) -> (witness: (KeyMaterial, KeygenConfig, int, Seq<Seq<int>>))
    requires
        is_recoverable(decryption_key, batch, shares),
    ensures
        witness.0.is_generated(witness.1, witness.2, witness.3),
        tails_fit(witness.1, witness.3),
        witness.0.decryption_key == *decryption_key,
        are_honest(
            &witness.0,
            witness.1,
            batch,
            passing(decryption_key, batch, shares),
        ),
{
    let (material, config, tau, tails) = choose|
        material: KeyMaterial,
        config: KeygenConfig,
        tau: int,
        tails: Seq<Seq<int>>,
    | is_material(material, config, tau, tails, decryption_key);
    law_bad_shares_are_left_out(&material, config, tau, tails, batch, shares);
    (material, config, tau, tails)
}

/// Honest shares are not refused.
pub proof fn lemma_honest_shares_are_valid(
    material: &KeyMaterial,
    config: KeygenConfig,
    tau: int,
    tails: Seq<Seq<int>>,
    batch: &ValidatedBatch,
    shares: Seq<DecryptionShare>,
)
    requires
        material.is_generated(config, tau, tails),
        are_honest(material, config, batch, shares),
    ensures
        combined(&material.decryption_key, batch, shares) is Ok,
{
    lemma_no_share_defect(&material.decryption_key, batch, shares, 0);
}

/// A batch whose proofs are checked leaves out the ciphertexts whose proof does not hold, and only
/// those.
pub proof fn law_invalid_ciphertexts_are_left_out(
    batch: &ValidatedBatch,
    ciphertexts: Seq<Ciphertext>,
    i: int,
)
    requires
        batch.is_batch_of(ciphertexts, true),
        0 <= i < ciphertexts.len(),
    ensures
        batch.valid@[i] <==> ciphertexts[i].proof.accepts(
            ciphertexts[i].first@,
            ciphertexts[i].second@,
        ),
        batch.digest@ == batch_digest_of(ciphertexts),
        batch.first_projective@[i]@ == if batch.valid@[i] {
            ciphertexts[i].first@
        } else {
            0
        },
{
}

/// The shares that pass are those whose check says so, in their order.
pub proof fn law_passing_shares(
    decryption_key: &PublicDecryptionKey,
    batch: &ValidatedBatch,
    shares: Seq<DecryptionShare>,
)
    ensures
        passing(decryption_key, batch, shares) == shares.filter(
            |share: DecryptionShare|
                share_check(decryption_key, batch, share) == Ok::<bool, Error>(true),
        ),
    decreases shares.len(),
{
    reveal(Seq::filter);
    if shares.len() > 0 {
        law_passing_shares(decryption_key, batch, shares.drop_last());
    }
}

} // verus!
