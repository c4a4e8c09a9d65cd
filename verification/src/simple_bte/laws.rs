//! What the phases promise together.
use vstd::arithmetic::power::{lemma_pow_adds, pow};
use vstd::arithmetic::power2::pow2;
use vstd::prelude::*;

use crate::algebra::dft::{dft, dft_all, lemma_dft_cong, lemma_dft_inverse};
use crate::algebra::primality::{lemma_cancel_nonzero, lemma_one_difference, lemma_one_weight};
use crate::algebra::residue::{
    cong, inv, lemma_cong_diff, lemma_cong_mul, lemma_cong_sub, lemma_inv, lemma_one, lemma_order,
    lemma_reduce, lemma_reduced, order,
};
use crate::algebra::roots::{lemma_domain_root, lemma_root_unit, lemma_size_unit};
use crate::algebra::sums::{
    dot, lemma_scaled_dot, lemma_sum_cong, lemma_sum_ext, lemma_sum_scale, lemma_sum_single,
    lemma_sum_sub, products, sum,
};
use crate::bytes::{le_value, lemma_same_value};
use crate::curve::views;
use crate::fft::{lemma_size_root, size_root};
use crate::hash::sha256;
use crate::middle::{cross_term, cross_terms_of};
use crate::points::power_range;
use crate::simple_bte::ark::ArkGt;
use crate::simple_bte::crs::{h_kernel, h_powers, share_row};
use crate::simple_bte::decryption::{
    direct_cross, direct_terms, first_logs, kernel_of, point_holds, share_holds, slot_log,
    CrossTerms,
};
use crate::simple_bte::fo::{
    bandwidth_hints_accepted, bandwidth_message, challenge_values, element_key, hint_fits,
    hinted_randomness, hints_accepted, keystream_xor, law_keystream_is_involutive,
    law_randomness_is_bound, law_xor_is_involutive, lemma_challenge, message_with, opened_key,
    opened_message, point_logs, randomness_fits, randomness_of, randomness_prefix, slot_key, xored,
    BandwidthDecryptionHints, DecryptionHints, FoCiphertext,
};
use crate::simple_bte::keys::{
    challenge_of, lemma_challenge_range, Ciphertext, DecryptionKey, EncryptionKey,
    PartialDecryption, SecretKey,
};

verus! {

/// The transformed powers of a key that was set up stand for the circular vector of powers.
proof fn lemma_kernel(dk: &DecryptionKey, tau: int, tails: Seq<Seq<int>>)
    requires
        dk.is_generated(tau, tails),
    ensures
        kernel_of(dk) == h_kernel(
            h_powers(tau, dk.batch_size as int),
            dk.batch_size as int,
            dk.fft_size as int,
        ),
{
    let b = dk.batch_size as int;
    let n = dk.fft_size as int;
    let kernel = h_kernel(h_powers(tau, b), b, n);
    let w = size_root(n);
    let wi = inv(w);
    let s = inv(n);
    let log = choose|log: nat| log <= 32 && n == #[trigger] pow2(log);
    lemma_size_root(log);
    lemma_domain_root(log);
    lemma_root_unit(w, n);
    lemma_inv(w);
    lemma_size_unit(log);
    lemma_inv(n);
    let t = views(dk.fft_h@);
    assert forall|d: int| 0 <= d < n implies #[trigger] kernel_of(dk)[d] == kernel[d] by {
        lemma_dft_inverse(kernel, w, wi, log, d);
        let full = dft_all(kernel, w);
        assert forall|k: int| 0 <= k < n implies cong(#[trigger] t[k], full[k]) by {
            assert(t[k] == dk.fft_h@[k]@);
            lemma_reduce(dft(kernel, w, k));
        }
        lemma_dft_cong(t, full, wi, d);
        let y = dft(t, wi, d);
        let x = kernel[d];
        lemma_cong_mul(y, n * x, s, s);
        lemma_cong_mul(n * s, 1, x, x);
        assert((n * x) * s == (n * s) * x) by (nonlinear_arith);
        assert(1 * x == x);
        assert(0 <= x < order()) by {
            lemma_order();
            let h = h_powers(tau, b);
            assert forall|j: int| 0 <= j < h.len() implies 0 <= #[trigger] h[j] < order() by {
                lemma_reduce(pow(tau, j as nat));
            }
        }
        lemma_reduced(x);
    }
    assert(kernel_of(dk) =~= kernel);
}

/// Decryption by transforms gives what decryption slot by slot gives: for a key that was set
/// up, the cross terms are the same.
pub proof fn law_fft_matches_direct(
    dk: &DecryptionKey,
    tau: int,
    tails: Seq<Seq<int>>,
    pd: int,
    cts: Seq<Ciphertext>,
    i: int,
)
    requires
        dk.is_generated(tau, tails),
        cts.len() == dk.batch_size,
        0 <= i < dk.batch_size,
    ensures
        slot_log(dk, pd, cts, cross_term(first_logs(cts), kernel_of(dk), i) % order(), i)
            == slot_log(dk, pd, cts, direct_cross(dk, first_logs(cts), i), i),
{
    let firsts = first_logs(cts);
    lemma_cross_terms_agree(dk, tau, tails, firsts, i);
    let c = direct_cross(dk, firsts, i);
    let power = dk.powers_of_h_affine@[dk.batch_size - i]@;
    lemma_reduce(c);
    lemma_cong_sub(pd * power, pd * power, c % order(), c);
    lemma_cong_sub(cts[i].ct2@, cts[i].ct2@, pd * power - c % order(), pd * power - c);
}

/// All ways to decrypt give the same: slot by slot, by transforms, and with the cross terms
/// made beforehand.
pub proof fn law_decryptions_agree(
    dk: &DecryptionKey,
    tau: int,
    tails: Seq<Seq<int>>,
    pd: int,
    cts: Seq<Ciphertext>,
    direct: Seq<ArkGt>,
    transformed: Seq<ArkGt>,
    cross: CrossTerms,
    finalized: Seq<ArkGt>,
)
    requires
        dk.is_generated(tau, tails),
        cts.len() == dk.batch_size,
        direct.len() == transformed.len() == finalized.len() == dk.batch_size,
        forall|i: int|
            0 <= i < dk.batch_size ==> (#[trigger] direct[i])@ == slot_log(
                dk,
                pd,
                cts,
                direct_cross(dk, first_logs(cts), i),
                i,
            ),
        forall|i: int|
            0 <= i < dk.batch_size ==> (#[trigger] transformed[i])@ == slot_log(
                dk,
                pd,
                cts,
                cross_term(first_logs(cts), kernel_of(dk), i) % order(),
                i,
            ),
        forall|i: int|
            0 <= i < dk.batch_size ==> (#[trigger] cross.values@[i])@ == cross_term(
                first_logs(cts),
                kernel_of(dk),
                i,
            ) % order(),
        forall|i: int|
            0 <= i < dk.batch_size ==> (#[trigger] finalized[i])@ == slot_log(
                dk,
                pd,
                cts,
                cross.values@[i]@,
                i,
            ),
    ensures
        views(direct) == views(transformed),
        views(transformed) == views(finalized),
{
    assert forall|i: int| 0 <= i < dk.batch_size implies #[trigger] views(direct)[i] == views(
        transformed,
    )[i] && views(transformed)[i] == views(finalized)[i] by {
        law_fft_matches_direct(dk, tau, tails, pd, cts, i);
        assert(direct[i]@ == slot_log(dk, pd, cts, direct_cross(dk, first_logs(cts), i), i));
        assert(transformed[i]@ == slot_log(
            dk,
            pd,
            cts,
            cross_term(first_logs(cts), kernel_of(dk), i) % order(),
            i,
        ));
        assert(finalized[i]@ == slot_log(dk, pd, cts, cross.values@[i]@, i));
    }
    assert(views(direct) =~= views(transformed));
    assert(views(transformed) =~= views(finalized));
}

/// The cross terms by transforms and those slot by slot are the same.
pub proof fn lemma_cross_terms_agree(
    dk: &DecryptionKey,
    tau: int,
    tails: Seq<Seq<int>>,
    firsts: Seq<int>,
    i: int,
)
    requires
        dk.is_generated(tau, tails),
        firsts.len() == dk.batch_size,
        0 <= i < dk.batch_size,
    ensures
        cross_term(firsts, kernel_of(dk), i) == direct_cross(dk, firsts, i),
{
    let b = dk.batch_size as int;
    let n = dk.fft_size as int;
    let h = h_powers(tau, b);
    let kernel = h_kernel(h, b, n);
    lemma_kernel(dk, tau, tails);
    let f = cross_terms_of(firsts, kernel, i);
    let g = direct_terms(h, firsts, b, i);
    assert forall|l: int| 0 <= l < b implies #[trigger] f(l) == g(l) by {
        let wraps: int = if i >= l {
            0
        } else {
            1
        };
        let d = i - l + n * wraps;
        vstd::arithmetic::div_mod::lemma_fundamental_div_mod_converse(i - l, n, -wraps, d);
        assert(kernel.len() == n);
        assert(firsts[l] * 0 == 0);
    }
    lemma_sum_ext(f, g, 0, b);
}

/// The pad of a slot is the key's element times the logarithm of the slot's point.
pub proof fn lemma_pad_of_slot(
    dk: &DecryptionKey,
    tau: int,
    tails: Seq<Seq<int>>,
    pd: int,
    firsts: Seq<int>,
    i: int,
)
    requires
        dk.is_generated(tau, tails),
        firsts.len() == dk.batch_size,
        point_holds(pd, tau, firsts),
        0 <= i < dk.batch_size,
    ensures
        cong(
            pd * dk.powers_of_h_affine@[dk.batch_size - i]@ - direct_cross(dk, firsts, i),
            firsts[i] * (pow(tau, (dk.batch_size + 1) as nat) % order()),
        ),
{
    let b = dk.batch_size as int;
    let h = h_powers(tau, b);
    let low = power_range(tau, 1, b);
    assert(views(dk.powers_of_h_affine@)[b - i] == h[b - i]);
    let power = h[b - i];
    let g = products(firsts, low);
    let scaled = |l: int| power * g(l);
    let alpha = |l: int| firsts[l] * (pow(tau, (b + 1 + l - i) as nat) % order());
    assert forall|l: int| 0 <= l < b implies cong(#[trigger] scaled(l), alpha(l)) by {
        let (p, q) = (pow(tau, (b - i) as nat), pow(tau, (l + 1) as nat));
        lemma_pow_adds(tau, (b - i) as nat, (l + 1) as nat);
        lemma_reduce(p);
        lemma_reduce(q);
        lemma_reduce(p * q);
        assert(1 + l == l + 1);
        assert(low[l] == q % order());
        lemma_cong_mul(power, p, low[l], q);
        lemma_cong_mul(firsts[l], firsts[l], power * low[l], (p * q) % order());
        let (x, y) = (firsts[l], low[l]);
        assert(power * (x * y) == x * (power * y)) by (nonlinear_arith);
    }
    lemma_sum_scale(power, g, scaled, 0, b);
    lemma_sum_cong(scaled, alpha, 0, b);
    lemma_cong_mul(pd, dot(firsts, low), power, power);
    assert(power * dot(firsts, low) == dot(firsts, low) * power) by (nonlinear_arith);
    let cross = direct_terms(h, firsts, b, i);
    let difference = |l: int| alpha(l) - cross(l);
    assert forall|l: int| 0 <= l < b && l != i implies #[trigger] difference(l) == 0 by {
        assert(l + b + 1 - i == b + 1 + l - i);
    }
    lemma_sum_sub(alpha, cross, difference, 0, b);
    lemma_sum_single(difference, 0, b, i);
    lemma_cong_sub(pd * power, sum(alpha, 0, b), sum(cross, 0, b), sum(cross, 0, b));
    assert(b + 1 + i - i == b + 1);
}

/// Decryption gives back the message. For keys that were set up and a combined point that is
/// the sum of the batch's points, each times the power of the secret for its slot, what a slot
/// opens to is the message that its ciphertext was made of, whatever stands in the other
/// slots.
pub proof fn law_decrypt_recovers_message(
    ek: EncryptionKey,
    dk: &DecryptionKey,
    tau: int,
    tails: Seq<Seq<int>>,
    pd: int,
    cts: Seq<Ciphertext>,
    i: int,
    message: int,
)
    requires
        dk.is_generated(tau, tails),
        ek.e@ == pow(tau, (dk.batch_size + 1) as nat) % order(),
        cts.len() == dk.batch_size,
        point_holds(pd, tau, first_logs(cts)),
        0 <= i < dk.batch_size,
        cts[i].encrypts(ek, message),
        0 <= message < order(),
    ensures
        slot_log(dk, pd, cts, direct_cross(dk, first_logs(cts), i), i) == message,
{
    let firsts = first_logs(cts);
    lemma_pad_of_slot(dk, tau, tails, pd, firsts, i);
    let pad = pd * dk.powers_of_h_affine@[dk.batch_size - i]@ - direct_cross(dk, firsts, i);
    let (e, k) = (ek.e@, cts[i].ct1@);
    lemma_reduce(message + e * k);
    lemma_cong_sub(cts[i].ct2@, message + e * k, pad, k * e);
    assert(e * k == k * e) by (nonlinear_arith);
    lemma_reduced(message);
}

/// The share that a party makes passes its check.
pub proof fn law_honest_share_passes(
    dk: &DecryptionKey,
    tau: int,
    tails: Seq<Seq<int>>,
    sk: &SecretKey,
    party: int,
    pd: PartialDecryption,
    firsts: Seq<int>,
)
    requires
        dk.is_generated(tau, tails),
        1 <= party <= dk.num_parties,
        sk.is_key_of(party, tau, tails),
        pd.is_share_of(sk, firsts),
    ensures
        share_holds(dk, pd, firsts),
{
    assert(views(dk.verification_keys@[party - 1]@) == share_row(tau, tails, party - 1 + 1));
    lemma_reduce(dot(firsts, views(sk.shares@)));
}

/// A share that passes its check is the one that its party makes.
pub proof fn law_passing_share_is_honest(
    dk: &DecryptionKey,
    tau: int,
    tails: Seq<Seq<int>>,
    sk: &SecretKey,
    party: int,
    pd: PartialDecryption,
    firsts: Seq<int>,
)
    requires
        dk.is_generated(tau, tails),
        1 <= party <= dk.num_parties,
        sk.is_key_of(party, tau, tails),
        pd.party_index == party,
        share_holds(dk, pd, firsts),
    ensures
        pd.is_share_of(sk, firsts),
{
    assert(views(dk.verification_keys@[party - 1]@) == share_row(tau, tails, party - 1 + 1));
    pd.value.lemma_range();
    lemma_reduced(pd.value@);
}

/// What a slot is opened with, for keys that were set up and a combined point that is the sum
/// of the batch's points, is the key's element times the slot's logarithm.
pub proof fn lemma_slot_key(
    ek: EncryptionKey,
    dk: &DecryptionKey,
    tau: int,
    tails: Seq<Seq<int>>,
    pd: int,
    cts: Seq<FoCiphertext>,
    i: int,
)
    requires
        dk.is_generated(tau, tails),
        ek.e@ == pow(tau, (dk.batch_size + 1) as nat) % order(),
        cts.len() == dk.batch_size,
        point_holds(pd, tau, point_logs(cts)),
        0 <= i < dk.batch_size,
    ensures
        slot_key(dk, pd, cts, i) == (ek.e@ * cts[i].ct0@) % order(),
{
    let firsts = point_logs(cts);
    lemma_cross_terms_agree(dk, tau, tails, firsts, i);
    lemma_pad_of_slot(dk, tau, tails, pd, firsts, i);
    let c = direct_cross(dk, firsts, i);
    let power = dk.powers_of_h_affine@[dk.batch_size - i]@;
    lemma_reduce(c);
    lemma_cong_sub(pd * power, pd * power, c % order(), c);
    let (e, k) = (ek.e@, cts[i].ct0@);
    assert(e * k == k * e) by (nonlinear_arith);
}

/// The key and the message that a ciphertext was made of are what the element that its key is
/// hidden behind opens it to.
pub proof fn law_opening_inverts_encryption(
    ek: EncryptionKey,
    ct: FoCiphertext,
    key: Seq<u8>,
    message: Seq<u8>,
)
    requires
        ct.is_encryption_of(ek, key, message),
        key.len() == 16,
    ensures
        opened_key(ct, (ek.e@ * ct.ct0@) % order()) == key,
        opened_message(ct, (ek.e@ * ct.ct0@) % order()) == message,
{
    let pad = element_key((ek.e@ * ct.ct0@) % order());
    assert(ct.ct1@.len() == 16);
    assert(pad.len() == 16);
    law_xor_is_involutive(key, pad);
    law_keystream_is_involutive(key, message);
}

/// The helper recovers the message of every ciphertext: for keys that were set up and a
/// combined point that is the sum of the batch's points, each times the power of the secret
/// for its slot.
pub proof fn law_helper_recovers_message(
    ek: EncryptionKey,
    dk: &DecryptionKey,
    tau: int,
    tails: Seq<Seq<int>>,
    pd: int,
    cts: Seq<FoCiphertext>,
    i: int,
    key: Seq<u8>,
    message: Seq<u8>,
)
    requires
        dk.is_generated(tau, tails),
        ek.e@ == pow(tau, (dk.batch_size + 1) as nat) % order(),
        cts.len() == dk.batch_size,
        point_holds(pd, tau, point_logs(cts)),
        0 <= i < dk.batch_size,
        cts[i].is_encryption_of(ek, key, message),
        key.len() == 16,
    ensures
        opened_key(cts[i], slot_key(dk, pd, cts, i)) == key,
        opened_message(cts[i], slot_key(dk, pd, cts, i)) == message,
{
    lemma_slot_key(ek, dk, tau, tails, pd, cts, i);
    law_opening_inverts_encryption(ek, cts[i], key, message);
}

/// Honest hints are accepted, whatever the challenges are: those that hold, for every
/// ciphertext, the key that it was made with and the element that the key is hidden behind.
pub proof fn law_honest_hints_are_accepted(
    ek: EncryptionKey,
    cts: Seq<FoCiphertext>,
    keys: Seq<Seq<u8>>,
    messages: Seq<Seq<u8>>,
    hints: DecryptionHints,
    challenges: Seq<int>,
)
    requires
        keys.len() == messages.len() == cts.len(),
        hints.keys@.len() == cts.len(),
        hints.pairing_values@.len() == cts.len(),
        forall|i: int|
            0 <= i < cts.len() ==> (#[trigger] cts[i]).is_encryption_of(ek, keys[i], messages[i])
                && hints.keys@[i]@ == keys[i] && hints.pairing_values@[i]@ == (ek.e@
                * cts[i].ct0@) % order(),
    ensures
        hints_accepted(ek, cts, hints, challenges),
        forall|i: int|
            0 <= i < cts.len() ==> message_with(hints.keys@[i]@, #[trigger] cts[i])
                == messages[i],
{
    let n = cts.len() as int;
    let ks = hinted_randomness(cts, hints.keys@);
    let points = point_logs(cts);
    let elements = views(hints.pairing_values@);
    assert forall|i: int| 0 <= i < n implies message_with(hints.keys@[i]@, #[trigger] cts[i])
        == messages[i] by {
        assert(cts[i].is_encryption_of(ek, keys[i], messages[i]));
        law_keystream_is_involutive(keys[i], messages[i]);
    }
    assert forall|i: int| 0 <= i < n implies #[trigger] ks[i] == points[i] by {
        assert(cts[i].is_encryption_of(ek, keys[i], messages[i]));
    }
    let total = dot(ks, challenges);
    let f = products(points, challenges);
    let g = products(ks, challenges);
    assert forall|i: int| 0 <= i < n implies #[trigger] f(i) == g(i) by {
        assert(ks[i] == points[i]);
    }
    lemma_sum_ext(f, g, 0, n);
    let e = ek.e@;
    let h = products(elements, challenges);
    let scaled = |i: int| e * g(i);
    assert forall|i: int| 0 <= i < n implies cong(#[trigger] h(i), scaled(i)) by {
        assert(cts[i].is_encryption_of(ek, keys[i], messages[i]));
        assert(ks[i] == points[i]);
        let (k, r) = (points[i], challenges[i]);
        lemma_reduce(e * k);
        lemma_cong_mul(elements[i], e * k, r, r);
        assert((e * k) * r == e * (k * r)) by (nonlinear_arith);
    }
    lemma_sum_cong(h, scaled, 0, n);
    lemma_sum_scale(e, g, scaled, 0, n);
    assert forall|i: int| 0 <= i < n implies hint_fits(
        #[trigger] cts[i],
        hints.keys@[i]@,
        hints.pairing_values@[i]@,
    ) by {
        assert(cts[i].is_encryption_of(ek, keys[i], messages[i]));
    }
}

/// Honest smaller hints are accepted, whatever the challenges are, and both kinds of hints
/// give the same messages: those that the ciphertexts were made of.
pub proof fn law_honest_bandwidth_hints_are_accepted(
    ek: EncryptionKey,
    cts: Seq<FoCiphertext>,
    keys: Seq<Seq<u8>>,
    messages: Seq<Seq<u8>>,
    hints: BandwidthDecryptionHints,
    challenges: Seq<int>,
)
    requires
        keys.len() == messages.len() == cts.len(),
        hints.randomness@.len() == cts.len(),
        forall|i: int|
            0 <= i < cts.len() ==> (#[trigger] cts[i]).is_encryption_of(ek, keys[i], messages[i])
                && keys[i].len() == 16 && hints.randomness@[i]@ == cts[i].ct0@,
    ensures
        bandwidth_hints_accepted(ek, cts, hints, challenges),
        forall|i: int|
            0 <= i < cts.len() ==> bandwidth_message(
                ek,
                #[trigger] cts[i],
                hints.randomness@[i]@,
            ) == messages[i],
{
    let n = cts.len() as int;
    assert forall|i: int| 0 <= i < n implies randomness_fits(
        ek,
        #[trigger] cts[i],
        hints.randomness@[i]@,
    ) && bandwidth_message(ek, cts[i], hints.randomness@[i]@) == messages[i] by {
        assert(cts[i].is_encryption_of(ek, keys[i], messages[i]));
        law_opening_inverts_encryption(ek, cts[i], keys[i], messages[i]);
    }
    let f = products(point_logs(cts), challenges);
    let g = products(views(hints.randomness@), challenges);
    assert forall|i: int| 0 <= i < n implies #[trigger] f(i) == g(i) by {
        assert(cts[i].is_encryption_of(ek, keys[i], messages[i]));
    }
    lemma_sum_ext(f, g, 0, n);
}

/// What the helper makes of a batch of honest ciphertexts is accepted, whatever the
/// challenges are, and both kinds of hints give the messages back: for keys that were set up
/// and a combined point that is the sum of the batch's points, each times the power of the
/// secret for its slot.
pub proof fn law_helper_hints_are_accepted(
    ek: EncryptionKey,
    dk: &DecryptionKey,
    tau: int,
    tails: Seq<Seq<int>>,
    pd: int,
    cts: Seq<FoCiphertext>,
    keys: Seq<Seq<u8>>,
    messages: Seq<Seq<u8>>,
    hints: DecryptionHints,
    smaller: BandwidthDecryptionHints,
    challenges: Seq<int>,
)
    requires
        dk.is_generated(tau, tails),
        ek.e@ == pow(tau, (dk.batch_size + 1) as nat) % order(),
        cts.len() == dk.batch_size,
        point_holds(pd, tau, point_logs(cts)),
        keys.len() == messages.len() == cts.len(),
        forall|i: int|
            0 <= i < cts.len() ==> (#[trigger] cts[i]).is_encryption_of(ek, keys[i], messages[i])
                && keys[i].len() == 16,
        hints.keys@.len() == cts.len(),
        hints.pairing_values@.len() == cts.len(),
        smaller.randomness@.len() == cts.len(),
        forall|i: int|
            0 <= i < cts.len() ==> (#[trigger] hints.pairing_values@[i])@ == slot_key(
                dk,
                pd,
                cts,
                i,
            ),
        forall|i: int|
            0 <= i < cts.len() ==> (#[trigger] hints.keys@[i])@ == opened_key(
                cts[i],
                slot_key(dk, pd, cts, i),
            ),
        forall|i: int|
            0 <= i < cts.len() ==> (#[trigger] smaller.randomness@[i])@ == randomness_of(
                opened_key(cts[i], slot_key(dk, pd, cts, i)),
                opened_message(cts[i], slot_key(dk, pd, cts, i)),
            ),
    ensures
        hints_accepted(ek, cts, hints, challenges),
        bandwidth_hints_accepted(ek, cts, smaller, challenges),
        forall|i: int|
            0 <= i < cts.len() ==> message_with(hints.keys@[i]@, #[trigger] cts[i]) == messages[i],
        forall|i: int|
            0 <= i < cts.len() ==> bandwidth_message(
                ek,
                #[trigger] cts[i],
                smaller.randomness@[i]@,
            ) == messages[i],
{
    assert forall|i: int| 0 <= i < cts.len() implies (#[trigger] cts[i]).is_encryption_of(
        ek,
        keys[i],
        messages[i],
    ) && keys[i].len() == 16 && hints.keys@[i]@ == keys[i] && hints.pairing_values@[i]@ == (ek.e@
        * cts[i].ct0@) % order() && smaller.randomness@[i]@ == cts[i].ct0@ by {
        lemma_slot_key(ek, dk, tau, tails, pd, cts, i);
        law_opening_inverts_encryption(ek, cts[i], keys[i], messages[i]);
        assert(hints.pairing_values@[i]@ == slot_key(dk, pd, cts, i));
        assert(hints.keys@[i]@ == opened_key(cts[i], slot_key(dk, pd, cts, i)));
        assert(smaller.randomness@[i]@ == randomness_of(
            opened_key(cts[i], slot_key(dk, pd, cts, i)),
            opened_message(cts[i], slot_key(dk, pd, cts, i)),
        ));
    }
    law_honest_hints_are_accepted(ek, cts, keys, messages, hints, challenges);
    law_honest_bandwidth_hints_are_accepted(ek, cts, keys, messages, smaller, challenges);
}

/// A hint whose key was changed is refused, whatever the challenges are.
pub proof fn law_changed_key_is_refused(
    ek: EncryptionKey,
    cts: Seq<FoCiphertext>,
    hints: DecryptionHints,
    changed: DecryptionHints,
    challenges: Seq<int>,
    i: int,
)
    requires
        0 <= i < cts.len(),
        hints.keys@.len() == hints.pairing_values@.len() == cts.len(),
        changed.keys@.len() == changed.pairing_values@.len() == cts.len(),
        hint_fits(cts[i], hints.keys@[i]@, hints.pairing_values@[i]@),
        changed.pairing_values@[i]@ == hints.pairing_values@[i]@,
        changed.keys@[i]@ != hints.keys@[i]@,
    ensures
        !hints_accepted(ek, cts, changed, challenges),
{
    if hints_accepted(ek, cts, changed, challenges) {
        let pad = element_key(hints.pairing_values@[i]@);
        let (key, other) = (hints.keys@[i]@, changed.keys@[i]@);
        assert(hint_fits(cts[i], other, changed.pairing_values@[i]@));
        assert(cts[i].ct1@.len() == 16);
        assert(pad.len() == 16);
        law_xor_is_involutive(key, pad);
        law_xor_is_involutive(other, pad);
    }
}

/// Hints of which one element was changed are refused, as long as its challenge is not zero.
pub proof fn law_changed_element_is_refused(
    ek: EncryptionKey,
    cts: Seq<FoCiphertext>,
    hints: DecryptionHints,
    changed: DecryptionHints,
    challenges: Seq<int>,
    i: int,
)
    requires
        0 <= i < cts.len(),
        challenges.len() == cts.len(),
        hints.pairing_values@.len() == cts.len(),
        changed.pairing_values@.len() == cts.len(),
        hints_accepted(ek, cts, hints, challenges),
        changed.keys@ == hints.keys@,
        forall|j: int|
            0 <= j < cts.len() && j != i ==> (#[trigger] changed.pairing_values@[j])@
                == hints.pairing_values@[j]@,
        changed.pairing_values@[i]@ != hints.pairing_values@[i]@,
        0 < challenges[i] < order(),
    ensures
        !hints_accepted(ek, cts, changed, challenges),
{
    let a = views(changed.pairing_values@);
    let b = views(hints.pairing_values@);
    assert forall|j: int| 0 <= j < a.len() && j != i implies cong(#[trigger] a[j], b[j]) by {
        assert(changed.pairing_values@[j]@ == hints.pairing_values@[j]@);
    }
    changed.pairing_values@[i].lemma_range();
    hints.pairing_values@[i].lemma_range();
    lemma_reduced(a[i]);
    lemma_reduced(b[i]);
    lemma_reduced(challenges[i]);
    lemma_one();
    lemma_one_difference(a, b, challenges, i);
}

/// Smaller hints of which one was changed are refused, as long as its challenge is not zero.
pub proof fn law_changed_randomness_is_refused(
    ek: EncryptionKey,
    cts: Seq<FoCiphertext>,
    hints: BandwidthDecryptionHints,
    changed: BandwidthDecryptionHints,
    challenges: Seq<int>,
    i: int,
)
    requires
        0 <= i < cts.len(),
        challenges.len() == cts.len(),
        hints.randomness@.len() == cts.len(),
        changed.randomness@.len() == cts.len(),
        bandwidth_hints_accepted(ek, cts, hints, challenges),
        forall|j: int|
            0 <= j < cts.len() && j != i ==> (#[trigger] changed.randomness@[j])@
                == hints.randomness@[j]@,
        changed.randomness@[i]@ != hints.randomness@[i]@,
        0 < challenges[i] < order(),
    ensures
        !bandwidth_hints_accepted(ek, cts, changed, challenges),
{
    let a = views(changed.randomness@);
    let b = views(hints.randomness@);
    assert forall|j: int| 0 <= j < a.len() && j != i implies cong(#[trigger] a[j], b[j]) by {
        assert(changed.randomness@[j]@ == hints.randomness@[j]@);
    }
    changed.randomness@[i].lemma_range();
    hints.randomness@[i].lemma_range();
    lemma_reduced(a[i]);
    lemma_reduced(b[i]);
    lemma_reduced(challenges[i]);
    lemma_one();
    lemma_one_difference(a, b, challenges, i);
}

/// A ciphertext whose second component was changed is valid only where the challenge is the
/// same, unless the first component is the identity.
pub proof fn law_changed_ciphertext_needs_the_challenge(ct: Ciphertext, other: Ciphertext)
    requires
        ct.is_valid(),
        other.ct1@ == ct.ct1@,
        other.proof.commitment@ == ct.proof.commitment@,
        other.proof.response@ == ct.proof.response@,
        !cong(ct.ct1@, 0),
    ensures
        other.is_valid() <==> other.challenge() == ct.challenge(),
{
    let (n, x, c, d) = (ct.proof.commitment@, ct.ct1@, ct.challenge(), other.challenge());
    if other.is_valid() {
        lemma_cong_sub(n + x * d, n + x * c, n, n);
        lemma_cancel_nonzero(x, d, c);
        lemma_challenge_range(x, ct.ct2@, n);
        lemma_challenge_range(x, other.ct2@, n);
        lemma_reduced(c);
        lemma_reduced(d);
    }
}

/// The randomness of two different messages under a key, or of two keys, is the same only
/// where digests of two different strings are.
proof fn lemma_same_randomness(
    key_a: Seq<u8>,
    message_a: Seq<u8>,
    key_b: Seq<u8>,
    message_b: Seq<u8>,
)
    requires
        key_a.len() == key_b.len() == 16,
        message_a.len() < 0x1_0000_0000_0000_0000,
        message_b.len() < 0x1_0000_0000_0000_0000,
        key_a != key_b || message_a != message_b,
        randomness_of(key_a, message_a) == randomness_of(key_b, message_b),
    ensures
        exists|s: Seq<u8>, t: Seq<u8>|
            s != t && cong(
                le_value(#[trigger] sha256(s.push(0)) + sha256(s.push(1))),
                le_value(#[trigger] sha256(t.push(0)) + sha256(t.push(1))),
            ),
{
    law_randomness_is_bound(key_a, message_a, key_b, message_b);
}

/// A ciphertext of which only the payload was changed is not accepted. Where all other
/// ciphertexts of the batch are honest, the point of this one is that of its key and message,
/// and the hint holds its key, but the payload is another string, the hints are accepted with
/// a challenge that is not zero only if digests of two different strings collide.
pub proof fn law_changed_payload_needs_a_collision(
    ek: EncryptionKey,
    cts: Seq<FoCiphertext>,
    keys: Seq<Seq<u8>>,
    messages: Seq<Seq<u8>>,
    hints: DecryptionHints,
    challenges: Seq<int>,
    i: int,
)
    requires
        keys.len() == messages.len() == cts.len() == challenges.len(),
        hints.keys@.len() == cts.len(),
        hints.pairing_values@.len() == cts.len(),
        0 <= i < cts.len(),
        forall|j: int|
            0 <= j < cts.len() ==> (#[trigger] hints.keys@[j])@ == keys[j] && keys[j].len() == 16,
        forall|j: int|
            0 <= j < cts.len() && j != i ==> (#[trigger] cts[j]).is_encryption_of(
                ek,
                keys[j],
                messages[j],
            ),
        cts[i].ct0@ == randomness_of(keys[i], messages[i]),
        cts[i].ct2@ != keystream_xor(keys[i], messages[i]),
        cts[i].ct2@.len() < 0x1_0000_0000_0000_0000,
        messages[i].len() < 0x1_0000_0000_0000_0000,
        0 < challenges[i] < order(),
        hints_accepted(ek, cts, hints, challenges),
    ensures
        exists|s: Seq<u8>, t: Seq<u8>|
            s != t && cong(
                le_value(#[trigger] sha256(s.push(0)) + sha256(s.push(1))),
                le_value(#[trigger] sha256(t.push(0)) + sha256(t.push(1))),
            ),
{
    let (points, ks) = (point_logs(cts), hinted_randomness(cts, hints.keys@));
    assert forall|j: int| 0 <= j < cts.len()
        && j != i implies cong(#[trigger] points[j], ks[j]) by {
        assert(cts[j].is_encryption_of(ek, keys[j], messages[j]));
        assert(hints.keys@[j]@ == keys[j]);
        law_keystream_is_involutive(keys[j], messages[j]);
    }
    lemma_reduced(challenges[i]);
    lemma_one();
    let opened = message_with(keys[i], cts[i]);
    assert(hints.keys@[i]@ == keys[i]);
    if !cong(points[i], ks[i]) {
        lemma_one_difference(points, ks, challenges, i);
    }
    lemma_reduce(
        le_value(
            sha256(randomness_prefix(keys[i], opened).push(0)) + sha256(
                randomness_prefix(keys[i], opened).push(1),
            ),
        ),
    );
    cts[i].ct0.lemma_range();
    lemma_reduced(points[i]);
    lemma_reduced(ks[i]);
    law_keystream_is_involutive(keys[i], cts[i].ct2@);
    lemma_same_randomness(keys[i], messages[i], keys[i], opened);
}

/// The same of the smaller hints: where the hinted randomness of all other ciphertexts is that
/// of their points, and the point of this one is that of its key and message, but its payload
/// is another string under that key, they are accepted with a challenge that is not zero only
/// if digests of two different strings collide.
pub proof fn law_changed_payload_of_smaller_hints_needs_a_collision(
    ek: EncryptionKey,
    cts: Seq<FoCiphertext>,
    key: Seq<u8>,
    message: Seq<u8>,
    hints: BandwidthDecryptionHints,
    challenges: Seq<int>,
    i: int,
)
    requires
        cts.len() == challenges.len(),
        hints.randomness@.len() == cts.len(),
        0 <= i < cts.len(),
        forall|j: int|
            0 <= j < cts.len() && j != i ==> (#[trigger] hints.randomness@[j])@ == cts[j].ct0@,
        key.len() == 16,
        cts[i].ct0@ == randomness_of(key, message),
        cts[i].ct1@ == xored(element_key((ek.e@ * cts[i].ct0@) % order()), key),
        cts[i].ct2@ != keystream_xor(key, message),
        cts[i].ct2@.len() < 0x1_0000_0000_0000_0000,
        message.len() < 0x1_0000_0000_0000_0000,
        0 < challenges[i] < order(),
        bandwidth_hints_accepted(ek, cts, hints, challenges),
    ensures
        exists|s: Seq<u8>, t: Seq<u8>|
            s != t && cong(
                le_value(#[trigger] sha256(s.push(0)) + sha256(s.push(1))),
                le_value(#[trigger] sha256(t.push(0)) + sha256(t.push(1))),
            ),
{
    let (points, ks) = (point_logs(cts), views(hints.randomness@));
    assert forall|j: int| 0 <= j < cts.len()
        && j != i implies cong(#[trigger] points[j], ks[j]) by {
        assert(hints.randomness@[j]@ == cts[j].ct0@);
    }
    lemma_reduced(challenges[i]);
    lemma_one();
    if !cong(points[i], ks[i]) {
        lemma_one_difference(points, ks, challenges, i);
    }
    cts[i].ct0.lemma_range();
    hints.randomness@[i].lemma_range();
    lemma_reduced(points[i]);
    lemma_reduced(ks[i]);
    let k = ks[i];
    assert(randomness_fits(ek, cts[i], hints.randomness@[i]@));
    let pad = element_key((ek.e@ * k) % order());
    assert(cts[i].ct1@.len() == 16);
    assert(pad.len() == 16);
    law_xor_is_involutive(key, pad);
    let opened = bandwidth_message(ek, cts[i], k);
    law_keystream_is_involutive(key, cts[i].ct2@);
    lemma_same_randomness(key, message, key, opened);
}

/// Challenges that are different stand for different weights, all below the order.
pub proof fn law_challenges_are_weights(a: Seq<[u8; 16]>, b: Seq<[u8; 16]>, i: int)
    requires
        0 <= i < a.len(),
        0 <= i < b.len(),
    ensures
        0 <= challenge_values(a)[i] < order(),
        challenge_values(a)[i] == challenge_values(b)[i] <==> a[i]@ == b[i]@,
{
    lemma_challenge(a[i]@);
    lemma_challenge(b[i]@);
    lemma_reduce(le_value(a[i]@));
    if challenge_values(a)[i] == challenge_values(b)[i] {
        lemma_same_value(a[i]@, b[i]@);
    }
}

/// Whatever the other ciphertexts and challenges are, hints whose randomness for a ciphertext is
/// not the logarithm of its point, or whose element is not the key's element times it, are
/// accepted with at most one challenge for that ciphertext.
pub proof fn law_bad_hints_pass_with_one_challenge(
    ek: EncryptionKey,
    cts: Seq<FoCiphertext>,
    hints: DecryptionHints,
    challenges: Seq<int>,
    others: Seq<int>,
    bad: int,
)
    requires
        challenges.len() == others.len() == cts.len(),
        hints.pairing_values@.len() == cts.len(),
        0 <= bad < cts.len(),
        ({
            let k = randomness_of(
                hints.keys@[bad]@,
                keystream_xor(hints.keys@[bad]@, cts[bad].ct2@),
            );
            !cong(cts[bad].ct0@, k) || !cong(hints.pairing_values@[bad]@, ek.e@ * k)
        }),
        forall|i: int| 0 <= i < cts.len() && i != bad ==> #[trigger] challenges[i] == others[i],
        0 <= challenges[bad] < order(),
        0 <= others[bad] < order(),
        challenges[bad] != others[bad],
    ensures
        !(hints_accepted(ek, cts, hints, challenges) && hints_accepted(ek, cts, hints, others)),
{
    if hints_accepted(ek, cts, hints, challenges) && hints_accepted(ek, cts, hints, others) {
        let ks = hinted_randomness(cts, hints.keys@);
        let ps = views(hints.pairing_values@);
        let scaled = Seq::new(ks.len(), |i: int| ek.e@ * ks[i]);
        lemma_reduced(challenges[bad]);
        lemma_reduced(others[bad]);
        if !cong(cts[bad].ct0@, ks[bad]) {
            lemma_one_weight(point_logs(cts), ks, challenges, others, bad);
        } else {
            lemma_scaled_dot(ek.e@, ks, scaled, challenges);
            lemma_scaled_dot(ek.e@, ks, scaled, others);
            lemma_one_weight(ps, scaled, challenges, others, bad);
        }
    }
}

/// Whatever the other ciphertexts and challenges are, hinted randomness that is not the logarithm
/// of its ciphertext's point is accepted with at most one challenge for that ciphertext.
pub proof fn law_bad_smaller_hints_pass_with_one_challenge(
    ek: EncryptionKey,
    cts: Seq<FoCiphertext>,
    hints: BandwidthDecryptionHints,
    challenges: Seq<int>,
    others: Seq<int>,
    bad: int,
)
    requires
        challenges.len() == others.len() == cts.len(),
        hints.randomness@.len() == cts.len(),
        0 <= bad < cts.len(),
        !cong(cts[bad].ct0@, hints.randomness@[bad]@),
        forall|i: int| 0 <= i < cts.len() && i != bad ==> #[trigger] challenges[i] == others[i],
        0 <= challenges[bad] < order(),
        0 <= others[bad] < order(),
        challenges[bad] != others[bad],
    ensures
        !(bandwidth_hints_accepted(ek, cts, hints, challenges) && bandwidth_hints_accepted(
            ek,
            cts,
            hints,
            others,
        )),
{
    if bandwidth_hints_accepted(ek, cts, hints, challenges) {
        lemma_reduced(challenges[bad]);
        lemma_reduced(others[bad]);
        lemma_one_weight(
            point_logs(cts),
            views(hints.randomness@),
            challenges,
            others,
            bad,
        );
    }
}

/// A ciphertext hides its message with the key's element times the logarithm of its point, so
/// that of ciphertexts of one message the second components are the same exactly where the
/// key's element times the difference of the logarithms is zero.
pub proof fn law_ciphertext_hides_its_message(
    ek: EncryptionKey,
    message: int,
    a: Ciphertext,
    b: Ciphertext,
)
    requires
        a.encrypts(ek, message),
        b.encrypts(ek, message),
    ensures
        cong(a.ct2@ - message, ek.e@ * a.ct1@),
        a.ct2@ == b.ct2@ <==> cong(ek.e@ * (a.ct1@ - b.ct1@), 0),
{
    let (x, y) = (ek.e@ * a.ct1@, ek.e@ * b.ct1@);
    lemma_reduce(message + x);
    lemma_reduce(message + y);
    lemma_cong_sub(a.ct2@, message + x, message, message);
    assert(ek.e@ * (a.ct1@ - b.ct1@) == x - y) by (nonlinear_arith)
        requires
            x == ek.e@ * a.ct1@,
            y == ek.e@ * b.ct1@,
    ;
    lemma_cong_diff(message + x, message + y);
    assert((message + x) - (message + y) == x - y);
}

/// A ciphertext is valid exactly where its proof answers the challenge of both components and
/// the commitment for knowledge of the first component's logarithm.
pub proof fn law_valid_ciphertext_answers_its_challenge(ct: Ciphertext)
    ensures
        ct.is_valid() <==> cong(
            ct.proof.response@,
            ct.proof.commitment@ + ct.ct1@ * challenge_of(
                ct.ct1@,
                ct.ct2@,
                ct.proof.commitment@,
            ),
        ),
{
}

} // verus!
