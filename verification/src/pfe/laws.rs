//! What the phases promise together.
use vstd::arithmetic::power::{lemma_pow_adds, pow};
use vstd::arithmetic::power2::{lemma_pow2_pos, pow2};
use vstd::prelude::*;

use crate::algebra::fractions::{lemma_reciprocal_total, reciprocal, reciprocal_terms};
use crate::algebra::lagrange::{eval, lemma_interpolate, separated, weight, weights};
use crate::algebra::residue::{
    cong, inv, is_unit, lemma_cong_add, lemma_cong_mul, lemma_cong_neg, lemma_cong_sub, lemma_inv,
    lemma_pow_inverse, lemma_reduce, lemma_reduced, order,
};
use crate::algebra::roots::{
    is_root, lemma_domain_root, lemma_pow_period, lemma_root_difference, lemma_root_inverse,
    lemma_root_unit,
};
use crate::algebra::sums::{
    dot, items, lemma_sum_add, lemma_sum_cong, lemma_sum_ext, lemma_sum_scale, lemma_sum_shift,
    lemma_sum_single, lemma_sum_split, lemma_sum_sub, lemma_sum_swap, products, sum, sum_of,
};
use crate::curve::{views, Element};
use crate::fft::{is_domain_size, lemma_size_root, size_root};
use crate::pfe::decryption::{
    check_error, combined, commitment_logs, final_mix, first_defect, first_logs, inverse_root,
    is_material, is_recoverable, key_holds, lemma_labels, mask_log, opened_log, opening_coefficient,
    pairing_logs, passing, scaled_factor, scaled_keys, second_logs, share_check, share_keys,
    share_points, weighted_log, BatchPrecomputation, DecryptionShare, PartialFractionKernel,
    ValidatedBatch,
};
use crate::pfe::dleq::challenge_of;
use crate::pfe::encryption::Ciphertext;
use crate::pfe::error::Error;
use crate::pfe::setup::{
    fractions, labels, slot_fractions, slot_labels, tails_fit, EncryptionKey, KeyMaterial,
    KeygenConfig, PublicDecryptionKey,
};

verus! {

/// The difference of two fractions.
proof fn lemma_fraction_difference(x: int, a: int, b: int)
    requires
        is_unit(x + a),
        is_unit(x + b),
    ensures
        cong((b - a) * (inv(x + a) * inv(x + b)), inv(x + a) - inv(x + b)),
{
    lemma_inv(x + a);
    lemma_inv(x + b);
    let (p, q) = (inv(x + a), inv(x + b));
    lemma_cong_mul((x + b) * q, 1, p, p);
    lemma_cong_mul((x + a) * p, 1, q, q);
    lemma_cong_sub(((x + b) * q) * p, 1 * p, ((x + a) * p) * q, 1 * q);
    assert((b - a) * (p * q) == ((x + b) * q) * p - ((x + a) * p) * q) by (nonlinear_arith);
}

/// What is known of a size, its roots and its labels.
proof fn lemma_size(n: int) -> (log: nat)
    requires
        is_domain_size(n),
    ensures
        log <= 32,
        n == pow2(log),
        n >= 1,
        is_root(size_root(n), n),
        is_root(inverse_root(n), n),
        cong(size_root(n) * inverse_root(n), 1),
{
    let log = choose|log: nat| log <= 32 && n == #[trigger] pow2(log);
    lemma_pow2_pos(log);
    lemma_size_root(log);
    lemma_domain_root(log);
    let w = size_root(n);
    lemma_root_unit(w, n);
    lemma_inv(w);
    lemma_root_inverse(w, inv(w), n);
    log
}

/// The reciprocal that slots `j` and `i` meet at is the label of `j` over the
/// difference of their labels.
proof fn lemma_reciprocal_label(n: int, j: int, i: int)
    requires
        is_domain_size(n),
        0 <= j < n,
        0 <= i < n,
        i != j,
    ensures
        cong(
            (slot_labels(n)[j] - slot_labels(n)[i]) * reciprocal(inverse_root(n), n, j - i),
            slot_labels(n)[j],
        ),
{
    let log = lemma_size(n);
    let (w, v) = (size_root(n), inverse_root(n));
    let (zj, zi) = (slot_labels(n)[j], slot_labels(n)[i]);
    let wraps: int = if j > i {
        0
    } else {
        1
    };
    let d = j - i + n * wraps;
    vstd::arithmetic::div_mod::lemma_fundamental_div_mod_converse(j - i, n, -wraps, d);
    assert(0 < d < n);
    let u = pow(v, d as nat);
    // w^j u == w^i
    lemma_pow_period(w, n, j as nat, wraps as nat);
    lemma_pow_adds(w, i as nat, d as nat);
    lemma_pow_inverse(w, v, d as nat);
    let (wj, wi, wd) = (pow(w, j as nat), pow(w, i as nat), pow(w, d as nat));
    assert(cong(wi * wd, wj));
    lemma_cong_mul(wi * wd, wj, u, u);
    lemma_cong_mul(wi, wi, wd * u, 1);
    assert((wi * wd) * u == wi * (wd * u)) by (nonlinear_arith);
    assert(wi * 1 == wi);
    assert(cong(wj * u, wi));
    lemma_reduce(wj);
    lemma_reduce(wi);
    lemma_cong_mul(zj, wj, u, u);
    // (zj - zi) == zj (1 - u)
    lemma_cong_sub(zj, zj, zi, zj * u);
    assert(zj - zj * u == zj * (1 - u)) by (nonlinear_arith);
    lemma_root_difference(v, log, d);
    lemma_inv(1 - u);
    let r = reciprocal(v, n, j - i);
    assert(r == inv(1 - u));
    lemma_cong_mul(zj - zi, zj * (1 - u), r, r);
    lemma_cong_mul(zj, zj, (1 - u) * r, 1);
    assert((zj * (1 - u)) * r == zj * ((1 - u) * r)) by (nonlinear_arith);
    assert(zj * 1 == zj);
}

/// A slot's fraction times the reciprocal that it meets another slot at.
proof fn lemma_fraction_term(x: int, n: int, j: int, i: int)
    requires
        is_domain_size(n),
        0 <= j < n,
        0 <= i < n,
        i != j,
        is_unit(x + slot_labels(n)[i]),
        is_unit(x + slot_labels(n)[j]),
    ensures
        ({
            let d = reciprocal(inverse_root(n), n, j - i);
            let (pi, pj) = (slot_fractions(x, n)[i], slot_fractions(x, n)[j]);
            cong(pi * d, pj * d + slot_labels(n)[j] * (pi * pj))
        }),
{
    let d = reciprocal(inverse_root(n), n, j - i);
    let (pi, pj) = (slot_fractions(x, n)[i], slot_fractions(x, n)[j]);
    let (zj, zi) = (slot_labels(n)[j], slot_labels(n)[i]);
    lemma_fraction_difference(x, zi, zj);
    lemma_reciprocal_label(n, j, i);
    lemma_cong_mul((zj - zi) * (pi * pj), pi - pj, d, d);
    lemma_cong_mul((zj - zi) * d, zj, pi * pj, pi * pj);
    assert(((zj - zi) * (pi * pj)) * d == ((zj - zi) * d) * (pi * pj)) by (nonlinear_arith);
    assert((pi - pj) * d == pi * d - pj * d) by (nonlinear_arith);
    lemma_cong_add(pi * d - pj * d, zj * (pi * pj), pj * d, pj * d);
}

/// The reciprocals that slot `j` meets all slots at.
spec fn reciprocals(n: int, j: int) -> spec_fn(int) -> int {
    |i: int| reciprocal(inverse_root(n), n, j - i)
}

/// Items times the reciprocals.
spec fn met(items: Seq<int>, n: int, j: int) -> spec_fn(int) -> int {
    reciprocal_terms(inverse_root(n), n, items, j)
}

/// What the items of a weighted convolution are, where the convolved values are
/// `h` times some others and `2 n h` is one.
proof fn lemma_scaled_convolution(values: Seq<int>, items: Seq<int>, h: int, n: int, j: int)
    requires
        is_domain_size(n),
        0 <= j < n,
        values.len() == n,
        items.len() == n,
        cong((2 * n) * h, 1),
        forall|i: int| 0 <= i < n ==> cong(#[trigger] values[i], items[i] * h),
    ensures
        cong(
            weighted_log(values, 2, j),
            (2 * slot_labels(n)[j] - 1) * sum(met(items, n, j), 0, n),
        ),
{
    let f = met(values, n, j);
    let g = met(items, n, j);
    let scaled = |i: int| h * g(i);
    assert forall|i: int| 0 <= i < n implies cong(#[trigger] f(i), scaled(i)) by {
        let d = reciprocal(inverse_root(n), n, j - i);
        lemma_cong_mul(values[i], items[i] * h, d, d);
        let y = items[i];
        assert((y * h) * d == h * (y * d)) by (nonlinear_arith);
    }
    lemma_sum_cong(f, scaled, 0, n);
    lemma_sum_scale(h, g, scaled, 0, n);
    let s = sum(g, 0, n);
    let m = pow(size_root(n), j as nat);
    let z = slot_labels(n)[j];
    lemma_reduce(m);
    lemma_cong_mul(2, 2, m, z);
    lemma_cong_sub(2 * m, 2 * z, 1, 1);
    let (a, b) = (2 * m - 1, 2 * z - 1);
    let t = sum(f, 0, n);
    lemma_cong_mul(a, b, t, h * s);
    lemma_cong_mul(2 * n, 2 * n, a * t, b * (h * s));
    let e = b * s;
    lemma_cong_mul((2 * n) * h, 1, e, e);
    assert((2 * n) * (b * (h * s)) == ((2 * n) * h) * (b * s)) by (nonlinear_arith);
    assert(1 * e == e);
}

/// The first convolution is not scaled: it is `2 n` times what the others are.
proof fn lemma_plain_convolution(values: Seq<int>, n: int, j: int)
    requires
        is_domain_size(n),
        0 <= j < n,
        values.len() == n,
    ensures
        cong(
            weighted_log(values, 2, j),
            (2 * n) * ((2 * slot_labels(n)[j] - 1) * sum(met(values, n, j), 0, n)),
        ),
{
    let m = pow(size_root(n), j as nat);
    let z = slot_labels(n)[j];
    let s = sum(met(values, n, j), 0, n);
    lemma_reduce(m);
    lemma_cong_mul(2, 2, m, z);
    lemma_cong_sub(2 * m, 2 * z, 1, 1);
    lemma_cong_mul(2 * m - 1, 2 * z - 1, s, s);
    lemma_cong_mul(2 * n, 2 * n, (2 * m - 1) * s, (2 * z - 1) * s);
}

/// Whether the secret plus each slot's label is a unit.
spec fn slots_are_units(x: int, n: int) -> bool {
    forall|i: int| 0 <= i < n ==> is_unit(x + #[trigger] slot_labels(n)[i])
}

/// The sum of the fractions that slot `j` meets: `p_j` times the sum of the
/// reciprocals, and `z p_j` times the sum of the other fractions.
proof fn lemma_fraction_sum(x: int, n: int, j: int)
    requires
        is_domain_size(n),
        0 <= j < n,
        slots_are_units(x, n),
    ensures
        ({
            let all = slot_fractions(x, n);
            let p = all[j];
            cong(
                sum(met(all, n, j), 0, n),
                p * sum(reciprocals(n, j), 0, n) + (slot_labels(n)[j] * p) * (sum_of(all) - p),
            )
        }),
{
    let all = slot_fractions(x, n);
    let p = all[j];
    let z = slot_labels(n)[j];
    let f = met(all, n, j);
    let d = reciprocals(n, j);
    let first = |i: int| p * d(i);
    let rest = |i: int| if i == j { 0 } else { all[i] };
    let second = |i: int| (z * p) * rest(i);
    let target = |i: int| first(i) + second(i);
    assert forall|i: int| 0 <= i < n implies cong(#[trigger] f(i), target(i)) by {
        assert(is_unit(x + slot_labels(n)[i]));
        assert(is_unit(x + slot_labels(n)[j]));
        if i == j {
            vstd::arithmetic::div_mod::lemma_small_mod(0, n as nat);
            assert(d(i) == 0);
            assert(all[i] * 0 == 0 && p * 0 == 0 && (z * p) * 0 == 0);
        } else {
            lemma_fraction_term(x, n, j, i);
            let y = all[i];
            assert(z * (y * p) == (z * p) * y) by (nonlinear_arith);
        }
    }
    lemma_sum_cong(f, target, 0, n);
    lemma_sum_add(first, second, target, 0, n);
    lemma_sum_scale(p, d, first, 0, n);
    lemma_sum_scale(z * p, rest, second, 0, n);
    let own = |i: int| if i == j { p } else { 0 };
    assert forall|i: int| 0 <= i < n implies #[trigger] items(all)(i) == rest(i) + own(i) by {}
    lemma_sum_add(rest, own, items(all), 0, n);
    lemma_sum_single(own, 0, n, j);
}

/// The other slots cancel: what they add to the pad of slot `j` is nothing, and
/// the combined point leaves the slot's own share of it.
proof fn lemma_others_cancel(x: int, n: int, j: int, r: Seq<int>, q: int)
    requires
        is_domain_size(n),
        0 <= j < n,
        r.len() == n,
        slots_are_units(x, n),
    ensures
        ({
            let all = slot_fractions(x, n);
            let (p, z) = (all[j], slot_labels(n)[j]);
            cong(
                (q * p) * sum(met(r, n, j), 0, n) - q
                    * sum(met(fraction_products(r, all), n, j), 0, n)
                    + (z * (q * p)) * dot(r, all),
                (z * (q * p)) * (r[j] * p),
            )
        }),
{
    let all = slot_fractions(x, n);
    let (p, z) = (all[j], slot_labels(n)[j]);
    let d = reciprocals(n, j);
    let f = met(r, n, j);
    let g = met(fraction_products(r, all), n, j);
    let e = products(r, all);
    let (c1, c2, c3) = (q * p, q, z * (q * p));
    let sf = |i: int| c1 * f(i);
    let sg = |i: int| c2 * g(i);
    let se = |i: int| c3 * e(i);
    let fg = |i: int| sf(i) - sg(i);
    let whole = |i: int| fg(i) + se(i);
    let target = |i: int| if i == j { c3 * (r[j] * p) } else { 0 };
    assert forall|i: int| 0 <= i < n implies cong(#[trigger] whole(i), target(i)) by {
        let (ri, pi, di) = (r[i], all[i], d(i));
        assert(f(i) == ri * di);
        assert(g(i) == (ri * pi) * di);
        if i == j {
            vstd::arithmetic::div_mod::lemma_small_mod(0, n as nat);
            assert(di == 0);
            assert(ri * 0 == 0 && (ri * pi) * 0 == 0 && c1 * 0 == 0 && c2 * 0 == 0);
        } else {
            assert(is_unit(x + slot_labels(n)[i]));
            assert(is_unit(x + slot_labels(n)[j]));
            lemma_fraction_term(x, n, j, i);
            let u = pi * di;
            let t = p * di + z * (pi * p);
            lemma_cong_sub(t, t, u, t);
            let k = q * ri;
            lemma_cong_mul(k, k, t - u, t - t);
            assert(k * (t - t) == 0) by (nonlinear_arith);
            lemma_cancelled_term(q, p, ri, pi, di, z);
        }
    }
    lemma_sum_cong(whole, target, 0, n);
    lemma_sum_add(fg, se, whole, 0, n);
    lemma_sum_sub(sf, sg, fg, 0, n);
    lemma_sum_scale(c1, f, sf, 0, n);
    lemma_sum_scale(c2, g, sg, 0, n);
    lemma_sum_scale(c3, e, se, 0, n);
    lemma_sum_single(target, 0, n, j);
}

proof fn lemma_cancelled_term(q: int, p: int, r: int, o: int, d: int, z: int)
    ensures
        (q * p) * (r * d) - q * ((r * o) * d) + (z * (q * p)) * (r * o) == (q * r) * ((p * d + z
            * (o * p)) - o * d),
{
    assert((q * p) * (r * d) == (q * r) * (p * d)) by (nonlinear_arith);
    assert(q * ((r * o) * d) == (q * r) * (o * d)) by (nonlinear_arith);
    assert((z * (q * p)) * (r * o) == (q * r) * (z * (o * p))) by (nonlinear_arith);
    let (k, a, b, c) = (q * r, p * d, z * (o * p), o * d);
    assert(k * a - k * c + k * b == k * ((a + b) - c)) by (nonlinear_arith);
}

/// The products of two sequences, item by item.
spec fn fraction_products(a: Seq<int>, b: Seq<int>) -> Seq<int> {
    Seq::new(a.len(), |i: int| a[i] * b[i])
}

/// The share of the label zero in the pad.
proof fn lemma_zero_label(p0: int, p: int, z: int, q: int)
    requires
        q == 2 * z - 1,
        cong(z * (p0 * p), p0 - p),
    ensures
        cong(p0 * (2 * z - z * (q * p)), p0 + q * p),
{
    lemma_cong_mul(q, q, z * (p0 * p), p0 - p);
    assert(p0 * (2 * z - z * (q * p)) == 2 * (z * p0) - q * (z * (p0 * p))) by (nonlinear_arith);
    lemma_cong_sub(2 * (z * p0), 2 * (z * p0), q * (z * (p0 * p)), q * (p0 - p));
    assert(2 * (z * p0) - q * (p0 - p) == p0 + q * p) by (nonlinear_arith)
        requires
            q == 2 * z - 1,
    ;
}

/// Twice the distance of a label from one half.
proof fn lemma_twice_distance(z: int, q: int, gamma: int)
    requires
        q == 2 * z - 1,
        cong(2 * gamma, 1),
    ensures
        cong(q, 2 * (z - gamma)),
{
    lemma_cong_sub(2 * z, 2 * z, 1, 2 * gamma);
}

/// The share of the label one half in the pad.
proof fn lemma_half_label(pg: int, p: int, z: int, q: int, gamma: int)
    requires
        q == 2 * z - 1,
        cong(2 * gamma, 1),
        cong((z - gamma) * (pg * p), pg - p),
    ensures
        cong(pg * (2 * z - z * (q * p)), 2 * (z * p)),
{
    lemma_twice_distance(z, q, gamma);
    let y = pg * p;
    lemma_cong_mul(q, 2 * (z - gamma), y, y);
    lemma_cong_mul(2, 2, (z - gamma) * y, pg - p);
    assert((2 * (z - gamma)) * y == 2 * ((z - gamma) * y)) by (nonlinear_arith);
    assert(cong(q * y, 2 * (pg - p)));
    lemma_cong_mul(z, z, q * y, 2 * (pg - p));
    assert(pg * (2 * z - z * (q * p)) == 2 * (z * pg) - z * (q * (pg * p))) by (nonlinear_arith);
    lemma_cong_sub(2 * (z * pg), 2 * (z * pg), z * (q * y), z * (2 * (pg - p)));
    assert(2 * (z * pg) - z * (2 * (pg - p)) == 2 * (z * p)) by (nonlinear_arith);
}

/// The slot's own reciprocals against its opening coefficient.
proof fn lemma_own_label(p: int, z: int, q: int, gamma: int, n: int, d: int, c: int, iz: int, ig: int)
    requires
        q == 2 * z - 1,
        cong(2 * gamma, 1),
        cong(2 * d, n - 1),
        cong(z * iz, 1),
        cong((z - gamma) * ig, 1),
        c == iz * ((n + 1) * gamma) + ig,
    ensures
        cong((q * p) * (d - z * c), -(q * p) - 2 * (z * p)),
{
    let h = (n + 1) * gamma;
    // z c == h + z ig
    lemma_cong_mul(z * iz, 1, h, h);
    lemma_cong_add((z * iz) * h, 1 * h, z * ig, z * ig);
    assert(z * c == (z * iz) * h + z * ig) by (nonlinear_arith)
        requires
            c == iz * h + ig,
    ;
    // d == (n - 1) gamma
    lemma_cong_mul(2 * gamma, 1, d, d);
    lemma_cong_mul(gamma, gamma, 2 * d, n - 1);
    assert((2 * gamma) * d == gamma * (2 * d)) by (nonlinear_arith);
    assert(cong(d, gamma * (n - 1)));
    // d - z c == -1 - z ig
    lemma_cong_sub(d, gamma * (n - 1), z * c, h + z * ig);
    assert(gamma * (n - 1) - (h + z * ig) == -(2 * gamma) - z * ig) by (nonlinear_arith)
        requires
            h == (n + 1) * gamma,
    ;
    lemma_cong_neg(2 * gamma, 1);
    lemma_cong_sub(-(2 * gamma), -1, z * ig, z * ig);
    assert(cong(d - z * c, -1 - z * ig));
    let k = q * p;
    lemma_cong_mul(k, k, d - z * c, -1 - z * ig);
    assert(k * (-1 - z * ig) == -k - (q * ig) * (z * p)) by (nonlinear_arith)
        requires
            k == q * p,
    ;
    // q ig == 2
    lemma_twice_distance(z, q, gamma);
    lemma_cong_mul(q, 2 * (z - gamma), ig, ig);
    lemma_cong_mul(2, 2, (z - gamma) * ig, 1);
    assert((2 * (z - gamma)) * ig == 2 * ((z - gamma) * ig)) by (nonlinear_arith);
    lemma_cong_mul(q * ig, 2, z * p, z * p);
    lemma_cong_sub(-k, -k, (q * ig) * (z * p), 2 * (z * p));
}

/// What a slot's own randomness is multiplied by in its pad is the fraction of the
/// label zero.
proof fn lemma_own_factor(
    p0: int,
    pg: int,
    ks: int,
    p: int,
    z: int,
    q: int,
    d: int,
    pd: int,
    c: int,
)
    requires
        cong(p0 * (2 * z - z * (q * p)), p0 + q * p),
        cong(pg * (2 * z - z * (q * p)), 2 * (z * p)),
        cong((q * p) * (d - z * c), -(q * p) - 2 * (z * p)),
        cong(pd, p * d + (z * p) * (ks - p)),
    ensures
        ({
            let s = p0 + pg + ks;
            cong(
                s * (2 * z) - s * (z * (q * p)) + (q * pd - ks * (2 * z) - (z * (q * p)) * c)
                    + (z * (
                q * p)) * p,
                p0,
            )
        }),
{
    let k = q * p;
    let zk = z * k;
    let s = p0 + pg + ks;
    let t = p * d + (z * p) * (ks - p);
    let m = 2 * z - zk;
    lemma_cong_mul(q, q, pd, t);
    assert(q * t == k * d + zk * (ks - p)) by (nonlinear_arith)
        requires
            t == p * d + (z * p) * (ks - p),
            k == q * p,
            zk == z * k,
    ;
    let rest = s * (2 * z) - s * zk - ks * (2 * z) - zk * c + zk * p;
    assert(rest + (k * d + zk * (ks - p)) == p0 * m + pg * m + k * (d - z * c)) by {
        assert(k * (d - z * c) == k * d - zk * c) by (nonlinear_arith)
            requires
                zk == z * k,
        ;
        assert(s * (2 * z) - s * zk == s * m) by (nonlinear_arith)
            requires
                m == 2 * z - zk,
        ;
        assert(s * m == p0 * m + pg * m + ks * m) by (nonlinear_arith)
            requires
                s == p0 + pg + ks,
        ;
        assert(ks * m == ks * (2 * z) - zk * ks) by (nonlinear_arith)
            requires
                m == 2 * z - zk,
        ;
        assert(zk * (ks - p) == zk * ks - zk * p) by (nonlinear_arith);
    }
    lemma_cong_add(rest, rest, q * pd, k * d + zk * (ks - p));
    lemma_cong_add(p0 * m, p0 + k, pg * m, 2 * (z * p));
    lemma_cong_add(p0 * m + pg * m, p0 + k + 2 * (z * p), k * (d - z * c), -k - 2 * (z * p));
}

/// The pad of a slot, put together from its three pairings and its convolution.
proof fn lemma_pad(
    second: int,
    gen: int,
    w1: int,
    s1: int,
    fk: int,
    sbk: int,
    r: int,
    mix: int,
    wp: int,
    s: int,
    z: int,
    q: int,
    p: int,
    n2: int,
    h: int,
    rd: int,
    rpd: int,
    rp: int,
    m: int,
    p0: int,
)
    requires
        cong(n2 * h, 1),
        cong(second, r * s),
        cong(gen, 2 * z),
        cong(w1, n2 * (q * rd)),
        cong(s1, n2 * (z * q)),
        cong(fk, p * h),
        cong(sbk, rp),
        cong(mix, m),
        cong(wp, q * rpd),
        cong((q * p) * rd - q * rpd + (z * (q * p)) * rp, (z * (q * p)) * (r * p)),
        cong(s * (2 * z) - s * (z * (q * p)) + m + (z * (q * p)) * p, p0),
    ensures
        cong(second * gen + (w1 - (second - sbk) * s1) * fk + r * mix - wp, r * p0),
{
    let zk = z * (q * p);
    let (first, second_term, third) = ((r * s) * (2 * z), (q * p) * rd, (r * s - rp) * zk);
    lemma_cong_mul(second, r * s, gen, 2 * z);
    lemma_cong_mul(w1, n2 * (q * rd), fk, p * h);
    lemma_scaled_product(n2, h, q * rd, p);
    assert((q * rd) * p == second_term) by (nonlinear_arith)
        requires
            second_term == (q * p) * rd,
    ;
    lemma_cong_mul(s1, n2 * (z * q), fk, p * h);
    lemma_scaled_product(n2, h, z * q, p);
    assert((z * q) * p == zk) by (nonlinear_arith)
        requires
            zk == z * (q * p),
    ;
    lemma_cong_sub(second, r * s, sbk, rp);
    lemma_cong_mul(second - sbk, r * s - rp, s1 * fk, zk);
    let b = second - sbk;
    assert((w1 - b * s1) * fk == w1 * fk - b * (s1 * fk)) by (nonlinear_arith);
    lemma_cong_sub(w1 * fk, second_term, b * (s1 * fk), third);
    lemma_cong_mul(r, r, mix, m);
    lemma_cong_add(second * gen, first, (w1 - b * s1) * fk, second_term - third);
    lemma_cong_add(
        second * gen + (w1 - b * s1) * fk,
        first + (second_term - third),
        r * mix,
        r * m,
    );
    lemma_cong_sub(
        second * gen + (w1 - b * s1) * fk + r * mix,
        first + (second_term - third) + r * m,
        wp,
        q * rpd,
    );
    let own = s * (2 * z) - s * zk + m;
    let others = second_term - q * rpd + zk * rp;
    assert(first + (second_term - third) + r * m - q * rpd == others + r * own) by {
        assert(third == r * (s * zk) - zk * rp) by (nonlinear_arith)
            requires
                third == (r * s - rp) * zk,
        ;
        assert(first == r * (s * (2 * z))) by (nonlinear_arith)
            requires
                first == (r * s) * (2 * z),
        ;
        let (e, f) = (s * (2 * z), s * zk);
        assert(r * (e - f + m) == r * e - r * f + r * m) by (nonlinear_arith);
    }
    lemma_cong_add(others, zk * (r * p), r * own, r * own);
    assert(zk * (r * p) + r * own == r * (own + zk * p)) by (nonlinear_arith);
    lemma_cong_mul(r, r, own + zk * p, p0);
}

/// `(n2 a) (p h)` is `a p` where `n2 h` is one.
proof fn lemma_scaled_product(n2: int, h: int, a: int, p: int)
    requires
        cong(n2 * h, 1),
    ensures
        cong((n2 * a) * (p * h), a * p),
{
    let e = a * p;
    lemma_cong_mul(n2 * h, 1, e, e);
    assert((n2 * a) * (p * h) == (n2 * h) * (a * p)) by (nonlinear_arith);
    assert(1 * e == e);
}

/// The sum of all fractions, split by labels.
proof fn lemma_relation_sum(x: int, n: int)
    requires
        0 <= n,
    ensures
        sum_of(fractions(x, n)) == inv(x) + inv(x + inv(2)) + sum_of(slot_fractions(x, n)),
{
    let all = fractions(x, n);
    let slots = slot_fractions(x, n);
    let f = items(all);
    lemma_sum_split(f, 0, 2, n + 2);
    assert(sum(f, 0, 0) == 0);
    assert(sum(f, 0, 1) == f(0));
    assert(sum(f, 0, 2) == f(0) + f(1));
    assert(labels(n)[0] == 0 && labels(n)[1] == inv(2));
    assert(x + 0 == x);
    assert forall|i: int| 0 <= i < n implies #[trigger] items(slots)(i) == f(i + 2) by {
        assert(labels(n)[i + 2] == slot_labels(n)[i]);
    }
    lemma_sum_shift(f, items(slots), 0, n, 2);
}

/// What the first component is paired with, without the scaling.
proof fn lemma_final_mix(decryption_key: &PublicDecryptionKey, x: int, j: int)
    requires
        decryption_key.wf(),
        views(decryption_key.fraction_keys@) == slot_fractions(x, decryption_key.batch_size as int),
        0 <= j < decryption_key.batch_size,
    ensures
        ({
            let n = decryption_key.batch_size as int;
            let all = slot_fractions(x, n);
            let z = slot_labels(n)[j];
            let q = 2 * z - 1;
            cong(
                final_mix(decryption_key, j),
                q * sum(met(all, n, j), 0, n) - sum_of(all) * (2 * z) - (z * (q * all[j]))
                    * opening_coefficient(z, n),
            )
        }),
{
    let n = decryption_key.batch_size as int;
    let all = slot_fractions(x, n);
    let keys = scaled_keys(decryption_key);
    let z = slot_labels(n)[j];
    let q = 2 * z - 1;
    let h = inv(2 * n);
    let c = opening_coefficient(z, n);
    lemma_labels(n, j);
    lemma_inv(2 * n);
    assert forall|i: int| 0 <= i < n implies cong(#[trigger] keys[i], all[i] * h) by {
        assert(views(decryption_key.fraction_keys@)[i] == all[i]);
        lemma_reduce(all[i] * h);
    }
    lemma_scaled_convolution(keys, all, h, n, j);
    let ks = sum_of(all);
    lemma_reduce(ks);
    lemma_cong_mul(decryption_key.fraction_key_sum@, ks, 2 * z, 2 * z);
    let (k, p) = (keys[j], all[j]);
    let f = scaled_factor(z, n);
    lemma_cong_mul(k, p * h, f * c, f * c);
    // (p h) ((2 n) (z q) c) == (z (q p)) c
    let y = (z * q) * c;
    assert(f * c == (2 * n) * y) by (nonlinear_arith)
        requires
            f == (2 * n) * (z * q),
            y == (z * q) * c,
    ;
    lemma_scaled_product(2 * n, h, y, p);
    assert((p * h) * ((2 * n) * y) == ((2 * n) * y) * (p * h)) by (nonlinear_arith);
    assert(y * p == (z * (q * p)) * c) by (nonlinear_arith)
        requires
            y == (z * q) * c,
    ;
    let w = weighted_log(keys, 2, j);
    let pd = sum(met(all, n, j), 0, n);
    lemma_cong_sub(w, q * pd, decryption_key.fraction_key_sum@ * (2 * z), ks * (2 * z));
    lemma_cong_sub(
        w - decryption_key.fraction_key_sum@ * (2 * z),
        q * pd - ks * (2 * z),
        k * (f * c),
        (z * (q * p)) * c,
    );
}

/// The pad of a slot is its randomness times the fraction of the label zero.
proof fn lemma_mask(
    material: &KeyMaterial,
    config: KeygenConfig,
    x: int,
    tails: Seq<Seq<int>>,
    kernel: &PartialFractionKernel,
    batch: &ValidatedBatch,
    precomputation: &BatchPrecomputation,
    pre_decryption_key: int,
    j: int,
)
    requires
        material.is_generated(config, x, tails),
        kernel.is_kernel_of(&material.decryption_key),
        batch.wf(),
        kernel.batch_size == batch.batch_size,
        precomputation.is_precomputation_of(kernel, batch),
        key_holds(&material.decryption_key, batch, pre_decryption_key),
        0 <= j < batch.batch_size,
        cong(
            batch.second_projective@[j]@,
            material.encryption_key.relation_base@ * batch.first_projective@[j]@,
        ),
    ensures
        cong(
            mask_log(kernel, batch, precomputation, pre_decryption_key, j),
            batch.first_projective@[j]@ * inv(x),
        ),
{
    let dk = &material.decryption_key;
    let n = batch.batch_size as int;
    let all = slot_fractions(x, n);
    let z = slot_labels(n)[j];
    let q = 2 * z - 1;
    let h = inv(2 * n);
    let c = opening_coefficient(z, n);
    let rs = views(batch.first_projective@);
    let r = rs[j];
    let p = all[j];
    let (p0, gamma) = (inv(x), inv(2));
    let pg = inv(x + gamma);
    let ks = sum_of(all);
    let log = lemma_size(n);
    lemma_labels(n, j);
    lemma_inv(2 * n);
    lemma_inv(2);
    lemma_inv(z);
    assert(labels(n)[0] == 0 && labels(n)[1] == gamma);
    assert(is_unit(x + labels(n)[0]) && is_unit(x + labels(n)[1]));
    assert forall|i: int| 0 <= i < n implies is_unit(x + #[trigger] slot_labels(n)[i]) by {
        assert(labels(n)[i + 2] == slot_labels(n)[i]);
        assert(is_unit(x + labels(n)[i + 2]));
    }
    assert(slots_are_units(x, n));
    assert(x + 0 == x);
    // the slot's own factor
    lemma_fraction_difference(x, 0, z);
    assert(z - 0 == z);
    lemma_zero_label(p0, p, z, q);
    lemma_fraction_difference(x, gamma, z);
    lemma_half_label(pg, p, z, q, gamma);
    lemma_reciprocal_total(inverse_root(n), log, j);
    let d = sum(reciprocals(n, j), 0, n);
    lemma_inv(z - gamma);
    lemma_own_label(p, z, q, gamma, n, d, c, inv(z), inv(z - gamma));
    lemma_fraction_sum(x, n, j);
    let pd = sum(met(all, n, j), 0, n);
    lemma_own_factor(p0, pg, ks, p, z, q, d, pd, c);
    // the other slots
    lemma_others_cancel(x, n, j, rs, q);
    // the pairings
    let s = sum_of(fractions(x, n));
    lemma_relation_sum(x, n);
    lemma_reduce(s);
    lemma_cong_mul(material.encryption_key.relation_base@, s, r, r);
    assert(s * r == r * s) by (nonlinear_arith);
    lemma_reduce(2 * z);
    lemma_plain_convolution(rs, n, j);
    lemma_reduce(weighted_log(rs, 2, j));
    lemma_reduce(scaled_factor(z, n));
    assert(views(dk.fraction_keys@)[j] == p);
    lemma_reduce(p * h);
    lemma_final_mix(dk, x, j);
    lemma_reduce(final_mix(dk, j));
    let values = pairing_logs(kernel, batch);
    let bare = fraction_products(rs, all);
    assert forall|i: int| 0 <= i < n implies cong(#[trigger] values[i], bare[i] * h) by {
        assert(views(dk.fraction_keys@)[i] == all[i]);
        let fk = kernel.scaled_fraction_keys@[i]@;
        lemma_reduce(all[i] * h);
        lemma_reduce(rs[i] * fk);
        lemma_cong_mul(rs[i], rs[i], fk, all[i] * h);
        let (a, b) = (rs[i], all[i]);
        assert(a * (b * h) == (a * b) * h) by (nonlinear_arith);
    }
    lemma_scaled_convolution(values, bare, h, n, j);
    lemma_reduce(weighted_log(values, 2, j));
    lemma_pad(
        batch.second_projective@[j]@,
        kernel.scaled_generators@[j]@,
        precomputation.weighted_first@[j]@,
        kernel.scaled_s1@[j]@,
        kernel.scaled_fraction_keys@[j]@,
        pre_decryption_key,
        r,
        kernel.final_mixes@[j]@,
        precomputation.weighted_pairings@[j]@,
        s,
        z,
        q,
        p,
        2 * n,
        h,
        sum(met(rs, n, j), 0, n),
        sum(met(bare, n, j), 0, n),
        dot(rs, all),
        q * pd - ks * (2 * z) - (z * (q * p)) * c,
        p0,
    );
}

/// Opening gives back the message. For a batch and a combined point that passes
/// its check, what a slot opens to is the message that its ciphertext was made of,
/// whatever stands in the other slots.
pub proof fn law_open_recovers_message(
    material: &KeyMaterial,
    config: KeygenConfig,
    x: int,
    tails: Seq<Seq<int>>,
    kernel: &PartialFractionKernel,
    batch: &ValidatedBatch,
    ciphertexts: Seq<Ciphertext>,
    precomputation: &BatchPrecomputation,
    pre_decryption_key: int,
    slot: int,
    message: int,
)
    requires
        material.is_generated(config, x, tails),
        kernel.is_kernel_of(&material.decryption_key),
        kernel.batch_size == batch.batch_size,
        batch.is_batch_of(ciphertexts),
        precomputation.is_precomputation_of(kernel, batch),
        key_holds(&material.decryption_key, batch, pre_decryption_key),
        0 <= slot < batch.batch_size,
        ciphertexts[slot].encrypts(&material.encryption_key, message),
        0 <= message < order(),
    ensures
        opened_log(
            ciphertexts[slot].third@,
            mask_log(kernel, batch, precomputation, pre_decryption_key, slot),
        ) == message,
{
    let key = &material.encryption_key;
    let r = ciphertexts[slot].first@;
    assert(views(batch.first_projective@)[slot] == first_logs(ciphertexts)[slot]);
    assert(views(batch.second_projective@)[slot] == second_logs(ciphertexts)[slot]);
    lemma_reduce(key.relation_base@ * r);
    lemma_mask(
        material,
        config,
        x,
        tails,
        kernel,
        batch,
        precomputation,
        pre_decryption_key,
        slot,
    );
    let mask = mask_log(kernel, batch, precomputation, pre_decryption_key, slot);
    let base = key.masking_base@;
    lemma_reduce(message + base * r);
    lemma_cong_sub(ciphertexts[slot].third@, message + base * r, mask, r * base);
    assert(base * r == r * base) by (nonlinear_arith);
    lemma_reduced(message);
}

/// The share that a server makes passes its check: where the shares are
/// committed to, checking it against the commitments succeeds.
pub proof fn law_honest_share_passes(
    material: &KeyMaterial,
    config: KeygenConfig,
    x: int,
    tails: Seq<Seq<int>>,
    batch: &ValidatedBatch,
    server: int,
    share: DecryptionShare,
)
    requires
        material.is_generated(config, x, tails),
        config.publish_share_commitments,
        batch.wf(),
        batch.batch_size == config.batch_size,
        0 <= server < config.server_count,
        share.is_share_of(&material.server_keys@[server], batch),
    ensures
        share_check(&material.decryption_key, batch, share) == Ok::<bool, Error>(true),
{
    let dk = &material.decryption_key;
    let n = batch.batch_size as int;
    let key = material.server_keys@[server];
    assert(key.is_key_of(server, slot_fractions(x, n), tails));
    let a = views(batch.first_projective@);
    let held = views(key.fraction_shares@);
    let logs = commitment_logs(dk, server, n);
    assert forall|i: int| 0 <= i < a.len() implies #[trigger] products(a, held)(i) == products(
        a,
        logs,
    )(i) by {
        let commitments = dk.share_commitments->0;
        assert(views(commitments@[server]@) == held);
        assert(views(commitments@[server]@)[i] == held[i]);
    }
    lemma_sum_ext(products(a, held), products(a, logs), 0, a.len() as int);
    lemma_reduce(dot(a, held));
}

/// Whether shares are what different servers make of a batch, enough of them.
pub open spec fn are_honest(
    material: &KeyMaterial,
    config: KeygenConfig,
    batch: &ValidatedBatch,
    shares: Seq<DecryptionShare>,
) -> bool {
    &&& batch.batch_size == config.batch_size
    &&& config.threshold < shares.len()
    &&& forall|k: int|
        0 <= k < shares.len() ==> (#[trigger] shares[k]).server_index < config.server_count
            && shares[k].is_share_of(
            &material.server_keys@[shares[k].server_index as int],
            batch,
        )
    &&& forall|k: int, l: int|
        0 <= k < l < shares.len() ==> (#[trigger] shares[k]).server_index != (
        #[trigger] shares[l]).server_index
}

/// The shares of enough different servers combine to a point that passes its
/// check. That their points are separated is what combining them finds out.
pub proof fn lemma_honest_shares_combine(
    material: &KeyMaterial,
    config: KeygenConfig,
    x: int,
    tails: Seq<Seq<int>>,
    batch: &ValidatedBatch,
    shares: Seq<DecryptionShare>,
)
    requires
        material.is_generated(config, x, tails),
        tails_fit(config, tails),
        batch.wf(),
        are_honest(material, config, batch, shares),
        shares.len() <= usize::MAX,
        separated(share_points(shares)),
    ensures
        combined(&material.decryption_key, batch, shares) matches Ok(point) && key_holds(
            &material.decryption_key,
            batch,
            point,
        ),
{
    let dk = &material.decryption_key;
    lemma_no_share_defect(dk, batch, shares, 0);
    let xs = share_points(shares);
    let ws = weights(xs);
    let points = share_keys(shares);
    let f = views(batch.first_projective@);
    let n = batch.batch_size as int;
    let all = slot_fractions(x, n);
    let s = shares.len() as int;
    // sum over the servers of weight * sum over the slots of first * share
    let t = |k: int, i: int| f[i] * (ws[k] * eval(seq![all[i]] + tails[i], xs[k]));
    let rows = |k: int| sum(|i: int| t(k, i), 0, n);
    let columns = |i: int| sum(|k: int| t(k, i), 0, s);
    let outer = products(points, ws);
    assert forall|k: int| 0 <= k < s implies cong(#[trigger] outer(k), rows(k)) by {
        let server = shares[k].server_index as int;
        let key = material.server_keys@[server];
        assert(key.is_key_of(server, all, tails));
        let held = views(key.fraction_shares@);
        lemma_reduce(dot(f, held));
        lemma_cong_mul(points[k], dot(f, held), ws[k], ws[k]);
        let row = |i: int| t(k, i);
        let g = |i: int| ws[k] * products(f, held)(i);
        lemma_sum_scale(ws[k], products(f, held), g, 0, n);
        assert(dot(f, held) * ws[k] == ws[k] * dot(f, held)) by (nonlinear_arith);
        assert forall|i: int| 0 <= i < n implies cong(#[trigger] g(i), row(i)) by {
            let e = eval(seq![all[i]] + tails[i], xs[k]);
            assert(held[i] == e % order());
            lemma_reduce(e);
            lemma_cong_mul(ws[k] * f[i], ws[k] * f[i], held[i], e);
            assert(ws[k] * (f[i] * held[i]) == (ws[k] * f[i]) * held[i]) by (nonlinear_arith);
            assert((ws[k] * f[i]) * e == f[i] * (ws[k] * e)) by (nonlinear_arith);
        }
        lemma_sum_cong(g, row, 0, n);
    }
    lemma_sum_cong(outer, rows, 0, s);
    lemma_sum_swap(t, s, n);
    let target = products(f, all);
    assert forall|i: int| 0 <= i < n implies cong(#[trigger] columns(i), target(i)) by {
        let c = seq![all[i]] + tails[i];
        assert(tails[i].len() == config.threshold);
        lemma_interpolate(xs, c);
        let weighted = |k: int| weight(xs, k) * eval(c, xs[k]);
        let column = |k: int| t(k, i);
        lemma_sum_scale(f[i], weighted, column, 0, s);
        lemma_cong_mul(f[i], f[i], sum(weighted, 0, s), c[0]);
        assert(columns(i) == sum(column, 0, s));
    }
    lemma_sum_cong(columns, target, 0, n);
    lemma_reduce(dot(points, ws));
}

proof fn lemma_no_share_defect(
    decryption_key: &PublicDecryptionKey,
    batch: &ValidatedBatch,
    shares: Seq<DecryptionShare>,
    from: int,
)
    requires
        0 <= from,
        forall|k: int|
            0 <= k < shares.len() ==> (#[trigger] shares[k]).server_index
                < decryption_key.server_count && shares[k].batch_digest@ == batch.digest@,
        forall|k: int, l: int|
            0 <= k < l < shares.len() ==> (#[trigger] shares[k]).server_index != (
            #[trigger] shares[l]).server_index,
    ensures
        first_defect(decryption_key.server_count, batch.digest@, shares, from) is None,
    decreases shares.len() - from,
{
    if from < shares.len() {
        lemma_no_share_defect(decryption_key, batch, shares, from + 1);
        assert(shares[from].batch_digest@ == batch.digest@);
    }
}

/// A share that passes its check is the one that its server makes.
pub proof fn law_passing_share_is_honest(
    material: &KeyMaterial,
    config: KeygenConfig,
    x: int,
    tails: Seq<Seq<int>>,
    batch: &ValidatedBatch,
    share: DecryptionShare,
)
    requires
        material.is_generated(config, x, tails),
        batch.wf(),
        batch.batch_size == config.batch_size,
        share_check(&material.decryption_key, batch, share) == Ok::<bool, Error>(true),
        config.publish_share_commitments,
    ensures
        share.server_index < config.server_count,
        share.is_share_of(&material.server_keys@[share.server_index as int], batch),
{
    let dk = &material.decryption_key;
    let server = share.server_index as int;
    let key = material.server_keys@[server];
    assert(key.is_key_of(server, slot_fractions(x, batch.batch_size as int), tails));
    let a = views(batch.first_projective@);
    let held = views(key.fraction_shares@);
    let logs = commitment_logs(dk, server, batch.batch_size as int);
    assert forall|i: int| 0 <= i < a.len() implies #[trigger] products(a, held)(i) == products(
        a,
        logs,
    )(i) by {
        let commitments = dk.share_commitments->0;
        assert(views(commitments@[server]@) == held);
        assert(views(commitments@[server]@)[i] == held[i]);
    }
    lemma_sum_ext(products(a, held), products(a, logs), 0, a.len() as int);
    share.pre_decryption_key.lemma_range();
    lemma_reduced(share.pre_decryption_key@);
}

/// Whether shares are of different servers of a committee, for a batch.
pub open spec fn are_distinct(
    server_count: usize,
    batch: &ValidatedBatch,
    shares: Seq<DecryptionShare>,
) -> bool {
    &&& forall|k: int|
        0 <= k < shares.len() ==> (#[trigger] shares[k]).server_index < server_count
            && shares[k].batch_digest@ == batch.digest@
    &&& forall|k: int, l: int|
        0 <= k < l < shares.len() ==> (#[trigger] shares[k]).server_index != (
        #[trigger] shares[l]).server_index
}

/// The shares that pass are among those given, each of them passes, and their
/// servers are different where all are.
proof fn lemma_passing(
    decryption_key: &PublicDecryptionKey,
    batch: &ValidatedBatch,
    shares: Seq<DecryptionShare>,
)
    requires
        are_distinct(decryption_key.server_count, batch, shares),
    ensures
        ({
            let rest = passing(decryption_key, batch, shares);
            &&& rest.len() <= shares.len()
            &&& are_distinct(decryption_key.server_count, batch, rest)
            &&& forall|k: int|
                0 <= k < rest.len() ==> share_check(decryption_key, batch, #[trigger] rest[k])
                    == Ok::<bool, Error>(true) && shares.contains(rest[k])
        }),
    decreases shares.len(),
{
    if shares.len() > 0 {
        let front = shares.drop_last();
        let before = passing(decryption_key, batch, front);
        let rest = passing(decryption_key, batch, shares);
        assert forall|k: int, l: int| 0 <= k < l < front.len() implies (
        #[trigger] front[k]).server_index != (#[trigger] front[l]).server_index by {
            assert(shares[k].server_index != shares[l].server_index);
        }
        assert forall|k: int| 0 <= k < front.len() implies (#[trigger] front[k]).server_index
            < decryption_key.server_count && front[k].batch_digest@ == batch.digest@ by {
            assert(shares[k].server_index < decryption_key.server_count);
        }
        lemma_passing(decryption_key, batch, front);
        assert forall|k: int| 0 <= k < before.len() implies (#[trigger] before[k]).server_index
            != shares.last().server_index && shares.contains(before[k]) by {
            assert(front.contains(before[k]));
            let i = front.index_of(before[k]);
            assert(front[i] == before[k]);
            assert(shares[i] == before[k]);
            assert(shares[i].server_index != shares[shares.len() - 1].server_index);
        }
        assert(shares.contains(shares.last())) by {
            assert(shares[shares.len() - 1] == shares.last());
        }
        assert(shares[shares.len() - 1].server_index < decryption_key.server_count);
        if share_check(decryption_key, batch, shares.last()) == Ok::<bool, Error>(true) {
            assert(rest == before.push(shares.last()));
        } else {
            assert(rest == before);
        }
    }
}

/// Bad shares are left out: where the servers are different ones of the committee
/// and enough of the shares pass their checks, those that pass are honest.
pub proof fn law_bad_shares_are_left_out(
    material: &KeyMaterial,
    config: KeygenConfig,
    x: int,
    tails: Seq<Seq<int>>,
    batch: &ValidatedBatch,
    shares: Seq<DecryptionShare>,
)
    requires
        material.is_generated(config, x, tails),
        config.publish_share_commitments,
        batch.wf(),
        batch.batch_size == config.batch_size,
        are_distinct(config.server_count, batch, shares),
        passing(&material.decryption_key, batch, shares).len() > config.threshold,
    ensures
        are_honest(
            material,
            config,
            batch,
            passing(&material.decryption_key, batch, shares),
        ),
{
    let rest = passing(&material.decryption_key, batch, shares);
    lemma_passing(&material.decryption_key, batch, shares);
    assert forall|k: int| 0 <= k < rest.len() implies (#[trigger] rest[k]).server_index
        < config.server_count && rest[k].is_share_of(
        &material.server_keys@[rest[k].server_index as int],
        batch,
    ) by {
        law_passing_share_is_honest(material, config, x, tails, batch, rest[k]);
    }
}

/// Shares of which enough pass can be combined, and none of their checks is an error.
pub proof fn lemma_recoverable(
    decryption_key: &PublicDecryptionKey,
    batch: &ValidatedBatch,
    shares: Seq<DecryptionShare>,
)
    requires
        is_recoverable(decryption_key, batch, shares),
        decryption_key.wf(),
    ensures
        combined(decryption_key, batch, shares) is Ok,
        check_error(decryption_key, batch, shares, 0) is None,
{
    lemma_passing(decryption_key, batch, shares);
    lemma_no_share_defect(decryption_key, batch, shares, 0);
    lemma_no_check_error(decryption_key, batch, shares, 0);
}

proof fn lemma_no_check_error(
    decryption_key: &PublicDecryptionKey,
    batch: &ValidatedBatch,
    shares: Seq<DecryptionShare>,
    from: int,
)
    requires
        is_recoverable(decryption_key, batch, shares),
        decryption_key.wf(),
        0 <= from,
    ensures
        check_error(decryption_key, batch, shares, from) is None,
    decreases shares.len() - from,
{
    if from < shares.len() {
        assert(shares[from].server_index < decryption_key.server_count);
        lemma_no_check_error(decryption_key, batch, shares, from + 1);
    }
}

/// The shares that pass, where enough do, are honest shares of some key material.
pub proof fn lemma_recovery(
    decryption_key: &PublicDecryptionKey,
    batch: &ValidatedBatch,
    shares: Seq<DecryptionShare>,
) -> (witness: (KeyMaterial, KeygenConfig, int, Seq<Seq<int>>))
    requires
        is_recoverable(decryption_key, batch, shares),
    ensures
        witness.0.is_generated(witness.1, witness.2, witness.3),
        tails_fit(witness.1, witness.3),
        witness.0.decryption_key == *decryption_key,
        are_honest(
            &witness.0,
            witness.1,
            batch,
            passing(decryption_key, batch, shares),
        ),
{
    let (material, config, x, tails) = choose|
        material: KeyMaterial,
        config: KeygenConfig,
        x: int,
        tails: Seq<Seq<int>>,
    | is_material(material, config, x, tails, decryption_key);
    law_bad_shares_are_left_out(&material, config, x, tails, batch, shares);
    (material, config, x, tails)
}

/// Honest shares are not refused.
pub proof fn lemma_honest_shares_are_valid(
    material: &KeyMaterial,
    config: KeygenConfig,
    x: int,
    tails: Seq<Seq<int>>,
    batch: &ValidatedBatch,
    shares: Seq<DecryptionShare>,
)
    requires
        material.is_generated(config, x, tails),
        are_honest(material, config, batch, shares),
    ensures
        combined(&material.decryption_key, batch, shares) is Ok,
{
    lemma_no_share_defect(&material.decryption_key, batch, shares, 0);
}

/// The shares that pass are those whose check says so, in their order.
pub proof fn law_passing_shares(
    decryption_key: &PublicDecryptionKey,
    batch: &ValidatedBatch,
    shares: Seq<DecryptionShare>,
)
    ensures
        passing(decryption_key, batch, shares) == shares.filter(
            |share: DecryptionShare|
                share_check(decryption_key, batch, share) == Ok::<bool, Error>(true),
        ),
    decreases shares.len(),
{
    reveal(Seq::filter);
    if shares.len() > 0 {
        law_passing_shares(decryption_key, batch, shares.drop_last());
    }
}

/// A ciphertext is valid exactly where its proof answers a challenge for the claim that its first
/// two components are the same multiple of the generator and of the key's base.
pub proof fn law_valid_ciphertext_proves_its_claim(
    encryption_key: &EncryptionKey,
    ciphertext: Ciphertext,
)
    ensures
        ciphertext.is_valid(encryption_key) <==> {
            let (base, made) = (encryption_key.relation_base@, ciphertext.proof);
            let found = challenge_of(
                base,
                ciphertext.first@,
                ciphertext.second@,
                made.first_commitment@,
                made.second_commitment@,
            );
            &&& found is Some
            &&& cong(made.first_commitment@ + ciphertext.first@ * found->0, made.response@)
            &&& cong(
                made.second_commitment@ + ciphertext.second@ * found->0,
                base * made.response@,
            )
        },
{
}

} // verus!
