//! Verification of batches, shares, and decryption with and without transforms.
use vstd::arithmetic::power::pow;
use vstd::arithmetic::power2::pow2;
use vstd::prelude::*;

use crate::algebra::dft::{
    convolution, convolution_terms, dft, dft_all, lemma_dft_cong, lemma_middle_product, modulated,
    padded,
};
use crate::algebra::lagrange::{eval, lemma_interpolate, ratio, separated, weight, weights};
use crate::algebra::primality::{lemma_one_difference, lemma_one_weight};
use crate::algebra::residue::{
    cong, inv, is_unit, lemma_cong_add, lemma_cong_diff, lemma_cong_mul, lemma_cong_sub, lemma_inv,
    lemma_inv_unique, lemma_one, lemma_order, lemma_reduce, lemma_reduced, lemma_unit_cong, order,
};
use crate::algebra::roots::{lemma_domain_root, lemma_root_unit};
use crate::algebra::sums::{
    dot, lemma_dot_push, lemma_prod_ext, lemma_sum_cong, lemma_sum_scale, lemma_sum_split,
    lemma_sum_swap, lemma_sum_zero, prod, prod_but, products, skip, sum,
};
use crate::curve::views;
use crate::fft::{lemma_size_root, size_root};
use crate::middle::{cross_term, cross_terms_of};
use crate::points::power_range;
use crate::sampling::drawn_since;
use crate::simple_bte::ark::{
    ark_pair, ark_pair_all, draw_ark_scalars, ArkG1, ArkG2, ArkGt, ArkScalar, RandomSource,
};
use crate::simple_bte::crs::share_row;
use crate::simple_bte::keys::{
    schnorr_challenge, Ciphertext, DecryptionKey, PartialDecryption, SecretKey,
};

verus! {

/// The first components of ciphertexts.
pub open spec fn first_logs(cts: Seq<Ciphertext>) -> Seq<int> {
    Seq::new(cts.len(), |i: int| cts[i].ct1@)
}

/// The responses of the proofs.
pub open spec fn responses(cts: Seq<Ciphertext>) -> Seq<int> {
    Seq::new(cts.len(), |i: int| cts[i].proof.response@)
}

/// What the responses must be the logarithms of.
pub open spec fn proof_sides(cts: Seq<Ciphertext>) -> Seq<int> {
    Seq::new(cts.len(), |i: int| cts[i].proof_side())
}

/// Whether the proofs of ciphertexts hold together, weighted with `weights`.
pub open spec fn proofs_hold(cts: Seq<Ciphertext>, weights: Seq<int>) -> bool {
    cong(dot(responses(cts), weights), dot(proof_sides(cts), weights))
}

/// Proofs that hold one by one hold together, whatever the weights are.
pub proof fn law_batch_accepts_valid_proofs(cts: Seq<Ciphertext>, weights: Seq<int>)
    requires
        forall|i: int| 0 <= i < cts.len() ==> (#[trigger] cts[i]).is_valid(),
    ensures
        proofs_hold(cts, weights),
{
    let (f, g) = (products(responses(cts), weights), products(proof_sides(cts), weights));
    assert forall|i: int| 0 <= i < cts.len() implies cong(#[trigger] f(i), g(i)) by {
        assert(cts[i].is_valid());
        lemma_cong_mul(responses(cts)[i], proof_sides(cts)[i], weights[i], weights[i]);
    }
    lemma_sum_cong(f, g, 0, cts.len() as int);
}

/// Where exactly one proof does not hold, the proofs do not hold together, whatever the
/// weights are, as long as that proof's weight is not zero.
pub proof fn law_one_bad_proof_is_refused(cts: Seq<Ciphertext>, weights: Seq<int>, bad: int)
    requires
        weights.len() == cts.len(),
        0 <= bad < cts.len(),
        !cts[bad].is_valid(),
        forall|i: int| 0 <= i < cts.len() && i != bad ==> (#[trigger] cts[i]).is_valid(),
        0 < weights[bad] < order(),
    ensures
        !proofs_hold(cts, weights),
{
    assert forall|i: int| 0 <= i < cts.len() && i != bad implies cong(
        #[trigger] responses(cts)[i],
        proof_sides(cts)[i],
    ) by {
        assert(cts[i].is_valid());
    }
    lemma_reduced(weights[bad]);
    lemma_one();
    lemma_one_difference(responses(cts), proof_sides(cts), weights, bad);
}

/// Checks the proofs of a batch together, with the given weights, by one sum of products.
pub fn verify_ciphertext_batch_with_weights(cts: &[Ciphertext], weights: &Vec<ArkScalar>) -> (valid:
    bool)
    requires
        weights@.len() == cts@.len(),
    ensures
        valid == proofs_hold(cts@, views(weights@)),
{
    let ghost (zs, sides, ws) = (responses(cts@), proof_sides(cts@), views(weights@));
    if cts.len() == 0 {
        return true;
    }
    let mut lhs_scalar = ArkScalar::zero();
    let mut rhs_bases: Vec<ArkG1> = Vec::new();
    let mut rhs_scalars: Vec<ArkScalar> = Vec::new();
    let mut index: usize = 0;
    while index < cts.len()
        invariant
            weights@.len() == cts@.len(),
            zs == responses(cts@),
            sides == proof_sides(cts@),
            ws == views(weights@),
            index <= cts@.len(),
            rhs_bases@.len() == rhs_scalars@.len(),
            cong(lhs_scalar@, sum(products(zs, ws), 0, index as int)),
            cong(
                dot(views(rhs_bases@), views(rhs_scalars@)),
                sum(products(sides, ws), 0, index as int),
            ),
        decreases cts@.len() - index,
    {
        let ct = cts[index];
        let weight = weights[index];
        let challenge = schnorr_challenge(&ct.ct1, &ct.ct2, &ct.proof.commitment);
        let term = weight.times(ct.proof.response);
        let scaled = weight.times(challenge);
        let ghost (bases, scalars) = (views(rhs_bases@), views(rhs_scalars@));
        proof {
            let i = index as int;
            let (w, z, c) = (weight@, ct.proof.response@, challenge@);
            let (f, g) = (products(zs, ws), products(sides, ws));
            lemma_reduce(w * z);
            assert(w * z == z * w) by (nonlinear_arith);
            lemma_cong_add(lhs_scalar@, sum(f, 0, i), term@, f(i));
            lemma_reduce(lhs_scalar@ + term@);
            // the two products that the batch grows by
            let (a, x) = (ct.proof.commitment@, ct.ct1@);
            lemma_dot_push(bases, scalars, a, w);
            lemma_dot_push(bases.push(a), scalars.push(w), x, scaled@);
            lemma_reduce(w * c);
            lemma_cong_mul(x, x, scaled@, w * c);
            lemma_cong_add(a * w, a * w, x * scaled@, x * (w * c));
            assert(a * w + x * (w * c) == (a + x * c) * w) by (nonlinear_arith);
            lemma_cong_add(
                dot(bases, scalars),
                sum(g, 0, i),
                a * w + x * scaled@,
                g(i),
            );
        }
        lhs_scalar = lhs_scalar.plus(term);
        rhs_bases.push(ct.proof.commitment);
        rhs_scalars.push(weight);
        rhs_bases.push(ct.ct1);
        rhs_scalars.push(scaled);
        proof {
            assert(views(rhs_bases@) =~= bases.push(ct.proof.commitment@).push(ct.ct1@));
            assert(views(rhs_scalars@) =~= scalars.push(weight@).push(scaled@));
        }
        index = index + 1;
    }
    let lhs = ArkG1::generator().times(lhs_scalar);
    let rhs = ArkG1::msm(&rhs_bases, &rhs_scalars);
    proof {
        assert(1 * lhs_scalar@ == lhs_scalar@);
    }
    lhs == rhs
}

/// Whether so many residues were drawn between two states of a source's record.
pub open spec fn are_drawn(before: Seq<int>, after: Seq<int>, count: int) -> bool {
    &&& before.is_prefix_of(after)
    &&& after.len() == before.len() + count
    &&& forall|i: int| 0 <= i < count ==> 0 <= #[trigger] drawn_since(before, after)[i] < order()
}

/// Checks the proofs of a batch together with random weights.
pub fn verify_ciphertext_batch<R: RandomSource>(cts: &[Ciphertext], rng: &mut R) -> (valid: bool)
    ensures
        are_drawn(
            old(rng).drawn_scalars(),
            final(rng).drawn_scalars(),
            cts@.len() as int,
        ),
        final(rng).drawn_keys() == old(rng).drawn_keys(),
        valid == proofs_hold(
            cts@,
            drawn_since(old(rng).drawn_scalars(), final(rng).drawn_scalars()),
        ),
        (forall|i: int| 0 <= i < cts@.len() ==> (#[trigger] cts@[i]).is_valid()) ==> valid,
{
    let ghost start = rng.drawn_scalars();
    let weights = draw_ark_scalars(rng, cts.len());
    proof {
        assert(views(weights@).len() == cts@.len());
        assert(drawn_since(start, rng.drawn_scalars()) =~= views(weights@));
        assert forall|i: int| 0 <= i < cts@.len() implies 0 <= #[trigger] drawn_since(
            start,
            rng.drawn_scalars(),
        )[i] < order() by {
            weights@[i].lemma_range();
        }
        if forall|i: int| 0 <= i < cts@.len() ==> (#[trigger] cts@[i]).is_valid() {
            law_batch_accepts_valid_proofs(cts@, views(weights@));
        }
    }
    verify_ciphertext_batch_with_weights(cts, &weights)
}

impl PartialDecryption {
    /// Whether this is what the party with the given key makes of points: their sum, each
    /// times the party's share for its slot.
    pub open spec fn is_share_of(self, sk: &SecretKey, firsts: Seq<int>) -> bool {
        &&& self.party_index == sk.party_index
        &&& self.value@ == dot(firsts, views(sk.shares@)) % order()
    }
}

/// The first components of a batch.
fn first_points(cts: &[Ciphertext]) -> (points: Vec<ArkG1>)
    ensures
        points@.len() == cts@.len(),
        views(points@) == first_logs(cts@),
{
    let mut points: Vec<ArkG1> = Vec::new();
    while points.len() < cts.len()
        invariant
            points@.len() <= cts@.len(),
            forall|i: int| 0 <= i < points@.len() ==> (#[trigger] points@[i])@ == cts@[i].ct1@,
        decreases cts@.len() - points@.len(),
    {
        points.push(cts[points.len()].ct1);
    }
    assert(views(points@) =~= first_logs(cts@));
    points
}

/// The share of a party for points.
pub fn share_of_points(sk: &SecretKey, points: &Vec<ArkG1>) -> (pd: PartialDecryption)
    requires
        points@.len() == sk.shares@.len(),
    ensures
        pd.is_share_of(sk, views(points@)),
{
    let value = ArkG1::msm(points, &sk.shares);
    PartialDecryption { value, party_index: sk.party_index }
}

/// The share of a party for a batch, after the proofs of the batch have been checked;
/// nothing where they do not hold.
pub fn partial_decrypt<R: RandomSource>(sk: &SecretKey, cts: &[Ciphertext], rng: &mut R) -> (result:
    Option<PartialDecryption>)
    requires
        cts@.len() == sk.shares@.len(),
    ensures
        are_drawn(
            old(rng).drawn_scalars(),
            final(rng).drawn_scalars(),
            cts@.len() as int,
        ),
        final(rng).drawn_keys() == old(rng).drawn_keys(),
        result is Some <==> proofs_hold(
            cts@,
            drawn_since(old(rng).drawn_scalars(), final(rng).drawn_scalars()),
        ),
        result matches Some(pd) ==> pd.is_share_of(sk, first_logs(cts@)),
        (forall|i: int| 0 <= i < cts@.len() ==> (#[trigger] cts@[i]).is_valid()) ==> result is Some,
{
    if !verify_ciphertext_batch(cts, rng) {
        return None;
    }
    Some(partial_decrypt_preverified(sk, cts))
}

/// The share of a party for a batch whose proofs were checked before.
pub fn partial_decrypt_preverified(sk: &SecretKey, cts: &[Ciphertext]) -> (pd: PartialDecryption)
    requires
        cts@.len() == sk.shares@.len(),
    ensures
        pd.is_share_of(sk, first_logs(cts@)),
{
    share_of_points(sk, &first_points(cts))
}

/// Whether a share is the sum of points, each times the committed share for its slot.
pub open spec fn share_holds(dk: &DecryptionKey, pd: PartialDecryption, firsts: Seq<int>) -> bool {
    cong(pd.value@, dot(firsts, views(dk.verification_keys@[pd.party_index - 1]@)))
}

/// Checks a share for points against the verification keys of its party.
pub fn verify_points(
    dk: &DecryptionKey,
    pd: &PartialDecryption,
    points: &Vec<ArkG1>,
) -> (valid: bool)
    requires
        dk.wf(),
        points@.len() == dk.batch_size,
        1 <= pd.party_index <= dk.num_parties,
    ensures
        valid == share_holds(dk, *pd, views(points@)),
{
    let party = pd.party_index - 1;
    assert(dk.verification_keys@[party as int]@.len() == dk.batch_size);
    let lhs = ark_pair(pd.value, ArkG2::generator());
    let rhs = ark_pair_all(points, &dk.verification_keys[party]);
    proof {
        pd.value.lemma_range();
        lemma_reduced(pd.value@);
        assert(pd.value@ * 1 == pd.value@);
    }
    lhs == rhs
}

/// Checks a share for a batch against the verification keys of its party. The proofs of
/// the batch were checked before.
pub fn verify(dk: &DecryptionKey, pd: &PartialDecryption, cts: &[Ciphertext]) -> (valid: bool)
    requires
        dk.wf(),
        cts@.len() == dk.batch_size,
        1 <= pd.party_index <= dk.num_parties,
    ensures
        valid == share_holds(dk, *pd, first_logs(cts@)),
{
    verify_points(dk, pd, &first_points(cts))
}

/// The quotient of two residues, and zero where the divisor is zero.
pub open spec fn quotient(a: int, b: int) -> int {
    if cong(b, 0) {
        0
    } else {
        a * inv(b)
    }
}

pub open spec fn quotients(xs: Seq<int>, i: int) -> spec_fn(int) -> int {
    |j: int| quotient(xs[j], xs[j] - xs[i])
}

/// The coefficients of the interpolation at zero: for each point the product of
/// `x_j / (x_j - x_i)` over the other points.
pub open spec fn coefficients(xs: Seq<int>) -> Seq<int> {
    Seq::new(xs.len(), |i: int| prod_but(quotients(xs, i), 0, xs.len() as int, i) % order())
}

/// The points that shares are evaluated at.
pub open spec fn party_points(pds: Seq<PartialDecryption>) -> Seq<int> {
    Seq::new(pds.len(), |i: int| pds[i].party_index as int)
}

pub open spec fn share_values(pds: Seq<PartialDecryption>) -> Seq<int> {
    Seq::new(pds.len(), |i: int| pds[i].value@)
}

/// Whether the shares are those that different parties make of points, enough of them for
/// the tails of the sharing polynomials.
pub open spec fn are_honest(
    pds: Seq<PartialDecryption>,
    tau: int,
    tails: Seq<Seq<int>>,
    firsts: Seq<int>,
) -> bool {
    &&& tails.len() == firsts.len()
    &&& forall|i: int| 0 <= i < tails.len() ==> (#[trigger] tails[i]).len() < pds.len()
    &&& forall|k: int|
        0 <= k < pds.len() ==> (#[trigger] pds[k]).value@ == dot(
            firsts,
            share_row(tau, tails, pds[k].party_index as int),
        ) % order()
    &&& forall|k: int, l: int|
        0 <= k < l < pds.len() ==> (#[trigger] pds[k]).party_index != (
        #[trigger] pds[l]).party_index
}

/// Whether a combined point is the sum of points, each times the power of the secret for
/// its slot.
pub open spec fn point_holds(pd: int, tau: int, firsts: Seq<int>) -> bool {
    cong(pd, dot(firsts, power_range(tau, 1, firsts.len() as int)))
}

/// The coefficient of one point.
fn lambda_of(indices: &Vec<ArkScalar>, i: usize) -> (lambda: ArkScalar)
    requires
        i < indices@.len(),
    ensures
        lambda@ == coefficients(views(indices@))[i as int],
        forall|j: int|
            0 <= j < indices@.len() && indices@[j]@ != indices@[i as int]@ ==> is_unit(
                #[trigger] indices@[j]@ - indices@[i as int]@,
            ),
{
    let ghost xs = views(indices@);
    let ghost t = xs.len() as int;
    let ghost at = i as int;
    let mut diffs: Vec<ArkScalar> = Vec::new();
    while diffs.len() < indices.len()
        invariant
            i < indices@.len(),
            xs == views(indices@),
            at == i,
            diffs@.len() <= indices@.len(),
            forall|j: int|
                0 <= j < diffs@.len() ==> (#[trigger] diffs@[j])@ == (xs[j] - xs[at]) % order(),
        decreases indices@.len() - diffs@.len(),
    {
        diffs.push(indices[diffs.len()].minus(indices[i]));
    }
    let inverses = ArkScalar::batch_inversion(&diffs);
    proof {
        assert forall|j: int| 0 <= j < t implies {
            &&& (xs[j] != xs[at] ==> is_unit(#[trigger] xs[j] - xs[at]))
            &&& cong(xs[j] * inverses@[j]@, quotient(xs[j], xs[j] - xs[at]))
        } by {
            let d = xs[j] - xs[at];
            let inverse = inverses@[j]@;
            assert(diffs@[j]@ == d % order());
            lemma_reduce(d);
            lemma_one();
            if diffs@[j]@ == 0 {
                assert(inverse == 0);
                assert(xs[j] * 0 == 0);
                indices@[j].lemma_range();
                indices@[at].lemma_range();
                lemma_cong_diff(xs[j], xs[at]);
                lemma_reduced(xs[j]);
                lemma_reduced(xs[at]);
            } else {
                lemma_inv_unique(diffs@[j]@, inverse);
                lemma_unit_cong(diffs@[j]@, d);
                lemma_cong_mul(xs[j], xs[j], inverse, inv(d));
            }
        }
    }
    let mut lambda = ArkScalar::one();
    let mut j: usize = 0;
    let ghost f = skip(quotients(xs, at), at);
    proof {
        lemma_one();
        assert(prod(f, 0, 0) == 1);
    }
    while j < indices.len()
        invariant
            i < indices@.len() == inverses@.len(),
            xs == views(indices@),
            at == i,
            f == skip(quotients(xs, at), at),
            forall|k: int|
                0 <= k < indices@.len() ==> cong(
                    xs[k] * (#[trigger] inverses@[k])@,
                    quotient(xs[k], xs[k] - xs[at]),
                ),
            j <= indices@.len(),
            lambda@ == prod(f, 0, j as int) % order(),
        decreases indices@.len() - j,
    {
        proof {
            let k = j as int;
            let before = prod(f, 0, k);
            assert(prod(f, 0, k + 1) == before * f(k));
            lemma_reduce(before);
            if j != i {
                let x = xs[k] * inverses@[k]@;
                lemma_reduce(x);
                assert(f(k) == quotient(xs[k], xs[k] - xs[at]));
                lemma_cong_mul(lambda@, before, x % order(), f(k));
            } else {
                assert(before * 1 == before);
            }
        }
        if j != i {
            lambda = lambda.times(indices[j].times(inverses[j]));
        }
        j = j + 1;
    }
    proof {
        assert forall|j: int|
            0 <= j < indices@.len() && indices@[j]@ != indices@[at]@ implies is_unit(
            #[trigger] indices@[j]@ - indices@[at]@,
        ) by {
            assert(xs[j] == indices@[j]@ && xs[at] == indices@[at]@);
            assert(is_unit(xs[j] - xs[at]));
        }
    }
    lambda
}

/// Combines shares by interpolation at zero. The shares that enough different parties make
/// of the same points combine to the sum of the points, each times the power of the secret
/// for its slot.
pub fn combine(partial_decs: &[PartialDecryption]) -> (result: ArkG1)
    requires
        1 <= partial_decs@.len(),
    ensures
        result@ == dot(share_values(partial_decs@), coefficients(party_points(partial_decs@)))
            % order(),
        forall|tau: int, tails: Seq<Seq<int>>, firsts: Seq<int>| #[trigger]
            are_honest(partial_decs@, tau, tails, firsts) ==> point_holds(result@, tau, firsts),
{
    let mut indices: Vec<ArkScalar> = Vec::new();
    let mut bases: Vec<ArkG1> = Vec::new();
    while indices.len() < partial_decs.len()
        invariant
            indices@.len() == bases@.len() <= partial_decs@.len(),
            forall|i: int|
                0 <= i < indices@.len() ==> (#[trigger] indices@[i])@
                    == partial_decs@[i].party_index,
            forall|i: int|
                0 <= i < indices@.len() ==> (#[trigger] bases@[i])@ == partial_decs@[i].value@,
        decreases partial_decs@.len() - indices@.len(),
    {
        let pd = partial_decs[indices.len()];
        proof {
            lemma_order();
            lemma_reduced(pd.party_index as int);
        }
        indices.push(ArkScalar::from_u64(pd.party_index as u64));
        bases.push(pd.value);
    }
    let ghost xs = party_points(partial_decs@);
    assert(views(indices@) =~= xs);
    assert(views(bases@) =~= share_values(partial_decs@));
    let mut lambdas: Vec<ArkScalar> = Vec::new();
    while lambdas.len() < indices.len()
        invariant
            views(indices@) == xs,
            indices@.len() == xs.len(),
            lambdas@.len() <= indices@.len(),
            forall|i: int|
                0 <= i < lambdas@.len() ==> (#[trigger] lambdas@[i])@ == coefficients(xs)[i],
            forall|i: int, j: int|
                0 <= i < lambdas@.len() && 0 <= j < xs.len() && xs[j] != xs[i] ==> is_unit(
                    #[trigger] xs[j] - #[trigger] xs[i],
                ),
        decreases indices@.len() - lambdas@.len(),
    {
        let i = lambdas.len();
        let lambda = lambda_of(&indices, i);
        proof {
            assert forall|j: int| 0 <= j < xs.len() && xs[j] != xs[i as int] implies is_unit(
                #[trigger] xs[j] - xs[i as int],
            ) by {
                assert(views(indices@)[j] == indices@[j]@);
                assert(views(indices@)[i as int] == indices@[i as int]@);
                assert(is_unit(indices@[j]@ - indices@[i as int]@));
            }
        }
        lambdas.push(lambda);
    }
    assert(views(lambdas@) =~= coefficients(xs));
    let result = ArkG1::msm(&bases, &lambdas);
    proof {
        assert forall|tau: int, tails: Seq<Seq<int>>, firsts: Seq<int>| #[trigger]
            are_honest(partial_decs@, tau, tails, firsts) implies point_holds(
            result@,
            tau,
            firsts,
        ) by {
            assert(separated(xs)) by {
                assert forall|i: int, j: int|
                    0 <= i < xs.len() && 0 <= j < xs.len() && i != j implies is_unit(
                    #[trigger] xs[j] - #[trigger] xs[i],
                ) by {
                    if i < j {
                        assert(partial_decs@[i].party_index != partial_decs@[j].party_index);
                    } else {
                        assert(partial_decs@[j].party_index != partial_decs@[i].party_index);
                    }
                }
            }
            lemma_honest_shares_combine(partial_decs@, tau, tails, firsts);
        }
    }
    result
}

/// The coefficients are the weights of the interpolation where the points are separated.
proof fn lemma_coefficients(xs: Seq<int>)
    requires
        separated(xs),
    ensures
        coefficients(xs) == weights(xs),
{
    let n = xs.len() as int;
    assert forall|i: int| 0 <= i < n implies #[trigger] coefficients(xs)[i] == weights(xs)[i] by {
        let f = skip(quotients(xs, i), i);
        let g = skip(ratio(xs, i), i);
        assert forall|j: int| 0 <= j < n implies #[trigger] f(j) == g(j) by {
            if i != j {
                assert(is_unit(xs[j] - xs[i]));
                lemma_inv(xs[j] - xs[i]);
                lemma_inv_unique(xs[j] - xs[i], inv(xs[j] - xs[i]));
            }
        }
        lemma_prod_ext(f, g, 0, n);
    }
    assert(coefficients(xs) =~= weights(xs));
}

proof fn lemma_honest_shares_combine(
    pds: Seq<PartialDecryption>,
    tau: int,
    tails: Seq<Seq<int>>,
    firsts: Seq<int>,
)
    requires
        are_honest(pds, tau, tails, firsts),
        separated(party_points(pds)),
        pds.len() >= 1,
    ensures
        point_holds(
            dot(share_values(pds), coefficients(party_points(pds))) % order(),
            tau,
            firsts,
        ),
{
    let xs = party_points(pds);
    lemma_coefficients(xs);
    let ws = weights(xs);
    let values = share_values(pds);
    let n = firsts.len() as int;
    let s = pds.len() as int;
    let target_row = power_range(tau, 1, n);
    let polynomial = |i: int| seq![pow(tau, (i + 1) as nat) % order()] + tails[i];
    let t = |k: int, i: int| firsts[i] * (ws[k] * eval(polynomial(i), xs[k]));
    let rows = |k: int| sum(|i: int| t(k, i), 0, n);
    let columns = |i: int| sum(|k: int| t(k, i), 0, s);
    let outer = products(values, ws);
    assert forall|k: int| 0 <= k < s implies cong(#[trigger] outer(k), rows(k)) by {
        let held = share_row(tau, tails, xs[k]);
        assert(pds[k].value@ == dot(firsts, held) % order());
        lemma_reduce(dot(firsts, held));
        lemma_cong_mul(values[k], dot(firsts, held), ws[k], ws[k]);
        let row = |i: int| t(k, i);
        let g = |i: int| ws[k] * products(firsts, held)(i);
        lemma_sum_scale(ws[k], products(firsts, held), g, 0, n);
        assert(dot(firsts, held) * ws[k] == ws[k] * dot(firsts, held)) by (nonlinear_arith);
        assert forall|i: int| 0 <= i < n implies cong(#[trigger] g(i), row(i)) by {
            let e = eval(polynomial(i), xs[k]);
            assert(held[i] == e % order());
            lemma_reduce(e);
            let (w, f) = (ws[k], firsts[i]);
            lemma_cong_mul(w * f, w * f, held[i], e);
            assert(w * (f * held[i]) == (w * f) * held[i]) by (nonlinear_arith);
            assert((w * f) * e == f * (w * e)) by (nonlinear_arith);
        }
        lemma_sum_cong(g, row, 0, n);
    }
    lemma_sum_cong(outer, rows, 0, s);
    lemma_sum_swap(t, s, n);
    let target = products(firsts, target_row);
    assert forall|i: int| 0 <= i < n implies cong(#[trigger] columns(i), target(i)) by {
        let c = polynomial(i);
        assert(tails[i].len() < pds.len());
        lemma_interpolate(xs, c);
        let weighted = |k: int| weight(xs, k) * eval(c, xs[k]);
        let column = |k: int| t(k, i);
        lemma_sum_scale(firsts[i], weighted, column, 0, s);
        lemma_cong_mul(firsts[i], firsts[i], sum(weighted, 0, s), c[0]);
        assert(columns(i) == sum(column, 0, s));
        assert(1 + i == i + 1);
    }
    lemma_sum_cong(columns, target, 0, n);
    lemma_reduce(dot(values, ws));
}

/// What a slot opens to: its second component without the pad, which is the pairing of the
/// combined point with the slot's power, without the slot's cross term.
pub open spec fn opened_log(ct2: int, pd: int, power: int, cross: int) -> int {
    (ct2 - (pd * power - cross)) % order()
}

/// The pairings that make up the cross term of slot `i`: of every other point with the
/// power that lies as far from the one left out as the slots from each other.
pub open spec fn direct_terms(h: Seq<int>, firsts: Seq<int>, b: int, i: int) -> spec_fn(
    int,
) -> int {
    |l: int|
        if l == i {
            0
        } else {
            firsts[l] * h[l + b + 1 - i]
        }
}

/// The cross term of slot `i`.
pub open spec fn direct_cross(dk: &DecryptionKey, firsts: Seq<int>, i: int) -> int {
    let b = dk.batch_size as int;
    sum(direct_terms(views(dk.powers_of_h_affine@), firsts, b, i), 0, b)
}

/// What the transformed powers stand for: their inverse transform.
pub open spec fn kernel_of(dk: &DecryptionKey) -> Seq<int> {
    let n = dk.fft_size as int;
    Seq::new(
        n as nat,
        |d: int| (dft(views(dk.fft_h@), inv(size_root(n)), d) * inv(n)) % order(),
    )
}

/// What slot `i` opens to with a cross term.
pub open spec fn slot_log(
    dk: &DecryptionKey,
    pd: int,
    cts: Seq<Ciphertext>,
    cross: int,
    i: int,
) -> int {
    opened_log(cts[i].ct2@, pd, dk.powers_of_h_affine@[dk.batch_size - i]@, cross)
}

/// The pad of one slot: the pairing of the combined point with the slot's power, without the
/// cross term.
pub fn pad_of_slot(dk: &DecryptionKey, pd: &ArkG1, cross: ArkGt, i: usize) -> (pad: ArkGt)
    requires
        dk.wf(),
        i < dk.batch_size,
    ensures
        pad@ == (pd@ * dk.powers_of_h_affine@[dk.batch_size - i]@ - cross@) % order(),
{
    let power = dk.powers_of_h_affine[dk.batch_size - i];
    let term = ark_pair(*pd, power);
    proof {
        lemma_reduce(pd@ * power@);
        lemma_cong_sub(term@, pd@ * power@, cross@, cross@);
    }
    term.minus(cross)
}

/// Decrypts a batch whose proofs were checked before, slot by slot.
pub fn decrypt_preverified(
    dk: &DecryptionKey,
    pd: &ArkG1,
    cts: &[Ciphertext],
) -> (opened: Vec<ArkGt>)
    requires
        dk.wf(),
        cts@.len() == dk.batch_size,
    ensures
        opened@.len() == dk.batch_size,
        forall|i: int|
            0 <= i < dk.batch_size ==> (#[trigger] opened@[i])@ == slot_log(
                dk,
                pd@,
                cts@,
                direct_cross(dk, first_logs(cts@), i),
                i,
            ),
{
    let b = dk.batch_size;
    let ghost firsts = first_logs(cts@);
    let ghost h = views(dk.powers_of_h_affine@);
    let bound = dk.powers_of_h_affine.len();
    let mut opened: Vec<ArkGt> = Vec::new();
    while opened.len() < b
        invariant
            dk.wf(),
            b == dk.batch_size == cts@.len(),
            bound == dk.powers_of_h_affine@.len(),
            firsts == first_logs(cts@),
            h == views(dk.powers_of_h_affine@),
            opened@.len() <= b,
            forall|i: int|
                0 <= i < opened@.len() ==> (#[trigger] opened@[i])@ == slot_log(
                    dk,
                    pd@,
                    cts@,
                    direct_cross(dk, firsts, i),
                    i,
                ),
        decreases b - opened@.len(),
    {
        let i = opened.len();
        let mut left: Vec<ArkG1> = Vec::new();
        let mut right: Vec<ArkG2> = Vec::new();
        let ghost f = direct_terms(h, firsts, b as int, i as int);
        let mut l: usize = 0;
        while l < b
            invariant
                dk.wf(),
                b == dk.batch_size == cts@.len(),
                bound == dk.powers_of_h_affine@.len(),
                firsts == first_logs(cts@),
                h == views(dk.powers_of_h_affine@),
                i < b,
                f == direct_terms(h, firsts, b as int, i as int),
                l <= b,
                left@.len() == right@.len(),
                dot(views(left@), views(right@)) == sum(f, 0, l as int),
            decreases b - l,
        {
            let ghost (before_left, before_right) = (views(left@), views(right@));
            if l != i {
                assert(l + b + 1 - i < bound);
                left.push(cts[l].ct1);
                right.push(dk.powers_of_h_affine[b + 1 - i + l]);
                proof {
                    let x = cts@[l as int].ct1@;
                    let y = dk.powers_of_h_affine@[b + 1 - i + l]@;
                    lemma_dot_push(before_left, before_right, x, y);
                    assert(views(left@) =~= before_left.push(x));
                    assert(views(right@) =~= before_right.push(y));
                    assert(h[l + b + 1 - i] == y);
                    assert(firsts[l as int] == x);
                }
            }
            l = l + 1;
        }
        let cross = ark_pair_all(&left, &right);
        let z_i = pad_of_slot(dk, pd, cross, i);
        proof {
            let power = dk.powers_of_h_affine@[b - i]@;
            let c = direct_cross(dk, firsts, i as int);
            lemma_reduce(c);
            lemma_cong_sub(pd@ * power, pd@ * power, cross@, c);
            lemma_reduce(pd@ * power - cross@);
            let ct2 = cts@[i as int].ct2@;
            lemma_cong_sub(ct2, ct2, z_i@, pd@ * power - c);
        }
        opened.push(cts[i].ct2.minus(z_i));
    }
    opened
}

/// Decrypts a batch slot by slot, after its proofs have been checked; nothing where they do
/// not hold.
pub fn decrypt<R: RandomSource>(dk: &DecryptionKey, pd: &ArkG1, cts: &[Ciphertext], rng: &mut R) -> (result:
    Option<Vec<ArkGt>>)
    requires
        dk.wf(),
        cts@.len() == dk.batch_size,
    ensures
        are_drawn(
            old(rng).drawn_scalars(),
            final(rng).drawn_scalars(),
            cts@.len() as int,
        ),
        final(rng).drawn_keys() == old(rng).drawn_keys(),
        result is Some <==> proofs_hold(
            cts@,
            drawn_since(old(rng).drawn_scalars(), final(rng).drawn_scalars()),
        ),
        result matches Some(opened) ==> opened@.len() == dk.batch_size && forall|i: int|
            0 <= i < dk.batch_size ==> (#[trigger] opened@[i])@ == slot_log(
                dk,
                pd@,
                cts@,
                direct_cross(dk, first_logs(cts@), i),
                i,
            ),
        (forall|i: int| 0 <= i < cts@.len() ==> (#[trigger] cts@[i]).is_valid()) ==> result is Some,
{
    if !verify_ciphertext_batch(cts, rng) {
        return None;
    }
    Some(decrypt_preverified(dk, pd, cts))
}

/// The cross terms of a batch. They depend on the batch alone, so they can be computed
/// while the shares are still under way.
#[derive(Clone, Debug)]
pub struct CrossTerms {
    pub values: Vec<ArkGt>,
}

/// Multiplying the transforms and transforming back convolves with the kernel.
proof fn lemma_cross(dk: &DecryptionKey, v: Seq<int>, middle: Seq<int>, i: int)
    requires
        dk.wf(),
        v.len() <= dk.fft_size,
        middle.len() == dk.fft_size,
        0 <= i < dk.fft_size,
        forall|k: int|
            0 <= k < middle.len() ==> cong(
                #[trigger] middle[k],
                modulated(
                    padded(v, dk.fft_size as int),
                    views(dk.fft_h@),
                    size_root(dk.fft_size as int),
                )[k],
            ),
    ensures
        cong(
            dft(middle, inv(size_root(dk.fft_size as int)), i) * inv(dk.fft_size as int),
            cross_term(v, kernel_of(dk), i),
        ),
{
    let n = dk.fft_size as int;
    let w = size_root(n);
    let wi = inv(w);
    let s = inv(n);
    let t = views(dk.fft_h@);
    let long = padded(v, n);
    let log = choose|log: nat| log <= 32 && n == #[trigger] pow2(log);
    lemma_size_root(log);
    lemma_domain_root(log);
    lemma_root_unit(w, n);
    lemma_inv(w);
    let product = modulated(long, t, w);
    lemma_dft_cong(middle, product, wi, i);
    lemma_middle_product(long, t, w, wi, i);
    let raw = dft_all(t, wi);
    let f = convolution_terms(long, raw, i);
    let scaled = |j: int| s * f(j);
    lemma_sum_scale(s, f, scaled, 0, n);
    let kernel = kernel_of(dk);
    let g = cross_terms_of(v, kernel, i);
    let m = v.len() as int;
    lemma_sum_split(scaled, 0, m, n);
    assert forall|j: int| m <= j < n implies #[trigger] scaled(j) == 0 by {
        assert(long[j] == 0);
        let x = raw[(i - j) % n];
        assert(s * (0 * x) == 0) by (nonlinear_arith);
    }
    lemma_sum_zero(scaled, m, n);
    assert forall|j: int| 0 <= j < m implies cong(#[trigger] scaled(j), g(j)) by {
        let d = (i - j) % n;
        vstd::arithmetic::div_mod::lemma_mod_bound(i - j, n);
        lemma_reduce(raw[d] * s);
        lemma_cong_mul(v[j], v[j], raw[d] * s, kernel[d]);
        let (x, y) = (v[j], raw[d]);
        assert(s * (x * y) == x * (y * s)) by (nonlinear_arith);
    }
    lemma_sum_cong(scaled, g, 0, m);
    lemma_cong_mul(dft(middle, wi, i), convolution(long, raw, i), s, s);
    assert(convolution(long, raw, i) * s == s * convolution(long, raw, i)) by (nonlinear_arith);
}

/// The cross terms of points, by transforms.
pub fn cross_terms_of_points(dk: &DecryptionKey, points: &Vec<ArkG1>) -> (cross: CrossTerms)
    requires
        dk.wf(),
        points@.len() == dk.batch_size,
    ensures
        cross.values@.len() == dk.fft_size,
        forall|i: int|
            0 <= i < dk.fft_size ==> (#[trigger] cross.values@[i])@ == cross_term(
                views(points@),
                kernel_of(dk),
                i,
            ) % order(),
{
    let n = dk.fft_size;
    let ghost v = views(points@);
    let ghost t = views(dk.fft_h@);
    let ghost w = size_root(n as int);
    let ghost long = padded(v, n as int);
    let mut a_vec: Vec<ArkG1> = Vec::new();
    while a_vec.len() < n
        invariant
            n == dk.fft_size,
            v == views(points@),
            a_vec@.len() <= n,
            long == padded(v, n as int),
            forall|i: int| 0 <= i < a_vec@.len() ==> (#[trigger] a_vec@[i])@ == long[i],
        decreases n - a_vec@.len(),
    {
        let i = a_vec.len();
        if i < points.len() {
            a_vec.push(points[i]);
        } else {
            a_vec.push(ArkG1::zero());
        }
    }
    assert(views(a_vec@) =~= long);
    let a_hat = dk.fft_domain.fft_g1(&a_vec);
    let mut c_hat: Vec<ArkGt> = Vec::new();
    while c_hat.len() < n
        invariant
            dk.wf(),
            n == dk.fft_size == a_hat@.len() == long.len(),
            t == views(dk.fft_h@),
            forall|k: int|
                0 <= k < n ==> (#[trigger] a_hat@[k])@ == dft(long, w, k) % order(),
            c_hat@.len() <= n,
            forall|k: int|
                0 <= k < c_hat@.len() ==> cong(
                    (#[trigger] c_hat@[k])@,
                    modulated(long, t, w)[k],
                ),
        decreases n - c_hat@.len(),
    {
        let k = c_hat.len();
        proof {
            let at = k as int;
            lemma_reduce(dft(long, w, at));
            lemma_cong_mul(a_hat@[at]@, dft(long, w, at), t[at], t[at]);
            lemma_reduce(a_hat@[at]@ * dk.fft_h@[at]@);
        }
        c_hat.push(ark_pair(a_hat[k], dk.fft_h[k]));
    }
    let ghost middle = views(c_hat@);
    let values = dk.fft_domain.ifft_gt(&c_hat);
    proof {
        assert forall|i: int| 0 <= i < n implies (#[trigger] values@[i])@ == cross_term(
            v,
            kernel_of(dk),
            i,
        ) % order() by {
            assert forall|k: int| 0 <= k < middle.len() implies cong(
                #[trigger] middle[k],
                modulated(long, t, w)[k],
            ) by {
                assert(middle[k] == c_hat@[k]@);
            }
            lemma_cross(dk, v, middle, i);
        }
    }
    CrossTerms { values }
}

/// The cross terms of a batch, by transforms.
pub fn predecrypt_fft(dk: &DecryptionKey, cts: &[Ciphertext]) -> (cross: CrossTerms)
    requires
        dk.wf(),
        cts@.len() == dk.batch_size,
    ensures
        cross.values@.len() == dk.fft_size,
        forall|i: int|
            0 <= i < dk.fft_size ==> (#[trigger] cross.values@[i])@ == cross_term(
                first_logs(cts@),
                kernel_of(dk),
                i,
            ) % order(),
{
    cross_terms_of_points(dk, &first_points(cts))
}

/// Decrypts a batch with the combined point and the cross terms.
pub fn finalize_decrypt(dk: &DecryptionKey, pd: &ArkG1, cts: &[Ciphertext], cross: &CrossTerms) -> (opened:
    Vec<ArkGt>)
    requires
        dk.wf(),
        cts@.len() == dk.batch_size,
        cross.values@.len() >= dk.batch_size,
    ensures
        opened@.len() == dk.batch_size,
        forall|i: int|
            0 <= i < dk.batch_size ==> (#[trigger] opened@[i])@ == slot_log(
                dk,
                pd@,
                cts@,
                cross.values@[i]@,
                i,
            ),
{
    let mut opened: Vec<ArkGt> = Vec::new();
    while opened.len() < dk.batch_size
        invariant
            dk.wf(),
            cts@.len() == dk.batch_size,
            cross.values@.len() >= dk.batch_size,
            opened@.len() <= dk.batch_size,
            forall|i: int|
                0 <= i < opened@.len() ==> (#[trigger] opened@[i])@ == slot_log(
                    dk,
                    pd@,
                    cts@,
                    cross.values@[i]@,
                    i,
                ),
        decreases dk.batch_size - opened@.len(),
    {
        let i = opened.len();
        let z_i = pad_of_slot(dk, pd, cross.values[i], i);
        proof {
            let power = dk.powers_of_h_affine@[dk.batch_size - i]@;
            let pad = pd@ * power - cross.values@[i as int]@;
            let ct2 = cts@[i as int].ct2@;
            lemma_reduce(pad);
            lemma_cong_sub(ct2, ct2, z_i@, pad);
        }
        opened.push(cts[i].ct2.minus(z_i));
    }
    opened
}

/// Decrypts a batch by transforms, after its proofs have been checked; nothing where they do
/// not hold.
pub fn decrypt_fft<R: RandomSource>(
    dk: &DecryptionKey,
    pd: &ArkG1,
    cts: &[Ciphertext],
    rng: &mut R,
) -> (result: Option<Vec<ArkGt>>)
    requires
        dk.wf(),
        cts@.len() == dk.batch_size,
    ensures
        are_drawn(
            old(rng).drawn_scalars(),
            final(rng).drawn_scalars(),
            cts@.len() as int,
        ),
        final(rng).drawn_keys() == old(rng).drawn_keys(),
        result is Some <==> proofs_hold(
            cts@,
            drawn_since(old(rng).drawn_scalars(), final(rng).drawn_scalars()),
        ),
        result matches Some(opened) ==> opened@.len() == dk.batch_size && forall|i: int|
            0 <= i < dk.batch_size ==> (#[trigger] opened@[i])@ == slot_log(
                dk,
                pd@,
                cts@,
                cross_term(first_logs(cts@), kernel_of(dk), i) % order(),
                i,
            ),
        (forall|i: int| 0 <= i < cts@.len() ==> (#[trigger] cts@[i]).is_valid()) ==> result is Some,
{
    if !verify_ciphertext_batch(cts, rng) {
        return None;
    }
    let cross = predecrypt_fft(dk, cts);
    Some(finalize_decrypt(dk, pd, cts, &cross))
}

/// Whatever the other proofs and weights are, a proof that does not hold gets by with at most
/// one weight of its own.
pub proof fn law_bad_proof_passes_with_one_weight(
    cts: Seq<Ciphertext>,
    weights: Seq<int>,
    others: Seq<int>,
    bad: int,
)
    requires
        weights.len() == others.len() == cts.len(),
        0 <= bad < cts.len(),
        !cts[bad].is_valid(),
        forall|i: int| 0 <= i < cts.len() && i != bad ==> #[trigger] weights[i] == others[i],
        0 <= weights[bad] < order(),
        0 <= others[bad] < order(),
        weights[bad] != others[bad],
    ensures
        !(proofs_hold(cts, weights) && proofs_hold(cts, others)),
{
    if proofs_hold(cts, weights) {
        lemma_reduced(weights[bad]);
        lemma_reduced(others[bad]);
        lemma_one_weight(responses(cts), proof_sides(cts), weights, others, bad);
    }
}

} // verus!
