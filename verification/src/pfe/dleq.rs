//! Proofs that the two points of a ciphertext use the same scalar.
use vstd::prelude::*;
use vstd::string::StringSliceAdditionalSpecFns;

use crate::algebra::primality::{
    lemma_cancel_nonzero, lemma_nonzero_is_unit, lemma_one_difference, lemma_one_weight,
};
use crate::algebra::residue::{
    cong, lemma_cancel, lemma_cong_add, lemma_cong_diff, lemma_cong_mul, lemma_cong_sub, lemma_one,
    lemma_reduce, lemma_reduced, order,
};
use crate::algebra::sums::{
    dot, lemma_scaled_dot, lemma_sum_add, lemma_sum_cong, lemma_sum_ext, lemma_sum_scale,
    lemma_sum_shift, lemma_sum_split, products, sum,
};
use crate::bytes::{append, lemma_same_parts};
use crate::curve::{g1_compressed, views, Element, Fr, G1Point, ScalarRng, G1};
use crate::encoding::is_g1_sized;
use crate::hash::{challenge, hash_to_scalar, lemma_challenge_range};
use crate::sampling::{are_nonzero_draws, draw_nonzero, drawn_since, kept};

verus! {

/// What the challenge is the hash of: the relation's base, the two points and the
/// two commitments, behind the name of the protocol.
pub open spec fn transcript(base: int, first: int, second: int, c1: int, c2: int) -> Seq<u8> {
    "PFE-CONSTRUCTION4-BLS12381-v1".spec_bytes() + g1_compressed(base) + g1_compressed(first)
        + g1_compressed(second) + g1_compressed(c1) + g1_compressed(c2)
}

/// The challenge of two points and two commitments.
pub open spec fn challenge_of(base: int, first: int, second: int, c1: int, c2: int) -> Option<int> {
    challenge(transcript(base, first, second, c1, c2))
}

/// A proof that two points are the same multiple of the generator and of the base.
#[derive(Clone, Copy, Debug)]
pub struct DleqProof {
    pub response: Fr,
    pub first_commitment: G1Point,
    pub second_commitment: G1Point,
}

fn challenge_scalar(
    relation_base: G1Point,
    first: G1Point,
    second: G1Point,
    first_commitment: G1Point,
    second_commitment: G1Point,
) -> (result: Option<Fr>)
    ensures
        ({
            let found = challenge_of(
                relation_base@,
                first@,
                second@,
                first_commitment@,
                second_commitment@,
            );
            match result {
                Some(scalar) => found == Some(scalar@),
                None => found is None,
            }
        }),
{
    let mut bytes: Vec<u8> = Vec::new();
    append(&mut bytes, "PFE-CONSTRUCTION4-BLS12381-v1".as_bytes());
    let base_bytes = relation_base.to_compressed();
    append(&mut bytes, base_bytes.as_slice());
    let first_bytes = first.to_compressed();
    append(&mut bytes, first_bytes.as_slice());
    let second_bytes = second.to_compressed();
    append(&mut bytes, second_bytes.as_slice());
    let c1 = first_commitment.to_compressed();
    append(&mut bytes, c1.as_slice());
    let c2 = second_commitment.to_compressed();
    append(&mut bytes, c2.as_slice());
    proof {
        assert(bytes@ =~= transcript(
            relation_base@,
            first@,
            second@,
            first_commitment@,
            second_commitment@,
        ));
    }
    hash_to_scalar(&bytes)
}

impl DleqProof {
    /// The challenge of the proof.
    pub open spec fn challenge(self, base: int, first: int, second: int) -> Option<int> {
        challenge_of(base, first, second, self.first_commitment@, self.second_commitment@)
    }

    /// Whether the proof holds: its challenge exists, and both commitments plus the
    /// challenge times their points are the response times their bases.
    pub open spec fn accepts(self, base: int, first: int, second: int) -> bool {
        match self.challenge(base, first, second) {
            Some(c) => {
                &&& cong(self.first_commitment@ + first * c, self.response@)
                &&& cong(self.second_commitment@ + second * c, base * self.response@)
            },
            None => false,
        }
    }

    /// The proof made with the given nonce; there is none where the transcript has
    /// no challenge. It holds where the points are the randomness times their bases.
    pub fn create_with_nonce(
        relation_base: G1Point,
        randomness: Fr,
        first: G1Point,
        second: G1Point,
        nonce: Fr,
    ) -> (result: Option<Self>)
        ensures
            ({
                let c2 = (relation_base@ * nonce@) % order();
                match challenge_of(relation_base@, first@, second@, nonce@, c2) {
                    Some(c) => result matches Some(made) && made.first_commitment@ == nonce@
                        && made.second_commitment@ == c2 && made.response@ == (nonce@ + c
                        * randomness@) % order(),
                    None => result is None,
                }
            }),
            cong(first@, randomness@) && cong(second@, relation_base@ * randomness@) ==> (
            result matches Some(made) ==> made.accepts(relation_base@, first@, second@)),
    {
        let first_commitment = G1::generator().times(nonce).to_affine();
        let second_commitment = G1::from_affine(relation_base).times(nonce).to_affine();
        proof {
            nonce.lemma_range();
            lemma_reduced(nonce@);
            assert(1 * nonce@ == nonce@);
        }
        let challenge = challenge_scalar(
            relation_base,
            first,
            second,
            first_commitment,
            second_commitment,
        )?;
        let product = challenge.times(randomness);
        let response = nonce.plus(product);
        proof {
            let (n, c, r, b) = (nonce@, challenge@, randomness@, relation_base@);
            lemma_reduce(c * r);
            lemma_cong_add(n, n, product@, c * r);
            lemma_reduce(n + product@);
            if cong(first@, r) && cong(second@, b * r) {
                lemma_cong_mul(first@, r, c, c);
                lemma_cong_add(n, n, first@ * c, r * c);
                assert(r * c == c * r) by (nonlinear_arith);
                lemma_reduce(b * n);
                lemma_cong_mul(second@, b * r, c, c);
                lemma_cong_add(second_commitment@, b * n, second@ * c, (b * r) * c);
                lemma_cong_mul(b, b, response@, n + c * r);
                assert(b * n + (b * r) * c == b * (n + c * r)) by (nonlinear_arith);
            }
        }
        Some(DleqProof { response, first_commitment, second_commitment })
    }

    /// A proof with a nonce drawn from `rng`, as [`DleqProof::create_with_nonce`] makes it.
    pub fn create<R: ScalarRng>(
        relation_base: G1Point,
        randomness: Fr,
        first: G1Point,
        second: G1Point,
        rng: &mut R,
    ) -> (result: Option<Self>)
        ensures
            ({
                let nonce = final(rng).drawn().last();
                let c2 = (relation_base@ * nonce) % order();
                &&& final(rng).drawn() == old(rng).drawn().push(nonce)
                &&& match challenge_of(relation_base@, first@, second@, nonce, c2) {
                    Some(c) => result matches Some(made) && made.first_commitment@ == nonce
                        && made.second_commitment@ == c2 && made.response@ == (nonce + c
                        * randomness@) % order(),
                    None => result is None,
                }
            }),
            cong(first@, randomness@) && cong(second@, relation_base@ * randomness@) ==> (
            result matches Some(made) ==> made.accepts(relation_base@, first@, second@)),
    {
        let nonce = rng.random_scalar();
        Self::create_with_nonce(relation_base, randomness, first, second, nonce)
    }

    pub fn verify(&self, relation_base: G1Point, first: G1Point, second: G1Point) -> (result: bool)
        ensures
            result == self.accepts(relation_base@, first@, second@),
    {
        let challenge = match challenge_scalar(
            relation_base,
            first,
            second,
            self.first_commitment,
            self.second_commitment,
        ) {
            Some(challenge) => challenge,
            None => {
                return false;
            },
        };
        let first_left = G1::from_affine(self.first_commitment).plus(
            G1::from_affine(first).times(challenge),
        );
        let first_right = G1::generator().times(self.response);
        let second_left = G1::from_affine(self.second_commitment).plus(
            G1::from_affine(second).times(challenge),
        );
        let second_right = G1::from_affine(relation_base).times(self.response);
        proof {
            let c = challenge@;
            lemma_reduce(first@ * c);
            lemma_reduce(second@ * c);
            lemma_cong_add(
                self.first_commitment@,
                self.first_commitment@,
                (first@ * c) % order(),
                first@ * c,
            );
            lemma_cong_add(
                self.second_commitment@,
                self.second_commitment@,
                (second@ * c) % order(),
                second@ * c,
            );
            assert(1 * self.response@ == self.response@);
        }
        first_left == first_right && second_left == second_right
    }
}

/// A proof that holds holds of another statement with the same first point only where the
/// challenge is the same, unless that point is the identity.
pub proof fn law_changed_statement_needs_the_challenge(
    made: DleqProof,
    base: int,
    first: int,
    second: int,
    other_base: int,
    other_second: int,
)
    requires
        made.accepts(base, first, second),
        !cong(first, 0),
        made.accepts(other_base, first, other_second),
    ensures
        made.challenge(other_base, first, other_second) == made.challenge(base, first, second),
{
    let (n, m) = (made.first_commitment@, made.second_commitment@);
    let c = made.challenge(base, first, second)->0;
    let d = made.challenge(other_base, first, other_second)->0;
    lemma_challenge_range(transcript(base, first, second, n, m), 0);
    lemma_challenge_range(transcript(other_base, first, other_second, n, m), 0);
    lemma_cong_sub(n + first * d, n + first * c, n, n);
    lemma_cancel_nonzero(first, d, c);
    lemma_reduced(c);
    lemma_reduced(d);
}

/// Once its second point is changed a statement is refused, unless the challenge is zero for
/// both points or the first point is the identity.
pub proof fn law_changed_second_is_refused(
    made: DleqProof,
    base: int,
    first: int,
    second: int,
    other_second: int,
)
    requires
        made.accepts(base, first, second),
        !cong(first, 0),
        !cong(other_second, second),
        made.challenge(base, first, second) != Some(0int) || made.challenge(
            base,
            first,
            other_second,
        ) != Some(0int),
    ensures
        !made.accepts(base, first, other_second),
{
    if made.accepts(base, first, other_second) {
        law_changed_statement_needs_the_challenge(made, base, first, second, base, other_second);
        let (n, m) = (made.first_commitment@, made.second_commitment@);
        let c = made.challenge(base, first, second)->0;
        lemma_challenge_range(transcript(base, first, second, n, m), 0);
        lemma_reduced(c);
        lemma_one();
        lemma_cong_sub(m + other_second * c, m + second * c, m, m);
        assert(other_second * c == c * other_second && second * c == c * second)
            by (nonlinear_arith);
        lemma_cancel_nonzero(c, other_second, second);
    }
}

/// A proof that holds holds of another first point only where the two points, each times its
/// challenge, are the same.
pub proof fn law_changed_first_needs_matching_challenges(
    made: DleqProof,
    base: int,
    first: int,
    second: int,
    other_first: int,
)
    requires
        made.accepts(base, first, second),
        made.accepts(base, other_first, second),
    ensures
        cong(
            other_first * made.challenge(base, other_first, second)->0,
            first * made.challenge(base, first, second)->0,
        ),
{
    let n = made.first_commitment@;
    let c = made.challenge(base, first, second)->0;
    let d = made.challenge(base, other_first, second)->0;
    lemma_cong_sub(n + other_first * d, n + first * c, n, n);
}

/// A proof that holds does not once its response is changed.
pub proof fn law_changed_response_is_refused(
    made: DleqProof,
    changed: DleqProof,
    base: int,
    first: int,
    second: int,
)
    requires
        made.accepts(base, first, second),
        changed.first_commitment@ == made.first_commitment@,
        changed.second_commitment@ == made.second_commitment@,
        changed.response@ != made.response@,
    ensures
        !changed.accepts(base, first, second),
{
    changed.response.lemma_range();
    made.response.lemma_range();
    lemma_reduced(changed.response@);
    lemma_reduced(made.response@);
}

/// The responses of proofs.
pub open spec fn responses(proofs: Seq<DleqProof>) -> Seq<int> {
    Seq::new(proofs.len(), |i: int| proofs[i].response@)
}

/// Whether every proof has a challenge.
pub open spec fn all_challenged(
    base: int,
    firsts: Seq<int>,
    seconds: Seq<int>,
    proofs: Seq<DleqProof>,
) -> bool {
    forall|i: int|
        0 <= i < proofs.len() ==> (#[trigger] proofs[i]).challenge(base, firsts[i], seconds[i])
            is Some
}

/// What the first equation of a proof is about.
pub open spec fn first_sides(
    base: int,
    firsts: Seq<int>,
    seconds: Seq<int>,
    proofs: Seq<DleqProof>,
) -> Seq<int> {
    Seq::new(
        proofs.len(),
        |i: int|
            proofs[i].first_commitment@ + firsts[i] * proofs[i].challenge(
                base,
                firsts[i],
                seconds[i],
            )->0,
    )
}

/// What the second equation of a proof is about.
pub open spec fn second_sides(
    base: int,
    firsts: Seq<int>,
    seconds: Seq<int>,
    proofs: Seq<DleqProof>,
) -> Seq<int> {
    Seq::new(
        proofs.len(),
        |i: int|
            proofs[i].second_commitment@ + seconds[i] * proofs[i].challenge(
                base,
                firsts[i],
                seconds[i],
            )->0,
    )
}

/// Whether the proofs hold together: the two equations, each added up with the weights.
pub open spec fn batch_accepts(
    base: int,
    firsts: Seq<int>,
    seconds: Seq<int>,
    proofs: Seq<DleqProof>,
    weights: Seq<int>,
) -> bool {
    &&& firsts.len() == seconds.len() == proofs.len()
    &&& all_challenged(base, firsts, seconds, proofs)
    &&& cong(
        dot(first_sides(base, firsts, seconds, proofs), weights),
        dot(responses(proofs), weights),
    )
    &&& cong(
        dot(second_sides(base, firsts, seconds, proofs), weights),
        base * dot(responses(proofs), weights),
    )
}

/// Proofs that hold one by one hold together, whatever the weights are.
pub proof fn law_batch_accepts_valid_proofs(
    base: int,
    firsts: Seq<int>,
    seconds: Seq<int>,
    proofs: Seq<DleqProof>,
    weights: Seq<int>,
)
    requires
        firsts.len() == seconds.len() == proofs.len(),
        forall|i: int|
            0 <= i < proofs.len() ==> (#[trigger] proofs[i]).accepts(base, firsts[i], seconds[i]),
    ensures
        batch_accepts(base, firsts, seconds, proofs, weights),
{
    let n = proofs.len() as int;
    let (a, b, r) = (
        first_sides(base, firsts, seconds, proofs),
        second_sides(base, firsts, seconds, proofs),
        responses(proofs),
    );
    let scaled = |i: int| base * products(r, weights)(i);
    assert forall|i: int| 0 <= i < n implies cong(
        #[trigger] products(a, weights)(i),
        products(r, weights)(i),
    ) by {
        assert(proofs[i].accepts(base, firsts[i], seconds[i]));
        lemma_cong_mul(a[i], r[i], weights[i], weights[i]);
    }
    assert forall|i: int| 0 <= i < n implies cong(
        #[trigger] products(b, weights)(i),
        scaled(i),
    ) by {
        assert(proofs[i].accepts(base, firsts[i], seconds[i]));
        lemma_cong_mul(b[i], base * r[i], weights[i], weights[i]);
        let (x, y) = (r[i], weights[i]);
        assert((base * x) * y == base * (x * y)) by (nonlinear_arith);
    }
    lemma_sum_cong(products(a, weights), products(r, weights), 0, n);
    lemma_sum_cong(products(b, weights), scaled, 0, n);
    lemma_sum_scale(base, products(r, weights), scaled, 0, n);
}

/// Whether one proof does not hold and all others do.
pub open spec fn is_only_bad(
    base: int,
    firsts: Seq<int>,
    seconds: Seq<int>,
    proofs: Seq<DleqProof>,
    bad: int,
) -> bool {
    &&& firsts.len() == seconds.len() == proofs.len()
    &&& 0 <= bad < proofs.len()
    &&& !proofs[bad].accepts(base, firsts[bad], seconds[bad])
    &&& forall|i: int|
        0 <= i < proofs.len() && i != bad ==> (#[trigger] proofs[i]).accepts(
            base,
            firsts[i],
            seconds[i],
        )
}

/// Where exactly one proof does not hold, the proofs do not hold together, whatever the
/// weights are, as long as that proof's weight is not zero.
pub proof fn law_one_bad_proof_is_refused(
    base: int,
    firsts: Seq<int>,
    seconds: Seq<int>,
    proofs: Seq<DleqProof>,
    weights: Seq<int>,
    bad: int,
)
    requires
        weights.len() == proofs.len(),
        is_only_bad(base, firsts, seconds, proofs, bad),
        0 < weights[bad] < order(),
    ensures
        !batch_accepts(base, firsts, seconds, proofs, weights),
{
    let n = proofs.len() as int;
    if batch_accepts(base, firsts, seconds, proofs, weights) {
        let (a, b, r) = (
            first_sides(base, firsts, seconds, proofs),
            second_sides(base, firsts, seconds, proofs),
            responses(proofs),
        );
        let scaled = Seq::new(r.len(), |i: int| base * r[i]);
        assert(proofs[bad].challenge(base, firsts[bad], seconds[bad]) is Some);
        assert forall|i: int| 0 <= i < n && i != bad implies cong(#[trigger] a[i], r[i]) && cong(
            b[i],
            scaled[i],
        ) by {
            assert(proofs[i].accepts(base, firsts[i], seconds[i]));
        }
        assert forall|i: int| 0 <= i < n implies #[trigger] products(scaled, weights)(i) == base
            * products(r, weights)(i) by {
            let (x, y) = (r[i], weights[i]);
            assert((base * x) * y == base * (x * y)) by (nonlinear_arith);
        }
        lemma_sum_scale(base, products(r, weights), products(scaled, weights), 0, n);
        lemma_reduced(weights[bad]);
        lemma_one();
        if !cong(a[bad], r[bad]) {
            lemma_one_difference(a, r, weights, bad);
        } else {
            assert forall|i: int| 0 <= i < n && i != bad implies cong(
                #[trigger] b[i],
                scaled[i],
            ) by {
                assert(cong(a[i], r[i]));
            }
            lemma_one_difference(b, scaled, weights, bad);
        }
    }
}

/// A sum of products over two sequences of bases, one after the other, is that
/// of the combined bases.
proof fn lemma_joined(
    commitments: Seq<int>,
    points: Seq<int>,
    weights: Seq<int>,
    challenges: Seq<int>,
    weighted: Seq<int>,
    sides: Seq<int>,
)
    requires
        commitments.len() == points.len() == weights.len() == challenges.len() == weighted.len()
            == sides.len(),
        forall|i: int|
            0 <= i < sides.len() ==> #[trigger] sides[i] == commitments[i] + points[i]
                * challenges[i],
        forall|i: int|
            0 <= i < sides.len() ==> cong(#[trigger] weighted[i], weights[i] * challenges[i]),
    ensures
        cong(dot(commitments + points, weights + weighted), dot(sides, weights)),
{
    let n = sides.len() as int;
    let f = products(commitments + points, weights + weighted);
    lemma_sum_split(f, 0, n, 2 * n);
    let upper = |i: int| f(i + n);
    lemma_sum_shift(f, upper, 0, n, n);
    let second = |i: int| (points[i] * challenges[i]) * weights[i];
    assert forall|i: int| 0 <= i < n implies cong(#[trigger] upper(i), second(i)) by {
        assert((commitments + points)[i + n] == points[i]);
        assert((weights + weighted)[i + n] == weighted[i]);
        lemma_cong_mul(points[i], points[i], weighted[i], weights[i] * challenges[i]);
        let (x, y, z) = (points[i], weights[i], challenges[i]);
        assert(x * (y * z) == (x * z) * y) by (nonlinear_arith);
    }
    lemma_sum_cong(upper, second, 0, n);
    let first = products(commitments, weights);
    lemma_sum_ext(f, first, 0, n);
    assert forall|i: int| 0 <= i < n implies #[trigger] products(sides, weights)(i) == first(i)
        + second(i) by {
        let (x, y, z) = (commitments[i], points[i] * challenges[i], weights[i]);
        assert((x + y) * z == x * z + y * z) by (nonlinear_arith);
    }
    lemma_sum_add(first, second, products(sides, weights), 0, n);
    lemma_cong_add(sum(f, 0, n), sum(first, 0, n), sum(upper, 0, n), sum(second, 0, n));
}

/// Checks proofs together, with the given weights, by two sums of products.
pub fn verify_batch_with_weights(
    relation_base: G1Point,
    firsts: &Vec<G1>,
    seconds: &Vec<G1>,
    proofs: &Vec<DleqProof>,
    weights: &Vec<Fr>,
) -> (result: bool)
    requires
        weights@.len() == proofs@.len(),
    ensures
        result == batch_accepts(
            relation_base@,
            views(firsts@),
            views(seconds@),
            proofs@,
            views(weights@),
        ),
{
    let ghost (base, fs, ss, ws) = (
        relation_base@,
        views(firsts@),
        views(seconds@),
        views(weights@),
    );
    assert(fs.len() == firsts@.len() && ss.len() == seconds@.len());
    if firsts.len() != seconds.len() || firsts.len() != proofs.len() {
        return false;
    }
    let count = proofs.len();
    let ghost mut challenges: Seq<int> = Seq::empty();
    let mut weighted: Vec<Fr> = Vec::new();
    let mut weighted_response = Fr::zero();
    while weighted.len() < count
        invariant
            count == firsts@.len() == seconds@.len() == proofs@.len() == weights@.len(),
            base == relation_base@,
            fs == views(firsts@),
            ss == views(seconds@),
            ws == views(weights@),
            weighted@.len() <= count,
            challenges.len() == weighted@.len(),
            forall|i: int|
                0 <= i < weighted@.len() ==> (#[trigger] proofs@[i]).challenge(base, fs[i], ss[i])
                    == Some(challenges[i]),
            forall|i: int|
                0 <= i < weighted@.len() ==> cong(
                    (#[trigger] weighted@[i])@,
                    ws[i] * challenges[i],
                ),
            cong(
                weighted_response@,
                sum(products(responses(proofs@), ws), 0, weighted@.len() as int),
            ),
        decreases count - weighted@.len(),
    {
        let index = weighted.len();
        let made = proofs[index];
        let challenge = match challenge_scalar(
            relation_base,
            firsts[index].to_affine(),
            seconds[index].to_affine(),
            made.first_commitment,
            made.second_commitment,
        ) {
            Some(challenge) => challenge,
            None => {
                assert(proofs@[index as int].challenge(
                    base,
                    fs[index as int],
                    ss[index as int],
                ) is None);
                return false;
            },
        };
        let term = weights[index].times(made.response);
        proof {
            let i = index as int;
            lemma_reduce(ws[i] * challenge@);
            lemma_reduce(ws[i] * made.response@);
            let f = products(responses(proofs@), ws);
            assert(sum(f, 0, i + 1) == sum(f, 0, i) + f(i));
            let (x, y) = (made.response@, ws[i]);
            assert(y * x == x * y) by (nonlinear_arith);
            lemma_cong_add(weighted_response@, sum(f, 0, i), term@, f(i));
            lemma_reduce(weighted_response@ + term@);
            challenges = challenges.push(challenge@);
        }
        weighted.push(weights[index].times(challenge));
        weighted_response = weighted_response.plus(term);
    }
    let mut scalars: Vec<Fr> = Vec::new();
    let mut first_bases: Vec<G1> = Vec::new();
    let mut second_bases: Vec<G1> = Vec::new();
    let mut index: usize = 0;
    while index < count
        invariant
            count == proofs@.len() == weights@.len(),
            index <= count,
            scalars@ == weights@.take(index as int),
            first_bases@.len() == index,
            second_bases@.len() == index,
            forall|i: int|
                0 <= i < index ==> (#[trigger] first_bases@[i])@ == proofs@[i].first_commitment@,
            forall|i: int|
                0 <= i < index ==> (#[trigger] second_bases@[i])@ == proofs@[i].second_commitment@,
        decreases count - index,
    {
        scalars.push(weights[index]);
        first_bases.push(G1::from_affine(proofs[index].first_commitment));
        second_bases.push(G1::from_affine(proofs[index].second_commitment));
        index = index + 1;
        assert(scalars@ =~= weights@.take(index as int));
    }
    let ghost c1 = views(first_bases@);
    let ghost c2 = views(second_bases@);
    assert(weights@.take(index as int) =~= weights@);
    index = 0;
    while index < count
        invariant
            count == firsts@.len() == seconds@.len() == weighted@.len() == weights@.len(),
            fs == views(firsts@),
            ss == views(seconds@),
            c1.len() == count,
            c2.len() == count,
            index <= count,
            scalars@ == weights@ + weighted@.take(index as int),
            views(first_bases@) == c1 + fs.take(index as int),
            views(second_bases@) == c2 + ss.take(index as int),
        decreases count - index,
    {
        let ghost (before_first, before_second) = (views(first_bases@), views(second_bases@));
        scalars.push(weighted[index]);
        first_bases.push(firsts[index]);
        second_bases.push(seconds[index]);
        proof {
            assert(views(first_bases@) =~= before_first.push(fs[index as int]));
            assert(views(second_bases@) =~= before_second.push(ss[index as int]));
        }
        index = index + 1;
        proof {
            assert(scalars@ =~= weights@ + weighted@.take(index as int));
            assert(views(first_bases@) =~= c1 + fs.take(index as int));
            assert(views(second_bases@) =~= c2 + ss.take(index as int));
        }
    }
    proof {
        assert(weighted@.take(index as int) =~= weighted@);
        assert(fs.take(index as int) =~= fs);
        assert(ss.take(index as int) =~= ss);
        assert(views(scalars@) =~= ws + views(weighted@));
        assert(views(first_bases@).len() == first_bases@.len());
        assert(views(second_bases@).len() == second_bases@.len());
    }
    let first_left = G1::multi_exp(first_bases.as_slice(), scalars.as_slice());
    let first_right = G1::generator().times(weighted_response);
    let second_left = G1::multi_exp(second_bases.as_slice(), scalars.as_slice());
    let second_right = G1::from_affine(relation_base).times(weighted_response);
    proof {
        let all = responses(proofs@);
        let total = dot(all, ws);
        assert(all_challenged(base, fs, ss, proofs@));
        let (a, b) = (first_sides(base, fs, ss, proofs@), second_sides(base, fs, ss, proofs@));
        assert forall|i: int| 0 <= i < a.len() implies #[trigger] a[i] == c1[i] + fs[i]
            * challenges[i] by {
            assert(proofs@[i].challenge(base, fs[i], ss[i]) == Some(challenges[i]));
        }
        assert forall|i: int| 0 <= i < b.len() implies #[trigger] b[i] == c2[i] + ss[i]
            * challenges[i] by {
            assert(proofs@[i].challenge(base, fs[i], ss[i]) == Some(challenges[i]));
        }
        assert forall|i: int| 0 <= i < count implies cong(
            #[trigger] views(weighted@)[i],
            ws[i] * challenges[i],
        ) by {
            assert(cong(weighted@[i]@, ws[i] * challenges[i]));
        }
        lemma_joined(c1, fs, ws, challenges, views(weighted@), a);
        lemma_joined(c2, ss, ws, challenges, views(weighted@), b);
        assert(1 * weighted_response@ == weighted_response@);
        lemma_cong_mul(base, base, weighted_response@, total);
    }
    first_left == first_right && second_left == second_right
}

/// Checks proofs together with random weights, none of them zero: the draws that are
/// kept. Where the counts differ nothing is drawn, and the proofs do not hold. There is
/// no answer where the source ran out of such weights.
pub fn verify_batch<R: ScalarRng>(
    relation_base: G1Point,
    firsts: &Vec<G1>,
    seconds: &Vec<G1>,
    proofs: &Vec<DleqProof>,
    rng: &mut R,
) -> (result: Option<bool>)
    ensures
        old(rng).drawn().is_prefix_of(final(rng).drawn()),
        ({
            let draws = drawn_since(old(rng).drawn(), final(rng).drawn());
            let weights = kept(draws);
            if firsts@.len() != seconds@.len() || firsts@.len() != proofs@.len() {
                result == Some(false) && draws.len() == 0
            } else {
                match result {
                    Some(valid) => {
                        &&& are_nonzero_draws(draws, proofs@.len() as int, Some(weights))
                        &&& forall|i: int|
                            0 <= i < weights.len() ==> 0 < #[trigger] weights[i] < order()
                        &&& valid == batch_accepts(
                            relation_base@,
                            views(firsts@),
                            views(seconds@),
                            proofs@,
                            weights,
                        )
                    },
                    None => are_nonzero_draws(draws, proofs@.len() as int, None),
                }
            }
        }),
        firsts@.len() == seconds@.len() == proofs@.len() && (forall|i: int|
            0 <= i < proofs@.len() ==> (#[trigger] proofs@[i]).accepts(
                relation_base@,
                firsts@[i]@,
                seconds@[i]@,
            )) ==> result != Some(false),
        forall|bad: int|
            is_only_bad(relation_base@, views(firsts@), views(seconds@), proofs@, bad) ==> result
                != Some(true),
{
    if firsts.len() != seconds.len() || firsts.len() != proofs.len() {
        return Some(false);
    }
    let weights = draw_nonzero(rng, proofs.len())?;
    proof {
        let ws = views(weights@);
        assert forall|i: int| 0 <= i < ws.len() implies 0 < #[trigger] ws[i] < order() by {
            assert(weights@[i]@ != 0);
            weights@[i].lemma_range();
        }
        let (base, fs, ss) = (relation_base@, views(firsts@), views(seconds@));
        if forall|i: int|
            0 <= i < proofs@.len() ==> (#[trigger] proofs@[i]).accepts(
                base,
                firsts@[i]@,
                seconds@[i]@,
            ) {
            law_batch_accepts_valid_proofs(base, fs, ss, proofs@, ws);
        }
        assert forall|bad: int| is_only_bad(base, fs, ss, proofs@, bad) implies !batch_accepts(
            base,
            fs,
            ss,
            proofs@,
            ws,
        ) by {
            law_one_bad_proof_is_refused(base, fs, ss, proofs@, ws, bad);
        }
    }
    Some(verify_batch_with_weights(relation_base, firsts, seconds, proofs, &weights))
}

/// The challenge of a proof is drawn from some string, and that string determines the base,
/// the two points and the two commitments: two challenges are drawn from the same string only
/// where all have the same encodings.
pub proof fn law_challenge_is_bound(a: Seq<int>, b: Seq<int>)
    requires
        a.len() == b.len() == 5,
        forall|i: int| 0 <= i < 5 ==> is_g1_sized(#[trigger] a[i]),
        forall|i: int| 0 <= i < 5 ==> is_g1_sized(#[trigger] b[i]),
    ensures
        exists|s: Seq<u8>, t: Seq<u8>|
            {
                &&& challenge_of(a[0], a[1], a[2], a[3], a[4]) == #[trigger] challenge(s)
                &&& challenge_of(b[0], b[1], b[2], b[3], b[4]) == #[trigger] challenge(t)
                &&& s == "PFE-CONSTRUCTION4-BLS12381-v1".spec_bytes() + g1_compressed(a[0])
                    + g1_compressed(a[1]) + g1_compressed(a[2]) + g1_compressed(a[3])
                    + g1_compressed(a[4])
                &&& s == t ==> forall|i: int|
                    0 <= i < 5 ==> g1_compressed(#[trigger] a[i]) == g1_compressed(b[i])
            },
{
    let tag = "PFE-CONSTRUCTION4-BLS12381-v1".spec_bytes();
    let s = transcript(a[0], a[1], a[2], a[3], a[4]);
    let t = transcript(b[0], b[1], b[2], b[3], b[4]);
    if s == t {
        let f = |log: int| g1_compressed(log);
        let (a0, a1, a2, a3) = (f(a[0]), f(a[1]), f(a[2]), f(a[3]));
        let (b0, b1, b2, b3) = (f(b[0]), f(b[1]), f(b[2]), f(b[3]));
        lemma_same_parts(
            tag + a0 + a1 + a2 + a3,
            g1_compressed(a[4]),
            tag + b0 + b1 + b2 + b3,
            g1_compressed(b[4]),
        );
        lemma_same_parts(tag + a0 + a1 + a2, a3, tag + b0 + b1 + b2, b3);
        lemma_same_parts(tag + a0 + a1, a2, tag + b0 + b1, b2);
        lemma_same_parts(tag + a0, a1, tag + b0, b1);
        lemma_same_parts(tag, a0, tag, b0);
    }
    assert(challenge_of(a[0], a[1], a[2], a[3], a[4]) == challenge(s));
    assert(challenge_of(b[0], b[1], b[2], b[3], b[4]) == challenge(t));
}

/// The commitments are answered by one response: where a proof holds, another with its
/// commitments holds if and only if it has its response.
pub proof fn law_response_is_determined(
    made: DleqProof,
    other: DleqProof,
    base: int,
    first: int,
    second: int,
)
    requires
        made.accepts(base, first, second),
        other.first_commitment@ == made.first_commitment@,
        other.second_commitment@ == made.second_commitment@,
    ensures
        other.accepts(base, first, second) <==> other.response@ == made.response@,
{
    made.response.lemma_range();
    other.response.lemma_range();
    lemma_reduced(made.response@);
    lemma_reduced(other.response@);
}

/// Two answers to the same commitments under different challenges are there only where the
/// points are the same multiple of their bases.
pub proof fn law_two_answers_need_a_true_statement(
    base: int,
    first: int,
    second: int,
    commitments: (int, int),
    challenges: (int, int),
    responses: (int, int),
)
    requires
        !cong(challenges.0, challenges.1),
        cong(commitments.0 + first * challenges.0, responses.0),
        cong(commitments.1 + second * challenges.0, base * responses.0),
        cong(commitments.0 + first * challenges.1, responses.1),
        cong(commitments.1 + second * challenges.1, base * responses.1),
    ensures
        cong(second, base * first),
{
    let d = challenges.0 - challenges.1;
    let r = responses.0 - responses.1;
    lemma_cong_sub(
        commitments.0 + first * challenges.0,
        responses.0,
        commitments.0 + first * challenges.1,
        responses.1,
    );
    lemma_cong_sub(
        commitments.1 + second * challenges.0,
        base * responses.0,
        commitments.1 + second * challenges.1,
        base * responses.1,
    );
    assert((commitments.0 + first * challenges.0) - (commitments.0 + first * challenges.1) == first
        * d) by (nonlinear_arith)
        requires
            d == challenges.0 - challenges.1,
    ;
    assert((commitments.1 + second * challenges.0) - (commitments.1 + second * challenges.1)
        == second * d) by (nonlinear_arith)
        requires
            d == challenges.0 - challenges.1,
    ;
    assert(base * responses.0 - base * responses.1 == base * r) by (nonlinear_arith)
        requires
            r == responses.0 - responses.1,
    ;
    // both sides times the difference of the challenges are the same
    lemma_cong_mul(base, base, first * d, r);
    assert(base * (first * d) == d * (base * first)) by (nonlinear_arith);
    assert(second * d == d * second) by (nonlinear_arith);
    lemma_cong_diff(challenges.0, challenges.1);
    lemma_nonzero_is_unit(d);
    lemma_cancel(d, second, base * first);
}

/// A proof that holds answers its challenge in the sense of
/// [`law_two_answers_need_a_true_statement`].
pub proof fn law_proof_answers_its_challenge(made: DleqProof, base: int, first: int, second: int)
    ensures
        made.accepts(base, first, second) <==> {
            let found = challenge_of(
                base,
                first,
                second,
                made.first_commitment@,
                made.second_commitment@,
            );
            &&& found is Some
            &&& cong(made.first_commitment@ + first * found->0, made.response@)
            &&& cong(made.second_commitment@ + second * found->0, base * made.response@)
        },
{
}

/// Whatever the other proofs and weights are, a proof that does not hold gets by with at most
/// one weight of its own.
pub proof fn law_bad_proof_passes_with_one_weight(
    base: int,
    firsts: Seq<int>,
    seconds: Seq<int>,
    proofs: Seq<DleqProof>,
    weights: Seq<int>,
    others: Seq<int>,
    bad: int,
)
    requires
        firsts.len() == seconds.len() == proofs.len() == weights.len() == others.len(),
        0 <= bad < proofs.len(),
        !proofs[bad].accepts(base, firsts[bad], seconds[bad]),
        forall|i: int| 0 <= i < proofs.len() && i != bad ==> #[trigger] weights[i] == others[i],
        0 <= weights[bad] < order(),
        0 <= others[bad] < order(),
        weights[bad] != others[bad],
    ensures
        !(batch_accepts(base, firsts, seconds, proofs, weights) && batch_accepts(
            base,
            firsts,
            seconds,
            proofs,
            others,
        )),
{
    let n = proofs.len() as int;
    if batch_accepts(base, firsts, seconds, proofs, weights) && batch_accepts(
        base,
        firsts,
        seconds,
        proofs,
        others,
    ) {
        let (a, b, r) = (
            first_sides(base, firsts, seconds, proofs),
            second_sides(base, firsts, seconds, proofs),
            responses(proofs),
        );
        let scaled = Seq::new(r.len(), |i: int| base * r[i]);
        assert(proofs[bad].challenge(base, firsts[bad], seconds[bad]) is Some);
        lemma_reduced(weights[bad]);
        lemma_reduced(others[bad]);
        if !cong(a[bad], r[bad]) {
            lemma_one_weight(a, r, weights, others, bad);
        } else {
            lemma_scaled_dot(base, r, scaled, weights);
            lemma_scaled_dot(base, r, scaled, others);
            lemma_one_weight(b, scaled, weights, others, bad);
        }
    }
}

} // verus!
