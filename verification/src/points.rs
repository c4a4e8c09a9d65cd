//! Sequences of points and of powers.
use vstd::arithmetic::power::{lemma_pow0, lemma_pow1, lemma_pow_adds, pow};
use vstd::prelude::*;

use crate::algebra::dft::padded;
use crate::algebra::residue::{
    lemma_cong_add, lemma_cong_mul, lemma_one, lemma_reduce, lemma_reduced, order,
};
use crate::algebra::sums::{dot, items, sum, sum_of};
use crate::curve::{views, Element, Fr, G1Point, G2Point, G1, G2};

verus! {

/// `count` neutral elements.
pub fn zeros<E: Element>(count: usize) -> (result: Vec<E>)
    ensures
        result@.len() == count,
        forall|i: int| 0 <= i < count ==> (#[trigger] result@[i])@ == 0,
{
    let mut result: Vec<E> = Vec::new();
    while result.len() < count
        invariant
            result@.len() <= count,
            forall|i: int| 0 <= i < result@.len() ==> (#[trigger] result@[i])@ == 0,
        decreases count - result@.len(),
    {
        result.push(E::zero());
    }
    result
}

/// Continues with neutral elements to a length.
pub fn pad<E: Element>(values: &Vec<E>, size: usize) -> (result: Vec<E>)
    requires
        values@.len() <= size,
    ensures
        result@.len() == size,
        views(result@) == padded(views(values@), size as int),
{
    let ghost target = padded(views(values@), size as int);
    let mut result: Vec<E> = Vec::new();
    while result.len() < size
        invariant
            values@.len() <= size,
            target == padded(views(values@), size as int),
            result@.len() <= size,
            forall|i: int| 0 <= i < result@.len() ==> (#[trigger] result@[i])@ == target[i],
        decreases size - result@.len(),
    {
        let index = result.len();
        if index < values.len() {
            result.push(values[index]);
        } else {
            result.push(E::zero());
        }
    }
    assert(views(result@) =~= target);
    result
}

/// Normalizes every point.
pub fn batch_normalize_g1(projective: &Vec<G1>) -> (affine: Vec<G1Point>)
    ensures
        views(affine@) == views(projective@),
{
    let mut affine: Vec<G1Point> = Vec::new();
    while affine.len() < projective.len()
        invariant
            affine@.len() <= projective@.len(),
            forall|i: int|
                0 <= i < affine@.len() ==> (#[trigger] affine@[i])@ == projective@[i]@,
        decreases projective@.len() - affine@.len(),
    {
        affine.push(projective[affine.len()].to_affine());
    }
    assert(views(affine@) =~= views(projective@));
    affine
}

/// Normalizes every point.
pub fn batch_normalize_g2(projective: &Vec<G2>) -> (affine: Vec<G2Point>)
    ensures
        views(affine@) == views(projective@),
{
    let mut affine: Vec<G2Point> = Vec::new();
    while affine.len() < projective.len()
        invariant
            affine@.len() <= projective@.len(),
            forall|i: int|
                0 <= i < affine@.len() ==> (#[trigger] affine@[i])@ == projective@[i]@,
        decreases projective@.len() - affine@.len(),
    {
        affine.push(projective[affine.len()].to_affine());
    }
    assert(views(affine@) =~= views(projective@));
    affine
}

/// The generator of the first source group times every scalar.
pub fn scalars_to_g1(scalars: &Vec<Fr>) -> (affine: Vec<G1Point>)
    ensures
        views(affine@) == views(scalars@),
{
    let mut projective: Vec<G1> = Vec::new();
    while projective.len() < scalars.len()
        invariant
            projective@.len() <= scalars@.len(),
            forall|i: int|
                0 <= i < projective@.len() ==> (#[trigger] projective@[i])@ == scalars@[i]@,
        decreases scalars@.len() - projective@.len(),
    {
        let scalar = scalars[projective.len()];
        proof {
            scalar.lemma_range();
            lemma_reduced(scalar@);
            assert(1 * scalar@ == scalar@);
        }
        projective.push(G1::generator().times(scalar));
    }
    assert(views(projective@) =~= views(scalars@));
    batch_normalize_g1(&projective)
}

/// The generator of the second source group times every scalar.
pub fn scalars_to_g2(scalars: &Vec<Fr>) -> (affine: Vec<G2Point>)
    ensures
        views(affine@) == views(scalars@),
{
    let mut projective: Vec<G2> = Vec::new();
    while projective.len() < scalars.len()
        invariant
            projective@.len() <= scalars@.len(),
            forall|i: int|
                0 <= i < projective@.len() ==> (#[trigger] projective@[i])@ == scalars@[i]@,
        decreases scalars@.len() - projective@.len(),
    {
        let scalar = scalars[projective.len()];
        proof {
            scalar.lemma_range();
            lemma_reduced(scalar@);
            assert(1 * scalar@ == scalar@);
        }
        projective.push(G2::generator().times(scalar));
    }
    assert(views(projective@) =~= views(scalars@));
    batch_normalize_g2(&projective)
}

/// The powers `from..from + count` of a scalar, as residues.
pub open spec fn power_range(base: int, from: int, count: int) -> Seq<int> {
    Seq::new(count as nat, |i: int| pow(base, (from + i) as nat) % order())
}

/// The powers `0..count` of a scalar.
pub fn powers_of(base: Fr, count: usize) -> (powers: Vec<Fr>)
    ensures
        views(powers@) == power_range(base@, 0, count as int),
{
    let mut powers: Vec<Fr> = Vec::new();
    let mut next = Fr::one();
    proof {
        lemma_pow0(base@);
        lemma_one();
    }
    while powers.len() < count
        invariant
            powers@.len() <= count,
            next@ == pow(base@, powers@.len()) % order(),
            forall|i: int|
                0 <= i < powers@.len() ==> (#[trigger] powers@[i])@ == pow(base@, i as nat)
                    % order(),
        decreases count - powers@.len(),
    {
        let ghost exponent = powers@.len();
        powers.push(next);
        proof {
            lemma_pow1(base@);
            lemma_pow_adds(base@, exponent, 1);
            lemma_reduce(pow(base@, exponent));
            lemma_cong_mul(next@, pow(base@, exponent), base@, base@);
        }
        next = next.times(base);
    }
    assert(views(powers@) =~= power_range(base@, 0, count as int));
    powers
}

/// A part of a sequence of scalars.
pub fn slice_of(scalars: &Vec<Fr>, from: usize, to: usize) -> (part: Vec<Fr>)
    requires
        from <= to <= scalars@.len(),
    ensures
        part@ == scalars@.subrange(from as int, to as int),
        from == 0 && to == scalars@.len() ==> part@ == scalars@,
{
    let mut part: Vec<Fr> = Vec::new();
    let mut index: usize = from;
    while index < to
        invariant
            from <= index <= to <= scalars@.len(),
            part@ == scalars@.subrange(from as int, index as int),
        decreases to - index,
    {
        part.push(scalars[index]);
        index = index + 1;
        assert(part@ =~= scalars@.subrange(from as int, index as int));
    }
    assert(scalars@.subrange(0, scalars@.len() as int) =~= scalars@);
    part
}

/// The sum of elements.
pub fn sum_all<E: Element>(values: &Vec<E>) -> (result: E)
    ensures
        result@ == sum_of(views(values@)) % order(),
{
    let mut result = E::zero();
    let ghost all = views(values@);
    proof {
        lemma_one();
    }
    let mut index: usize = 0;
    while index < values.len()
        invariant
            index <= values@.len(),
            all == views(values@),
            result@ == sum(items(all), 0, index as int) % order(),
        decreases values@.len() - index,
    {
        proof {
            let before = sum(items(all), 0, index as int);
            lemma_reduce(before);
            lemma_cong_add(result@, before, values@[index as int]@, items(all)(index as int));
        }
        result = result.plus(values[index]);
        index = index + 1;
    }
    assert(all.len() == values@.len());
    result
}

/// Appends points.
pub fn append_points<T: Copy + View<V = int>>(output: &mut Vec<T>, points: &Vec<T>)
    ensures
        views(final(output)@) == views(old(output)@) + views(points@),
{
    let ghost start = output@;
    let mut index: usize = 0;
    while index < points.len()
        invariant
            index <= points@.len(),
            output@ == start + points@.take(index as int),
        decreases points@.len() - index,
    {
        output.push(points[index]);
        index = index + 1;
        assert(output@ =~= start + points@.take(index as int));
    }
    assert(points@.take(index as int) =~= points@);
    assert(views(start + points@) =~= views(start) + views(points@));
}

/// The points of the second source group, ready for arithmetic.
pub fn g2_elements(points: &Vec<G2Point>) -> (result: Vec<G2>)
    ensures
        views(result@) == views(points@),
        result@.len() == points@.len(),
{
    let mut result: Vec<G2> = Vec::new();
    while result.len() < points.len()
        invariant
            result@.len() <= points@.len(),
            forall|i: int| 0 <= i < result@.len() ==> (#[trigger] result@[i])@ == points@[i]@,
        decreases points@.len() - result@.len(),
    {
        result.push(G2::from_affine(points[result.len()]));
    }
    assert(views(result@) =~= views(points@));
    result
}

pub fn copy_scalars(values: &Vec<Fr>) -> (copy: Vec<Fr>)
    ensures
        copy@ == values@,
{
    crate::points::slice_of(values, 0, values.len())
}

/// The sum of normalized points of the first source group, each times its scalar.
pub fn g1_multi_exp_affine(points: &[G1Point], scalars: &[Fr]) -> (result: G1)
    requires
        points@.len() == scalars@.len(),
    ensures
        result@ == dot(views(points@), views(scalars@)) % order(),
{
    let mut bases: Vec<G1> = Vec::new();
    while bases.len() < points.len()
        invariant
            bases@.len() <= points@.len(),
            forall|i: int| 0 <= i < bases@.len() ==> (#[trigger] bases@[i])@ == points@[i]@,
        decreases points@.len() - bases@.len(),
    {
        bases.push(G1::from_affine(points[bases.len()]));
    }
    assert(views(bases@) =~= views(points@));
    G1::multi_exp(bases.as_slice(), scalars)
}

/// The sum of normalized points of the second source group, each times its scalar.
pub fn g2_multi_exp_affine(points: &[G2Point], scalars: &[Fr]) -> (result: G2)
    requires
        points@.len() == scalars@.len(),
    ensures
        result@ == dot(views(points@), views(scalars@)) % order(),
{
    let mut bases: Vec<G2> = Vec::new();
    while bases.len() < points.len()
        invariant
            bases@.len() <= points@.len(),
            forall|i: int| 0 <= i < bases@.len() ==> (#[trigger] bases@[i])@ == points@[i]@,
        decreases points@.len() - bases@.len(),
    {
        bases.push(G2::from_affine(points[bases.len()]));
    }
    assert(views(bases@) =~= views(points@));
    G2::multi_exp(bases.as_slice(), scalars)
}

/// The items at the given places.
pub open spec fn picked(values: Seq<int>, indices: Seq<usize>) -> Seq<int> {
    Seq::new(indices.len(), |k: int| values[indices[k] as int])
}

/// The sum of the points at the given places, each times its scalar.
pub fn g1_multi_exp_affine_indexed(points: &[G1Point], indices: &[usize], scalars: &[Fr]) -> (result:
    G1)
    requires
        indices@.len() == scalars@.len(),
        forall|k: int| 0 <= k < indices@.len() ==> (#[trigger] indices@[k]) < points@.len(),
    ensures
        result@ == dot(picked(views(points@), indices@), views(scalars@)) % order(),
{
    let mut bases: Vec<G1> = Vec::new();
    while bases.len() < indices.len()
        invariant
            forall|k: int| 0 <= k < indices@.len() ==> (#[trigger] indices@[k]) < points@.len(),
            bases@.len() <= indices@.len(),
            forall|k: int|
                0 <= k < bases@.len() ==> (#[trigger] bases@[k])@ == points@[indices@[k] as int]@,
        decreases indices@.len() - bases@.len(),
    {
        bases.push(G1::from_affine(points[indices[bases.len()]]));
    }
    assert(views(bases@) =~= picked(views(points@), indices@));
    G1::multi_exp(bases.as_slice(), scalars)
}

} // verus!
