//! Evaluation of polynomials, and the weights of their interpolation at zero.
use vstd::arithmetic::power::{lemma_pow0, lemma_pow1, lemma_pow_adds, pow};
use vstd::prelude::*;

use crate::algebra::lagrange::{
    difference_from, eval, lagrange, lemma_weight_quotient, negated, poly_terms, separated, weight,
    weights,
};
use crate::algebra::primality::lemma_nonzero_is_unit;
use crate::algebra::residue::{
    cong, lemma_cong_add, lemma_cong_mul, lemma_one, lemma_reduce, lemma_reduced, order,
};
use crate::algebra::sums::{lemma_sum_first, lemma_sum_scale, lemma_sum_shift, prod, prod_but, skip};
use crate::curve::{views, Element, Fr};

verus! {

/// The value of a polynomial at a point from that of the polynomial without its
/// constant coefficient.
pub proof fn lemma_horner(c: Seq<int>, x: int)
    requires
        c.len() > 0,
    ensures
        eval(c, x) == c[0] + x * eval(c.drop_first(), x),
{
    let n = c.len() as int;
    let rest = c.drop_first();
    let f = poly_terms(c, x);
    let g = poly_terms(rest, x);
    lemma_sum_first(f, 0, n);
    lemma_pow0(x);
    assert(c[0] * 1 == c[0]);
    let moved = |k: int| f(k + 1);
    lemma_sum_shift(f, moved, 0, n - 1, 1);
    assert forall|k: int| 0 <= k < n - 1 implies #[trigger] moved(k) == x * g(k) by {
        lemma_pow1(x);
        lemma_pow_adds(x, 1, k as nat);
        let (a, p) = (c[k + 1], pow(x, k as nat));
        assert(rest[k] == a);
        assert(a * (x * p) == x * (a * p)) by (nonlinear_arith);
    }
    lemma_sum_scale(x, g, moved, 0, n - 1);
}

/// The value at `point` of the polynomial with the given coefficients, the
/// constant one first, by Horner's rule.
pub fn evaluate_polynomial(coefficients: &Vec<Fr>, point: Fr) -> (value: Fr)
    ensures
        value@ == eval(views(coefficients@), point@) % order(),
{
    let ghost c = views(coefficients@);
    let mut value = Fr::zero();
    let mut left: usize = coefficients.len();
    proof {
        assert(c.skip(left as int).len() == 0);
        lemma_one();
    }
    while left > 0
        invariant
            left <= coefficients@.len() == c.len(),
            c == views(coefficients@),
            value@ == eval(c.skip(left as int), point@) % order(),
        decreases left,
    {
        left = left - 1;
        let product = value.times(point);
        let next = product.plus(coefficients[left]);
        proof {
            let tail = c.skip(left + 1);
            let x = point@;
            let e = eval(tail, x);
            lemma_horner(c.skip(left as int), x);
            assert(c.skip(left as int).drop_first() =~= tail);
            lemma_reduce(e);
            lemma_cong_mul(value@, e, x, x);
            lemma_reduce(value@ * x);
            assert(e * x == x * e) by (nonlinear_arith);
            lemma_cong_add(product@, x * e, c[left as int], c[left as int]);
        }
        value = next;
    }
    assert(c.skip(0) =~= c);
    value
}

/// The weights of the interpolation at zero for points that are pairwise
/// different: the products of `-x_k` over those of `x_j - x_k`, for `k != j`.
pub fn lagrange_at_zero(points: &Vec<Fr>) -> (coefficients: Vec<Fr>)
    requires
        forall|i: int, j: int|
            0 <= i < j < points@.len() ==> (#[trigger] points@[i])@ != (#[trigger] points@[j])@,
    ensures
        views(coefficients@) == weights(views(points@)),
        separated(views(points@)),
{
    let ghost xs = views(points@);
    let count = points.len();
    let mut numerators: Vec<Fr> = Vec::new();
    let mut denominators: Vec<Fr> = Vec::new();
    while numerators.len() < count
        invariant
            count == points@.len() == xs.len(),
            xs == views(points@),
            numerators@.len() == denominators@.len() <= count,
            forall|i: int, j: int|
                0 <= i < j < points@.len() ==> (#[trigger] points@[i])@ != (#[trigger] points@[j])@,
            forall|i: int|
                0 <= i < numerators@.len() ==> cong(
                    (#[trigger] numerators@[i])@,
                    prod_but(negated(xs), 0, count as int, i),
                ),
            forall|i: int|
                0 <= i < denominators@.len() ==> cong(
                    (#[trigger] denominators@[i])@,
                    prod_but(difference_from(xs, i), 0, count as int, i),
                ) && denominators@[i]@ != 0,
        decreases count - numerators@.len(),
    {
        let j = numerators.len();
        let mut numerator = Fr::one();
        let mut denominator = Fr::one();
        let ghost f = skip(negated(xs), j as int);
        let ghost g = skip(difference_from(xs, j as int), j as int);
        let mut k: usize = 0;
        while k < count
            invariant
                k <= count == points@.len() == xs.len(),
                j < count,
                xs == views(points@),
                f == skip(negated(xs), j as int),
                g == skip(difference_from(xs, j as int), j as int),
                cong(numerator@, prod(f, 0, k as int)),
                cong(denominator@, prod(g, 0, k as int)),
                denominator@ != 0,
                forall|a: int, b: int|
                    0 <= a < b < points@.len() ==> (#[trigger] points@[a])@ != (
                    #[trigger] points@[b])@,
            decreases count - k,
        {
            if k != j {
                let negative = Fr::zero().minus(points[k]);
                let difference = points[j].minus(points[k]);
                proof {
                    let (x, y) = (points@[j as int]@, points@[k as int]@);
                    assert(x != y);
                    lemma_reduce(0 - y);
                    lemma_reduce(x - y);
                    crate::algebra::residue::lemma_cong_diff(x, y);
                    points@[j as int].lemma_range();
                    points@[k as int].lemma_range();
                    lemma_reduced(x);
                    lemma_reduced(y);
                    lemma_one();
                    assert(difference@ != 0);
                    assert(f(k as int) == -y && g(k as int) == x - y);
                    lemma_cong_mul(numerator@, prod(f, 0, k as int), negative@, -y);
                    lemma_cong_mul(denominator@, prod(g, 0, k as int), difference@, x - y);
                    lemma_reduce(numerator@ * negative@);
                    lemma_reduce(denominator@ * difference@);
                }
                numerator = numerator.product(negative);
                denominator = denominator.product(difference);
            } else {
                proof {
                    assert(prod(f, 0, k as int) * 1 == prod(f, 0, k as int));
                    assert(prod(g, 0, k as int) * 1 == prod(g, 0, k as int));
                }
            }
            k = k + 1;
        }
        numerators.push(numerator);
        denominators.push(denominator);
    }
    let ghost before = denominators@;
    Fr::batch_invert(&mut denominators);
    let mut coefficients: Vec<Fr> = Vec::new();
    proof {
        assert forall|i: int| 0 <= i < count implies {
            &&& cong(#[trigger] numerators@[i]@ * denominators@[i]@, lagrange(xs, i))
            &&& forall|j: int| 0 <= j < count && j != i ==> is_unit_at(xs, i, j)
        } by {
            lemma_one();
            assert(before[i]@ != 0);
            assert((before[i]@ * denominators@[i]@) % order() == 1);
            lemma_weight_quotient(xs, i, numerators@[i]@, before[i]@, denominators@[i]@);
        }
        assert forall|i: int, j: int|
            0 <= i < xs.len() && 0 <= j < xs.len()
                && i != j implies crate::algebra::residue::is_unit(
            #[trigger] xs[j] - #[trigger] xs[i],
        ) by {
            assert(cong(numerators@[i]@ * denominators@[i]@, lagrange(xs, i)));
            assert(is_unit_at(xs, i, j));
        }
    }
    while coefficients.len() < count
        invariant
            count == numerators@.len() == denominators@.len() == xs.len(),
            coefficients@.len() <= count,
            forall|i: int|
                0 <= i < count ==> cong(
                    #[trigger] numerators@[i]@ * denominators@[i]@,
                    lagrange(xs, i),
                ),
            forall|i: int|
                0 <= i < coefficients@.len() ==> (#[trigger] coefficients@[i])@ == weight(xs, i),
        decreases count - coefficients@.len(),
    {
        let index = coefficients.len();
        assert(cong(
            numerators@[index as int]@ * denominators@[index as int]@,
            lagrange(xs, index as int),
        ));
        coefficients.push(numerators[index].times(denominators[index]));
    }
    assert(views(coefficients@) =~= weights(xs));
    coefficients
}

/// Points that are pairwise different residues can be interpolated from: their differences
/// have inverses.
pub proof fn law_different_points_are_separated(xs: Seq<int>)
    requires
        forall|i: int| 0 <= i < xs.len() ==> 0 <= #[trigger] xs[i] < order(),
        xs.no_duplicates(),
    ensures
        separated(xs),
{
    assert forall|i: int, j: int|
        0 <= i < xs.len() && 0 <= j < xs.len()
            && i != j implies crate::algebra::residue::is_unit(
        #[trigger] xs[j] - #[trigger] xs[i],
    ) by {
        lemma_reduced(xs[i]);
        lemma_reduced(xs[j]);
        crate::algebra::residue::lemma_cong_diff(xs[j], xs[i]);
        lemma_nonzero_is_unit(xs[j] - xs[i]);
    }
}

spec fn is_unit_at(xs: Seq<int>, i: int, j: int) -> bool {
    crate::algebra::residue::is_unit(xs[j] - xs[i])
}

} // verus!
