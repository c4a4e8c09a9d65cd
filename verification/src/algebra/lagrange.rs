//! Polynomials, and their interpolation at zero.
use vstd::arithmetic::power::{lemma_pow0, lemma_pow1, lemma_pow_adds, pow};
use vstd::prelude::*;

use crate::algebra::residue::{
    cong, inv, is_unit, lemma_cancel, lemma_cong_mul, lemma_cong_sub, lemma_inv, lemma_inv_unique,
    lemma_reduce, lemma_unit_factor, lemma_unit_neg, order,
};
use crate::algebra::sums::{
    lemma_prod_but, lemma_prod_cong, lemma_prod_ext, lemma_prod_first, lemma_prod_mul,
    lemma_prod_shift, lemma_sum_cong, lemma_sum_first, lemma_sum_scale, lemma_sum_shift,
    lemma_sum_single, lemma_sum_sub, lemma_sum_swap, prod, prod_but, skip, sum,
};

verus! {

pub open spec fn poly_terms(c: Seq<int>, x: int) -> spec_fn(int) -> int {
    |k: int| c[k] * pow(x, k as nat)
}

/// The value at `x` of the polynomial with coefficients `c`, the constant one first.
pub open spec fn eval(c: Seq<int>, x: int) -> int {
    sum(poly_terms(c, x), 0, c.len() as int)
}

/// Whether the differences of the points are units.
pub open spec fn separated(xs: Seq<int>) -> bool {
    forall|i: int, j: int|
        0 <= i < xs.len() && 0 <= j < xs.len() && i != j
            ==> is_unit(#[trigger] xs[j] - #[trigger] xs[i])
}

pub open spec fn ratio(xs: Seq<int>, i: int) -> spec_fn(int) -> int {
    |j: int| xs[j] * inv(xs[j] - xs[i])
}

/// The weight of point `i` in the interpolation at zero: the product of
/// `x_j / (x_j - x_i)` over the other points.
pub open spec fn lagrange(xs: Seq<int>, i: int) -> int {
    prod_but(ratio(xs, i), 0, xs.len() as int, i)
}

/// `lagrange` as a residue.
pub open spec fn weight(xs: Seq<int>, i: int) -> int {
    lagrange(xs, i) % order()
}

/// The weights of all points.
pub open spec fn weights(xs: Seq<int>) -> Seq<int> {
    Seq::new(xs.len(), |i: int| weight(xs, i))
}

pub open spec fn moment_terms(xs: Seq<int>, d: nat) -> spec_fn(int) -> int {
    |i: int| lagrange(xs, i) * pow(xs[i], d)
}

/// The weighted sum of the powers `d` of the points.
pub open spec fn moment(xs: Seq<int>, d: nat) -> int {
    sum(moment_terms(xs, d), 0, xs.len() as int)
}

/// Taking the last point off.
proof fn lemma_lagrange_last(xs: Seq<int>, i: int)
    requires
        0 <= i < xs.len() - 1,
    ensures
        lagrange(xs, i) == lagrange(xs.drop_last(), i) * ratio(xs, i)(xs.len() - 1),
{
    let n = xs.len() as int;
    let f = skip(ratio(xs, i), i);
    let g = skip(ratio(xs.drop_last(), i), i);
    assert forall|j: int| 0 <= j < n - 1 implies #[trigger] f(j) == g(j) by {
        assert(xs.drop_last()[j] == xs[j]);
        assert(xs.drop_last()[i] == xs[i]);
    }
    lemma_prod_ext(f, g, 0, n - 1);
}

/// Taking the first point off.
proof fn lemma_lagrange_first(xs: Seq<int>, i: int)
    requires
        0 < i < xs.len(),
    ensures
        lagrange(xs, i) == ratio(xs, i)(0) * lagrange(xs.drop_first(), i - 1),
{
    let n = xs.len() as int;
    let f = skip(ratio(xs, i), i);
    let g = skip(ratio(xs.drop_first(), i - 1), i - 1);
    lemma_prod_first(f, 0, n);
    assert forall|j: int| 0 <= j < n - 1 implies #[trigger] g(j) == f(j + 1) by {
        assert(xs.drop_first()[j] == xs[j + 1]);
        assert(xs.drop_first()[i - 1] == xs[i]);
    }
    lemma_prod_shift(f, g, 0, n - 1, 1);
}

/// `(b - a) / ((a - x) (b - x)) == 1 / (a - x) - 1 / (b - x)`.
proof fn lemma_partial_fractions(a: int, b: int, x: int)
    requires
        is_unit(a - x),
        is_unit(b - x),
    ensures
        cong((b - a) * (inv(a - x) * inv(b - x)), inv(a - x) - inv(b - x)),
{
    let (p, q) = (inv(a - x), inv(b - x));
    let (u, v) = (a - x, b - x);
    lemma_inv(u);
    lemma_inv(v);
    // (v - u) p q == p (v q) - q (u p)
    lemma_cong_mul(p, p, v * q, 1);
    lemma_cong_mul(q, q, u * p, 1);
    lemma_cong_sub(p * (v * q), p * 1, q * (u * p), q * 1);
    assert((v - u) * (p * q) == p * (v * q) - q * (u * p)) by (nonlinear_arith);
    assert(p * 1 == p && q * 1 == q);
    assert(b - a == v - u);
}

/// The weights add up to one.
proof fn lemma_moment_zero(xs: Seq<int>)
    requires
        separated(xs),
        xs.len() >= 1,
    ensures
        cong(moment(xs, 0), 1),
    decreases xs.len(),
{
    let n = xs.len() as int;
    let t = moment_terms(xs, 0);
    if n == 1 {
        let f = skip(ratio(xs, 0), 0);
        assert(prod(f, 0, 0) == 1);
        assert(prod(f, 0, 1) == prod(f, 0, 0) * f(0));
        lemma_pow0(xs[0]);
        assert(sum(t, 0, 0) == 0);
        assert(sum(t, 0, 1) == sum(t, 0, 0) + t(0));
    } else {
        let left = xs.drop_last();
        let right = xs.drop_first();
        let (a, b) = (xs[0], xs[n - 1]);
        assert(separated(left)) by {
            assert forall|i: int, j: int|
                0 <= i < left.len() && 0 <= j < left.len() && i != j implies is_unit(
                #[trigger] left[j] - #[trigger] left[i],
            ) by {
                assert(is_unit(xs[j] - xs[i]));
            }
        }
        assert(separated(right)) by {
            assert forall|i: int, j: int|
                0 <= i < right.len() && 0 <= j < right.len() && i != j implies is_unit(
                #[trigger] right[j] - #[trigger] right[i],
            ) by {
                assert(is_unit(xs[j + 1] - xs[i + 1]));
            }
        }
        lemma_moment_zero(left);
        lemma_moment_zero(right);
        let tl = moment_terms(left, 0);
        let tr = moment_terms(right, 0);
        // The terms of the two shorter sums, over all indices.
        let pl = |i: int| if i < n - 1 { b * tl(i) } else { 0 };
        let pr = |i: int| if i > 0 { a * tr(i - 1) } else { 0 };
        let difference = |i: int| pl(i) - pr(i);
        let scaled = |i: int| (b - a) * t(i);
        assert forall|i: int| 0 <= i < n implies cong(#[trigger] scaled(i), difference(i)) by {
            lemma_moment_zero_term(xs, i);
        }
        lemma_sum_cong(scaled, difference, 0, n);
        lemma_sum_scale(b - a, t, scaled, 0, n);
        lemma_sum_sub(pl, pr, difference, 0, n);
        // sum of pl
        lemma_sum_scale(b, tl, pl, 0, n - 1);
        assert(sum(pl, 0, n) == sum(pl, 0, n - 1) + pl(n - 1));
        // sum of pr
        lemma_sum_first(pr, 0, n);
        let moved = |i: int| pr(i + 1);
        lemma_sum_shift(pr, moved, 0, n - 1, 1);
        assert forall|i: int| 0 <= i < n - 1 implies #[trigger] moved(i) == a * tr(i) by {}
        lemma_sum_scale(a, tr, moved, 0, n - 1);
        lemma_cong_mul(b, b, moment(left, 0), 1);
        lemma_cong_mul(a, a, moment(right, 0), 1);
        lemma_cong_sub(b * moment(left, 0), b * 1, a * moment(right, 0), a * 1);
        assert(b * 1 - a * 1 == (b - a) * 1);
        assert(is_unit(xs[n - 1] - xs[0]));
        lemma_cancel(b - a, moment(xs, 0), 1);
    }
}

/// One term of the recursion of the sum of the weights.
proof fn lemma_moment_zero_term(xs: Seq<int>, i: int)
    requires
        separated(xs),
        xs.len() >= 2,
        0 <= i < xs.len(),
    ensures
        ({
            let n = xs.len() as int;
            let (a, b) = (xs[0], xs[n - 1]);
            cong(
                (b - a) * moment_terms(xs, 0)(i),
                (if i < n - 1 {
                    b * moment_terms(xs.drop_last(), 0)(i)
                } else {
                    0
                }) - (if i > 0 {
                    a * moment_terms(xs.drop_first(), 0)(i - 1)
                } else {
                    0
                }),
            )
        }),
{
    let n = xs.len() as int;
    let (a, b, x) = (xs[0], xs[n - 1], xs[i]);
    let left = xs.drop_last();
    let right = xs.drop_first();
    let whole = lagrange(xs, i);
    lemma_pow0(x);
    assert(moment_terms(xs, 0)(i) == whole);
    if i < n - 1 {
        lemma_pow0(left[i]);
        lemma_lagrange_last(xs, i);
    }
    if i > 0 {
        lemma_pow0(right[i - 1]);
        lemma_lagrange_first(xs, i);
    }
    if i == 0 {
        let m = lagrange(left, 0);
        assert(is_unit(xs[n - 1] - xs[0]));
        lemma_inv(b - a);
        let q = inv(b - a);
        assert(whole == m * (b * q));
        lemma_cong_mul((b - a) * q, 1, m * b, m * b);
        assert((b - a) * (m * (b * q)) == ((b - a) * q) * (m * b)) by (nonlinear_arith);
        assert(1 * (m * b) == b * m) by (nonlinear_arith);
        assert(moment_terms(left, 0)(i) == m);
    } else if i == n - 1 {
        let m = lagrange(right, i - 1);
        assert(is_unit(xs[0] - xs[n - 1]));
        lemma_inv(a - b);
        let q = inv(a - b);
        assert(whole == (a * q) * m);
        lemma_cong_mul((a - b) * q, 1, -(m * a), -(m * a));
        assert((b - a) * ((a * q) * m) == ((a - b) * q) * (-(m * a))) by (nonlinear_arith);
        assert(1 * (-(m * a)) == 0 - a * m) by (nonlinear_arith);
        assert(moment_terms(right, 0)(i - 1) == m);
    } else {
        let middle = left.drop_first();
        lemma_lagrange_first(left, i);
        lemma_lagrange_last(right, i - 1);
        assert(right.drop_last() =~= middle);
        let m = lagrange(middle, i - 1);
        assert(is_unit(xs[0] - xs[i]));
        assert(is_unit(xs[n - 1] - xs[i]));
        let (p, q) = (inv(a - x), inv(b - x));
        assert(left[i] == x && left[0] == a);
        assert(right[i - 1] == x && right[n - 2] == b);
        let l = lagrange(left, i);
        let r = lagrange(right, i - 1);
        assert(l == (a * p) * m);
        assert(r == m * (b * q));
        assert(whole == l * (b * q));
        lemma_partial_fractions(a, b, x);
        let c = m * (a * b);
        lemma_cong_mul(c, c, (b - a) * (p * q), p - q);
        let r = p * q;
        assert(((a * p) * m) * (b * q) == c * r) by (nonlinear_arith)
            requires
                r == p * q,
                c == m * (a * b),
        ;
        assert((b - a) * (c * r) == c * ((b - a) * r)) by (nonlinear_arith);
        assert(c * (p - q) == c * p - c * q) by (nonlinear_arith);
        assert(c * p == b * l) by (nonlinear_arith)
            requires
                c == m * (a * b),
                l == (a * p) * m,
        ;
        assert(c * q == a * (m * (b * q))) by (nonlinear_arith)
            requires
                c == m * (a * b),
        ;
    }
}

/// The weighted sum of the powers `d` of the points is one for `d == 0` and zero
/// for every other `d` below the number of points.
pub proof fn lemma_moment(xs: Seq<int>, d: nat)
    requires
        separated(xs),
        d < xs.len(),
    ensures
        cong(
            moment(xs, d),
            if d == 0 {
                1
            } else {
                0
            },
        ),
    decreases d,
{
    if d == 0 {
        lemma_moment_zero(xs);
    } else {
        let n = xs.len() as int;
        let b = xs[n - 1];
        let left = xs.drop_last();
        let e = (d - 1) as nat;
        assert(separated(left)) by {
            assert forall|i: int, j: int|
                0 <= i < left.len() && 0 <= j < left.len() && i != j implies is_unit(
                #[trigger] left[j] - #[trigger] left[i],
            ) by {
                assert(is_unit(xs[j] - xs[i]));
            }
        }
        lemma_moment(xs, e);
        lemma_moment(left, e);
        // lambda_i (b - x_i) x_i^e, summed in two ways
        let t = moment_terms(xs, d);
        let te = moment_terms(xs, e);
        let tb = |i: int| b * te(i);
        let f = |i: int| tb(i) - t(i);
        let g = moment_terms(left, e);
        let gb = |i: int| b * g(i);
        assert forall|i: int| 0 <= i < n implies #[trigger] f(i) == (lagrange(xs, i) * (b - xs[i]))
            * pow(xs[i], e) by {
            lemma_pow1(xs[i]);
            lemma_pow_adds(xs[i], 1, e);
            let (l, x, p) = (lagrange(xs, i), xs[i], pow(xs[i], e));
            assert(b * (l * p) - l * (x * p) == (l * (b - x)) * p) by (nonlinear_arith);
        }
        assert forall|i: int| 0 <= i < n - 1 implies cong(#[trigger] f(i), gb(i)) by {
            lemma_lagrange_last(xs, i);
            assert(is_unit(xs[n - 1] - xs[i]));
            let x = xs[i];
            let l = lagrange(left, i);
            let q = inv(b - x);
            lemma_inv(b - x);
            let p = pow(x, e);
            assert(lagrange(xs, i) == l * (b * q));
            lemma_cong_mul((b - x) * q, 1, (b * l) * p, (b * l) * p);
            assert(((l * (b * q)) * (b - x)) * p == ((b - x) * q) * ((b * l) * p))
                by (nonlinear_arith);
            assert(1 * ((b * l) * p) == b * (l * p)) by (nonlinear_arith);
            assert(left[i] == x);
        }
        assert(f(n - 1) == 0) by {
            assert(f(n - 1) == (lagrange(xs, n - 1) * (b - xs[n - 1])) * pow(xs[n - 1], e));
            assert(lagrange(xs, n - 1) * 0 == 0);
            assert(0 * pow(xs[n - 1], e) == 0);
        }
        lemma_sum_cong(f, gb, 0, n - 1);
        assert(sum(f, 0, n) == sum(f, 0, n - 1) + f(n - 1));
        lemma_sum_sub(tb, t, f, 0, n);
        lemma_sum_scale(b, te, tb, 0, n);
        lemma_sum_scale(b, g, gb, 0, n - 1);
        // b T(xs, e) - T(xs, d) == b T(left, e)
        let unit = if e == 0 {
            1int
        } else {
            0int
        };
        lemma_cong_mul(b, b, moment(xs, e), unit);
        lemma_cong_mul(b, b, moment(left, e), unit);
        lemma_cong_sub(
            b * moment(xs, e),
            b * unit,
            b * moment(xs, e) - moment(xs, d),
            b * unit,
        );
    }
}

/// Interpolation at zero: a polynomial with no more coefficients than there are
/// points has its value at zero as the weighted sum of its values at the points.
pub proof fn lemma_interpolate(xs: Seq<int>, c: Seq<int>)
    requires
        separated(xs),
        1 <= c.len() <= xs.len(),
    ensures
        cong(sum(|i: int| weight(xs, i) * eval(c, xs[i]), 0, xs.len() as int), c[0]),
{
    let n = xs.len() as int;
    let m = c.len() as int;
    let reduced = |i: int| weight(xs, i) * eval(c, xs[i]);
    let t = |i: int, k: int| lagrange(xs, i) * (c[k] * pow(xs[i], k as nat));
    let rows = |i: int| sum(|k: int| t(i, k), 0, m);
    let columns = |k: int| sum(|i: int| t(i, k), 0, n);
    assert forall|i: int| 0 <= i < n implies cong(#[trigger] reduced(i), rows(i)) by {
        lemma_reduce(lagrange(xs, i));
        lemma_cong_mul(weight(xs, i), lagrange(xs, i), eval(c, xs[i]), eval(c, xs[i]));
        let row = |k: int| t(i, k);
        lemma_sum_scale(lagrange(xs, i), poly_terms(c, xs[i]), row, 0, m);
    }
    lemma_sum_cong(reduced, rows, 0, n);
    lemma_sum_swap(t, n, m);
    let target = |k: int| if k == 0 { c[0] } else { 0 };
    assert forall|k: int| 0 <= k < m implies cong(#[trigger] columns(k), target(k)) by {
        lemma_moment(xs, k as nat);
        let column = |i: int| t(i, k);
        assert forall|i: int| 0 <= i < n implies #[trigger] column(i) == c[k] * moment_terms(
            xs,
            k as nat,
        )(i) by {
            let (l, a, p) = (lagrange(xs, i), c[k], pow(xs[i], k as nat));
            assert(l * (a * p) == a * (l * p)) by (nonlinear_arith);
        }
        lemma_sum_scale(c[k], moment_terms(xs, k as nat), column, 0, n);
        let unit = if k == 0 {
            1int
        } else {
            0int
        };
        lemma_cong_mul(c[k], c[k], moment(xs, k as nat), unit);
        assert(c[k] * 1 == c[k] && c[k] * 0 == 0);
    }
    lemma_sum_cong(columns, target, 0, m);
    lemma_sum_single(target, 0, m, 0);
}

pub open spec fn difference_from(xs: Seq<int>, i: int) -> spec_fn(int) -> int {
    |j: int| xs[i] - xs[j]
}

pub open spec fn negated(xs: Seq<int>) -> spec_fn(int) -> int {
    |j: int| -xs[j]
}

/// The weight as the quotient of the products of `-x_j` and of `x_i - x_j`.
pub proof fn lemma_weight_quotient(
    xs: Seq<int>,
    i: int,
    numerator: int,
    denominator: int,
    inverse: int,
)
    requires
        0 <= i < xs.len(),
        cong(numerator, prod_but(negated(xs), 0, xs.len() as int, i)),
        cong(denominator, prod_but(difference_from(xs, i), 0, xs.len() as int, i)),
        cong(denominator * inverse, 1),
    ensures
        cong(numerator * inverse, lagrange(xs, i)),
        forall|j: int| 0 <= j < xs.len() && j != i ==> is_unit(#[trigger] xs[j] - xs[i]),
{
    let n = xs.len() as int;
    let f = skip(negated(xs), i);
    let g = skip(difference_from(xs, i), i);
    let h = skip(ratio(xs, i), i);
    let d = prod(g, 0, n);
    lemma_cong_mul(denominator, d, inverse, inverse);
    lemma_inv_unique(d, inverse);
    assert forall|j: int| 0 <= j < n && j != i implies is_unit(#[trigger] xs[j] - xs[i]) by {
        lemma_prod_but(g, 0, n, j);
        lemma_unit_factor(g(j), prod_but(g, 0, n, j));
        lemma_unit_neg(xs[i] - xs[j]);
        assert(-(xs[i] - xs[j]) == xs[j] - xs[i]);
    }
    let hg = |j: int| h(j) * g(j);
    assert forall|j: int| 0 <= j < n implies cong(#[trigger] hg(j), f(j)) by {
        if j != i {
            let (x, y) = (xs[j], xs[j] - xs[i]);
            lemma_inv(y);
            let q = inv(y);
            lemma_cong_mul(-x, -x, y * q, 1);
            assert((x * q) * (-y) == (-x) * (y * q)) by (nonlinear_arith);
            assert((-x) * 1 == -x);
            assert(g(j) == -y);
        }
    }
    lemma_prod_mul(h, g, hg, 0, n);
    lemma_prod_cong(hg, f, 0, n);
    // lagrange * d == numerator, and d has the inverse
    let l = lagrange(xs, i);
    lemma_cong_mul(numerator, l * d, inverse, inverse);
    lemma_cong_mul(l, l, d * inverse, 1);
    assert((l * d) * inverse == l * (d * inverse)) by (nonlinear_arith);
    assert(l * 1 == l);
}

} // verus!
