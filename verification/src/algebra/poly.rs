//! Products and derivatives of polynomials, and the polynomial that vanishes at
//! given points.
use vstd::arithmetic::power::{lemma_pow_adds, pow};
use vstd::prelude::*;

use crate::algebra::dft::{convolution, convolution_terms, padded};
use crate::algebra::lagrange::{difference_from, eval, poly_terms};
use crate::algebra::residue::{cong, lemma_cong_mul};
use crate::algebra::sums::{
    lemma_prod_but, lemma_prod_ext, lemma_prod_split, lemma_sum_add, lemma_sum_cong, lemma_sum_ext,
    lemma_sum_first, lemma_sum_reverse, lemma_sum_scale, lemma_sum_shift, lemma_sum_split,
    lemma_sum_swap, lemma_sum_zero, prod, prod_but, skip, sum,
};

verus! {

/// Coefficient `i`, which is zero outside the sequence.
pub open spec fn coef(a: Seq<int>, i: int) -> int {
    if 0 <= i < a.len() {
        a[i]
    } else {
        0
    }
}

pub open spec fn product_terms(a: Seq<int>, b: Seq<int>, k: int) -> spec_fn(int) -> int {
    |i: int| coef(a, i) * coef(b, k - i)
}

/// The coefficients of the product of two polynomials.
pub open spec fn poly_mul(a: Seq<int>, b: Seq<int>) -> Seq<int> {
    Seq::new(
        (a.len() + b.len() - 1) as nat,
        |k: int| sum(product_terms(a, b, k), 0, a.len() as int),
    )
}

/// The product of two polynomials does not depend on their order.
pub proof fn law_product_commutes(a: Seq<int>, b: Seq<int>)
    requires
        a.len() > 0,
        b.len() > 0,
    ensures
        poly_mul(a, b) == poly_mul(b, a),
{
    let (m, n) = (a.len() as int, b.len() as int);
    assert forall|k: int| 0 <= k < m + n - 1 implies #[trigger] poly_mul(a, b)[k] == poly_mul(
        b,
        a,
    )[k] by {
        let f = product_terms(a, b, k);
        let g = product_terms(b, a, k);
        // both sums over all the places up to `k`, and the others hold nothing
        lemma_sum_to(f, m, k + 1);
        lemma_sum_to(g, n, k + 1);
        assert forall|i: int| 0 <= i < k + 1 implies #[trigger] g(i) == f(k + 1 - 1 - i) by {
            let (x, y) = (coef(b, i), coef(a, k - i));
            assert(k - (k - i) == i);
            assert(x * y == y * x) by (nonlinear_arith);
        }
        lemma_sum_reverse(f, g, k + 1);
    }
    assert(poly_mul(a, b) =~= poly_mul(b, a));
}

/// A sum ends where its terms do.
proof fn lemma_sum_to(f: spec_fn(int) -> int, m: int, k: int)
    requires
        0 <= m,
        0 <= k,
        forall|i: int| m <= i < k ==> #[trigger] f(i) == 0,
        forall|i: int| k <= i < m ==> #[trigger] f(i) == 0,
    ensures
        sum(f, 0, m) == sum(f, 0, k),
{
    if m <= k {
        lemma_sum_split(f, 0, m, k);
        lemma_sum_zero(f, m, k);
    } else {
        lemma_sum_split(f, 0, k, m);
        lemma_sum_zero(f, k, m);
    }
}

/// The coefficients of the derivative, with a zero at the end.
pub open spec fn derivative(a: Seq<int>) -> Seq<int> {
    Seq::new(a.len(), |k: int| (k + 1) * coef(a, k + 1))
}

/// The value of a product is the product of the values.
pub proof fn lemma_eval_mul(a: Seq<int>, b: Seq<int>, x: int)
    requires
        a.len() > 0,
        b.len() > 0,
    ensures
        eval(poly_mul(a, b), x) == eval(a, x) * eval(b, x),
{
    let (n, m) = (a.len() as int, b.len() as int);
    let len = n + m - 1;
    let t = |k: int, i: int| coef(a, i) * coef(b, k - i) * pow(x, k as nat);
    let outer = poly_terms(poly_mul(a, b), x);
    let rows = |k: int| sum(|i: int| t(k, i), 0, n);
    let columns = |i: int| sum(|k: int| t(k, i), 0, len);
    assert forall|k: int| 0 <= k < len implies #[trigger] outer(k) == rows(k) by {
        let row = |i: int| t(k, i);
        let p = pow(x, k as nat);
        assert forall|i: int| 0 <= i < n implies #[trigger] row(i) == p * product_terms(a, b, k)(
            i,
        ) by {
            let c = coef(a, i) * coef(b, k - i);
            assert(c * p == p * c) by (nonlinear_arith);
        }
        lemma_sum_scale(p, product_terms(a, b, k), row, 0, n);
        let s = sum(product_terms(a, b, k), 0, n);
        assert(s * p == p * s) by (nonlinear_arith);
    }
    lemma_sum_ext(outer, rows, 0, len);
    lemma_sum_swap(t, len, n);
    let value = eval(b, x);
    let target = |i: int| value * poly_terms(a, x)(i);
    assert forall|i: int| 0 <= i < n implies #[trigger] columns(i) == target(i) by {
        let column = |k: int| t(k, i);
        let c = a[i] * pow(x, i as nat);
        lemma_sum_split(column, 0, i, len);
        lemma_sum_split(column, i, i + m, len);
        assert forall|k: int| 0 <= k < i implies #[trigger] column(k) == 0 by {
            let (y, p) = (coef(a, i), pow(x, k as nat));
            assert(y * 0 * p == 0) by (nonlinear_arith);
        }
        lemma_sum_zero(column, 0, i);
        assert forall|k: int| i + m <= k < len implies #[trigger] column(k) == 0 by {
            let (y, p) = (coef(a, i), pow(x, k as nat));
            assert(y * 0 * p == 0) by (nonlinear_arith);
        }
        lemma_sum_zero(column, i + m, len);
        let moved = |j: int| column(j + i);
        lemma_sum_shift(column, moved, 0, m, i);
        assert forall|j: int| 0 <= j < m implies #[trigger] moved(j) == c * poly_terms(b, x)(j) by {
            lemma_pow_adds(x, j as nat, i as nat);
            let (u, v, p, q) = (a[i], b[j], pow(x, i as nat), pow(x, j as nat));
            assert(coef(b, (j + i) - i) == v);
            assert((u * v) * (q * p) == (u * p) * (v * q)) by (nonlinear_arith);
        }
        lemma_sum_scale(c, poly_terms(b, x), moved, 0, m);
        assert(c * value == value * c) by (nonlinear_arith);
        assert(columns(i) == sum(column, 0, len));
    }
    lemma_sum_ext(columns, target, 0, n);
    lemma_sum_scale(value, poly_terms(a, x), target, 0, n);
    let first = eval(a, x);
    assert(value * first == first * value) by (nonlinear_arith);
}

/// The product rule, coefficient by coefficient.
proof fn lemma_product_rule(a: Seq<int>, b: Seq<int>, k: int)
    requires
        a.len() > 0,
        b.len() > 0,
        0 <= k < a.len() + b.len() - 1,
    ensures
        derivative(poly_mul(a, b))[k] == poly_mul(derivative(a), b)[k] + poly_mul(
            a,
            derivative(b),
        )[k],
{
    let n = a.len() as int;
    let len = n + b.len() - 1;
    let f = product_terms(derivative(a), b, k);
    let g = product_terms(a, derivative(b), k);
    let whole = product_terms(a, b, k + 1);
    // f, with the index moved by one
    let left = |i: int| i * (coef(a, i) * coef(b, k + 1 - i));
    assert forall|i: int| 0 <= i < n implies #[trigger] f(i) == left(i + 1) by {
        let (c, d, e) = (i + 1, coef(a, i + 1), coef(b, k - i));
        assert((c * d) * e == c * (d * e)) by (nonlinear_arith);
    }
    lemma_sum_shift(left, f, 0, n, 1);
    lemma_sum_first(left, 0, n + 1);
    assert(left(0) == 0);
    assert(left(n) == 0) by {
        assert(coef(a, n) == 0);
        assert(0 * coef(b, k + 1 - n) == 0);
        assert(n * 0 == 0);
    }
    assert(sum(left, 0, n + 1) == sum(left, 0, n) + left(n));
    assert(sum(f, 0, n) == sum(left, 0, n));
    let right = |i: int| (k + 1 - i) * (coef(a, i) * coef(b, k + 1 - i));
    assert forall|i: int| 0 <= i < n implies #[trigger] g(i) == right(i) by {
        let (c, d, e) = (k + 1 - i, coef(a, i), coef(b, k + 1 - i));
        if 0 <= k - i < b.len() {
            assert(coef(derivative(b), k - i) == c * e);
        } else {
            assert(coef(derivative(b), k - i) == 0);
            if k - i == -1 {
                assert(c == 0);
            } else {
                assert(e == 0);
            }
            assert(c * e == 0) by (nonlinear_arith)
                requires
                    c == 0 || e == 0,
            ;
        }
        assert(d * (c * e) == c * (d * e)) by (nonlinear_arith);
    }
    lemma_sum_ext(g, right, 0, n);
    let scaled = |i: int| (k + 1) * whole(i);
    assert forall|i: int| 0 <= i < n implies #[trigger] scaled(i) == left(i) + right(i) by {
        let w = whole(i);
        assert((k + 1) * w == i * w + (k + 1 - i) * w) by (nonlinear_arith);
    }
    lemma_sum_add(left, right, scaled, 0, n);
    lemma_sum_scale(k + 1, whole, scaled, 0, n);
    if k + 1 == len {
        // the coefficient beyond the end is zero
        assert forall|i: int| 0 <= i < n implies #[trigger] whole(i) == 0 by {
            assert(coef(b, k + 1 - i) == 0);
            assert(coef(a, i) * 0 == 0);
        }
        lemma_sum_zero(whole, 0, n);
        assert((k + 1) * 0 == 0);
    }
}

/// The value of the derivative of a product.
pub proof fn lemma_eval_derivative_mul(a: Seq<int>, b: Seq<int>, x: int)
    requires
        a.len() > 0,
        b.len() > 0,
    ensures
        eval(derivative(poly_mul(a, b)), x) == eval(derivative(a), x) * eval(b, x) + eval(a, x)
            * eval(derivative(b), x),
{
    let len = a.len() + b.len() - 1;
    let f = poly_terms(poly_mul(derivative(a), b), x);
    let g = poly_terms(poly_mul(a, derivative(b)), x);
    let h = poly_terms(derivative(poly_mul(a, b)), x);
    assert forall|k: int| 0 <= k < len implies #[trigger] h(k) == f(k) + g(k) by {
        lemma_product_rule(a, b, k);
        let (u, v, p) = (
            poly_mul(derivative(a), b)[k],
            poly_mul(a, derivative(b))[k],
            pow(x, k as nat),
        );
        assert((u + v) * p == u * p + v * p) by (nonlinear_arith);
    }
    lemma_sum_add(f, g, h, 0, len);
    lemma_eval_mul(derivative(a), b, x);
    lemma_eval_mul(a, derivative(b), x);
}

/// Values agree where coefficients do.
pub proof fn lemma_eval_cong(a: Seq<int>, b: Seq<int>, x: int)
    requires
        a.len() == b.len(),
        forall|k: int| 0 <= k < a.len() ==> cong(#[trigger] a[k], b[k]),
    ensures
        cong(eval(a, x), eval(b, x)),
        cong(eval(derivative(a), x), eval(derivative(b), x)),
{
    assert forall|k: int| 0 <= k < a.len() implies cong(
        #[trigger] poly_terms(a, x)(k),
        poly_terms(b, x)(k),
    ) by {
        lemma_cong_mul(a[k], b[k], pow(x, k as nat), pow(x, k as nat));
    }
    lemma_sum_cong(poly_terms(a, x), poly_terms(b, x), 0, a.len() as int);
    let (p, q) = (derivative(a), derivative(b));
    assert forall|k: int| 0 <= k < a.len() implies cong(
        #[trigger] poly_terms(p, x)(k),
        poly_terms(q, x)(k),
    ) by {
        lemma_cong_mul(k + 1, k + 1, coef(a, k + 1), coef(b, k + 1));
        lemma_cong_mul(p[k], q[k], pow(x, k as nat), pow(x, k as nat));
    }
    lemma_sum_cong(poly_terms(p, x), poly_terms(q, x), 0, a.len() as int);
}

pub open spec fn root_factors(xs: Seq<int>, x: int) -> spec_fn(int) -> int {
    |k: int| x - xs[k]
}

/// The product of `x - x_k` over a range of points.
pub open spec fn vanishing(xs: Seq<int>, lo: int, hi: int, x: int) -> int {
    prod(root_factors(xs, x), lo, hi)
}

/// The derivative of [`vanishing`] at `x`.
pub open spec fn vanishing_slope(xs: Seq<int>, lo: int, hi: int, x: int) -> int
    decreases hi - lo,
{
    if hi <= lo {
        0
    } else {
        vanishing_slope(xs, lo, hi - 1, x) * (x - xs[hi - 1]) + vanishing(xs, lo, hi - 1, x)
    }
}

pub proof fn lemma_slope_split(xs: Seq<int>, lo: int, mid: int, hi: int, x: int)
    requires
        lo <= mid <= hi,
    ensures
        vanishing(xs, lo, hi, x) == vanishing(xs, lo, mid, x) * vanishing(xs, mid, hi, x),
        vanishing_slope(xs, lo, hi, x) == vanishing_slope(xs, lo, mid, x) * vanishing(
            xs,
            mid,
            hi,
            x,
        ) + vanishing(xs, lo, mid, x) * vanishing_slope(xs, mid, hi, x),
    decreases hi - mid,
{
    lemma_prod_split(root_factors(xs, x), lo, mid, hi);
    let (s, v) = (vanishing_slope(xs, lo, mid, x), vanishing(xs, lo, mid, x));
    if mid < hi {
        lemma_slope_split(xs, lo, mid, hi - 1, x);
        let (t, w, d) = (
            vanishing_slope(xs, mid, hi - 1, x),
            vanishing(xs, mid, hi - 1, x),
            x - xs[hi - 1],
        );
        assert((s * w + v * t) * d == s * (w * d) + v * (t * d)) by (nonlinear_arith);
        assert(v * (t * d + w) == v * (t * d) + v * w) by (nonlinear_arith);
    } else {
        assert(s * 1 + v * 0 == s) by (nonlinear_arith);
    }
}

/// At a point, the slope is the product of the differences from the other points.
pub proof fn lemma_slope_at_point(xs: Seq<int>, hi: int, i: int)
    requires
        0 <= i < hi <= xs.len(),
    ensures
        vanishing_slope(xs, 0, hi, xs[i]) == prod_but(difference_from(xs, i), 0, hi, i),
        vanishing(xs, 0, hi, xs[i]) == 0,
    decreases hi,
{
    let x = xs[i];
    let f = root_factors(xs, x);
    let g = skip(difference_from(xs, i), i);
    lemma_prod_but(f, 0, hi, i);
    assert(f(i) == 0);
    assert(0 * prod_but(f, 0, hi, i) == 0);
    if i < hi - 1 {
        lemma_slope_at_point(xs, hi - 1, i);
        assert(g(hi - 1) == x - xs[hi - 1]);
    } else {
        assert forall|k: int| 0 <= k < hi - 1 implies #[trigger] f(k) == g(k) by {}
        lemma_prod_ext(f, g, 0, hi - 1);
        assert(vanishing_slope(xs, 0, hi - 1, x) * 0 == 0);
        assert(prod(g, 0, hi - 1) * 1 == prod(g, 0, hi - 1));
    }
}

/// The cyclic convolution of two polynomials, continued with zeros so far that
/// nothing wraps around, holds the coefficients of their product.
pub proof fn lemma_linear_convolution(a: Seq<int>, b: Seq<int>, m: int, k: int)
    requires
        a.len() > 0,
        b.len() > 0,
        a.len() + b.len() - 1 <= m,
        0 <= k < a.len() + b.len() - 1,
    ensures
        convolution(
            padded(a, m),
            padded(b, m),
            k,
        ) == poly_mul(a, b)[k],
{
    let (p, q) = (padded(a, m), padded(b, m));
    let n = a.len() as int;
    let f = convolution_terms(p, q, k);
    let g = product_terms(a, b, k);
    lemma_sum_split(f, 0, n, m);
    assert forall|j: int| n <= j < m implies #[trigger] f(j) == 0 by {
        assert(0 * q[(k - j) % m] == 0);
    }
    lemma_sum_zero(f, n, m);
    assert forall|j: int| 0 <= j < n implies #[trigger] f(j) == g(j) by {
        if j <= k {
            vstd::arithmetic::div_mod::lemma_small_mod((k - j) as nat, m as nat);
        } else {
            vstd::arithmetic::div_mod::lemma_fundamental_div_mod_converse(
                k - j,
                m,
                -1,
                k - j + m,
            );
        }
    }
    lemma_sum_ext(f, g, 0, n);
}

} // verus!
