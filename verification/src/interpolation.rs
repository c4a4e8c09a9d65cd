//! The weights of the interpolation at zero for points out of a domain of roots
//! of unity.
//!
//! Small selections use the direct quadratic formula. For larger ones a product
//! tree forms the polynomial `P` that vanishes at the selected points; its
//! derivative is evaluated over the domain by a transform, and the weight of `x`
//! is `-P(0) / (x P'(x))`.
use vstd::arithmetic::power::{lemma_pow0, lemma_pow1, lemma_pow_adds, lemma_pow_multiplies, pow};
use vstd::arithmetic::power2::pow2;
use vstd::prelude::*;

use crate::algebra::dft::{
    convolution_all, dft, dft_all, lemma_dft_cong, lemma_dft_convolution, lemma_dft_inverse, padded,
};
use crate::algebra::lagrange::{
    difference_from, eval, lagrange, lemma_interpolate, lemma_weight_quotient, negated, poly_terms,
    ratio, separated, weight, weights,
};
use crate::algebra::poly::{
    coef, derivative, lemma_eval_cong, lemma_eval_derivative_mul, lemma_eval_mul,
    lemma_linear_convolution, lemma_slope_at_point, lemma_slope_split, poly_mul, product_terms,
    root_factors, vanishing, vanishing_slope,
};
use crate::algebra::residue::{
    cong, inv, is_unit, lemma_cong_add, lemma_cong_mul, lemma_cong_neg, lemma_cong_pow,
    lemma_cong_sub, lemma_inv, lemma_inv_unique, lemma_one, lemma_order, lemma_pow_one,
    lemma_reduce, lemma_reduced, lemma_unit_cong, lemma_unit_mul, lemma_unit_neg, lemma_unit_pow,
    order,
};
use crate::algebra::roots::{
    is_root, lemma_orthogonal, lemma_root_difference, lemma_root_unit, powers,
};
use crate::algebra::sums::{
    dot, is_permutation, lemma_prod_but, lemma_prod_ext, lemma_prod_permuted, lemma_sum_cong,
    lemma_sum_ext, lemma_sum_single, lemma_sum_split, lemma_sum_zero, prod, prod_but, products,
    skip, sum,
};
use crate::curve::{views, Element, Fr};
use crate::fft::{
    exact_log, is_domain_size, is_least_power, lemma_small_domain, next_power_of_two, size_root,
    Radix2Domain,
};
use crate::points::{copy_scalars, pad, power_range, zeros};
use crate::polynomial::lemma_horner;

verus! {

/// Up to this size the direct formula is used.
pub const DIRECT_INTERPOLATION_CUTOFF: usize = 64;

/// Products with a factor of at most this many coefficients are multiplied out.
pub const NAIVE_MULTIPLICATION_CUTOFF: usize = 32;

/// The first `count` points of the domain of a size.
pub open spec fn root_points(size: int, count: int) -> Seq<int> {
    power_range(size_root(size), 0, count)
}

/// Whether the points are the first ones of the smallest domain that holds so many.
pub open spec fn is_root_prefix(points: Seq<int>) -> bool {
    exists|size: int|
        is_domain_size(size) && size <= usize::MAX && is_least_power(size, points.len() as int)
            && points == #[trigger] root_points(size, points.len() as int)
}

/// Whether a selection is not empty, within range and without repetition.
pub open spec fn is_selection(len: int, selected: Seq<usize>) -> bool {
    &&& selected.len() > 0
    &&& forall|i: int| 0 <= i < selected.len() ==> (#[trigger] selected[i]) < len
    &&& forall|i: int, j: int|
        0 <= i < j < selected.len() ==> #[trigger] selected[i] != #[trigger] selected[j]
}

/// The points of a selection.
pub open spec fn selected_points(points: Seq<int>, selected: Seq<usize>) -> Seq<int> {
    Seq::new(selected.len(), |i: int| points[selected[i] as int])
}

fn validate_selection(domain_len: usize, selected: &[usize]) -> (valid: bool)
    ensures
        valid == is_selection(domain_len as int, selected@),
{
    if domain_len == 0 || selected.len() == 0 {
        assert(selected@.len() > 0 ==> selected@[0] >= domain_len);
        return false;
    }
    let mut seen: Vec<bool> = Vec::new();
    while seen.len() < domain_len
        invariant
            seen@.len() <= domain_len,
            forall|s: int| 0 <= s < seen@.len() ==> !#[trigger] seen@[s],
        decreases domain_len - seen@.len(),
    {
        seen.push(false);
    }
    let mut position: usize = 0;
    while position < selected.len()
        invariant
            position <= selected@.len(),
            selected@.len() > 0,
            seen@.len() == domain_len,
            forall|s: int|
                0 <= s < domain_len ==> (#[trigger] seen@[s] <==> exists|j: int|
                    0 <= j < position && #[trigger] selected@[j] == s),
            forall|i: int| 0 <= i < position ==> (#[trigger] selected@[i]) < domain_len,
            forall|i: int, j: int|
                0 <= i < j < position ==> #[trigger] selected@[i] != #[trigger] selected@[j],
        decreases selected@.len() - position,
    {
        let index = selected[position];
        if index >= domain_len {
            assert(selected@[position as int] >= domain_len);
            return false;
        }
        if seen[index] {
            proof {
                let j = choose|j: int| 0 <= j < position && #[trigger] selected@[j] == index;
                assert(selected@[j] == selected@[position as int]);
            }
            return false;
        }
        let ghost before = seen@;
        seen.set(index, true);
        proof {
            assert forall|s: int| 0 <= s < domain_len implies (#[trigger] seen@[s] <==> exists|
                j: int,
            |
                0 <= j < position + 1 && #[trigger] selected@[j] == s) by {
                if s == index {
                    assert(selected@[position as int] == s);
                } else if seen@[s] {
                    assert(before[s]);
                    let j = choose|j: int| 0 <= j < position && #[trigger] selected@[j] == s;
                    assert(selected@[j] == s);
                } else {
                    assert(!before[s]);
                }
            }
        }
        position = position + 1;
    }
    true
}

/// Points of a domain differ by units.
pub proof fn lemma_roots_separated(size: int, count: int, selected: Seq<usize>)
    requires
        is_domain_size(size),
        0 <= count <= size,
        is_selection(count, selected),
    ensures
        separated(selected_points(root_points(size, count), selected)),
{
    let log = choose|log: nat| log <= 32 && size == #[trigger] pow2(log);
    crate::fft::lemma_size_root(log);
    crate::algebra::roots::lemma_domain_root(log);
    let w = size_root(size);
    let xs = selected_points(root_points(size, count), selected);
    assert forall|i: int, j: int|
        0 <= i < xs.len() && 0 <= j < xs.len() && i != j implies is_unit(
        #[trigger] xs[j] - #[trigger] xs[i],
    ) by {
        let (a, b) = (selected[i] as int, selected[j] as int);
        if i < j {
            assert(selected[i] != selected[j]);
        } else {
            assert(selected[j] != selected[i]);
        }
        lemma_root_pair(w, log, a, b);
        lemma_reduce(pow(w, a as nat));
        lemma_reduce(pow(w, b as nat));
        lemma_cong_sub(pow(w, b as nat), xs[j], pow(w, a as nat), xs[i]);
        lemma_unit_cong(pow(w, b as nat) - pow(w, a as nat), xs[j] - xs[i]);
    }
}

proof fn lemma_root_pair(w: int, log: nat, a: int, b: int)
    requires
        is_root(w, pow2(log) as int),
        0 <= a < pow2(log),
        0 <= b < pow2(log),
        a != b,
    ensures
        is_unit(pow(w, b as nat) - pow(w, a as nat)),
    decreases b - a + 2 * pow2(log), a,
{
    if a < b {
        let d = b - a;
        let p = pow(w, a as nat);
        lemma_root_difference(w, log, d);
        lemma_root_unit(w, pow2(log) as int);
        lemma_unit_pow(w, a as nat);
        lemma_unit_mul(p, 1 - pow(w, d as nat));
        lemma_unit_neg(p * (1 - pow(w, d as nat)));
        lemma_pow_adds(w, a as nat, d as nat);
        let q = pow(w, d as nat);
        assert(-(p * (1 - q)) == p * q - p) by (nonlinear_arith);
    } else {
        let d = a - b;
        let p = pow(w, b as nat);
        lemma_root_difference(w, log, d);
        lemma_root_unit(w, pow2(log) as int);
        lemma_unit_pow(w, b as nat);
        lemma_unit_mul(p, 1 - pow(w, d as nat));
        lemma_pow_adds(w, b as nat, d as nat);
        let q = pow(w, d as nat);
        assert(p * (1 - q) == p - p * q) by (nonlinear_arith);
    }
}

/// Where all points of a domain are selected, every weight is one over the size.
proof fn lemma_complete_weights(size: int, selected: Seq<usize>, i: int, inverse: int)
    requires
        is_domain_size(size),
        is_selection(size, selected),
        selected.len() == size,
        0 <= i < size,
        cong(size * inverse, 1),
    ensures
        cong(lagrange(selected_points(root_points(size, size), selected), i), inverse),
{
    let log = choose|log: nat| log <= 32 && size == #[trigger] pow2(log);
    crate::fft::lemma_size_root(log);
    crate::algebra::roots::lemma_domain_root(log);
    let w = size_root(size);
    let xs = selected_points(root_points(size, size), selected);
    lemma_roots_separated(size, size, selected);
    // the polynomial with coefficients x_i^(-d): size at x_i, zero at the other points
    lemma_root_unit(w, size);
    let a = selected[i] as int;
    lemma_unit_pow(w, a as nat);
    let u = inv(pow(w, a as nat));
    lemma_inv(pow(w, a as nat));
    let c = Seq::new(size as nat, |d: int| pow(u, d as nat));
    lemma_interpolate(xs, c);
    lemma_pow0(u);
    let f = |k: int| weight(xs, k) * eval(c, xs[k]);
    let target = |k: int| if k == i { weight(xs, i) * size } else { 0 };
    assert forall|k: int| 0 <= k < size implies cong(#[trigger] f(k), target(k)) by {
        let b = selected[k] as int;
        if k != i {
            if k < i {
                assert(selected[k] != selected[i]);
            } else {
                assert(selected[i] != selected[k]);
            }
        }
        lemma_complete_value(w, log, a, b, u, c, xs[k]);
        lemma_cong_mul(
            weight(xs, k),
            weight(xs, k),
            eval(c, xs[k]),
            if k == i {
                size
            } else {
                0
            },
        );
        assert(weight(xs, k) * 0 == 0);
    }
    lemma_sum_cong(f, target, 0, size);
    lemma_sum_single(target, 0, size, i);
    // weight * size == 1
    let l = weight(xs, i);
    lemma_reduce(lagrange(xs, i));
    lemma_cong_mul(l * size, 1, inverse, inverse);
    lemma_cong_mul(l, l, size * inverse, 1);
    assert((l * size) * inverse == l * (size * inverse)) by (nonlinear_arith);
    assert(1 * inverse == inverse && l * 1 == l);
}

/// The value at `w^b` of the polynomial with coefficients `w^(-a d)`.
proof fn lemma_complete_value(w: int, log: nat, a: int, b: int, u: int, c: Seq<int>, x: int)
    requires
        is_root(w, pow2(log) as int),
        0 <= a < pow2(log),
        0 <= b < pow2(log),
        cong(pow(w, a as nat) * u, 1),
        c == Seq::new(pow2(log), |d: int| pow(u, d as nat)),
        x == pow(w, b as nat) % order(),
    ensures
        cong(
            eval(c, x),
            if a == b {
                pow2(log) as int
            } else {
                0
            },
        ),
{
    let n = pow2(log) as int;
    let d = if b >= a {
        b - a
    } else {
        n + b - a
    };
    let z = pow(w, d as nat);
    // u x == w^d
    let (p, q) = (pow(w, a as nat), pow(w, b as nat));
    lemma_reduce(q);
    lemma_pow_adds(w, d as nat, a as nat);
    if b < a {
        crate::algebra::roots::lemma_pow_period(w, n, b as nat, 1);
        assert(b + n * 1 == d + a);
    }
    assert(cong(z * p, q));
    lemma_cong_mul(x, z * p, u, u);
    lemma_cong_mul(z, z, p * u, 1);
    assert((z * p) * u == z * (p * u)) by (nonlinear_arith);
    assert(z * 1 == z);
    assert(cong(x * u, z));
    let f = poly_terms(c, x);
    let g = powers(z);
    assert forall|k: int| 0 <= k < n implies cong(#[trigger] f(k), g(k)) by {
        vstd::arithmetic::power::lemma_pow_distributes(u, x, k as nat);
        assert(u * x == x * u) by (nonlinear_arith);
        lemma_cong_pow(u * x, z, k as nat);
    }
    lemma_sum_cong(f, g, 0, n);
    if a == b {
        lemma_pow0(w);
        assert forall|k: int| 0 <= k < n implies #[trigger] g(k) == 1 by {
            lemma_pow_one(k as nat);
        }
        crate::algebra::dft::lemma_sum_ones(g, n);
    } else {
        lemma_orthogonal(w, log, d);
    }
}

/// The product of two polynomials, by the definition or by transforms. There is
/// none where no domain is large enough for a transform.
fn polynomial_multiply(left: &Vec<Fr>, right: &Vec<Fr>) -> (result: Option<Vec<Fr>>)
    requires
        left@.len() > 0,
        right@.len() > 0,
        left@.len() + right@.len() - 1 <= usize::MAX,
    ensures
        result is Some <==> left@.len() <= NAIVE_MULTIPLICATION_CUTOFF || right@.len()
            <= NAIVE_MULTIPLICATION_CUTOFF || fits_domain(left@.len() + right@.len() - 1),
        result matches Some(product) ==> is_product(product@, left@, right@),
{
    let result_len: usize = left.len() - 1 + right.len();
    if left.len() <= NAIVE_MULTIPLICATION_CUTOFF || right.len() <= NAIVE_MULTIPLICATION_CUTOFF {
        return Some(naive_multiply(left, right));
    }
    proof {
        if fits_domain(result_len as int) {
            let size = choose|size: int| #[trigger]
                is_domain_size(size) && result_len <= size <= usize::MAX;
            crate::fft::lemma_domain_limit(size);
        }
    }
    let transform_size = next_power_of_two(result_len)?;
    proof {
        if fits_domain(result_len as int) {
            lemma_fits(transform_size as int, result_len as int);
        }
    }
    let transform = Radix2Domain::new(transform_size)?;
    assert(fits_domain(result_len as int)) by {
        transform.lemma_domain();
        assert(is_domain_size(transform_size as int));
    }
    let ghost m = transform_size as int;
    let ghost (a, b) = (views(left@), views(right@));
    let ghost (p, q) = (padded(a, m), padded(b, m));
    let mut left_values = pad(left, transform_size);
    let mut right_values = pad(right, transform_size);
    transform.fft(&mut left_values);
    transform.fft(&mut right_values);
    let ghost w = size_root(m);
    let ghost wi = transform.inverse_root();
    let ghost s = transform.spec_size_inverse();
    let ghost c = convolution_all(p, q);
    proof {
        transform.lemma_domain();
    }
    let mut index: usize = 0;
    while index < transform_size
        invariant
            index <= transform_size == m == left_values@.len() == right_values@.len(),
            p.len() == m,
            q.len() == m,
            is_root(w, m),
            c == convolution_all(p, q),
            forall|k: int|
                0 <= k < m ==> (#[trigger] right_values@[k])@ == dft(q, w, k) % order(),
            forall|k: int|
                index <= k < m ==> (#[trigger] left_values@[k])@ == dft(p, w, k) % order(),
            forall|k: int|
                0 <= k < index ==> cong((#[trigger] left_values@[k])@, dft(c, w, k)),
        decreases transform_size - index,
    {
        let product = left_values[index].times(right_values[index]);
        proof {
            let k = index as int;
            lemma_reduce(dft(p, w, k));
            lemma_reduce(dft(q, w, k));
            lemma_cong_mul(
                left_values@[k]@,
                dft(p, w, k),
                right_values@[k]@,
                dft(q, w, k),
            );
            lemma_reduce(left_values@[k]@ * right_values@[k]@);
            lemma_dft_convolution(p, q, w, k);
        }
        left_values.set(index, product);
        index = index + 1;
    }
    let ghost transformed = views(left_values@);
    transform.ifft(&mut left_values);
    let ghost result = left_values@;
    proof {
        let log = choose|log: nat| m == pow2(log);
        assert forall|k: int| 0 <= k < result_len implies cong(
            (#[trigger] result[k])@,
            poly_mul(a, b)[k],
        ) by {
            lemma_dft_cong(transformed, dft_all(c, w), wi, k);
            lemma_dft_inverse(c, w, wi, log, k);
            lemma_linear_convolution(a, b, m, k);
            let d = dft(transformed, wi, k);
            lemma_reduce(d * s);
            lemma_cong_mul(d, m * c[k], s, s);
            lemma_cong_mul(m * s, 1, c[k], c[k]);
            assert((m * c[k]) * s == (m * s) * c[k]) by (nonlinear_arith);
            assert(1 * c[k] == c[k]);
        }
    }
    left_values.truncate(result_len);
    Some(left_values)
}

/// Whether there is a domain of at least this size.
pub open spec fn fits_domain(len: int) -> bool {
    exists|size: int| #[trigger] is_domain_size(size) && len <= size <= usize::MAX
}

proof fn lemma_fits(power: int, len: int)
    requires
        is_least_power(power, len),
        fits_domain(len),
    ensures
        is_domain_size(power),
{
    let size = choose|size: int| #[trigger] is_domain_size(size) && len <= size <= usize::MAX;
    crate::fft::lemma_domain_limit(size);
    let k = choose|k: nat| power == pow2(k);
    let l = choose|l: nat| size == pow2(l);
    if l < k {
        lemma_power_gap(l, k);
    } else if k < l {
        lemma_power_gap(k, l);
    }
    lemma_small_domain(power);
}

/// Whether the scalars are the coefficients of the product of two polynomials.
spec fn is_product(product: Seq<Fr>, left: Seq<Fr>, right: Seq<Fr>) -> bool {
    &&& product.len() == left.len() + right.len() - 1
    &&& forall|k: int|
        0 <= k < product.len() ==> cong(
            (#[trigger] product[k])@,
            poly_mul(views(left), views(right))[k],
        )
}

/// The product of two polynomials, coefficient by coefficient.
fn naive_multiply(left: &Vec<Fr>, right: &Vec<Fr>) -> (result: Vec<Fr>)
    requires
        left@.len() > 0,
        right@.len() > 0,
        left@.len() + right@.len() - 1 <= usize::MAX,
    ensures
        is_product(result@, left@, right@),
{
    let ghost (a, b) = (views(left@), views(right@));
    let result_len: usize = left.len() - 1 + right.len();
    let mut result: Vec<Fr> = zeros(result_len);
    let mut i: usize = 0;
    while i < left.len()
        invariant
            i <= left@.len(),
            a == views(left@),
            b == views(right@),
            right@.len() > 0,
            result@.len() == result_len == left@.len() + right@.len() - 1,
            forall|k: int|
                0 <= k < result_len ==> cong(
                    (#[trigger] result@[k])@,
                    sum(product_terms(a, b, k), 0, i as int),
                ),
        decreases left@.len() - i,
    {
        let ghost before = result@;
        let mut j: usize = 0;
        while j < right.len()
            invariant
                i < left@.len(),
                j <= right@.len(),
                a == views(left@),
                b == views(right@),
                result@.len() == before.len() == result_len == left@.len() + right@.len() - 1,
                forall|k: int|
                    0 <= k < result_len && !(i <= k < i + j) ==> (#[trigger] result@[k])
                        == before[k],
                forall|k: int|
                    i <= k < i + j ==> cong(
                        (#[trigger] result@[k])@,
                        before[k]@ + product_terms(a, b, k)(i as int),
                    ),
            decreases right@.len() - j,
        {
            let product = left[i].times(right[j]);
            let total = result[i + j].plus(product);
            proof {
                let k = i + j;
                lemma_reduce(left@[i as int]@ * right@[j as int]@);
                lemma_cong_add(
                    before[k]@,
                    before[k]@,
                    product@,
                    left@[i as int]@ * right@[j as int]@,
                );
                lemma_reduce(before[k]@ + product@);
                assert(coef(b, k - i) == b[j as int]);
            }
            result.set(i + j, total);
            j = j + 1;
        }
        proof {
            assert forall|k: int| 0 <= k < result_len implies cong(
                (#[trigger] result@[k])@,
                sum(product_terms(a, b, k), 0, i + 1),
            ) by {
                let f = product_terms(a, b, k);
                assert(sum(f, 0, i + 1) == sum(f, 0, i as int) + f(i as int));
                if i <= k < i + right@.len() {
                    lemma_cong_add(before[k]@, sum(f, 0, i as int), f(i as int), f(i as int));
                } else {
                    assert(coef(b, k - i) == 0);
                    assert(coef(a, i as int) * 0 == 0);
                }
            }
        }
        i = i + 1;
    }
    result
}

/// Whether the coefficients are those of the polynomial that vanishes at a range
/// of points, as far as its values and those of its derivative go.
spec fn vanishes(c: Seq<int>, xs: Seq<int>, lo: int, hi: int) -> bool {
    &&& c.len() == hi - lo + 1
    &&& forall|x: int| #[trigger] cong(eval(c, x), vanishing(xs, lo, hi, x))
    &&& forall|x: int| #[trigger] cong(eval(derivative(c), x), vanishing_slope(xs, lo, hi, x))
}

proof fn lemma_vanishes_leaf(c: Seq<int>, xs: Seq<int>, lo: int)
    requires
        c.len() == 2,
        cong(c[0], -xs[lo]),
        c[1] == 1,
    ensures
        vanishes(c, xs, lo, lo + 1),
{
    assert forall|x: int| #[trigger] cong(eval(c, x), vanishing(xs, lo, lo + 1, x)) by {
        let f = poly_terms(c, x);
        lemma_pow0(x);
        lemma_pow1(x);
        assert(sum(f, 0, 0) == 0);
        assert(sum(f, 0, 1) == f(0));
        assert(sum(f, 0, 2) == f(0) + f(1));
        assert(f(0) == c[0] && f(1) == x);
        let g = root_factors(xs, x);
        assert(prod(g, lo, lo) == 1);
        assert(prod(g, lo, lo + 1) == prod(g, lo, lo) * g(lo));
        lemma_cong_add(c[0], -xs[lo], x, x);
    }
    assert forall|x: int| #[trigger] cong(
        eval(derivative(c), x),
        vanishing_slope(xs, lo, lo + 1, x),
    ) by {
        let d = derivative(c);
        let f = poly_terms(d, x);
        lemma_pow0(x);
        assert(d[0] == 1 && d[1] == 0);
        assert(0 * pow(x, 1) == 0);
        assert(sum(f, 0, 0) == 0);
        assert(sum(f, 0, 1) == f(0));
        assert(sum(f, 0, 2) == f(0) + f(1));
        assert(vanishing_slope(xs, lo, lo, x) == 0);
        assert(0 * (x - xs[lo]) == 0);
    }
}

proof fn lemma_vanishes_product(
    c: Seq<int>,
    a: Seq<int>,
    b: Seq<int>,
    xs: Seq<int>,
    lo: int,
    mid: int,
    hi: int,
)
    requires
        vanishes(a, xs, lo, mid),
        vanishes(b, xs, mid, hi),
        lo <= mid <= hi,
        c.len() == a.len() + b.len() - 1,
        forall|k: int| 0 <= k < c.len() ==> cong(#[trigger] c[k], poly_mul(a, b)[k]),
    ensures
        vanishes(c, xs, lo, hi),
{
    let p = poly_mul(a, b);
    assert forall|x: int| #[trigger] cong(eval(c, x), vanishing(xs, lo, hi, x)) by {
        lemma_eval_cong(c, p, x);
        lemma_eval_mul(a, b, x);
        lemma_slope_split(xs, lo, mid, hi, x);
        lemma_cong_mul(
            eval(a, x),
            vanishing(xs, lo, mid, x),
            eval(b, x),
            vanishing(xs, mid, hi, x),
        );
    }
    assert forall|x: int| #[trigger] cong(
        eval(derivative(c), x),
        vanishing_slope(xs, lo, hi, x),
    ) by {
        lemma_eval_cong(c, p, x);
        lemma_eval_derivative_mul(a, b, x);
        lemma_slope_split(xs, lo, mid, hi, x);
        let (va, vb) = (vanishing(xs, lo, mid, x), vanishing(xs, mid, hi, x));
        let (sa, sb) = (vanishing_slope(xs, lo, mid, x), vanishing_slope(xs, mid, hi, x));
        assert(cong(eval(a, x), va) && cong(eval(b, x), vb));
        lemma_cong_mul(eval(derivative(a), x), sa, eval(b, x), vb);
        lemma_cong_mul(eval(a, x), va, eval(derivative(b), x), sb);
        lemma_cong_add(
            eval(derivative(a), x) * eval(b, x),
            sa * vb,
            eval(a, x) * eval(derivative(b), x),
            va * sb,
        );
    }
}

/// Whether the polynomials of a level vanish at consecutive ranges of the points,
/// whose ends are `bounds`.
spec fn is_level(level: Seq<Vec<Fr>>, xs: Seq<int>, bounds: Seq<int>) -> bool {
    &&& bounds.len() == level.len() + 1
    &&& bounds[0] == 0
    &&& bounds[level.len() as int] == xs.len()
    &&& forall|i: int| 0 <= i < level.len() ==> #[trigger] bounds[i] < bounds[i + 1]
    &&& forall|i: int|
        0 <= i < level.len() ==> vanishes(
            views((#[trigger] level[i])@),
            xs,
            bounds[i],
            bounds[i + 1],
        )
}

proof fn lemma_bounds(bounds: Seq<int>, i: int, j: int)
    requires
        0 <= i <= j < bounds.len(),
        forall|k: int| 0 <= k < bounds.len() - 1 ==> #[trigger] bounds[k] < bounds[k + 1],
    ensures
        bounds[i] <= bounds[j],
    decreases j - i,
{
    if i < j {
        lemma_bounds(bounds, i, j - 1);
        assert(bounds[j - 1] < bounds[j - 1 + 1]);
    }
}

/// The product of the polynomials of a level, by pairs.
fn product_tree(level: Vec<Vec<Fr>>, Ghost(xs): Ghost<Seq<int>>, Ghost(bounds): Ghost<
    Seq<int>,
>) -> (product: Option<Vec<Fr>>)
    requires
        level@.len() > 0,
        is_level(level@, xs, bounds),
        xs.len() + 1 <= usize::MAX,
    ensures
        fits_domain((xs.len() + 1) as int) ==> product is Some,
        product matches Some(product) ==> vanishes(views(product@), xs, 0, xs.len() as int),
{
    let mut level = level;
    let ghost mut bounds = bounds;
    while level.len() > 1
        invariant
            level@.len() > 0,
            is_level(level@, xs, bounds),
            xs.len() + 1 <= usize::MAX,
        decreases level@.len(),
    {
        let mut next: Vec<Vec<Fr>> = Vec::new();
        let ghost mut ends: Seq<int> = seq![0];
        let mut index: usize = 0;
        let count = level.len();
        while index < count
            invariant
                count == level@.len(),
                index <= count,
                index % 2 == 0 || index == count,
                is_level(level@, xs, bounds),
                xs.len() + 1 <= usize::MAX,
                2 * next@.len() == index || (index == count && 2 * next@.len() == index + 1),
                ends.len() == next@.len() + 1,
                ends[0] == 0,
                ends[next@.len() as int] == bounds[index as int],
                forall|i: int| 0 <= i < next@.len() ==> #[trigger] ends[i] < ends[i + 1],
                forall|i: int|
                    0 <= i < next@.len() ==> vanishes(
                        views((#[trigger] next@[i])@),
                        xs,
                        ends[i],
                        ends[i + 1],
                    ),
            decreases count - index,
        {
            let ghost place = next@.len() as int;
            let ghost so_far = ends;
            let ghost lo = bounds[index as int];
            assert(vanishes(
                views(level@[index as int]@),
                xs,
                bounds[index as int],
                bounds[index + 1],
            ));
            assert(bounds[index as int] < bounds[index + 1]);
            if index + 1 == count {
                let single = copy_scalars(&level[index]);
                next.push(single);
                proof {
                    ends = ends.push(bounds[index + 1]);
                }
                index = index + 1;
            } else {
                assert(vanishes(
                    views(level@[index + 1]@),
                    xs,
                    bounds[index + 1],
                    bounds[index + 2],
                ));
                assert(bounds[index + 1] < bounds[index + 1 + 1]);
                proof {
                    lemma_bounds(bounds, 0, index as int);
                    lemma_bounds(bounds, index + 2, count as int);
                    if fits_domain((xs.len() + 1) as int) {
                        let size = choose|size: int| #[trigger]
                            is_domain_size(size) && xs.len() + 1 <= size <= usize::MAX;
                        assert(is_domain_size(size));
                    }
                }
                let product = polynomial_multiply(&level[index], &level[index + 1])?;
                proof {
                    lemma_vanishes_product(
                        views(product@),
                        views(level@[index as int]@),
                        views(level@[index + 1]@),
                        xs,
                        lo,
                        bounds[index + 1],
                        bounds[index + 2],
                    );
                    ends = ends.push(bounds[index + 2]);
                }
                next.push(product);
                index = index + 2;
            }
            proof {
                assert forall|i: int| 0 <= i < next@.len() implies #[trigger] ends[i] < ends[i
                    + 1] by {
                    if i < place {
                        assert(so_far[i] < so_far[i + 1]);
                    }
                }
            }
        }
        level = next;
        proof {
            bounds = ends;
        }
    }
    assert(vanishes(views(level@[0]@), xs, bounds[0], bounds[1]));
    Some(copy_scalars(&level[0]))
}

/// The weights from the vanishing polynomial and its derivative.
fn fast_lagrange_at_zero(domain: &Vec<Fr>, selected: &[usize], Ghost(size): Ghost<int>) -> (result:
    Option<Vec<Fr>>)
    requires
        is_domain_size(size),
        size <= usize::MAX,
        is_least_power(size, domain@.len() as int),
        views(domain@) == root_points(size, domain@.len() as int),
        is_selection(domain@.len() as int, selected@),
        selected@.len() < size,
    ensures
        result matches Some(coefficients) && views(coefficients@) == weights(
            selected_points(views(domain@), selected@),
        ),
{
    let ghost all = views(domain@);
    let ghost xs = selected_points(all, selected@);
    let ghost w = size_root(size);
    let count = selected.len();
    proof {
        lemma_roots_separated(size, domain@.len() as int, selected@);
        lemma_selection_bound(domain@.len() as int, selected@);
        crate::fft::lemma_domain_limit(size);
    }
    let enclosing_size = match next_power_of_two(domain.len()) {
        Some(enclosing) => enclosing,
        None => {
            return None;
        },
    };
    proof {
        lemma_least_power_unique(enclosing_size as int, size, domain@.len() as int);
    }
    let evaluation_domain = Radix2Domain::new(enclosing_size)?;
    let mut leaves: Vec<Vec<Fr>> = Vec::new();
    let ghost bounds = Seq::new((count + 1) as nat, |i: int| i);
    while leaves.len() < count
        invariant
            count == selected@.len(),
            is_selection(domain@.len() as int, selected@),
            all == views(domain@),
            xs == selected_points(all, selected@),
            leaves@.len() <= count,
            forall|i: int|
                0 <= i < leaves@.len() ==> vanishes(
                    views((#[trigger] leaves@[i])@),
                    xs,
                    i,
                    i + 1,
                ),
        decreases count - leaves@.len(),
    {
        let place = leaves.len();
        let mut leaf: Vec<Fr> = Vec::new();
        leaf.push(Fr::zero().minus(domain[selected[place]]));
        leaf.push(Fr::one());
        proof {
            lemma_reduce(0 - xs[place as int]);
            lemma_vanishes_leaf(views(leaf@), xs, place as int);
        }
        leaves.push(leaf);
    }
    proof {
        assert(is_domain_size(size) && xs.len() + 1 <= size <= usize::MAX);
    }
    let product = product_tree(leaves, Ghost(xs), Ghost(bounds))?;
    let ghost c = views(product@);
    assert(product@.len() == count + 1) by {
        assert(c.len() == count + 1);
    }
    let value_at_zero = product[0];
    let mut derivative_values: Vec<Fr> = zeros(enclosing_size);
    let mut degree: usize = 1;
    while degree < product.len()
        invariant
            1 <= degree <= product@.len() == count + 1,
            count < enclosing_size == derivative_values@.len(),
            c == views(product@),
            forall|k: int|
                0 <= k < enclosing_size ==> cong(
                    (#[trigger] derivative_values@[k])@,
                    if k < degree - 1 {
                        (k + 1) * c[k + 1]
                    } else {
                        0
                    },
                ),
        decreases product@.len() - degree,
    {
        let factor = Fr::from_u64(degree as u64);
        let term = product[degree].times(factor);
        proof {
            let x = c[degree as int];
            lemma_reduce(degree as int);
            lemma_cong_mul(x, x, factor@, degree as int);
            lemma_reduce(x * factor@);
            assert(x * degree == degree * x) by (nonlinear_arith);
        }
        derivative_values.set(degree - 1, term);
        degree = degree + 1;
    }
    let ghost slope = views(derivative_values@);
    evaluation_domain.fft(&mut derivative_values);
    let mut inverses: Vec<Fr> = Vec::new();
    proof {
        assert forall|k: int| 0 <= k < domain@.len() implies cong(
            (#[trigger] derivative_values@[k])@,
            vanishing_slope(xs, 0, count as int, all[k]),
        ) by {
            lemma_slope_value(c, slope, w, all[k], k, enclosing_size as int);
            lemma_reduce(dft(slope, w, k));
            assert(cong(eval(derivative(c), all[k]), vanishing_slope(xs, 0, count as int, all[k])));
        }
    }
    while inverses.len() < count
        invariant
            count == selected@.len(),
            is_selection(domain@.len() as int, selected@),
            domain@.len() <= derivative_values@.len(),
            all == views(domain@),
            xs == selected_points(all, selected@),
            inverses@.len() <= count,
            forall|k: int|
                0 <= k < domain@.len() ==> cong(
                    (#[trigger] derivative_values@[k])@,
                    vanishing_slope(xs, 0, count as int, all[k]),
                ),
            forall|i: int|
                0 <= i < inverses@.len() ==> cong(
                    (#[trigger] inverses@[i])@,
                    xs[i] * prod_but(difference_from(xs, i), 0, count as int, i),
                ),
        decreases count - inverses@.len(),
    {
        let place = inverses.len();
        let index = selected[place];
        let denominator = domain[index].times(derivative_values[index]);
        proof {
            let i = place as int;
            lemma_slope_at_point(xs, count as int, i);
            assert(all[index as int] == xs[i]);
            lemma_cong_mul(
                xs[i],
                xs[i],
                derivative_values@[index as int]@,
                prod_but(difference_from(xs, i), 0, count as int, i),
            );
            lemma_reduce(xs[i] * derivative_values@[index as int]@);
        }
        inverses.push(denominator);
    }
    let ghost denominators = inverses@;
    Fr::batch_invert(&mut inverses);
    let negative = Fr::zero().minus(value_at_zero);
    let mut coefficients: Vec<Fr> = Vec::new();
    proof {
        lemma_reduce(0 - value_at_zero@);
        lemma_pow0_value(c);
        assert(cong(eval(c, 0), vanishing(xs, 0, count as int, 0)));
        assert(cong(value_at_zero@, vanishing(xs, 0, count as int, 0)));
        lemma_cong_neg(value_at_zero@, vanishing(xs, 0, count as int, 0));
        assert forall|i: int| 0 <= i < count implies cong(
            #[trigger] (negative@ * inverses@[i]@),
            lagrange(xs, i),
        ) by {
            denominators[i].lemma_range();
            lemma_fast_weight(
                size,
                domain@.len() as int,
                selected@,
                i,
                negative@,
                denominators[i]@,
                inverses@[i]@,
            );
        }
    }
    while coefficients.len() < count
        invariant
            count == xs.len() == inverses@.len(),
            coefficients@.len() <= count,
            forall|i: int|
                0 <= i < count ==> cong(#[trigger] (negative@ * inverses@[i]@), lagrange(xs, i)),
            forall|i: int|
                0 <= i < coefficients@.len() ==> (#[trigger] coefficients@[i])@ == weight(xs, i),
        decreases count - coefficients@.len(),
    {
        let place = coefficients.len();
        assert(cong(negative@ * inverses@[place as int]@, lagrange(xs, place as int)));
        coefficients.push(negative.times(inverses[place]));
    }
    assert(views(coefficients@) =~= weights(xs));
    Some(coefficients)
}

/// The value at zero is the constant coefficient.
proof fn lemma_pow0_value(c: Seq<int>)
    requires
        c.len() > 0,
    ensures
        eval(c, 0) == c[0],
{
    crate::polynomial::lemma_horner(c, 0);
    assert(0 * eval(c.drop_first(), 0) == 0);
}

/// A transform of the derivative's coefficients holds its values at the powers of the root.
proof fn lemma_slope_value(c: Seq<int>, slope: Seq<int>, w: int, x: int, k: int, size: int)
    requires
        slope.len() == size,
        c.len() <= size,
        0 <= k,
        x == pow(w, k as nat) % order(),
        forall|i: int|
            0 <= i < size ==> cong(
                #[trigger] slope[i],
                if i < c.len() - 1 {
                    (i + 1) * c[i + 1]
                } else {
                    0
                },
            ),
    ensures
        cong(dft(slope, w, k), eval(derivative(c), x)),
{
    let d = derivative(c);
    let n = c.len() as int;
    let f = crate::algebra::dft::dft_terms(slope, w, k);
    let g = poly_terms(d, x);
    let extended = |i: int| if i < n { g(i) } else { 0 };
    lemma_reduce(pow(w, k as nat));
    assert forall|i: int| 0 <= i < size implies cong(#[trigger] f(i), extended(i)) by {
        let p = pow(w, (i * k) as nat);
        if i < n {
            vstd::arithmetic::mul::lemma_mul_nonnegative(i, k);
            lemma_pow_multiplies(w, k as nat, i as nat);
            assert(k * i == i * k) by (nonlinear_arith);
            lemma_cong_pow(x, pow(w, k as nat), i as nat);
            if i == n - 1 {
                assert(coef(c, i + 1) == 0);
                assert((i + 1) * 0 == 0);
            }
            lemma_cong_mul(slope[i], d[i], p, pow(x, i as nat));
        } else {
            lemma_cong_mul(slope[i], 0, p, p);
            assert(0 * p == 0);
        }
    }
    lemma_sum_cong(f, extended, 0, size);
    lemma_sum_split(extended, 0, n, size);
    lemma_sum_zero(extended, n, size);
    lemma_sum_ext(extended, g, 0, n);
}

/// `-P(0) / (x P'(x))` is the weight of `x`.
proof fn lemma_fast_weight(
    size: int,
    count: int,
    selected: Seq<usize>,
    i: int,
    negative: int,
    denominator: int,
    inverse: int,
)
    requires
        is_domain_size(size),
        0 <= count <= size,
        is_selection(count, selected),
        0 <= i < selected.len(),
        ({
            let xs = selected_points(root_points(size, count), selected);
            let n = xs.len() as int;
            &&& cong(negative, -vanishing(xs, 0, n, 0))
            &&& cong(denominator, xs[i] * prod_but(difference_from(xs, i), 0, n, i))
        }),
        0 <= denominator < order(),
        denominator != 0 ==> (denominator * inverse) % order() == 1,
    ensures
        cong(
            negative * inverse,
            lagrange(selected_points(root_points(size, count), selected), i),
        ),
{
    let xs = selected_points(root_points(size, count), selected);
    let n = xs.len() as int;
    let x = xs[i];
    lemma_roots_separated(size, count, selected);
    let d = prod_but(difference_from(xs, i), 0, n, i);
    let g = skip(difference_from(xs, i), i);
    // the denominator is a unit
    assert forall|j: int| 0 <= j < n implies is_unit(#[trigger] g(j)) by {
        if j != i {
            assert(is_unit(xs[i] - xs[j]));
        } else {
            assert(cong(1int * 1int, 1));
        }
    }
    crate::algebra::sums::lemma_prod_unit(g, 0, n);
    let log = choose|log: nat| log <= 32 && size == #[trigger] pow2(log);
    crate::fft::lemma_size_root(log);
    crate::algebra::roots::lemma_domain_root(log);
    let w = size_root(size);
    lemma_root_unit(w, size);
    lemma_unit_pow(w, selected[i] as nat);
    lemma_reduce(pow(w, selected[i] as nat));
    lemma_unit_cong(pow(w, selected[i] as nat), x);
    lemma_unit_mul(x, d);
    lemma_unit_cong(x * d, denominator);
    lemma_inv(denominator);
    lemma_inv_unique(denominator, inv(denominator));
    lemma_one();
    lemma_reduced(denominator);
    assert(denominator != 0);
    assert(cong(denominator * inverse, 1));
    // numerator and denominator without x
    let f = negated(xs);
    let num = prod_but(f, 0, n, i);
    let h = root_factors(xs, 0);
    assert forall|k: int| 0 <= k < n implies #[trigger] h(k) == f(k) by {}
    lemma_prod_ext(h, f, 0, n);
    lemma_prod_but(f, 0, n, i);
    assert(-vanishing(xs, 0, n, 0) == x * num) by (nonlinear_arith)
        requires
            vanishing(xs, 0, n, 0) == (-x) * num,
    ;
    let inv2 = x * inverse;
    lemma_cong_mul(denominator, x * d, inverse, inverse);
    assert((x * d) * inverse == d * inv2) by (nonlinear_arith)
        requires
            inv2 == x * inverse,
    ;
    lemma_weight_quotient(xs, i, num, d, inv2);
    lemma_cong_mul(negative, x * num, inverse, inverse);
    assert((x * num) * inverse == num * inv2) by (nonlinear_arith)
        requires
            inv2 == x * inverse,
    ;
}

/// A selection without repetition has no more items than there are to select.
pub proof fn lemma_selection_bound(len: int, selected: Seq<usize>)
    requires
        is_selection(len, selected),
    ensures
        selected.len() <= len,
{
    assert(selected[0] < len);
    let taken = selected.to_set();
    assert(selected.no_duplicates());
    selected.unique_seq_to_set();
    let all = vstd::set_lib::set_int_range(0, len);
    vstd::set_lib::lemma_int_range(0, len);
    let image = taken.map(|index: usize| index as int);
    assert(image.subset_of(all)) by {
        assert forall|v: int| image.contains(v) implies all.contains(v) by {
            let index = choose|index: usize| taken.contains(index) && index as int == v;
            let i = choose|i: int| 0 <= i < selected.len() && selected[i] == index;
            assert(selected[i] < len);
        }
    }
    vstd::set_lib::lemma_map_size(taken, image, |index: usize| index as int);
    vstd::set_lib::lemma_len_subset(image, all);
}

pub proof fn lemma_least_power_unique(a: int, b: int, size: int)
    requires
        is_least_power(a, size),
        is_least_power(b, size),
        size >= 1,
    ensures
        a == b,
{
    let k = choose|k: nat| a == pow2(k);
    let l = choose|l: nat| b == pow2(l);
    if k < l {
        lemma_power_gap(k, l);
    } else if l < k {
        lemma_power_gap(l, k);
    }
}

proof fn lemma_power_gap(k: nat, l: nat)
    requires
        k < l,
    ensures
        2 * pow2(k) <= pow2(l),
        pow2(k) >= 1,
{
    vstd::arithmetic::power2::lemma_pow2_pos(k);
    vstd::arithmetic::power2::lemma_pow2_unfold(k + 1);
    if k + 1 < l {
        vstd::arithmetic::power2::lemma_pow2_strictly_increases(k + 1, l);
    }
}

/// The weights of the interpolation at zero for the selected points, in the order
/// of the selection, where it is one: not empty, within range and without
/// repetition. The points are the first ones of a domain.
pub fn lagrange_at_zero(domain: &Vec<Fr>, selected: &[usize]) -> (result: Option<Vec<Fr>>)
    requires
        domain@.len() > 0 ==> is_root_prefix(views(domain@)),
    ensures
        match result {
            Some(coefficients) => is_selection(domain@.len() as int, selected@)
                && views(coefficients@) == weights(selected_points(views(domain@), selected@))
                && separated(selected_points(views(domain@), selected@)),
            None => !is_selection(domain@.len() as int, selected@),
        },
{
    if !validate_selection(domain.len(), selected) {
        return None;
    }
    let ghost len = domain@.len() as int;
    let ghost all = views(domain@);
    assert(len > 0) by {
        assert(selected@[0] < len);
    }
    let ghost size = choose|size: int|
        is_domain_size(size) && size <= usize::MAX && is_least_power(size, len) && all
            == #[trigger] root_points(size, len);
    let ghost xs = selected_points(all, selected@);
    proof {
        lemma_roots_separated(size, len, selected@);
        lemma_selection_bound(len, selected@);
    }
    // Where every point of a domain is selected, P(X) is X^M - 1, and every weight 1 / M.
    if selected.len() == domain.len() && exact_log(domain.len()).is_some() {
        proof {
            assert(is_least_power(len, len));
            lemma_least_power_unique(size, len, len);
            lemma_order();
            lemma_reduced(len);
            lemma_one();
        }
        let size_inverse = Fr::from_u64(domain.len() as u64).invert()?;
        let mut coefficients: Vec<Fr> = Vec::new();
        while coefficients.len() < selected.len()
            invariant
                is_domain_size(size),
                is_selection(size, selected@),
                selected@.len() == size,
                xs == selected_points(root_points(size, size), selected@),
                cong(size * size_inverse@, 1),
                coefficients@.len() <= selected@.len(),
                forall|i: int|
                    0 <= i < coefficients@.len() ==> (#[trigger] coefficients@[i])@ == weight(
                        xs,
                        i,
                    ),
            decreases selected@.len() - coefficients@.len(),
        {
            proof {
                lemma_complete_weights(size, selected@, coefficients@.len() as int, size_inverse@);
                size_inverse.lemma_range();
                lemma_reduced(size_inverse@);
            }
            coefficients.push(size_inverse);
        }
        assert(views(coefficients@) =~= weights(xs));
        return Some(coefficients);
    }
    if selected.len() <= DIRECT_INTERPOLATION_CUTOFF {
        return Some(direct_lagrange_at_zero(domain, selected));
    }
    proof {
        if selected@.len() == size {
            assert(len == size);
        }
    }
    fast_lagrange_at_zero(domain, selected, Ghost(size))
}

/// The weights by the direct formula.
fn direct_lagrange_at_zero(domain: &Vec<Fr>, selected: &[usize]) -> (coefficients: Vec<Fr>)
    requires
        is_selection(domain@.len() as int, selected@),
        separated(selected_points(views(domain@), selected@)),
    ensures
        views(coefficients@) == weights(selected_points(views(domain@), selected@)),
{
    let ghost xs = selected_points(views(domain@), selected@);
    let mut points: Vec<Fr> = Vec::new();
    while points.len() < selected.len()
        invariant
            is_selection(domain@.len() as int, selected@),
            xs == selected_points(views(domain@), selected@),
            points@.len() <= selected@.len(),
            forall|i: int| 0 <= i < points@.len() ==> (#[trigger] points@[i])@ == xs[i],
        decreases selected@.len() - points@.len(),
    {
        points.push(domain[selected[points.len()]]);
    }
    proof {
        assert(views(points@) =~= xs);
        assert forall|i: int, j: int| 0 <= i < j < points@.len() implies (
        #[trigger] points@[i])@ != (#[trigger] points@[j])@ by {
            assert(is_unit(xs[j] - xs[i]));
            lemma_inv(xs[j] - xs[i]);
            lemma_inv_unique(xs[j] - xs[i], inv(xs[j] - xs[i]));
        }
    }
    crate::polynomial::lagrange_at_zero(&points)
}

/// The weights reconstruct: for a polynomial with no more coefficients than there are
/// selected points, its values at the points, each times its weight, add up to its value
/// at zero.
pub proof fn law_weights_reconstruct(points: Seq<int>, selected: Seq<usize>, c: Seq<int>)
    requires
        is_root_prefix(points),
        is_selection(points.len() as int, selected),
        1 <= c.len() <= selected.len(),
    ensures
        ({
            let xs = selected_points(points, selected);
            let values = Seq::new(xs.len(), |k: int| eval(c, xs[k]));
            cong(dot(weights(xs), values), eval(c, 0))
        }),
{
    let xs = selected_points(points, selected);
    let n = xs.len() as int;
    let values = Seq::new(xs.len(), |k: int| eval(c, xs[k]));
    let len = points.len() as int;
    let size = choose|size: int|
        is_domain_size(size) && size <= usize::MAX && is_least_power(size, len) && points
            == #[trigger] root_points(size, len);
    lemma_roots_separated(size, len, selected);
    lemma_interpolate(xs, c);
    let f = |i: int| weight(xs, i) * eval(c, xs[i]);
    lemma_sum_ext(products(weights(xs), values), f, 0, n);
    lemma_horner(c, 0);
    assert(0 * eval(c.drop_first(), 0) == 0);
}

/// The weights follow their points: selecting them in another order gives the same weights
/// in that order.
pub proof fn law_weights_follow_selection(
    points: Seq<int>,
    selected: Seq<usize>,
    places: Seq<int>,
    k: int,
)
    requires
        is_permutation(places, selected.len() as int),
        0 <= k < selected.len(),
    ensures
        ({
            let permuted = Seq::new(selected.len(), |i: int| selected[places[i]]);
            weights(selected_points(points, permuted))[k] == weights(
                selected_points(points, selected),
            )[places[k]]
        }),
{
    let permuted = Seq::new(selected.len(), |i: int| selected[places[i]]);
    let xs = selected_points(points, selected);
    let ys = selected_points(points, permuted);
    let n = selected.len() as int;
    let f = skip(ratio(xs, places[k]), places[k]);
    let g = skip(ratio(ys, k), k);
    assert forall|j: int| 0 <= j < n implies #[trigger] g(j) == f(places[j]) by {
        assert(ys[j] == xs[places[j]] && ys[k] == xs[places[k]]);
        if j != k {
            assert(places[j] != places[k]);
        }
    }
    lemma_prod_permuted(f, g, places, n);
}

} // verus!
