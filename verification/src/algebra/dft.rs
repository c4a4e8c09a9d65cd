//! Discrete Fourier transforms and cyclic convolutions of residues.
use vstd::arithmetic::mul::{
    lemma_mul_is_associative, lemma_mul_is_commutative, lemma_mul_nonnegative,
};
use vstd::arithmetic::power::{lemma_pow0, lemma_pow_adds, lemma_pow_multiplies, pow};
use vstd::arithmetic::power2::{lemma2_to64, lemma_pow2_unfold, pow2};
use vstd::prelude::*;

use crate::algebra::residue::{
    cong, lemma_cong_add, lemma_cong_mul, lemma_pow_inverse, lemma_pow_one,
};
use crate::algebra::roots::{
    is_root, lemma_orthogonal, lemma_pow_period, lemma_root_inverse, powers,
};
use crate::algebra::sums::{
    lemma_sum_cong, lemma_sum_even_odd, lemma_sum_ext, lemma_sum_scale, lemma_sum_shift,
    lemma_sum_single, lemma_sum_split, lemma_sum_swap, sum,
};

verus! {

pub open spec fn dft_terms(v: Seq<int>, w: int, k: int) -> spec_fn(int) -> int {
    |j: int| v[j] * pow(w, (j * k) as nat)
}

/// Coefficient `k` of the transform of `v` with the root `w`: the value of the
/// polynomial with coefficients `v` at `w^k`.
pub open spec fn dft(v: Seq<int>, w: int, k: int) -> int {
    sum(dft_terms(v, w, k), 0, v.len() as int)
}

/// All coefficients of the transform.
pub open spec fn dft_all(v: Seq<int>, w: int) -> Seq<int> {
    Seq::new(v.len(), |k: int| dft(v, w, k))
}

/// The number whose `bits` lowest bits are those of `index`, in reverse.
pub open spec fn reversed(bits: nat, index: int) -> int
    decreases bits,
{
    if bits == 0 {
        0
    } else {
        (if index % 2 == 0 {
            0
        } else {
            pow2((bits - 1) as nat) as int
        }) + reversed((bits - 1) as nat, index / 2)
    }
}

pub proof fn lemma_reversed_bound(bits: nat, index: int)
    ensures
        0 <= reversed(bits, index) < pow2(bits),
    decreases bits,
{
    lemma2_to64();
    if bits > 0 {
        lemma_reversed_bound((bits - 1) as nat, index / 2);
        lemma_pow2_unfold(bits);
    }
}

pub open spec fn block_terms(v: Seq<int>, w: int, stride: int, offset: int, k: int) -> spec_fn(
    int,
) -> int {
    |j: int| v[offset + stride * j] * pow(w, (stride * j * k) as nat)
}

/// Coefficient `k` of the transform of the `len` items at `offset`, `offset + stride`, ...
pub open spec fn block(v: Seq<int>, w: int, stride: int, len: int, offset: int, k: int) -> int {
    sum(block_terms(v, w, stride, offset, k), 0, len)
}

pub proof fn lemma_block_full(v: Seq<int>, w: int, k: int)
    ensures
        block(v, w, 1, v.len() as int, 0, k) == dft(v, w, k),
{
    assert forall|j: int| 0 <= j < v.len() implies #[trigger] block_terms(v, w, 1, 0, k)(j)
        == dft_terms(v, w, k)(j) by {
        assert(1 * j == j);
    }
    lemma_sum_ext(block_terms(v, w, 1, 0, k), dft_terms(v, w, k), 0, v.len() as int);
}

/// The exponents of the even and the odd terms of a block of `2 * len` items,
/// whose two halves (`half` 0 or 1) differ in the sign of the odd terms.
proof fn lemma_exponents(w: int, n: int, stride: int, len: int, j: int, k: int, half: int)
    requires
        n == 2 * stride * len,
        stride >= 1,
        len >= 1,
        is_root(w, n),
        j >= 0,
        k >= 0,
        half == 0 || half == 1,
    ensures
        cong(
            pow(w, (stride * (2 * j) * (k + half * len)) as nat),
            pow(w, (2 * stride * j * k) as nat),
        ),
        cong(
            pow(w, (stride * (2 * j + 1) * (k + half * len)) as nat),
            pow(w, (2 * stride * j * k) as nat) * (pow(w, (stride * k) as nat) * (1 - 2 * half)),
        ),
{
    let e = 2 * stride * j * k;
    let s = stride * k;
    let h = stride * len;
    let a = stride * j;
    lemma_mul_nonnegative(stride, j);
    lemma_mul_nonnegative(a, k);
    lemma_mul_nonnegative(stride, k);
    assert(2 * stride * j == 2 * a) by (nonlinear_arith)
        requires
            a == stride * j,
    ;
    assert((2 * a) * k == 2 * (a * k)) by (nonlinear_arith);
    assert(e == 2 * (a * k));
    assert(2 * stride * len == 2 * h) by (nonlinear_arith)
        requires
            h == stride * len,
    ;
    assert(h >= 1) by (nonlinear_arith)
        requires
            h == stride * len,
            stride >= 1,
            len >= 1,
    ;
    assert(stride * (2 * j) == 2 * a) by (nonlinear_arith)
        requires
            a == stride * j,
    ;
    assert(stride * (2 * j + 1) == 2 * a + stride) by (nonlinear_arith)
        requires
            a == stride * j,
    ;
    if half == 0 {
        assert(half * len == 0) by (nonlinear_arith)
            requires
                half == 0,
        ;
        assert((2 * a + stride) * k == (2 * a) * k + stride * k) by (nonlinear_arith);
        lemma_pow_adds(w, e as nat, s as nat);
        let b = pow(w, s as nat);
        assert(b * (1 - 2 * half) == b) by (nonlinear_arith)
            requires
                half == 0,
        ;
    } else {
        assert(half * len == len) by (nonlinear_arith)
            requires
                half == 1,
        ;
        let t = k + len;
        // a len == h j
        assert(a * len == h * j) by {
            lemma_mul_is_associative(stride, j, len);
            lemma_mul_is_commutative(j, len);
            lemma_mul_is_associative(stride, len, j);
        }
        assert((2 * h) * j == 2 * (h * j)) by (nonlinear_arith);
        assert((2 * a) * t == (2 * a) * k + 2 * (a * len)) by (nonlinear_arith)
            requires
                t == k + len,
        ;
        assert((2 * a + stride) * t == (2 * a) * t + stride * t) by (nonlinear_arith);
        assert(stride * t == s + h) by (nonlinear_arith)
            requires
                t == k + len,
                s == stride * k,
                h == stride * len,
        ;
        lemma_pow_period(w, n, e as nat, j as nat);
        lemma_pow_period(w, n, (e + s + h) as nat, j as nat);
        lemma_pow_adds(w, e as nat, s as nat);
        lemma_pow_adds(w, (e + s) as nat, h as nat);
        assert(h == n / 2);
        let (x, y) = (pow(w, e as nat), pow(w, s as nat));
        lemma_cong_mul(x * y, x * y, pow(w, h as nat), -1);
        assert((x * y) * (-1) == x * (y * (-1))) by (nonlinear_arith);
        assert(1 - 2 * half == -1);
    }
}

/// One butterfly: the transform of `2 * len` items from those of the even and the odd ones.
pub proof fn lemma_block_step(
    v: Seq<int>,
    w: int,
    n: int,
    stride: int,
    len: int,
    offset: int,
    k: int,
    half: int,
)
    requires
        n == 2 * stride * len,
        stride >= 1,
        len >= 1,
        is_root(w, n),
        k >= 0,
        half == 0 || half == 1,
    ensures
        cong(
            block(v, w, stride, 2 * len, offset, k + half * len),
            block(v, w, 2 * stride, len, offset, k) + block(
                v,
                w,
                2 * stride,
                len,
                offset + stride,
                k,
            ) * (pow(w, (stride * k) as nat) * (1 - 2 * half)),
        ),
{
    let f = block_terms(v, w, stride, offset, k + half * len);
    let e = block_terms(v, w, 2 * stride, offset, k);
    let o = block_terms(v, w, 2 * stride, offset + stride, k);
    let t = pow(w, (stride * k) as nat) * (1 - 2 * half);
    let even = |i: int| f(2 * i);
    let odd = |i: int| f(2 * i + 1);
    let scaled = |i: int| t * o(i);
    lemma_sum_even_odd(f, even, odd, len);
    assert forall|i: int| 0 <= i < len implies cong(#[trigger] even(i), e(i)) by {
        lemma_exponents(w, n, stride, len, i, k, half);
        assert(offset + stride * (2 * i) == offset + 2 * stride * i) by (nonlinear_arith);
        let item = v[offset + stride * (2 * i)];
        lemma_cong_mul(
            item,
            item,
            pow(w, (stride * (2 * i) * (k + half * len)) as nat),
            pow(w, (2 * stride * i * k) as nat),
        );
    }
    assert forall|i: int| 0 <= i < len implies cong(#[trigger] odd(i), scaled(i)) by {
        lemma_exponents(w, n, stride, len, i, k, half);
        assert(offset + stride * (2 * i + 1) == (offset + stride) + 2 * stride * i)
            by (nonlinear_arith);
        let item = v[offset + stride * (2 * i + 1)];
        let p = pow(w, (2 * stride * i * k) as nat);
        lemma_cong_mul(
            item,
            item,
            pow(w, (stride * (2 * i + 1) * (k + half * len)) as nat),
            p * t,
        );
        assert(item * (p * t) == t * (item * p)) by (nonlinear_arith);
    }
    lemma_sum_cong(even, e, 0, len);
    lemma_sum_cong(odd, scaled, 0, len);
    lemma_sum_scale(t, o, scaled, 0, len);
    lemma_cong_add(sum(even, 0, len), sum(e, 0, len), sum(odd, 0, len), sum(scaled, 0, len));
    assert(t * sum(o, 0, len) == sum(o, 0, len) * t) by (nonlinear_arith);
}

/// Sums over a full period do not change when the index is rotated.
pub proof fn lemma_sum_rotate(f: spec_fn(int) -> int, g: spec_fn(int) -> int, n: int, s: int)
    requires
        0 <= s < n,
        forall|i: int| 0 <= i < n ==> #[trigger] g(i) == f((i + s) % n),
    ensures
        sum(g, 0, n) == sum(f, 0, n),
{
    lemma_sum_split(g, 0, n - s, n);
    assert forall|i: int| 0 <= i < n - s implies #[trigger] g(i) == f(i + s) by {
        vstd::arithmetic::div_mod::lemma_small_mod((i + s) as nat, n as nat);
    }
    lemma_sum_shift(f, g, 0, n - s, s);
    assert forall|i: int| n - s <= i < n implies #[trigger] g(i) == f(i + (s - n)) by {
        vstd::arithmetic::div_mod::lemma_fundamental_div_mod_converse(i + s, n, 1, i + s - n);
    }
    lemma_sum_shift(f, g, n - s, n, s - n);
    lemma_sum_split(f, 0, s, n);
}

/// The transform with the inverse root gives back `n` times what was transformed.
pub proof fn lemma_dft_inverse(v: Seq<int>, w: int, wi: int, log: nat, i: int)
    requires
        v.len() == pow2(log),
        is_root(w, pow2(log) as int),
        cong(w * wi, 1),
        0 <= i < v.len(),
    ensures
        cong(dft(dft_all(v, w), wi, i), v.len() * v[i]),
{
    let n = v.len() as int;
    let t = |k: int, j: int| v[j] * pow(w, (j * k) as nat) * pow(wi, (k * i) as nat);
    let rows = |k: int| sum(|j: int| t(k, j), 0, n);
    let columns = |j: int| sum(|k: int| t(k, j), 0, n);
    let outer = dft_terms(dft_all(v, w), wi, i);
    assert forall|k: int| 0 <= k < n implies #[trigger] outer(k) == rows(k) by {
        let row = |j: int| t(k, j);
        let c = pow(wi, (k * i) as nat);
        assert forall|j: int| 0 <= j < n implies #[trigger] row(j) == c * dft_terms(v, w, k)(j) by {
            lemma_mul_is_commutative(v[j] * pow(w, (j * k) as nat), c);
        }
        lemma_sum_scale(c, dft_terms(v, w, k), row, 0, n);
        lemma_mul_is_commutative(dft(v, w, k), c);
    }
    lemma_sum_ext(outer, rows, 0, n);
    lemma_sum_swap(t, n, n);
    let target = |j: int| if j == i { n * v[i] } else { 0int };
    assert forall|j: int| 0 <= j < n implies cong(#[trigger] columns(j), target(j)) by {
        lemma_inverse_column(v, w, wi, log, i, j);
        assert(columns(j) == sum(|k: int| t(k, j), 0, n));
        lemma_sum_ext(|k: int| t(k, j), inverse_terms(v, w, wi, i, j), 0, n);
    }
    lemma_sum_cong(columns, target, 0, n);
    lemma_sum_single(target, 0, n, i);
}

spec fn inverse_terms(v: Seq<int>, w: int, wi: int, i: int, j: int) -> spec_fn(int) -> int {
    |k: int| v[j] * pow(w, (j * k) as nat) * pow(wi, (k * i) as nat)
}

proof fn lemma_inverse_column(v: Seq<int>, w: int, wi: int, log: nat, i: int, j: int)
    requires
        v.len() == pow2(log),
        is_root(w, pow2(log) as int),
        cong(w * wi, 1),
        0 <= i < v.len(),
        0 <= j < v.len(),
    ensures
        cong(
            sum(inverse_terms(v, w, wi, i, j), 0, v.len() as int),
            if j == i {
                v.len() * v[i]
            } else {
                0
            },
        ),
{
    let n = v.len() as int;
    let d = if j >= i {
        j - i
    } else {
        n + j - i
    };
    let z = pow(w, d as nat);
    let f = inverse_terms(v, w, wi, i, j);
    let g = |k: int| v[j] * powers(z)(k);
    assert forall|k: int| 0 <= k < n implies cong(#[trigger] f(k), g(k)) by {
        // w^(jk) wi^(ik) == w^(dk) w^(ik) wi^(ik) == w^(dk), up to a period
        lemma_mul_nonnegative(d, k);
        lemma_mul_nonnegative(i, k);
        lemma_mul_nonnegative(j, k);
        lemma_pow_adds(w, (d * k) as nat, (i * k) as nat);
        lemma_pow_inverse(w, wi, (i * k) as nat);
        lemma_mul_is_commutative(i, k);
        let (a, b, c) = (
            pow(w, (d * k) as nat),
            pow(w, (i * k) as nat),
            pow(wi, (i * k) as nat),
        );
        assert(d * k + i * k == j * k + n * (if j >= i { 0 } else { k })) by (nonlinear_arith)
            requires
                d == if j >= i { j - i } else { n + j - i },
        ;
        lemma_pow_period(w, n, (j * k) as nat, (if j >= i { 0 } else { k }) as nat);
        // a * b == pow(w, j k)
        lemma_cong_mul(pow(w, (j * k) as nat), a * b, c, c);
        lemma_cong_mul(a, a, b * c, 1);
        assert((a * b) * c == a * (b * c)) by (nonlinear_arith);
        assert(a * 1 == a);
        lemma_pow_multiplies(w, d as nat, k as nat);
        lemma_cong_mul(v[j], v[j], pow(w, (j * k) as nat) * c, a);
        lemma_mul_is_associative(v[j], pow(w, (j * k) as nat), c);
    }
    lemma_sum_cong(f, g, 0, n);
    lemma_sum_scale(v[j], powers(z), g, 0, n);
    if j == i {
        lemma_pow0(w);
        assert forall|k: int| 0 <= k < n implies #[trigger] powers(z)(k) == 1 by {
            lemma_pow_one(k as nat);
        }
        lemma_sum_ones(powers(z), n);
        lemma_mul_is_commutative(v[j], n);
    } else {
        lemma_orthogonal(w, log, d);
        lemma_cong_mul(v[j], v[j], sum(powers(z), 0, n), 0);
        assert(v[j] * 0 == 0);
    }
}

pub proof fn lemma_sum_ones(f: spec_fn(int) -> int, n: int)
    requires
        0 <= n,
        forall|i: int| 0 <= i < n ==> #[trigger] f(i) == 1,
    ensures
        sum(f, 0, n) == n,
    decreases n,
{
    if n > 0 {
        lemma_sum_ones(f, n - 1);
        assert(f(n - 1) == 1);
    }
}

pub open spec fn convolution_terms(a: Seq<int>, b: Seq<int>, i: int) -> spec_fn(int) -> int {
    |j: int| a[j] * b[(i - j) % (a.len() as int)]
}

/// Item `i` of the cyclic convolution of two sequences of the same length.
pub open spec fn convolution(a: Seq<int>, b: Seq<int>, i: int) -> int {
    sum(convolution_terms(a, b, i), 0, a.len() as int)
}

pub open spec fn convolution_all(a: Seq<int>, b: Seq<int>) -> Seq<int> {
    Seq::new(a.len(), |i: int| convolution(a, b, i))
}

/// The transform of a cyclic convolution is the product of the transforms.
pub proof fn lemma_dft_convolution(a: Seq<int>, b: Seq<int>, w: int, k: int)
    requires
        a.len() == b.len(),
        is_root(w, a.len() as int),
        0 <= k,
    ensures
        cong(dft(convolution_all(a, b), w, k), dft(a, w, k) * dft(b, w, k)),
{
    let n = a.len() as int;
    let t = |i: int, j: int| a[j] * b[(i - j) % n] * pow(w, (i * k) as nat);
    let outer = dft_terms(convolution_all(a, b), w, k);
    let rows = |i: int| sum(|j: int| t(i, j), 0, n);
    let columns = |j: int| sum(|i: int| t(i, j), 0, n);
    assert forall|i: int| 0 <= i < n implies #[trigger] outer(i) == rows(i) by {
        let row = |j: int| t(i, j);
        let c = pow(w, (i * k) as nat);
        assert forall|j: int| 0 <= j < n implies #[trigger] row(j) == c
            * convolution_terms(a, b, i)(
            j,
        ) by {
            lemma_mul_is_commutative(a[j] * b[(i - j) % n], c);
        }
        lemma_sum_scale(c, convolution_terms(a, b, i), row, 0, n);
        lemma_mul_is_commutative(convolution(a, b, i), c);
    }
    lemma_sum_ext(outer, rows, 0, n);
    lemma_sum_swap(t, n, n);
    let target = |j: int| dft(b, w, k) * dft_terms(a, w, k)(j);
    assert forall|j: int| 0 <= j < n implies cong(#[trigger] columns(j), target(j)) by {
        lemma_convolution_column(a, b, w, k, j);
        assert(columns(j) == sum(|i: int| t(i, j), 0, n));
        lemma_sum_ext(|i: int| t(i, j), column_terms(a, b, w, k, j), 0, n);
    }
    lemma_sum_cong(columns, target, 0, n);
    lemma_sum_scale(dft(b, w, k), dft_terms(a, w, k), target, 0, n);
    lemma_mul_is_commutative(dft(a, w, k), dft(b, w, k));
}

spec fn column_terms(a: Seq<int>, b: Seq<int>, w: int, k: int, j: int) -> spec_fn(int) -> int {
    |i: int| a[j] * b[(i - j) % (a.len() as int)] * pow(w, (i * k) as nat)
}

proof fn lemma_convolution_column(a: Seq<int>, b: Seq<int>, w: int, k: int, j: int)
    requires
        a.len() == b.len(),
        is_root(w, a.len() as int),
        0 <= k,
        0 <= j < a.len(),
    ensures
        cong(
            sum(column_terms(a, b, w, k, j), 0, a.len() as int),
            dft(b, w, k) * dft_terms(a, w, k)(j),
        ),
{
    let n = a.len() as int;
    let c = a[j] * pow(w, (j * k) as nat);
    let f = column_terms(a, b, w, k, j);
    let base = |d: int| c * dft_terms(b, w, k)(d);
    let s = if j == 0 {
        0
    } else {
        n - j
    };
    let rotated = |i: int| base((i + s) % n);
    assert forall|i: int| 0 <= i < n implies cong(#[trigger] f(i), rotated(i)) by {
        let d = (i - j) % n;
        let wraps = if i >= j {
            0int
        } else {
            1int
        };
        assert(d == i - j + n * wraps && (i + s) % n == d) by {
            vstd::arithmetic::div_mod::lemma_fundamental_div_mod_converse(
                i - j,
                n,
                -wraps,
                i - j + n * wraps,
            );
            if j == 0 {
                vstd::arithmetic::div_mod::lemma_small_mod(i as nat, n as nat);
            } else {
                vstd::arithmetic::div_mod::lemma_fundamental_div_mod_converse(
                    i + s,
                    n,
                    1 - wraps,
                    i - j + n * wraps,
                );
            }
        }
        // i k == d k + j k, up to a period
        lemma_mul_nonnegative(d, k);
        lemma_mul_nonnegative(i, k);
        lemma_mul_nonnegative(j, k);
        lemma_mul_nonnegative(wraps, k);
        assert(d * k + j * k == i * k + n * (wraps * k)) by (nonlinear_arith)
            requires
                d == i - j + n * wraps,
        ;
        lemma_pow_period(w, n, (i * k) as nat, (wraps * k) as nat);
        lemma_pow_adds(w, (d * k) as nat, (j * k) as nat);
        let (x, y, p, q) = (a[j], b[d], pow(w, (d * k) as nat), pow(w, (j * k) as nat));
        lemma_cong_mul(x * y, x * y, pow(w, (i * k) as nat), p * q);
        assert((x * y) * (p * q) == (x * q) * (y * p)) by (nonlinear_arith);
    }
    lemma_sum_cong(f, rotated, 0, n);
    lemma_sum_rotate(base, rotated, n, s);
    lemma_sum_scale(c, dft_terms(b, w, k), base, 0, n);
    lemma_mul_is_commutative(c, dft(b, w, k));
}

/// The transform of `a`, item by item times `t`.
pub open spec fn modulated(a: Seq<int>, t: Seq<int>, w: int) -> Seq<int> {
    Seq::new(a.len(), |k: int| dft(a, w, k) * t[k])
}

/// Transforming, multiplying by `t` and transforming with the inverse root
/// convolves with the inverse transform of `t`.
pub proof fn lemma_middle_product(a: Seq<int>, t: Seq<int>, w: int, wi: int, i: int)
    requires
        a.len() == t.len(),
        is_root(w, a.len() as int),
        cong(w * wi, 1),
        0 <= i < a.len(),
    ensures
        cong(dft(modulated(a, t, w), wi, i), convolution(a, dft_all(t, wi), i)),
{
    let n = a.len() as int;
    let c = dft_all(t, wi);
    let f = |k: int, j: int| a[j] * pow(w, (j * k) as nat) * t[k] * pow(wi, (k * i) as nat);
    let outer = dft_terms(modulated(a, t, w), wi, i);
    let rows = |k: int| sum(|j: int| f(k, j), 0, n);
    let columns = |j: int| sum(|k: int| f(k, j), 0, n);
    assert forall|k: int| 0 <= k < n implies #[trigger] outer(k) == rows(k) by {
        let row = |j: int| f(k, j);
        let q = t[k] * pow(wi, (k * i) as nat);
        assert forall|j: int| 0 <= j < n implies #[trigger] row(j) == q * dft_terms(a, w, k)(j) by {
            let (x, y, z) = (a[j] * pow(w, (j * k) as nat), t[k], pow(wi, (k * i) as nat));
            assert(x * y * z == (y * z) * x) by (nonlinear_arith);
        }
        lemma_sum_scale(q, dft_terms(a, w, k), row, 0, n);
        let (x, y, z) = (dft(a, w, k), t[k], pow(wi, (k * i) as nat));
        assert(x * y * z == (y * z) * x) by (nonlinear_arith);
    }
    lemma_sum_ext(outer, rows, 0, n);
    lemma_sum_swap(f, n, n);
    let target = convolution_terms(a, c, i);
    assert forall|j: int| 0 <= j < n implies cong(#[trigger] columns(j), target(j)) by {
        let d = (i - j) % n;
        vstd::arithmetic::div_mod::lemma_mod_bound(i - j, n);
        let column = |k: int| f(k, j);
        let scaled = |k: int| a[j] * dft_terms(t, wi, d)(k);
        assert forall|k: int| 0 <= k < n implies cong(#[trigger] column(k), scaled(k)) by {
            lemma_middle_exponents(w, wi, n, i, j, k);
            let (x, y, z, r) = (
                a[j],
                pow(w, (j * k) as nat),
                t[k],
                pow(wi, (k * i) as nat),
            );
            let p = pow(wi, (k * d) as nat);
            lemma_cong_mul(x * z, x * z, y * r, p);
            assert(x * y * z * r == (x * z) * (y * r)) by (nonlinear_arith);
            assert((x * z) * p == x * (z * p)) by (nonlinear_arith);
        }
        lemma_sum_cong(column, scaled, 0, n);
        lemma_sum_scale(a[j], dft_terms(t, wi, d), scaled, 0, n);
        assert(columns(j) == sum(column, 0, n));
    }
    lemma_sum_cong(columns, target, 0, n);
}

/// `w^(jk) wi^(ki)` depends on `(i - j) % n` alone.
pub proof fn lemma_middle_exponents(w: int, wi: int, n: int, i: int, j: int, k: int)
    requires
        is_root(w, n),
        cong(w * wi, 1),
        0 <= i < n,
        0 <= j < n,
        0 <= k < n,
    ensures
        cong(
            pow(w, (j * k) as nat) * pow(wi, (k * i) as nat),
            pow(wi, (k * ((i - j) % n)) as nat),
        ),
{
    let d = (i - j) % n;
    let wraps: int = if i >= j {
        0
    } else {
        1
    };
    vstd::arithmetic::div_mod::lemma_fundamental_div_mod_converse(
        i - j,
        n,
        -wraps,
        i - j + n * wraps,
    );
    assert(d == i - j + n * wraps);
    lemma_root_inverse(w, wi, n);
    lemma_mul_nonnegative(d, k);
    lemma_mul_nonnegative(i, k);
    lemma_mul_nonnegative(j, k);
    lemma_mul_nonnegative(wraps, k);
    lemma_mul_is_commutative(k, i);
    lemma_mul_is_commutative(k, d);
    assert(d * k + j * k == i * k + n * (wraps * k)) by {
        assert((d + j) * k == d * k + j * k) by (nonlinear_arith);
        assert((i + n * wraps) * k == i * k + n * (wraps * k)) by (nonlinear_arith);
    }
    lemma_pow_period(wi, n, (i * k) as nat, (wraps * k) as nat);
    lemma_pow_adds(wi, (d * k) as nat, (j * k) as nat);
    lemma_pow_inverse(w, wi, (j * k) as nat);
    let (p, q, y) = (
        pow(wi, (d * k) as nat),
        pow(wi, (j * k) as nat),
        pow(w, (j * k) as nat),
    );
    // y r == y (p q) == p (y q) == p
    lemma_cong_mul(y, y, pow(wi, (i * k) as nat), p * q);
    lemma_cong_mul(p, p, y * q, 1);
    assert(y * (p * q) == p * (y * q)) by (nonlinear_arith);
    assert(p * 1 == p);
}

/// A sequence, continued with zeros to a length.
pub open spec fn padded(v: Seq<int>, len: int) -> Seq<int> {
    Seq::new(len as nat, |i: int| if i < v.len() { v[i] } else { 0 })
}

/// Transforms agree where what they transform does.
pub proof fn lemma_dft_cong(u: Seq<int>, v: Seq<int>, w: int, k: int)
    requires
        u.len() == v.len(),
        forall|j: int| 0 <= j < u.len() ==> cong(#[trigger] u[j], v[j]),
    ensures
        cong(dft(u, w, k), dft(v, w, k)),
{
    assert forall|j: int| 0 <= j < u.len() implies cong(
        #[trigger] dft_terms(u, w, k)(j),
        dft_terms(v, w, k)(j),
    ) by {
        lemma_cong_mul(u[j], v[j], pow(w, (j * k) as nat), pow(w, (j * k) as nat));
    }
    lemma_sum_cong(dft_terms(u, w, k), dft_terms(v, w, k), 0, u.len() as int);
}

} // verus!
