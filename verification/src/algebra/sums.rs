//! Finite sums and products over integer ranges.
use vstd::prelude::*;

use crate::algebra::residue::{cong, is_unit, lemma_cong_add, lemma_cong_mul, lemma_unit_mul};

verus! {

/// The sum of `f(i)` over `lo <= i < hi`.
pub open spec fn sum(f: spec_fn(int) -> int, lo: int, hi: int) -> int
    decreases hi - lo,
{
    if hi <= lo {
        0
    } else {
        sum(f, lo, hi - 1) + f(hi - 1)
    }
}

/// The product of `f(i)` over `lo <= i < hi`.
pub open spec fn prod(f: spec_fn(int) -> int, lo: int, hi: int) -> int
    decreases hi - lo,
{
    if hi <= lo {
        1
    } else {
        prod(f, lo, hi - 1) * f(hi - 1)
    }
}

/// The products of the items at the same places.
pub open spec fn products(a: Seq<int>, b: Seq<int>) -> spec_fn(int) -> int {
    |i: int| a[i] * b[i]
}

/// The sum of the products of the items at the same places.
pub open spec fn dot(a: Seq<int>, b: Seq<int>) -> int {
    sum(products(a, b), 0, a.len() as int)
}

/// The items of a sequence.
pub open spec fn items(a: Seq<int>) -> spec_fn(int) -> int {
    |i: int| a[i]
}

/// The sum of a sequence.
pub open spec fn sum_of(a: Seq<int>) -> int {
    sum(items(a), 0, a.len() as int)
}

pub proof fn lemma_sum_ext(f: spec_fn(int) -> int, g: spec_fn(int) -> int, lo: int, hi: int)
    requires
        forall|i: int| lo <= i < hi ==> #[trigger] f(i) == g(i),
    ensures
        sum(f, lo, hi) == sum(g, lo, hi),
    decreases hi - lo,
{
    if lo < hi {
        lemma_sum_ext(f, g, lo, hi - 1);
        assert(f(hi - 1) == g(hi - 1));
    }
}

pub proof fn lemma_sum_cong(f: spec_fn(int) -> int, g: spec_fn(int) -> int, lo: int, hi: int)
    requires
        forall|i: int| lo <= i < hi ==> cong(#[trigger] f(i), g(i)),
    ensures
        cong(sum(f, lo, hi), sum(g, lo, hi)),
    decreases hi - lo,
{
    if lo < hi {
        lemma_sum_cong(f, g, lo, hi - 1);
        assert(cong(f(hi - 1), g(hi - 1)));
        lemma_cong_add(sum(f, lo, hi - 1), sum(g, lo, hi - 1), f(hi - 1), g(hi - 1));
    }
}

/// A sum of zeros is zero.
pub proof fn lemma_sum_zero(f: spec_fn(int) -> int, lo: int, hi: int)
    requires
        forall|i: int| lo <= i < hi ==> #[trigger] f(i) == 0,
    ensures
        sum(f, lo, hi) == 0,
    decreases hi - lo,
{
    if lo < hi {
        lemma_sum_zero(f, lo, hi - 1);
        assert(f(hi - 1) == 0);
    }
}

/// `h` is `f + g` point by point.
pub proof fn lemma_sum_add(
    f: spec_fn(int) -> int,
    g: spec_fn(int) -> int,
    h: spec_fn(int) -> int,
    lo: int,
    hi: int,
)
    requires
        forall|i: int| lo <= i < hi ==> #[trigger] h(i) == f(i) + g(i),
    ensures
        sum(h, lo, hi) == sum(f, lo, hi) + sum(g, lo, hi),
    decreases hi - lo,
{
    if lo < hi {
        lemma_sum_add(f, g, h, lo, hi - 1);
        assert(h(hi - 1) == f(hi - 1) + g(hi - 1));
    }
}

/// `h` is `f - g` point by point.
pub proof fn lemma_sum_sub(
    f: spec_fn(int) -> int,
    g: spec_fn(int) -> int,
    h: spec_fn(int) -> int,
    lo: int,
    hi: int,
)
    requires
        forall|i: int| lo <= i < hi ==> #[trigger] h(i) == f(i) - g(i),
    ensures
        sum(h, lo, hi) == sum(f, lo, hi) - sum(g, lo, hi),
    decreases hi - lo,
{
    if lo < hi {
        lemma_sum_sub(f, g, h, lo, hi - 1);
        assert(h(hi - 1) == f(hi - 1) - g(hi - 1));
    }
}

/// `g` is `c * f` point by point.
pub proof fn lemma_sum_scale(
    c: int,
    f: spec_fn(int) -> int,
    g: spec_fn(int) -> int,
    lo: int,
    hi: int,
)
    requires
        forall|i: int| lo <= i < hi ==> #[trigger] g(i) == c * f(i),
    ensures
        sum(g, lo, hi) == c * sum(f, lo, hi),
    decreases hi - lo,
{
    if lo < hi {
        lemma_sum_scale(c, f, g, lo, hi - 1);
        assert(g(hi - 1) == c * f(hi - 1));
        assert(c * (sum(f, lo, hi - 1) + f(hi - 1)) == c * sum(f, lo, hi - 1) + c * f(hi - 1))
            by (nonlinear_arith);
    } else {
        assert(c * 0 == 0);
    }
}

pub proof fn lemma_sum_split(f: spec_fn(int) -> int, lo: int, mid: int, hi: int)
    requires
        lo <= mid <= hi,
    ensures
        sum(f, lo, hi) == sum(f, lo, mid) + sum(f, mid, hi),
    decreases hi - mid,
{
    if mid < hi {
        lemma_sum_split(f, lo, mid, hi - 1);
    }
}

/// Taking the first term off.
pub proof fn lemma_sum_first(f: spec_fn(int) -> int, lo: int, hi: int)
    requires
        lo < hi,
    ensures
        sum(f, lo, hi) == f(lo) + sum(f, lo + 1, hi),
{
    lemma_sum_split(f, lo, lo + 1, hi);
    assert(sum(f, lo, lo) == 0);
    assert(sum(f, lo, lo + 1) == sum(f, lo, lo) + f(lo));
}

/// `g` is `f` moved by `d`.
pub proof fn lemma_sum_shift(
    f: spec_fn(int) -> int,
    g: spec_fn(int) -> int,
    lo: int,
    hi: int,
    d: int,
)
    requires
        forall|i: int| lo <= i < hi ==> #[trigger] g(i) == f(i + d),
    ensures
        sum(g, lo, hi) == sum(f, lo + d, hi + d),
    decreases hi - lo,
{
    if lo < hi {
        lemma_sum_shift(f, g, lo, hi - 1, d);
        assert(g(hi - 1) == f(hi - 1 + d));
    }
}

/// `g` is `f` read backwards.
pub proof fn lemma_sum_reverse(f: spec_fn(int) -> int, g: spec_fn(int) -> int, n: int)
    requires
        0 <= n,
        forall|i: int| 0 <= i < n ==> #[trigger] g(i) == f(n - 1 - i),
    ensures
        sum(g, 0, n) == sum(f, 0, n),
    decreases n,
{
    if n > 0 {
        lemma_sum_first(f, 0, n);
        let shifted = |i: int| f(i + 1);
        lemma_sum_shift(f, shifted, 0, n - 1, 1);
        assert forall|i: int| 0 <= i < n - 1 implies #[trigger] g(i) == shifted(n - 1 - 1 - i) by {}
        lemma_sum_reverse(shifted, g, n - 1);
        assert(g(n - 1) == f(0));
    }
}

/// Only the term at `k` is not zero.
pub proof fn lemma_sum_single(f: spec_fn(int) -> int, lo: int, hi: int, k: int)
    requires
        lo <= k < hi,
        forall|i: int| lo <= i < hi && i != k ==> #[trigger] f(i) == 0,
    ensures
        sum(f, lo, hi) == f(k),
{
    lemma_sum_split(f, lo, k, hi);
    lemma_sum_first(f, k, hi);
    lemma_sum_zero(f, lo, k);
    lemma_sum_zero(f, k + 1, hi);
}

/// The even and the odd terms apart.
pub proof fn lemma_sum_even_odd(
    f: spec_fn(int) -> int,
    even: spec_fn(int) -> int,
    odd: spec_fn(int) -> int,
    n: int,
)
    requires
        0 <= n,
        forall|i: int| 0 <= i < n ==> #[trigger] even(i) == f(2 * i),
        forall|i: int| 0 <= i < n ==> #[trigger] odd(i) == f(2 * i + 1),
    ensures
        sum(f, 0, 2 * n) == sum(even, 0, n) + sum(odd, 0, n),
    decreases n,
{
    if n > 0 {
        lemma_sum_even_odd(f, even, odd, n - 1);
        assert(even(n - 1) == f(2 * n - 2));
        assert(odd(n - 1) == f(2 * n - 1));
        assert(sum(f, 0, 2 * n) == sum(f, 0, 2 * n - 1) + f(2 * n - 1));
        assert(sum(f, 0, 2 * n - 1) == sum(f, 0, 2 * n - 2) + f(2 * n - 2));
    }
}

/// The order of two sums can be exchanged.
pub proof fn lemma_sum_swap(f: spec_fn(int, int) -> int, n: int, m: int)
    requires
        0 <= n,
        0 <= m,
    ensures
        sum(|i: int| sum(|j: int| f(i, j), 0, m), 0, n) == sum(
            |j: int| sum(|i: int| f(i, j), 0, n),
            0,
            m,
        ),
    decreases n,
{
    let rows = |i: int| sum(|j: int| f(i, j), 0, m);
    let columns = |j: int| sum(|i: int| f(i, j), 0, n);
    if n == 0 {
        assert forall|j: int| 0 <= j < m implies #[trigger] columns(j) == 0 by {}
        lemma_sum_zero(columns, 0, m);
    } else {
        lemma_sum_swap(f, n - 1, m);
        let shorter = |j: int| sum(|i: int| f(i, j), 0, n - 1);
        let last = |j: int| f(n - 1, j);
        assert forall|j: int| 0 <= j < m implies #[trigger] columns(j) == shorter(j) + last(j) by {}
        lemma_sum_add(shorter, last, columns, 0, m);
        assert(rows(n - 1) == sum(last, 0, m));
    }
}

/// Where every partial sum stays in bounds: sums of nonnegative terms grow.
pub proof fn lemma_sum_nonnegative(f: spec_fn(int) -> int, lo: int, hi: int)
    requires
        forall|i: int| lo <= i < hi ==> #[trigger] f(i) >= 0,
    ensures
        sum(f, lo, hi) >= 0,
    decreases hi - lo,
{
    if lo < hi {
        lemma_sum_nonnegative(f, lo, hi - 1);
        assert(f(hi - 1) >= 0);
    }
}

pub proof fn lemma_prod_ext(f: spec_fn(int) -> int, g: spec_fn(int) -> int, lo: int, hi: int)
    requires
        forall|i: int| lo <= i < hi ==> #[trigger] f(i) == g(i),
    ensures
        prod(f, lo, hi) == prod(g, lo, hi),
    decreases hi - lo,
{
    if lo < hi {
        lemma_prod_ext(f, g, lo, hi - 1);
        assert(f(hi - 1) == g(hi - 1));
    }
}

pub proof fn lemma_prod_cong(f: spec_fn(int) -> int, g: spec_fn(int) -> int, lo: int, hi: int)
    requires
        forall|i: int| lo <= i < hi ==> cong(#[trigger] f(i), g(i)),
    ensures
        cong(prod(f, lo, hi), prod(g, lo, hi)),
    decreases hi - lo,
{
    if lo < hi {
        lemma_prod_cong(f, g, lo, hi - 1);
        assert(cong(f(hi - 1), g(hi - 1)));
        lemma_cong_mul(prod(f, lo, hi - 1), prod(g, lo, hi - 1), f(hi - 1), g(hi - 1));
    }
}

/// `h` is `f * g` point by point.
pub proof fn lemma_prod_mul(
    f: spec_fn(int) -> int,
    g: spec_fn(int) -> int,
    h: spec_fn(int) -> int,
    lo: int,
    hi: int,
)
    requires
        forall|i: int| lo <= i < hi ==> #[trigger] h(i) == f(i) * g(i),
    ensures
        prod(h, lo, hi) == prod(f, lo, hi) * prod(g, lo, hi),
    decreases hi - lo,
{
    if lo < hi {
        lemma_prod_mul(f, g, h, lo, hi - 1);
        assert(h(hi - 1) == f(hi - 1) * g(hi - 1));
        let (a, b, c, d) = (prod(f, lo, hi - 1), prod(g, lo, hi - 1), f(hi - 1), g(hi - 1));
        assert((a * b) * (c * d) == (a * c) * (b * d)) by (nonlinear_arith);
    }
}

pub proof fn lemma_prod_split(f: spec_fn(int) -> int, lo: int, mid: int, hi: int)
    requires
        lo <= mid <= hi,
    ensures
        prod(f, lo, hi) == prod(f, lo, mid) * prod(f, mid, hi),
    decreases hi - mid,
{
    if mid < hi {
        lemma_prod_split(f, lo, mid, hi - 1);
        let (a, b, c) = (prod(f, lo, mid), prod(f, mid, hi - 1), f(hi - 1));
        assert((a * b) * c == a * (b * c)) by (nonlinear_arith);
    } else {
        assert(prod(f, lo, hi) * 1 == prod(f, lo, hi));
    }
}

pub proof fn lemma_prod_first(f: spec_fn(int) -> int, lo: int, hi: int)
    requires
        lo < hi,
    ensures
        prod(f, lo, hi) == f(lo) * prod(f, lo + 1, hi),
{
    lemma_prod_split(f, lo, lo + 1, hi);
    assert(prod(f, lo, lo) == 1);
    assert(prod(f, lo, lo + 1) == prod(f, lo, lo) * f(lo));
    assert(1 * f(lo) == f(lo));
}

pub proof fn lemma_prod_shift(
    f: spec_fn(int) -> int,
    g: spec_fn(int) -> int,
    lo: int,
    hi: int,
    d: int,
)
    requires
        forall|i: int| lo <= i < hi ==> #[trigger] g(i) == f(i + d),
    ensures
        prod(g, lo, hi) == prod(f, lo + d, hi + d),
    decreases hi - lo,
{
    if lo < hi {
        lemma_prod_shift(f, g, lo, hi - 1, d);
        assert(g(hi - 1) == f(hi - 1 + d));
    }
}

/// A product of units is a unit.
pub proof fn lemma_prod_unit(f: spec_fn(int) -> int, lo: int, hi: int)
    requires
        forall|i: int| lo <= i < hi ==> is_unit(#[trigger] f(i)),
    ensures
        is_unit(prod(f, lo, hi)),
    decreases hi - lo,
{
    if lo < hi {
        lemma_prod_unit(f, lo, hi - 1);
        assert(is_unit(f(hi - 1)));
        lemma_unit_mul(prod(f, lo, hi - 1), f(hi - 1));
    } else {
        assert(cong(1int * 1int, 1));
    }
}

/// `f` with its value at `k` replaced by one.
pub open spec fn skip(f: spec_fn(int) -> int, k: int) -> spec_fn(int) -> int {
    |i: int| if i == k { 1 } else { f(i) }
}

/// Every factor but the one at `k`.
pub open spec fn prod_but(f: spec_fn(int) -> int, lo: int, hi: int, k: int) -> int {
    prod(skip(f, k), lo, hi)
}

pub proof fn lemma_prod_but(f: spec_fn(int) -> int, lo: int, hi: int, k: int)
    ensures
        lo <= k < hi ==> prod(f, lo, hi) == f(k) * prod_but(f, lo, hi, k),
        !(lo <= k < hi) ==> prod(f, lo, hi) == prod_but(f, lo, hi, k),
        lo <= k < hi ==> prod_but(f, lo, hi, k) == prod(f, lo, k) * prod(f, k + 1, hi),
{
    let but = skip(f, k);
    if lo <= k < hi {
        lemma_prod_split(f, lo, k, hi);
        lemma_prod_first(f, k, hi);
        lemma_prod_split(but, lo, k, hi);
        lemma_prod_first(but, k, hi);
        lemma_prod_ext(f, but, lo, k);
        lemma_prod_ext(f, but, k + 1, hi);
        let (a, b, c) = (prod(f, lo, k), f(k), prod(f, k + 1, hi));
        assert(a * (b * c) == b * (a * c)) by (nonlinear_arith);
        assert(1 * c == c);
    } else {
        lemma_prod_ext(f, but, lo, hi);
    }
}

/// A sum of products grows by the product of the new items.
pub proof fn lemma_dot_push(a: Seq<int>, b: Seq<int>, x: int, y: int)
    requires
        a.len() == b.len(),
    ensures
        dot(a.push(x), b.push(y)) == dot(a, b) + x * y,
{
    let n = a.len() as int;
    let f = products(a.push(x), b.push(y));
    let g = products(a, b);
    assert forall|i: int| 0 <= i < n implies #[trigger] f(i) == g(i) by {}
    lemma_sum_ext(f, g, 0, n);
    assert(f(n) == x * y);
    assert(sum(f, 0, n + 1) == sum(f, 0, n) + f(n));
}

/// Whether every place below `n` is named once.
pub open spec fn is_permutation(places: Seq<int>, n: int) -> bool {
    &&& places.len() == n
    &&& places.no_duplicates()
    &&& forall|k: int| 0 <= k < n ==> 0 <= #[trigger] places[k] < n
}

/// A product does not depend on the order of its factors.
pub proof fn lemma_prod_permuted(
    f: spec_fn(int) -> int,
    g: spec_fn(int) -> int,
    places: Seq<int>,
    n: int,
)
    requires
        is_permutation(places, n),
        forall|k: int| 0 <= k < n ==> #[trigger] g(k) == f(places[k]),
    ensures
        prod(g, 0, n) == prod(f, 0, n),
    decreases n,
{
    if n > 0 {
        // where the last factor of the one product stands in the other
        places.unique_seq_to_set();
        let range = vstd::set_lib::set_int_range(0, n);
        vstd::set_lib::lemma_int_range(0, n);
        assert(places.to_set().subset_of(range));
        vstd::set_lib::lemma_subset_equality(places.to_set(), range);
        assert(range.contains(n - 1));
        assert(places.to_set().contains(n - 1));
        let at = places.index_of(n - 1);
        let rest = places.remove(at);
        let h = |k: int| f(rest[k]);
        assert forall|k: int| 0 <= k < n - 1 implies 0 <= #[trigger] rest[k] < n - 1 by {
            let from = if k < at {
                k
            } else {
                k + 1
            };
            assert(rest[k] == places[from]);
            assert(places[from] != places[at]);
        }
        assert(rest.no_duplicates());
        lemma_prod_permuted(f, h, rest, n - 1);
        lemma_prod_split(g, 0, at, n);
        lemma_prod_first(g, at, n);
        lemma_prod_split(h, 0, at, n - 1);
        lemma_prod_ext(g, h, 0, at);
        lemma_prod_shift(g, h, at, n - 1, 1);
        let (x, y, z) = (prod(g, 0, at), g(at), prod(g, at + 1, n));
        assert(x * (y * z) == (x * z) * y) by (nonlinear_arith);
    }
}

/// A sum of products is scaled item by item.
pub proof fn lemma_scaled_dot(base: int, r: Seq<int>, scaled: Seq<int>, weights: Seq<int>)
    requires
        r.len() == scaled.len() == weights.len(),
        forall|i: int| 0 <= i < r.len() ==> #[trigger] scaled[i] == base * r[i],
    ensures
        dot(scaled, weights) == base * dot(r, weights),
{
    assert forall|i: int| 0 <= i < r.len() implies #[trigger] products(scaled, weights)(i) == base
        * products(r, weights)(i) by {
        let (x, y) = (r[i], weights[i]);
        assert(scaled[i] == base * x);
        assert((base * x) * y == base * (x * y)) by (nonlinear_arith);
    }
    lemma_sum_scale(base, products(r, weights), products(scaled, weights), 0, r.len() as int);
}

} // verus!
