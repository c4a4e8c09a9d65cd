//! Middle products: cyclic convolutions of points of the two source groups, by
//! transforms in the source groups and in the target group.
use vstd::arithmetic::power2::pow2;
use vstd::prelude::*;

use crate::algebra::dft::{
    convolution, convolution_terms, dft, dft_all, lemma_dft_cong, lemma_dft_inverse,
    lemma_middle_product, modulated, padded,
};
use crate::algebra::residue::{cong, lemma_cong_mul, lemma_reduce, lemma_reduced, order};
use crate::algebra::sums::{lemma_sum_cong, lemma_sum_scale, lemma_sum_split, lemma_sum_zero, sum};
use crate::curve::{pair, views, Element, G1Point, G2Point, GtElement, G1, G2};
use crate::fft::{scale, size_root, Radix2Domain};
use crate::points::{batch_normalize_g1, batch_normalize_g2, pad};

verus! {

/// What a transformed kernel stands for: its inverse transform, not divided by the size.
pub open spec fn kernel_entries(domain: Radix2Domain, transformed: Seq<int>) -> Seq<int> {
    Seq::new(
        transformed.len(),
        |i: int| dft(transformed, domain.inverse_root(), i) % order(),
    )
}

pub open spec fn cross_terms_of(v: Seq<int>, entries: Seq<int>, i: int) -> spec_fn(int) -> int {
    |j: int| v[j] * entries[(i - j) % (entries.len() as int)]
}

/// The sum of `v[j]` times the entry at `i - j`, in the cyclic order.
pub open spec fn cross_term(v: Seq<int>, entries: Seq<int>, i: int) -> int {
    sum(cross_terms_of(v, entries, i), 0, v.len() as int)
}

/// The transform of a kernel divided by its size stands for that kernel.
proof fn lemma_kernel(domain: Radix2Domain, kernel: Seq<int>, transformed: Seq<int>)
    requires
        domain.wf(),
        kernel.len() == transformed.len() == domain.spec_size(),
        forall|i: int| 0 <= i < kernel.len() ==> 0 <= #[trigger] kernel[i] < order(),
        forall|k: int|
            0 <= k < kernel.len() ==> cong(
                #[trigger] transformed[k],
                dft(kernel, size_root(domain.spec_size()), k) * domain.spec_size_inverse(),
            ),
    ensures
        kernel_entries(domain, transformed) == kernel,
{
    let m = kernel.len() as int;
    let w = size_root(m);
    let wi = domain.inverse_root();
    let s = domain.spec_size_inverse();
    domain.lemma_domain();
    let log = choose|log: nat| m == pow2(log);
    let full = dft_all(kernel, w);
    assert forall|i: int| 0 <= i < m implies #[trigger] kernel_entries(domain, transformed)[i]
        == kernel[i] by {
        lemma_dft_inverse(kernel, w, wi, log, i);
        let scaled = Seq::new(m as nat, |k: int| full[k] * s);
        assert forall|k: int| 0 <= k < m implies cong(#[trigger] transformed[k], scaled[k]) by {}
        lemma_dft_cong(transformed, scaled, wi, i);
        let f = crate::algebra::dft::dft_terms(full, wi, i);
        let g = crate::algebra::dft::dft_terms(scaled, wi, i);
        assert forall|k: int| 0 <= k < m implies #[trigger] g(k) == s * f(k) by {
            let (a, p) = (full[k], vstd::arithmetic::power::pow(wi, (k * i) as nat));
            assert((a * s) * p == s * (a * p)) by (nonlinear_arith);
        }
        lemma_sum_scale(s, f, g, 0, m);
        lemma_cong_mul(s, s, dft(full, wi, i), m * kernel[i]);
        lemma_cong_mul(m * s, 1, kernel[i], kernel[i]);
        assert(s * (m * kernel[i]) == (m * s) * kernel[i]) by (nonlinear_arith);
        assert(1 * kernel[i] == kernel[i]);
        lemma_reduced(kernel[i]);
    }
    assert(kernel_entries(domain, transformed) =~= kernel);
}

/// The zeros that continue a sequence add nothing to a convolution.
proof fn lemma_padded_convolution(
    v: Seq<int>,
    domain: Radix2Domain,
    transformed: Seq<int>,
    i: int,
)
    requires
        v.len() <= transformed.len(),
        0 <= i < transformed.len(),
    ensures
        cong(
            convolution(
                padded(v, transformed.len() as int),
                dft_all(transformed, domain.inverse_root()),
                i,
            ),
            cross_term(v, kernel_entries(domain, transformed), i),
        ),
{
    let m = transformed.len() as int;
    let long = padded(v, m);
    let raw = dft_all(transformed, domain.inverse_root());
    let entries = kernel_entries(domain, transformed);
    let f = convolution_terms(long, raw, i);
    let g = cross_terms_of(v, entries, i);
    let n = v.len() as int;
    lemma_sum_split(f, 0, n, m);
    assert forall|j: int| n <= j < m implies #[trigger] f(j) == 0 by {
        assert(long[j] == 0);
        assert(0 * raw[(i - j) % m] == 0);
    }
    lemma_sum_zero(f, n, m);
    assert forall|j: int| 0 <= j < n implies cong(#[trigger] f(j), g(j)) by {
        let d = (i - j) % m;
        vstd::arithmetic::div_mod::lemma_mod_bound(i - j, m);
        lemma_reduce(dft(transformed, domain.inverse_root(), d));
        lemma_cong_mul(v[j], v[j], raw[d], entries[d]);
    }
    lemma_sum_cong(f, g, 0, n);
}

/// Transforms a kernel in the second source group, divided by its size.
pub fn transform_kernel_g2(domain: &Radix2Domain, kernel: Vec<G2>) -> (result: Vec<G2Point>)
    requires
        domain.wf(),
        kernel@.len() == domain.spec_size(),
    ensures
        result@.len() == kernel@.len(),
        kernel_entries(*domain, views(result@)) == views(kernel@),
{
    let ghost entries = views(kernel@);
    let mut values = kernel;
    domain.fft(&mut values);
    let ghost raw = values@;
    scale(&mut values, domain.size_inverse());
    let result = batch_normalize_g2(&values);
    proof {
        assert(views(result@).len() == views(values@).len());
        let w = size_root(domain.spec_size());
        let s = domain.spec_size_inverse();
        assert forall|i: int| 0 <= i < entries.len() implies 0 <= #[trigger] entries[i]
            < order() by {
            kernel@[i].lemma_range();
        }
        assert forall|k: int| 0 <= k < entries.len() implies cong(
            #[trigger] views(result@)[k],
            dft(entries, w, k) * s,
        ) by {
            assert(views(result@)[k] == values@[k]@);
            lemma_reduce(dft(entries, w, k));
            lemma_cong_mul(raw[k]@, dft(entries, w, k), s, s);
            lemma_reduce(raw[k]@ * s);
        }
        lemma_kernel(*domain, entries, views(result@));
    }
    result
}

/// Transforms a kernel in the first source group, divided by its size.
pub fn transform_kernel_g1(domain: &Radix2Domain, kernel: Vec<G1>) -> (result: Vec<G1Point>)
    requires
        domain.wf(),
        kernel@.len() == domain.spec_size(),
    ensures
        result@.len() == kernel@.len(),
        kernel_entries(*domain, views(result@)) == views(kernel@),
{
    let ghost entries = views(kernel@);
    let mut values = kernel;
    domain.fft(&mut values);
    let ghost raw = values@;
    scale(&mut values, domain.size_inverse());
    let result = batch_normalize_g1(&values);
    proof {
        assert(views(result@).len() == views(values@).len());
        let w = size_root(domain.spec_size());
        let s = domain.spec_size_inverse();
        assert forall|i: int| 0 <= i < entries.len() implies 0 <= #[trigger] entries[i]
            < order() by {
            kernel@[i].lemma_range();
        }
        assert forall|k: int| 0 <= k < entries.len() implies cong(
            #[trigger] views(result@)[k],
            dft(entries, w, k) * s,
        ) by {
            assert(views(result@)[k] == values@[k]@);
            lemma_reduce(dft(entries, w, k));
            lemma_cong_mul(raw[k]@, dft(entries, w, k), s, s);
            lemma_reduce(raw[k]@ * s);
        }
        lemma_kernel(*domain, entries, views(result@));
    }
    result
}

/// The cross terms of points of the first source group with a transformed kernel
/// of the second: for every place, the sum of the pairings of the points with the
/// kernel's entries.
pub fn cross_terms(domain: &Radix2Domain, values: &Vec<G1>, kernel: &Vec<G2Point>) -> (result: Vec<
    GtElement,
>)
    requires
        domain.wf(),
        kernel@.len() == domain.spec_size(),
        values@.len() <= kernel@.len(),
    ensures
        result@.len() == kernel@.len(),
        forall|i: int|
            0 <= i < kernel@.len() ==> (#[trigger] result@[i])@ == cross_term(
                views(values@),
                kernel_entries(*domain, views(kernel@)),
                i,
            ) % order(),
{
    let size = kernel.len();
    let ghost m = size as int;
    let ghost v = views(values@);
    let ghost t = views(kernel@);
    let ghost w = size_root(m);
    let ghost wi = domain.inverse_root();
    let ghost long = padded(v, m);
    let mut transformed = pad(values, size);
    domain.fft(&mut transformed);
    let affine = batch_normalize_g1(&transformed);
    assert(views(affine@).len() == views(transformed@).len());
    let mut products: Vec<GtElement> = Vec::new();
    while products.len() < size
        invariant
            size == m == kernel@.len() == affine@.len() == transformed@.len(),
            t == views(kernel@),
            views(affine@) == views(transformed@),
            forall|k: int|
                0 <= k < m ==> (#[trigger] transformed@[k])@ == dft(long, w, k) % order(),
            products@.len() <= size,
            long.len() == m,
            forall|k: int|
                0 <= k < products@.len() ==> cong(
                    (#[trigger] products@[k])@,
                    modulated(long, t, w)[k],
                ),
        decreases size - products@.len(),
    {
        let k = products.len();
        let product = pair(affine[k], kernel[k]);
        proof {
            assert(views(affine@)[k as int] == transformed@[k as int]@);
            lemma_reduce(dft(long, w, k as int));
            lemma_cong_mul(affine@[k as int]@, dft(long, w, k as int), t[k as int], t[k as int]);
            lemma_reduce(affine@[k as int]@ * kernel@[k as int]@);
        }
        products.push(product);
    }
    let ghost middle = views(products@);
    domain.ifft_gt_unscaled(&mut products);
    proof {
        domain.lemma_domain();
        assert forall|i: int| 0 <= i < m implies (#[trigger] products@[i])@ == cross_term(
            v,
            kernel_entries(*domain, t),
            i,
        ) % order() by {
            lemma_dft_cong(middle, modulated(long, t, w), wi, i);
            lemma_middle_product(long, t, w, wi, i);
            lemma_padded_convolution(v, *domain, t, i);
        }
    }
    products
}

/// [`cross_terms`] with the source groups exchanged.
pub fn cross_terms_swapped(domain: &Radix2Domain, values: &Vec<G2>, kernel: &Vec<G1Point>) -> (result: Vec<
    GtElement,
>)
    requires
        domain.wf(),
        kernel@.len() == domain.spec_size(),
        values@.len() <= kernel@.len(),
    ensures
        result@.len() == kernel@.len(),
        forall|i: int|
            0 <= i < kernel@.len() ==> (#[trigger] result@[i])@ == cross_term(
                views(values@),
                kernel_entries(*domain, views(kernel@)),
                i,
            ) % order(),
{
    let size = kernel.len();
    let ghost m = size as int;
    let ghost v = views(values@);
    let ghost t = views(kernel@);
    let ghost w = size_root(m);
    let ghost wi = domain.inverse_root();
    let ghost long = padded(v, m);
    let mut transformed = pad(values, size);
    domain.fft(&mut transformed);
    let affine = batch_normalize_g2(&transformed);
    assert(views(affine@).len() == views(transformed@).len());
    let mut products: Vec<GtElement> = Vec::new();
    while products.len() < size
        invariant
            size == m == kernel@.len() == affine@.len() == transformed@.len(),
            t == views(kernel@),
            views(affine@) == views(transformed@),
            forall|k: int|
                0 <= k < m ==> (#[trigger] transformed@[k])@ == dft(long, w, k) % order(),
            products@.len() <= size,
            long.len() == m,
            forall|k: int|
                0 <= k < products@.len() ==> cong(
                    (#[trigger] products@[k])@,
                    modulated(long, t, w)[k],
                ),
        decreases size - products@.len(),
    {
        let k = products.len();
        let product = pair(kernel[k], affine[k]);
        proof {
            assert(views(affine@)[k as int] == transformed@[k as int]@);
            lemma_reduce(dft(long, w, k as int));
            lemma_cong_mul(affine@[k as int]@, dft(long, w, k as int), t[k as int], t[k as int]);
            lemma_reduce(affine@[k as int]@ * kernel@[k as int]@);
            vstd::arithmetic::mul::lemma_mul_is_commutative(
                affine@[k as int]@,
                kernel@[k as int]@,
            );
        }
        products.push(product);
    }
    let ghost middle = views(products@);
    domain.ifft_gt_unscaled(&mut products);
    proof {
        domain.lemma_domain();
        assert forall|i: int| 0 <= i < m implies (#[trigger] products@[i])@ == cross_term(
            v,
            kernel_entries(*domain, t),
            i,
        ) % order() by {
            lemma_dft_cong(middle, modulated(long, t, w), wi, i);
            lemma_middle_product(long, t, w, wi, i);
            lemma_padded_convolution(v, *domain, t, i);
        }
    }
    products
}

} // verus!
