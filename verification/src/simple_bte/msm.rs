//! Sums of products with small scalars, by buckets.
use vstd::arithmetic::div_mod::{
    lemma_div_denominator, lemma_fundamental_div_mod, lemma_fundamental_div_mod_converse,
    lemma_hoist_over_denominator, lemma_mod_multiples_vanish,
};
use vstd::arithmetic::power2::{
    lemma2_to64, lemma2_to64_rest, lemma_pow2_adds, lemma_pow2_pos, lemma_pow2_strictly_increases,
    lemma_pow2_unfold, pow2,
};
use vstd::prelude::*;

use crate::algebra::residue::{
    cong, lemma_cong_add, lemma_cong_mul, lemma_one, lemma_reduce, lemma_reduced, order,
};
use crate::algebra::sums::{
    dot, items, lemma_sum_add, lemma_sum_cong, lemma_sum_ext, lemma_sum_first, lemma_sum_scale,
    lemma_sum_single, lemma_sum_zero, products, sum,
};
use crate::curve::views;
use crate::numbers::limbs_value;
use crate::simple_bte::ark::Summand;

verus! {

/// How many binary digits a number has.
pub open spec fn bit_length(a: int) -> int
    decreases a,
{
    if a <= 0 {
        0
    } else {
        1 + bit_length(a / 2)
    }
}

/// A number below `2^n` has at most `n` digits.
proof fn lemma_bit_length(a: int, n: nat)
    requires
        0 <= a < pow2(n),
    ensures
        0 <= bit_length(a) <= n,
    decreases n,
{
    lemma2_to64();
    if a > 0 {
        lemma_pow2_unfold(n);
        lemma_bit_length(a / 2, (n - 1) as nat);
    }
}

/// About the natural logarithm: 69 hundredths of the number of binary digits.
pub fn ln_without_floats(a: usize) -> (result: usize)
    ensures
        result == bit_length(a as int) * 69 / 100,
        result <= 44,
{
    let mut rest: usize = a;
    let mut digits: usize = 0;
    proof {
        lemma2_to64_rest();
        lemma_bit_length(a as int, 64);
    }
    while rest > 0
        invariant
            digits + bit_length(rest as int) == bit_length(a as int),
            0 <= bit_length(rest as int),
            bit_length(a as int) <= 64,
        decreases rest,
    {
        proof {
            lemma2_to64_rest();
            lemma_bit_length(rest as int / 2, 64);
        }
        rest = rest / 2;
        digits = digits + 1;
    }
    digits * 69 / 100
}

/// `2^exponent`.
fn two_to(exponent: usize) -> (power: u64)
    requires
        exponent < 64,
    ensures
        power == pow2(exponent as nat),
{
    let mut power: u64 = 1;
    let mut done: usize = 0;
    proof {
        lemma2_to64();
    }
    while done < exponent
        invariant
            done <= exponent < 64,
            power == pow2(done as nat),
        decreases exponent - done,
    {
        proof {
            lemma_pow2_unfold((done + 1) as nat);
            lemma2_to64_rest();
            if done + 1 < 64 {
                lemma_pow2_strictly_increases((done + 1) as nat, 64);
            }
        }
        power = power * 2;
        done = done + 1;
    }
    power
}

/// The limbs from `limb` on, of which the first two are `low` and `high`.
proof fn lemma_upper_limbs(l: Seq<u64>, limb: int, low: int, high: int) -> (rest: int)
    requires
        0 <= limb < 4,
        low == l[limb],
        high == (if limb < 3 {
            l[limb + 1] as int
        } else {
            0
        }),
    ensures
        limbs_value(l) / (pow2((64 * limb) as nat) as int) == low + 0x1_0000_0000_0000_0000 * high
            + (0x1_0000_0000_0000_0000 * 0x1_0000_0000_0000_0000) * rest,
        rest >= 0,
{
    lemma2_to64();
    lemma2_to64_rest();
    lemma_pow2_adds(64, 64);
    lemma_pow2_adds(128, 64);
    reveal(limbs_value);
    let w = 0x1_0000_0000_0000_0000int;
    let v = limbs_value(l);
    if limb == 0 {
        let rest = l[2] + w * l[3];
        lemma_fundamental_div_mod_converse(v, 1, v, 0);
        rest
    } else if limb == 1 {
        let q = l[1] + w * (l[2] + w * l[3]);
        lemma_fundamental_div_mod_converse(v, w, q, l[0] as int);
        l[3] as int
    } else if limb == 2 {
        let q = l[2] + w * l[3];
        lemma_fundamental_div_mod_converse(v, w * w, q, l[0] + w * l[1]);
        0
    } else {
        lemma_fundamental_div_mod_converse(
            v,
            w * w * w,
            l[3] as int,
            l[0] + w * (l[1] + w * l[2]),
        );
        0
    }
}

/// A number over `2^e`, cut off at `2^c`, does not see what lies above `2^(e + c)`.
proof fn lemma_cut(x: int, r: int, total: nat, e: nat, c: nat)
    requires
        e + c <= total,
        x >= 0,
        r >= 0,
    ensures
        ((x + pow2(total) * r) / (pow2(e) as int)) % (pow2(c) as int) == (x / (pow2(e) as int)) % (
        pow2(c) as int),
{
    let (pe, pc) = (pow2(e) as int, pow2(c) as int);
    let mid = pow2((total - e - c) as nat) as int;
    lemma_pow2_pos(e);
    lemma_pow2_pos(c);
    lemma_pow2_adds(c, (total - e - c) as nat);
    lemma_pow2_adds(e, (total - e) as nat);
    let j = (pc * mid) * r;
    lemma_hoist_over_denominator(x, j, pow2(e));
    assert(pow2(total) * r == j * pe) by (nonlinear_arith)
        requires
            pow2(total) == pe * (pc * mid),
            j == (pc * mid) * r,
    ;
    assert(j == pc * (mid * r)) by (nonlinear_arith)
        requires
            j == (pc * mid) * r,
    ;
    lemma_mod_multiples_vanish(mid * r, x / pe, pc);
}

/// The digit of a scalar at bit `w`, in a base of `c` bits.
pub open spec fn digit(limbs: Seq<u64>, w: int, c: int) -> int {
    (limbs_value(limbs) / (pow2(w as nat) as int)) % (pow2(c as nat) as int)
}

proof fn lemma_limbs_bound(l: Seq<u64>)
    ensures
        0 <= limbs_value(l) < pow2(256),
{
    lemma2_to64();
    lemma2_to64_rest();
    lemma_pow2_adds(64, 64);
    lemma_pow2_adds(128, 128);
    reveal(limbs_value);
    let wide = 0x1_0000_0000_0000_0000int * 0x1_0000_0000_0000_0000;
    assert(pow2(128) == wide);
    assert(pow2(256) == wide * wide) by (nonlinear_arith)
        requires
            pow2(256) == pow2(128) * pow2(128),
            pow2(128) == wide,
    ;
    assert(l[2] + 0x1_0000_0000_0000_0000 * l[3] < wide);
}

/// The digit of a scalar at bit `w`, in a base of `c` bits.
fn digit_at(limbs: &[u64; 4], w: usize, c: usize) -> (result: u64)
    requires
        1 <= c < 64,
    ensures
        result == digit(limbs@, w as int, c as int),
        result < pow2(c as nat),
{
    proof {
        lemma_pow2_pos(c as nat);
        lemma_pow2_pos(w as nat);
        lemma_limbs_bound(limbs@);
    }
    if w >= 256 {
        proof {
            if w > 256 {
                lemma_pow2_strictly_increases(256, w as nat);
            }
            let v = limbs_value(limbs@);
            lemma_fundamental_div_mod_converse(v, pow2(w as nat) as int, 0, v);
            lemma_fundamental_div_mod_converse(0, pow2(c as nat) as int, 0, 0);
        }
        return 0;
    }
    let limb: usize = w / 64;
    let offset: usize = w % 64;
    let low: u64 = limbs[limb];
    let high: u64 = if limb < 3 {
        limbs[limb + 1]
    } else {
        0
    };
    let combined: u128 = (low as u128) + (high as u128) * 0x1_0000_0000_0000_0000;
    let divisor: u64 = two_to(offset);
    let modulus: u64 = two_to(c);
    proof {
        let rest = lemma_upper_limbs(limbs@, limb as int, low as int, high as int);
        lemma2_to64_rest();
        lemma_pow2_adds(64, 64);
        lemma_pow2_pos((64 * limb) as nat);
        lemma_pow2_pos(offset as nat);
        lemma_pow2_adds((64 * limb) as nat, offset as nat);
        lemma_div_denominator(
            limbs_value(limbs@),
            pow2((64 * limb) as nat) as int,
            pow2(offset as nat) as int,
        );
        lemma_cut(combined as int, rest, 128, offset as nat, c as nat);
    }
    ((combined / (divisor as u128)) % (modulus as u128)) as u64
}

/// How wide the windows of a sum of so many products are.
pub open spec fn window_width(size: int) -> int {
    if size < 32 {
        3
    } else {
        bit_length(size) * 69 / 100 + 2
    }
}

/// How many windows cover so many bits.
pub open spec fn window_count(width: int, bits: int) -> int {
    if bits <= 0 {
        0
    } else {
        (bits - 1) / width + 1
    }
}

/// The bits that are looked at: the windows that cover `bits`.
pub open spec fn covered_bits(size: int, bits: int) -> int {
    window_width(size) * window_count(window_width(size), bits)
}

/// The number that the limbs at a place stand for.
pub open spec fn scalar_at(scalars: Seq<[u64; 4]>, i: int) -> int {
    limbs_value(scalars[i]@)
}

pub open spec fn small_terms(bases: Seq<int>, scalars: Seq<[u64; 4]>, covered: int) -> spec_fn(
    int,
) -> int {
    |i: int| bases[i] * (limbs_value(scalars[i]@) % (pow2(covered as nat) as int))
}

/// The sum of products of as many bases and scalars as there are of both, where a scalar
/// counts up to the windows that cover `bits`.
pub open spec fn small_sum(bases: Seq<int>, scalars: Seq<[u64; 4]>, bits: int) -> int {
    let size = if bases.len() <= scalars.len() {
        bases.len() as int
    } else {
        scalars.len() as int
    };
    sum(small_terms(bases, scalars, covered_bits(size, bits)), 0, size)
}

/// What is left of a product above bit `below`.
spec fn upper_terms(
    bases: Seq<int>,
    scalars: Seq<[u64; 4]>,
    covered: int,
    below: int,
) -> spec_fn(int) -> int {
    |i: int|
        bases[i] * ((limbs_value(scalars[i]@) % (pow2(covered as nat) as int)) / (pow2(
            below as nat,
        ) as int))
}

spec fn digit_terms(bases: Seq<int>, scalars: Seq<[u64; 4]>, w: int, c: int) -> spec_fn(
    int,
) -> int {
    |i: int| bases[i] * digit(scalars[i]@, w, c)
}

/// One window more: what is left above bit `w` is `2^c` times what is left above bit `w + c`,
/// and the digits at `w`.
proof fn lemma_window(v: int, covered: nat, w: nat, c: nat)
    requires
        v >= 0,
        w + c <= covered,
    ensures
        ({
            let t = v % (pow2(covered) as int);
            t / (pow2(w) as int) == (pow2(c) as int) * (t / (pow2(w + c) as int)) + (v / (pow2(
                w,
            ) as int)) % (pow2(c) as int)
        }),
{
    let whole = pow2(covered) as int;
    let t = v % whole;
    lemma_pow2_pos(covered);
    lemma_pow2_pos(w);
    lemma_pow2_pos(c);
    lemma_fundamental_div_mod(v, whole);
    vstd::arithmetic::div_mod::lemma_mod_bound(v, whole);
    vstd::arithmetic::div_mod::lemma_div_pos_is_pos(v, whole);
    lemma_cut(t, v / whole, covered, w, c);
    assert(v == t + pow2(covered) * (v / whole));
    lemma_pow2_adds(w, c);
    lemma_div_denominator(t, pow2(w) as int, pow2(c) as int);
    lemma_fundamental_div_mod(t / (pow2(w) as int), pow2(c) as int);
}

/// The sums that [`lemma_window`] is about.
proof fn lemma_window_sum(
    bases: Seq<int>,
    scalars: Seq<[u64; 4]>,
    covered: int,
    w: int,
    c: int,
    size: int,
)
    requires
        0 <= w,
        0 <= c,
        w + c <= covered,
        0 <= size <= scalars.len(),
    ensures
        sum(upper_terms(bases, scalars, covered, w), 0, size) == pow2(c as nat) * sum(
            upper_terms(bases, scalars, covered, w + c),
            0,
            size,
        ) + sum(digit_terms(bases, scalars, w, c), 0, size),
{
    let p = pow2(c as nat) as int;
    let f = upper_terms(bases, scalars, covered, w);
    let g = upper_terms(bases, scalars, covered, w + c);
    let d = digit_terms(bases, scalars, w, c);
    let scaled = |i: int| p * g(i);
    assert forall|i: int| 0 <= i < size implies #[trigger] f(i) == scaled(i) + d(i) by {
        lemma_limbs_bound(scalars[i]@);
        let v = limbs_value(scalars[i]@);
        lemma_window(v, covered as nat, w as nat, c as nat);
        let t = v % (pow2(covered as nat) as int);
        let (b, y, z) = (bases[i], t / (pow2((w + c) as nat) as int), digit(scalars[i]@, w, c));
        assert(b * (p * y + z) == p * (b * y) + b * z) by (nonlinear_arith);
    }
    lemma_sum_scale(p, g, scaled, 0, size);
    lemma_sum_add(scaled, d, f, 0, size);
}

/// The buckets, each times its number.
spec fn bucket_terms(buckets: Seq<int>, from: int) -> spec_fn(int) -> int {
    |b: int| (b - from + 1) * buckets[b]
}

/// Putting an element into bucket `place` adds it so many times.
proof fn lemma_bucket(buckets: Seq<int>, after: Seq<int>, place: int, base: int)
    requires
        0 <= place < buckets.len(),
        after.len() == buckets.len(),
        cong(after[place], buckets[place] + base),
        forall|b: int| 0 <= b < buckets.len() && b != place ==> #[trigger] after[b] == buckets[b],
    ensures
        cong(
            sum(bucket_terms(after, 0), 0, after.len() as int),
            sum(bucket_terms(buckets, 0), 0, buckets.len() as int) + (place + 1) * base,
        ),
{
    let n = buckets.len() as int;
    let f = bucket_terms(after, 0);
    let g = bucket_terms(buckets, 0);
    let extra = |b: int| if b == place { (place + 1) * base } else { 0 };
    let target = |b: int| g(b) + extra(b);
    assert forall|b: int| 0 <= b < n implies cong(#[trigger] f(b), target(b)) by {
        if b == place {
            let (x, y) = (buckets[place], place + 1);
            lemma_cong_mul(y, y, after[place], x + base);
            assert(y * (x + base) == y * x + y * base) by (nonlinear_arith);
        }
    }
    lemma_sum_cong(f, target, 0, n);
    lemma_sum_add(g, extra, target, 0, n);
    lemma_sum_single(extra, 0, n, place);
}

/// Neutral elements.
fn empty_buckets<G: Summand>(count: u64) -> (buckets: Vec<G>)
    ensures
        buckets@.len() == count,
        forall|b: int| 0 <= b < count ==> (#[trigger] buckets@[b])@ == 0,
{
    let mut buckets: Vec<G> = Vec::new();
    let mut made: u64 = 0;
    while made < count
        invariant
            made <= count,
            buckets@.len() == made,
            forall|b: int| 0 <= b < made ==> (#[trigger] buckets@[b])@ == 0,
        decreases count - made,
    {
        buckets.push(G::neutral());
        made = made + 1;
    }
    buckets
}

/// The sum of the buckets, each times its number, by running sums.
fn bucket_sum<G: Summand>(buckets: &Vec<G>) -> (window_sum: G)
    ensures
        cong(
            window_sum@,
            sum(bucket_terms(views(buckets@), 0), 0, buckets@.len() as int),
        ),
{
    let ghost all = views(buckets@);
    let ghost n = buckets@.len() as int;
    let mut running_sum = G::neutral();
    let mut window_sum = G::neutral();
    let mut left: usize = buckets.len();
    while left > 0
        invariant
            left <= buckets@.len(),
            n == buckets@.len(),
            all == views(buckets@),
            cong(running_sum@, sum(items(all), left as int, n)),
            cong(window_sum@, sum(bucket_terms(all, left as int), left as int, n)),
        decreases left,
    {
        left = left - 1;
        let ghost (r, s) = (running_sum@, window_sum@);
        running_sum = running_sum.joined(buckets[left]);
        proof {
            let j = left as int;
            let b = all[j];
            let tail = sum(items(all), j + 1, n);
            lemma_sum_first(items(all), j, n);
            lemma_reduce(r + b);
            lemma_cong_add(r, tail, b, b);
            let f = bucket_terms(all, j);
            let g = bucket_terms(all, j + 1);
            lemma_sum_first(f, j, n);
            assert(f(j) == 1 * b);
            assert forall|i: int| j + 1 <= i < n implies #[trigger] f(i) == g(i)
                + items(all)(i) by {
                let (x, y) = (i - j, all[i]);
                assert((x + 1) * y == x * y + y) by (nonlinear_arith);
            }
            lemma_sum_add(g, items(all), f, j + 1, n);
            lemma_cong_add(s, sum(g, j + 1, n), running_sum@, sum(items(all), j, n));
            lemma_reduce(s + running_sum@);
        }
        window_sum = window_sum.joined(running_sum);
    }
    window_sum
}

/// The sum of the elements, each times its digit at bit `w`.
fn window_sum_of<G: Summand>(
    bases: &Vec<G>,
    scalars: &Vec<[u64; 4]>,
    size: usize,
    w: usize,
    c: usize,
) -> (window_sum: G)
    requires
        1 <= c < 64,
        size <= bases@.len(),
        size <= scalars@.len(),
    ensures
        cong(
            window_sum@,
            sum(digit_terms(views(bases@), scalars@, w as int, c as int), 0, size as int),
        ),
{
    let modulus: u64 = two_to(c);
    proof {
        lemma_pow2_pos(c as nat);
    }
    let count: u64 = modulus - 1;
    let mut buckets: Vec<G> = empty_buckets(count);
    let ghost d = digit_terms(views(bases@), scalars@, w as int, c as int);
    proof {
        let f = bucket_terms(views(buckets@), 0);
        assert forall|b: int| 0 <= b < count implies #[trigger] f(b) == 0 by {
            assert((b + 1) * 0 == 0);
        }
        lemma_sum_zero(f, 0, count as int);
    }
    let mut index: usize = 0;
    while index < size
        invariant
            1 <= c < 64,
            size <= bases@.len(),
            size <= scalars@.len(),
            modulus == pow2(c as nat),
            count == modulus - 1,
            buckets@.len() == count,
            d == digit_terms(views(bases@), scalars@, w as int, c as int),
            index <= size,
            cong(
                sum(bucket_terms(views(buckets@), 0), 0, count as int),
                sum(d, 0, index as int),
            ),
        decreases size - index,
    {
        let number: u64 = digit_at(&scalars[index], w, c);
        let ghost before = views(buckets@);
        proof {
            assert(d(index as int) == bases@[index as int]@ * number);
        }
        if number != 0 {
            let length = buckets.len();
            assert(number - 1 < length);
            let place: usize = (number - 1) as usize;
            let joined = buckets[place].joined(bases[index]);
            proof {
                lemma_reduce(buckets@[place as int]@ + bases@[index as int]@);
            }
            buckets.set(place, joined);
            proof {
                let base = bases@[index as int]@;
                let after = views(buckets@);
                lemma_bucket(before, after, place as int, base);
                assert((place + 1) * base == base * number) by (nonlinear_arith)
                    requires
                        place + 1 == number,
                ;
                lemma_cong_add(
                    sum(bucket_terms(before, 0), 0, count as int),
                    sum(d, 0, index as int),
                    (place + 1) * base,
                    d(index as int),
                );
            }
        } else {
            assert(bases@[index as int]@ * 0 == 0);
        }
        index = index + 1;
    }
    bucket_sum(&buckets)
}

/// `2^c` times an element, by doubling.
fn doubled<G: Summand>(element: G, c: usize) -> (result: G)
    ensures
        cong(result@, pow2(c as nat) * element@),
{
    let mut result = element;
    let mut done: usize = 0;
    proof {
        lemma2_to64();
    }
    while done < c
        invariant
            done <= c,
            cong(result@, pow2(done as nat) * element@),
        decreases c - done,
    {
        proof {
            let p = pow2(done as nat) as int;
            lemma_pow2_unfold((done + 1) as nat);
            lemma_reduce(result@ + result@);
            lemma_cong_add(result@, p * element@, result@, p * element@);
            assert(p * element@ + p * element@ == (2 * p) * element@) by (nonlinear_arith);
        }
        result = result.joined(result);
        done = done + 1;
    }
    result
}

/// The sum of the elements, each times its scalar. Where the scalars are known to be small,
/// fewer bits of them need be looked at.
pub fn msm_small<G: Summand>(
    bases: &Vec<G>,
    scalars: &Vec<[u64; 4]>,
    scalar_bits: usize,
) -> (total: G)
    ensures
        total@ == small_sum(views(bases@), scalars@, scalar_bits as int) % order(),
{
    let size: usize = if bases.len() <= scalars.len() {
        bases.len()
    } else {
        scalars.len()
    };
    proof {
        lemma_one();
        lemma2_to64();
    }
    if size == 0 || scalar_bits == 0 {
        proof {
            let terms = small_terms(views(bases@), scalars@, 0);
            assert(views(bases@).len() == bases@.len());
            if size > 0 {
                let c = covered_bits(size as int, 0);
                assert(c == 0) by {
                    assert(window_width(size as int) * 0 == 0);
                }
                assert forall|i: int| 0 <= i < size implies #[trigger] terms(i) == 0 by {
                    let v = limbs_value(scalars@[i]@);
                    assert(v % 1 == 0);
                    assert(views(bases@)[i] * 0 == 0);
                }
                lemma_sum_zero(terms, 0, size as int);
            }
        }
        return G::neutral();
    }
    let c: usize = if size < 32 {
        3
    } else {
        ln_without_floats(size) + 2
    };
    let ghost all = views(bases@);
    let windows: usize = (scalar_bits - 1) / c + 1;
    let ghost covered = c * windows;
    proof {
        assert(all.len() == bases@.len());
        assert(bit_length(size as int) >= 0) by {
            lemma2_to64_rest();
            lemma_bit_length(size as int, 64);
        }
        assert(covered == covered_bits(size as int, scalar_bits as int));
        let f = upper_terms(all, scalars@, covered, covered);
        assert forall|i: int| 0 <= i < size implies #[trigger] f(i) == 0 by {
            let p = pow2(covered as nat) as int;
            lemma_pow2_pos(covered as nat);
            let t = limbs_value(scalars@[i]@) % p;
            vstd::arithmetic::div_mod::lemma_mod_bound(limbs_value(scalars@[i]@), p);
            lemma_fundamental_div_mod_converse(t, p, 0, t);
            assert(all[i] * 0 == 0);
        }
        lemma_sum_zero(f, 0, size as int);
    }
    let mut total = G::neutral();
    let mut left: usize = windows;
    while left > 0
        invariant
            1 <= c < 64,
            1 <= scalar_bits,
            windows == (scalar_bits - 1) / (c as int) + 1,
            covered == c * windows,
            size <= bases@.len(),
            size <= scalars@.len(),
            all == views(bases@),
            left <= windows,
            cong(total@, sum(upper_terms(all, scalars@, covered, c * left), 0, size as int)),
        decreases left,
    {
        let ghost above = sum(upper_terms(all, scalars@, covered, c * left), 0, size as int);
        left = left - 1;
        proof {
            lemma_window_start(scalar_bits as int, c as int, left as int, windows as int);
        }
        let w_start: usize = left * c;
        let shifted = doubled(total, c);
        let window_sum = window_sum_of(bases, scalars, size, w_start, c);
        proof {
            let p = pow2(c as nat) as int;
            lemma_window_sum(all, scalars@, covered, w_start as int, c as int, size as int);
            assert(c * left == left * c) by (nonlinear_arith);
            assert(left * c + c == c * (left + 1)) by (nonlinear_arith);
            lemma_cong_mul(p, p, total@, above);
            let digits = sum(
                digit_terms(all, scalars@, w_start as int, c as int),
                0,
                size as int,
            );
            lemma_cong_add(shifted@, p * above, window_sum@, digits);
            lemma_reduce(shifted@ + window_sum@);
        }
        total = shifted.joined(window_sum);
    }
    proof {
        let f = upper_terms(all, scalars@, covered, 0);
        let g = small_terms(all, scalars@, covered);
        assert(c * 0 == 0);
        assert forall|i: int| 0 <= i < size implies #[trigger] f(i) == g(i) by {
            let t = limbs_value(scalars@[i]@) % (pow2(covered as nat) as int);
            assert(t / 1 == t);
        }
        lemma_sum_ext(f, g, 0, size as int);
        total.lemma_summand();
        lemma_reduced(total@);
    }
    total
}

/// A window starts below the bits that are to be covered, and ends within the cover.
proof fn lemma_window_start(bits: int, c: int, k: int, windows: int)
    requires
        1 <= bits,
        1 <= c,
        windows == (bits - 1) / c + 1,
        0 <= k < windows,
    ensures
        0 <= k * c <= bits - 1,
        k * c + c <= c * windows,
{
    lemma_fundamental_div_mod(bits - 1, c);
    vstd::arithmetic::div_mod::lemma_mod_bound(bits - 1, c);
    let q = (bits - 1) / c;
    assert(0 <= k * c <= q * c) by (nonlinear_arith)
        requires
            0 <= k <= q,
            c >= 1,
    ;
    assert(q * c == c * q) by (nonlinear_arith);
    assert(c * (q + 1) == c * q + c) by (nonlinear_arith);
}

/// Scalars below `2^bits` count in full.
pub proof fn lemma_small_scalars(
    bases: Seq<int>,
    scalars: Seq<[u64; 4]>,
    values: Seq<int>,
    bits: int,
)
    requires
        bases.len() == scalars.len() == values.len(),
        1 <= bits,
        forall|i: int|
            0 <= i < scalars.len() ==> #[trigger] scalar_at(scalars, i) == values[i] && values[i]
                < pow2(bits as nat),
    ensures
        small_sum(bases, scalars, bits) == dot(bases, values),
{
    let n = bases.len() as int;
    let width = window_width(n);
    assert(bit_length(n) >= 0) by {
        lemma_some_length(n);
    }
    let covered = covered_bits(n, bits);
    lemma_fundamental_div_mod(bits - 1, width);
    vstd::arithmetic::div_mod::lemma_mod_bound(bits - 1, width);
    let q = (bits - 1) / width;
    assert(width * (q + 1) == width * q + width) by (nonlinear_arith);
    assert(covered >= bits);
    let f = small_terms(bases, scalars, covered);
    let g = products(bases, values);
    assert forall|i: int| 0 <= i < n implies #[trigger] f(i) == g(i) by {
        let v = limbs_value(scalars[i]@);
        assert(scalar_at(scalars, i) == values[i]);
        lemma_limbs_bound(scalars[i]@);
        if bits < covered {
            lemma_pow2_strictly_increases(bits as nat, covered as nat);
        }
        vstd::arithmetic::div_mod::lemma_small_mod(v as nat, pow2(covered as nat));
    }
    lemma_sum_ext(f, g, 0, n);
}

proof fn lemma_some_length(a: int)
    ensures
        bit_length(a) >= 0,
    decreases a,
{
    if a > 0 {
        lemma_some_length(a / 2);
    }
}

} // verus!
