//! Radix-2 transforms of scalars and of elements of the three groups.
//!
//! The butterfly is the usual one of Cooley and Tukey; where the coefficients are
//! group elements, a multiplication by a twiddle factor multiplies by a scalar.
use vstd::arithmetic::power::{lemma_pow0, lemma_pow1, lemma_pow_adds, lemma_pow_multiplies, pow};
use vstd::arithmetic::power2::{
    lemma2_to64, lemma2_to64_rest, lemma_pow2_pos, lemma_pow2_strictly_increases, lemma_pow2_unfold,
    pow2,
};
use vstd::prelude::*;

use crate::algebra::dft::{
    block, dft, dft_all, dft_terms, lemma_block_full, lemma_block_step, lemma_dft_cong,
    lemma_dft_inverse, lemma_reversed_bound, reversed,
};
use crate::algebra::residue::{
    cong, lemma_cong_add, lemma_cong_mul, lemma_cong_pow, lemma_cong_sub, lemma_inv_unique,
    lemma_one, lemma_order, lemma_reduce, lemma_reduced, order,
};
use crate::algebra::roots::{
    domain_root, is_power_of_two, is_root, lemma_domain_root, lemma_root_inverse,
    lemma_root_of_unity,
};
use crate::algebra::sums::lemma_sum_scale;
use crate::curve::{root_of_unity, views, Element, Fr, GtElement};

verus! {

/// The exponent of a power of two.
pub fn exact_log(size: usize) -> (log: Option<u32>)
    ensures
        log is Some <==> is_power_of_two(size as int),
        log matches Some(log) ==> size == pow2(log as nat) && log < usize::BITS,
{
    let mut power: usize = 1;
    let mut log: u32 = 0;
    proof {
        lemma2_to64();
        lemma2_to64_rest();
    }
    while power < size
        invariant
            power == pow2(log as nat),
            power >= 1,
            log < usize::BITS,
            log == 0 || pow2((log - 1) as nat) < size,
        decreases usize::MAX - power,
    {
        proof {
            lemma_pow2_unfold((log + 1) as nat);
        }
        if power > usize::MAX / 2 {
            proof {
                assert forall|e: nat| size != pow2(e) by {
                    if e > log {
                        if e > log + 1 {
                            lemma_pow2_strictly_increases((log + 1) as nat, e);
                        }
                    } else if e < log {
                        lemma_pow2_strictly_increases(e, log as nat);
                    }
                }
            }
            return None;
        }
        proof {
            if log + 1 >= usize::BITS {
                lemma2_to64();
                lemma2_to64_rest();
                if log + 1 > usize::BITS {
                    lemma_pow2_strictly_increases(usize::BITS as nat, (log + 1) as nat);
                }
            }
        }
        power = power * 2;
        log = log + 1;
    }
    if power == size {
        Some(log)
    } else {
        proof {
            assert forall|e: nat| size != pow2(e) by {
                if e > log {
                    lemma_pow2_strictly_increases(log as nat, e);
                } else if e < log {
                    if e < log - 1 {
                        lemma_pow2_strictly_increases(e, (log - 1) as nat);
                    }
                }
            }
        }
        None
    }
}

/// Whether `power` is the least power of two that is at least `size`.
pub open spec fn is_least_power(power: int, size: int) -> bool {
    is_power_of_two(power) && power >= size && (power == 1 || power < 2 * size)
}

/// The least power of two that is at least `size`, where a `usize` can hold it.
pub fn next_power_of_two(size: usize) -> (result: Option<usize>)
    ensures
        result matches Some(power) ==> is_least_power(power as int, size as int),
        result is None ==> size > usize::MAX / 2,
        result is None ==> forall|power: int|
            #[trigger] is_power_of_two(power) && power >= size ==> power > usize::MAX,
{
    let mut power: usize = 1;
    let ghost mut log: nat = 0;
    proof {
        lemma2_to64();
    }
    while power < size
        invariant
            power == pow2(log),
            power == 1 || power < 2 * size,
            power >= 1,
        decreases usize::MAX - power,
    {
        if power > usize::MAX / 2 {
            proof {
                assert forall|larger: int| #[trigger]
                    is_power_of_two(larger) && larger >= size implies larger > usize::MAX by {
                    let e = choose|e: nat| larger == pow2(e);
                    if e < log {
                        lemma_pow2_strictly_increases(e, log);
                    }
                    lemma_pow2_unfold(log + 1);
                    if e > log + 1 {
                        lemma_pow2_strictly_increases(log + 1, e);
                    }
                }
            }
            return None;
        }
        proof {
            lemma_pow2_unfold(log + 1);
            log = log + 1;
        }
        power = power * 2;
    }
    Some(power)
}

/// `base` to the power `exponent`, by squaring.
pub fn scalar_pow(base: Fr, exponent: u64) -> (result: Fr)
    ensures
        result@ == pow(base@, exponent as nat) % order(),
{
    let mut result = Fr::one();
    let mut square = base;
    let mut rest: u64 = exponent;
    proof {
        lemma_one();
        assert(1 * pow(base@, exponent as nat) == pow(base@, exponent as nat));
    }
    while rest != 0
        invariant
            cong(result@ * pow(square@, rest as nat), pow(base@, exponent as nat)),
        decreases rest,
    {
        let ghost (r, s, e) = (result@, square@, rest as nat);
        let ghost h = pow(s * s, (rest / 2) as nat);
        proof {
            lemma_pow1(s);
            lemma_pow_adds(s, 1, 1);
            lemma_pow_multiplies(s, 2, (rest / 2) as nat);
            if rest % 2 == 1 {
                lemma_pow_adds(s, 1, (2 * (rest / 2)) as nat);
            }
            lemma_reduce(r * s);
            lemma_reduce(s * s);
        }
        if rest % 2 == 1 {
            result = result.times(square);
        }
        square = square.times(square);
        rest = rest / 2;
        proof {
            lemma_cong_pow(square@, s * s, rest as nat);
            let p = pow(square@, rest as nat);
            if e % 2 == 1 {
                lemma_cong_mul(result@, r * s, p, h);
                assert((r * s) * h == r * (s * h)) by (nonlinear_arith);
            } else {
                lemma_cong_mul(r, r, p, h);
            }
        }
    }
    proof {
        lemma_pow0(square@);
        assert(result@ * 1 == result@);
        result.lemma_range();
        lemma_reduced(result@);
    }
    result
}

/// Whether `a` holds, in blocks of `len`, the transforms of the items of `v` that
/// are `count` apart, where `count` blocks are numbered with their bits reversed.
spec fn stage(v: Seq<int>, a: Seq<int>, w: int, bits: nat, len: int) -> bool {
    forall|b: int, k: int|
        0 <= b < pow2(bits) && 0 <= k < len ==> #[trigger] cong(
            a[b * len + k],
            block(v, w, pow2(bits) as int, len, reversed(bits, b), k),
        )
}

/// Puts every item at the place whose number has the bits in reverse.
fn bit_reverse<E: Element>(values: &mut Vec<E>, bits: u32)
    requires
        old(values)@.len() == pow2(bits as nat),
    ensures
        final(values)@.len() == old(values)@.len(),
        forall|i: int|
            0 <= i < old(values)@.len() ==> #[trigger] final(values)@[i]
                == old(values)@[reversed(bits as nat, i)],
{
    let ghost before = values@;
    let size = values.len();
    let mut permuted: Vec<E> = Vec::new();
    let mut index: usize = 0;
    while index < size
        invariant
            index <= size == before.len() == pow2(bits as nat),
            values@ == before,
            permuted@.len() == index,
            forall|i: int|
                0 <= i < index ==> #[trigger] permuted@[i] == before[reversed(bits as nat, i)],
        decreases size - index,
    {
        let source = reverse_bits(index, size, bits);
        permuted.push(values[source]);
        index = index + 1;
    }
    *values = permuted;
}

/// The lowest `bits` bits of `index` in reverse.
fn reverse_bits(index: usize, size: usize, bits: u32) -> (result: usize)
    requires
        size == pow2(bits as nat),
    ensures
        result == reversed(bits as nat, index as int),
        result < size,
{
    let mut result: usize = 0;
    let mut rest: usize = index;
    let mut weight: usize = size;
    let ghost mut left: nat = bits as nat;
    while weight > 1
        invariant
            weight == pow2(left),
            weight <= size == pow2(bits as nat),
            result + reversed(left, rest as int) == reversed(bits as nat, index as int),
        decreases weight,
    {
        proof {
            lemma2_to64();
            assert(left > 0);
            lemma_pow2_unfold(left);
            lemma_reversed_bound(bits as nat, index as int);
            lemma_reversed_bound(left, rest as int);
            lemma_reversed_bound((left - 1) as nat, rest as int / 2);
            left = (left - 1) as nat;
        }
        weight = weight / 2;
        if rest % 2 == 1 {
            result = result + weight;
        }
        rest = rest / 2;
    }
    proof {
        lemma2_to64();
        if left > 0 {
            lemma_pow2_strictly_increases(0, left);
        }
        lemma_pow2_pos(left);
        lemma_reversed_bound(bits as nat, index as int);
    }
    result
}

/// Combines two transformed halves: the items at `start..start + half` and the
/// `half` items after them.
fn butterfly<E: Element>(values: &mut Vec<E>, start: usize, half: usize, twiddle_step: Fr)
    requires
        start + 2 * half <= old(values)@.len(),
    ensures
        final(values)@.len() == old(values)@.len(),
        forall|i: int|
            0 <= i < old(values)@.len() && !(start <= i < start + 2 * half)
                ==> #[trigger] final(values)@[i] == old(values)@[i],
        forall|k: int|
            0 <= k < half ==> {
                &&& cong(
                    (#[trigger] final(values)@[start + k])@,
                    old(values)@[start + k]@ + old(values)@[start + half + k]@ * pow(
                        twiddle_step@,
                        k as nat,
                    ),
                )
                &&& cong(
                    final(values)@[start + half + k]@,
                    old(values)@[start + k]@ - old(values)@[start + half + k]@ * pow(
                        twiddle_step@,
                        k as nat,
                    ),
                )
            },
{
    let ghost before = values@;
    let size = values.len();
    let mut twiddle = Fr::one();
    let mut k: usize = 0;
    proof {
        lemma_pow0(twiddle_step@);
    }
    while k < half
        invariant
            k <= half,
            start + 2 * half <= before.len() == values@.len() == size,
            cong(twiddle@, pow(twiddle_step@, k as nat)),
            forall|i: int|
                0 <= i < before.len() && !(start <= i < start + k) && !(start + half <= i < start
                    + half + k) ==> #[trigger] values@[i] == before[i],
            forall|j: int|
                0 <= j < k ==> {
                    &&& cong(
                        (#[trigger] values@[start + j])@,
                        before[start + j]@ + before[start + half + j]@ * pow(
                            twiddle_step@,
                            j as nat,
                        ),
                    )
                    &&& cong(
                        values@[start + half + j]@,
                        before[start + j]@ - before[start + half + j]@ * pow(
                            twiddle_step@,
                            j as nat,
                        ),
                    )
                },
        decreases half - k,
    {
        let u = values[start + k];
        let v = values[start + half + k].twiddled(twiddle);
        let ghost raw = before[start + half + k]@;
        let ghost t = pow(twiddle_step@, k as nat);
        let lower = u.plus(v);
        let upper = u.minus(v);
        proof {
            lemma_reduce(raw * twiddle@);
            lemma_cong_mul(raw, raw, twiddle@, t);
            lemma_reduce(u@ + v@);
            lemma_reduce(u@ - v@);
            lemma_cong_add(u@, u@, v@, raw * t);
            lemma_cong_sub(u@, u@, v@, raw * t);
        }
        values.set(start + k, lower);
        values.set(start + half + k, upper);
        proof {
            lemma_reduce(twiddle@ * twiddle_step@);
            lemma_cong_mul(twiddle@, t, twiddle_step@, twiddle_step@);
            lemma_pow1(twiddle_step@);
            lemma_pow_adds(twiddle_step@, k as nat, 1);
        }
        twiddle = twiddle.times(twiddle_step);
        k = k + 1;
    }
}

/// From one stage to the next, where every block has gone through a butterfly.
proof fn lemma_stage_step(
    v: Seq<int>,
    before: Seq<int>,
    after: Seq<int>,
    w: int,
    step: int,
    bits: nat,
    len: int,
)
    requires
        len >= 1,
        v.len() == pow2(bits) * (2 * len),
        is_root(w, v.len() as int),
        cong(step, pow(w, pow2(bits))),
        stage(v, before, w, bits + 1, len),
        forall|b: int, k: int|
            0 <= b < pow2(bits) && 0 <= k < len ==> {
                &&& cong(
                    #[trigger] after[b * (2 * len) + k],
                    before[b * (2 * len) + k] + before[b * (2 * len) + len + k] * pow(
                        step,
                        k as nat,
                    ),
                )
                &&& cong(
                    after[b * (2 * len) + len + k],
                    before[b * (2 * len) + k] - before[b * (2 * len) + len + k] * pow(
                        step,
                        k as nat,
                    ),
                )
            },
    ensures
        stage(v, after, w, bits, 2 * len),
{
    let stride = pow2(bits) as int;
    let n = v.len() as int;
    lemma_pow2_pos(bits);
    lemma_pow2_unfold(bits + 1);
    assert(n == 2 * stride * len) by (nonlinear_arith)
        requires
            n == stride * (2 * len),
    ;
    assert forall|b: int, k: int| 0 <= b < stride && 0 <= k < 2 * len implies #[trigger] cong(
        after[b * (2 * len) + k],
        block(v, w, stride, 2 * len, reversed(bits, b), k),
    ) by {
        let half: int = if k < len {
            0
        } else {
            1
        };
        let j = k - half * len;
        let offset = reversed(bits, b);
        assert((2 * b) % 2 == 0 && (2 * b) / 2 == b && (2 * b + 1) % 2 == 1 && (2 * b + 1) / 2
            == b);
        assert(reversed(bits + 1, 2 * b) == offset);
        assert(reversed(bits + 1, 2 * b + 1) == offset + stride);
        assert((2 * b) * len + j == b * (2 * len) + j) by (nonlinear_arith);
        assert((2 * b + 1) * len + j == b * (2 * len) + len + j) by (nonlinear_arith);
        let (x, y) = (before[b * (2 * len) + j], before[b * (2 * len) + len + j]);
        let (e, o) = (
            block(v, w, 2 * stride, len, offset, j),
            block(v, w, 2 * stride, len, offset + stride, j),
        );
        assert(cong(before[(2 * b) * len + j], block(v, w, pow2(bits
            + 1) as int, len, reversed(bits + 1, 2 * b), j)));
        assert(cong(before[(2 * b + 1) * len + j], block(v, w, pow2(bits
            + 1) as int, len, reversed(bits + 1, 2 * b + 1), j)));
        lemma_block_step(v, w, n, stride, len, offset, j, half);
        let t = pow(step, j as nat);
        let u = pow(w, (stride * j) as nat);
        lemma_cong_pow(step, pow(w, pow2(bits)), j as nat);
        lemma_pow_multiplies(w, pow2(bits), j as nat);
        assert(cong(t, u));
        lemma_cong_mul(y, o, t, u);
        lemma_cong_add(x, e, y * t, o * u);
        lemma_cong_sub(x, e, y * t, o * u);
        assert(cong(after[b * (2 * len) + j], x + y * t));
        if half == 0 {
            assert(o * (u * (1 - 2 * half)) == o * u) by (nonlinear_arith)
                requires
                    half == 0,
            ;
        } else {
            assert(o * (u * (1 - 2 * half)) == -(o * u)) by (nonlinear_arith)
                requires
                    half == 1,
            ;
        }
    }
}

/// Transforms in place with the given root of unity.
fn fft_with_generator<E: Element>(values: &mut Vec<E>, bits: u32, generator: Fr)
    requires
        old(values)@.len() == pow2(bits as nat),
        is_root(generator@, old(values)@.len() as int),
        bits <= 32,
    ensures
        final(values)@.len() == old(values)@.len(),
        forall|k: int|
            0 <= k < old(values)@.len() ==> (#[trigger] final(values)@[k])@ == dft(
                views(old(values)@),
                generator@,
                k,
            ) % order(),
{
    let ghost v = views(values@);
    let ghost w = generator@;
    let size = values.len();
    let ghost mut left: nat = bits as nat;
    bit_reverse(values, bits);
    let mut half: usize = 1;
    proof {
        lemma2_to64();
        assert forall|b: int, k: int| 0 <= b < pow2(left) && 0 <= k < 1 implies #[trigger] cong(
            views(values@)[b * 1 + k],
            block(v, w, pow2(left) as int, 1, reversed(left, b), k),
        ) by {
            lemma_reversed_bound(left, b);
            let source = reversed(left, b);
            let terms = crate::algebra::dft::block_terms(v, w, pow2(left) as int, source, k);
            lemma_pow0(w);
            assert(pow2(left) * 0 == 0 && pow2(left) * 0 * k == 0) by (nonlinear_arith);
            assert(crate::algebra::sums::sum(terms, 0, 0) == 0);
            assert(crate::algebra::sums::sum(terms, 0, 1) == terms(0));
            assert(b * 1 + k == b);
        }
    }
    while half < size
        invariant
            1 <= half <= size == values@.len() == v.len() == pow2(left) * half,
            size == pow2(bits as nat),
            bits <= 32,
            is_root(w, v.len() as int),
            w == generator@,
            stage(v, views(values@), w, left, half as int),
        decreases size - half,
    {
        proof {
            if left == 0 {
                lemma2_to64();
                assert(1 * half == half);
            }
            left = (left - 1) as nat;
            lemma_pow2_unfold((left + 1) as nat);
            lemma_pow2_pos(left);
            assert(pow2((left + 1) as nat) * half == pow2(left) * (2 * half)) by (nonlinear_arith)
                requires
                    pow2((left + 1) as nat) == 2 * pow2(left),
            ;
            assert(2 * half <= size) by (nonlinear_arith)
                requires
                    size == pow2(left) * (2 * half),
                    pow2(left) >= 1,
            ;
        }
        let blocks: usize = size / (2 * half);
        proof {
            vstd::arithmetic::div_mod::lemma_div_by_multiple(pow2(left) as int, 2 * half as int);
            assert(blocks == pow2(left));
        }
        let twiddle_step = scalar_pow(generator, blocks as u64);
        let ghost before = values@;
        let ghost step = twiddle_step@;
        proof {
            lemma2_to64();
            lemma2_to64_rest();
            if bits < 32 {
                lemma_pow2_strictly_increases(bits as nat, 32);
            }
            assert(blocks <= size) by (nonlinear_arith)
                requires
                    size == blocks * (2 * half),
                    half >= 1,
            ;
            lemma_reduce(pow(w, pow2(left)));
        }
        let mut number: usize = 0;
        let mut start: usize = 0;
        while number < blocks
            invariant
                number <= blocks == pow2(left),
                start == number * (2 * half),
                size == blocks * (2 * half),
                half >= 1,
                values@.len() == before.len() == size,
                step == twiddle_step@,
                forall|i: int| start <= i < size ==> #[trigger] values@[i] == before[i],
                forall|b: int, k: int|
                    0 <= b < number && 0 <= k < half ==> {
                        &&& cong(
                            #[trigger] views(values@)[b * (2 * half) + k],
                            views(before)[b * (2 * half) + k] + views(before)[b * (2 * half) + half
                                + k] * pow(step, k as nat),
                        )
                        &&& cong(
                            views(values@)[b * (2 * half) + half + k],
                            views(before)[b * (2 * half) + k] - views(before)[b * (2 * half) + half
                                + k] * pow(step, k as nat),
                        )
                    },
            decreases blocks - number,
        {
            proof {
                assert(start + 2 * half == (number + 1) * (2 * half)) by (nonlinear_arith)
                    requires
                        start == number * (2 * half),
                ;
                assert((number + 1) * (2 * half) <= blocks * (2 * half)) by (nonlinear_arith)
                    requires
                        number + 1 <= blocks,
                        half >= 1,
                ;
            }
            let ghost previous = values@;
            butterfly(values, start, half, twiddle_step);
            proof {
                assert forall|b: int, k: int| 0 <= b < number + 1 && 0 <= k < half implies {
                    &&& cong(
                        #[trigger] views(values@)[b * (2 * half) + k],
                        views(before)[b * (2 * half) + k] + views(before)[b * (2 * half) + half + k]
                            * pow(step, k as nat),
                    )
                    &&& cong(
                        views(values@)[b * (2 * half) + half + k],
                        views(before)[b * (2 * half) + k] - views(before)[b * (2 * half) + half + k]
                            * pow(step, k as nat),
                    )
                } by {
                    if b < number {
                        assert(0 <= b * (2 * half) && b * (2 * half) + 2 * half <= start)
                            by (nonlinear_arith)
                            requires
                                0 <= b,
                                b + 1 <= number,
                                start == number * (2 * half),
                                half >= 1,
                        ;
                        assert(values@[b * (2 * half) + k] == previous[b * (2 * half) + k]);
                        assert(values@[b * (2 * half) + half + k] == previous[b * (2 * half) + half
                            + k]);
                        assert(views(previous)[b * (2 * half) + k] == views(values@)[b * (2
                            * half) + k]);
                    } else {
                        assert(b * (2 * half) == start);
                        assert(values@[start + k]@ == views(values@)[b * (2 * half) + k]);
                    }
                }
            }
            number = number + 1;
            start = start + 2 * half;
        }
        proof {
            lemma_stage_step(v, views(before), views(values@), w, step, left, half as int);
        }
        half = half * 2;
    }
    proof {
        lemma_pow2_pos(left);
        if left > 0 {
            lemma_pow2_strictly_increases(0, left);
            lemma2_to64();
            assert(pow2(left) * half > half) by (nonlinear_arith)
                requires
                    pow2(left) > 1,
                    half >= 1,
            ;
        }
        lemma2_to64();
        assert forall|k: int| 0 <= k < size implies (#[trigger] values@[k])@ == dft(v, w, k)
            % order() by {
            assert(0 * size + k == k);
            assert(cong(
                views(values@)[0 * size + k],
                block(v, w, pow2(0) as int, size as int, reversed(0, 0), k),
            ));
            lemma_block_full(v, w, k);
            values@[k].lemma_range();
            lemma_reduced(values@[k]@);
        }
    }
}

/// The transforms of one size, a power of two up to `2^32`.
#[derive(Clone, Copy, Debug)]
pub struct Radix2Domain {
    size: usize,
    log: u32,
    generator: Fr,
    generator_inverse: Fr,
    size_inverse: Fr,
}

/// Whether there is a domain of this size.
pub open spec fn is_domain_size(size: int) -> bool {
    exists|log: nat| log <= 32 && size == #[trigger] pow2(log)
}

/// Powers of two up to `2^32` are sizes of domains.
pub proof fn lemma_small_domain(size: int)
    requires
        is_power_of_two(size),
        size < 0x2_0000_0000,
    ensures
        is_domain_size(size),
{
    let log = choose|log: nat| size == pow2(log);
    lemma2_to64();
    lemma2_to64_rest();
    if log > 33 {
        lemma_pow2_strictly_increases(33, log);
    }
}

pub proof fn lemma_domain_limit(size: int)
    requires
        is_domain_size(size),
    ensures
        1 <= size <= 0x1_0000_0000,
        is_power_of_two(size),
{
    let log = choose|log: nat| log <= 32 && size == #[trigger] pow2(log);
    lemma2_to64();
    lemma_pow2_pos(log);
    if log < 32 {
        lemma_pow2_strictly_increases(log, 32);
    }
}

/// The root of unity that the transforms of a size use.
pub open spec fn size_root(size: int) -> int {
    domain_root(choose|log: nat| log <= 32 && size == #[trigger] pow2(log))
}

pub proof fn lemma_size_root(log: nat)
    requires
        log <= 32,
    ensures
        is_domain_size(pow2(log) as int),
        size_root(pow2(log) as int) == domain_root(log),
{
    let size = pow2(log) as int;
    let other = choose|l: nat| l <= 32 && size == #[trigger] pow2(l);
    assert(log <= 32 && size == pow2(log));
    if other < log {
        lemma_pow2_strictly_increases(other, log);
    } else if log < other {
        lemma_pow2_strictly_increases(log, other);
    }
}

impl Radix2Domain {
    /// What every domain satisfies.
    pub closed spec fn wf(&self) -> bool {
        &&& self.log <= 32
        &&& self.size == pow2(self.log as nat)
        &&& self.generator@ == domain_root(self.log as nat)
        &&& cong(self.generator@ * self.generator_inverse@, 1)
        &&& cong(self.size * self.size_inverse@, 1)
    }

    pub closed spec fn spec_size(&self) -> int {
        self.size as int
    }

    /// The root of unity of the inverse transform.
    pub closed spec fn inverse_root(&self) -> int {
        self.generator_inverse@
    }

    /// One over the size.
    pub closed spec fn spec_size_inverse(&self) -> int {
        self.size_inverse@
    }

    /// What is known of a domain from outside.
    pub proof fn lemma_domain(&self)
        requires
            self.wf(),
        ensures
            is_domain_size(self.spec_size()),
            is_power_of_two(self.spec_size()),
            1 <= self.spec_size() <= usize::MAX,
            is_root(size_root(self.spec_size()), self.spec_size()),
            is_root(self.inverse_root(), self.spec_size()),
            cong(size_root(self.spec_size()) * self.inverse_root(), 1),
            cong(self.spec_size() * self.spec_size_inverse(), 1),
            0 <= self.inverse_root() < order(),
            0 <= self.spec_size_inverse() < order(),
    {
        lemma_domain_root(self.log as nat);
        lemma_size_root(self.log as nat);
        lemma_root_inverse(self.generator@, self.generator_inverse@, self.size as int);
        lemma_pow2_pos(self.log as nat);
        self.generator_inverse.lemma_range();
        self.size_inverse.lemma_range();
    }

    /// The domain of a size, which must be a power of two up to `2^32`.
    pub fn new(size: usize) -> (result: Option<Self>)
        ensures
            result is Some <==> is_domain_size(size as int),
            result matches Some(domain) ==> domain.wf() && domain.spec_size() == size,
    {
        let log = match exact_log(size) {
            Some(log) => log,
            None => {
                proof {
                    if is_domain_size(size as int) {
                        let l = choose|l: nat| l <= 32 && size == #[trigger] pow2(l);
                        assert(size == pow2(l));
                    }
                }
                return None;
            },
        };
        if log > 32 {
            proof {
                if is_domain_size(size as int) {
                    let l = choose|l: nat| l <= 32 && size == #[trigger] pow2(l);
                    lemma_pow2_strictly_increases(l, log as nat);
                }
            }
            return None;
        }
        let mut generator = Fr::root_of_unity();
        let mut level: u32 = 32;
        proof {
            lemma2_to64();
            lemma_root_of_unity();
            lemma_pow1(root_of_unity());
            lemma_reduced(root_of_unity());
        }
        while level > log
            invariant
                log <= level <= 32,
                generator@ == domain_root(level as nat),
            decreases level,
        {
            proof {
                let power = pow(root_of_unity(), pow2((32 - level) as nat));
                lemma_pow2_unfold((33 - level) as nat);
                lemma_pow_adds(
                    root_of_unity(),
                    pow2((32 - level) as nat),
                    pow2((32 - level) as nat),
                );
                lemma_reduce(power);
                lemma_cong_mul(generator@, power, generator@, power);
            }
            generator = generator.times(generator);
            level = level - 1;
        }
        proof {
            lemma_domain_root(log as nat);
            lemma_one();
            lemma_order();
            lemma_size_root(log as nat);
            lemma_pow2_pos(log as nat);
            lemma_reduced(size as int);
            crate::algebra::roots::lemma_root_unit(generator@, size as int);
            lemma_reduced(generator@);
            assert(!cong(generator@, 0)) by {
                let i = choose|b: int| #[trigger] cong(generator@ * b, 1);
                lemma_inv_unique(generator@, i);
            }
        }
        let generator_inverse = generator.invert()?;
        let size_scalar = Fr::from_u64(size as u64);
        let size_inverse = size_scalar.invert()?;
        Some(Radix2Domain { size, log, generator, generator_inverse, size_inverse })
    }

    pub fn size(&self) -> (result: usize)
        ensures
            result == self.spec_size(),
    {
        self.size
    }

    /// The inverse of the size, by which an inverse transform is scaled.
    pub fn size_inverse(&self) -> (result: Fr)
        ensures
            result@ == self.spec_size_inverse(),
    {
        self.size_inverse
    }

    /// The root of unity of the transform.
    pub fn generator(&self) -> (result: Fr)
        requires
            self.wf(),
        ensures
            result@ == size_root(self.spec_size()),
    {
        proof {
            lemma_size_root(self.log as nat);
        }
        self.generator
    }

    /// The inverse of the root of unity of the transform.
    pub fn generator_inverse(&self) -> (result: Fr)
        ensures
            result@ == self.inverse_root(),
    {
        self.generator_inverse
    }

    /// Evaluates the polynomial with the given coefficients at all powers of the root.
    pub fn fft<E: Element>(&self, values: &mut Vec<E>)
        requires
            self.wf(),
            old(values)@.len() == self.spec_size(),
        ensures
            final(values)@.len() == old(values)@.len(),
            forall|k: int|
                0 <= k < old(values)@.len() ==> (#[trigger] final(values)@[k])@ == dft(
                    views(old(values)@),
                    size_root(self.spec_size()),
                    k,
                ) % order(),
    {
        proof {
            lemma_size_root(self.log as nat);
            lemma_domain_root(self.log as nat);
        }
        fft_with_generator(values, self.log, self.generator);
    }

    /// The transform with the inverse root, without the division by the size.
    pub fn ifft_unscaled<E: Element>(&self, values: &mut Vec<E>)
        requires
            self.wf(),
            old(values)@.len() == self.spec_size(),
        ensures
            final(values)@.len() == old(values)@.len(),
            forall|k: int|
                0 <= k < old(values)@.len() ==> (#[trigger] final(values)@[k])@ == dft(
                    views(old(values)@),
                    self.inverse_root(),
                    k,
                ) % order(),
    {
        proof {
            self.lemma_domain();
        }
        fft_with_generator(values, self.log, self.generator_inverse);
    }

    /// The inverse of [`Self::fft`].
    pub fn ifft<E: Element>(&self, values: &mut Vec<E>)
        requires
            self.wf(),
            old(values)@.len() == self.spec_size(),
        ensures
            final(values)@.len() == old(values)@.len(),
            forall|k: int|
                0 <= k < old(values)@.len() ==> (#[trigger] final(values)@[k])@ == (dft(
                    views(old(values)@),
                    self.inverse_root(),
                    k,
                ) * self.spec_size_inverse()) % order(),
    {
        let ghost v = views(values@);
        self.ifft_unscaled(values);
        scale(values, self.size_inverse);
        proof {
            assert forall|k: int| 0 <= k < values@.len() implies (#[trigger] values@[k])@ == (dft(
                v,
                self.inverse_root(),
                k,
            ) * self.size_inverse@) % order() by {
                lemma_reduce(dft(v, self.inverse_root(), k));
                lemma_cong_mul(
                    dft(v, self.inverse_root(), k) % order(),
                    dft(v, self.inverse_root(), k),
                    self.size_inverse@,
                    self.size_inverse@,
                );
            }
        }
    }

    /// [`Self::fft`] for the target group.
    pub fn fft_gt(&self, values: &mut Vec<GtElement>)
        requires
            self.wf(),
            old(values)@.len() == self.spec_size(),
        ensures
            final(values)@.len() == old(values)@.len(),
            forall|k: int|
                0 <= k < old(values)@.len() ==> (#[trigger] final(values)@[k])@ == dft(
                    views(old(values)@),
                    size_root(self.spec_size()),
                    k,
                ) % order(),
    {
        self.fft(values);
    }

    /// [`Self::ifft_unscaled`] for the target group.
    pub fn ifft_gt_unscaled(&self, values: &mut Vec<GtElement>)
        requires
            self.wf(),
            old(values)@.len() == self.spec_size(),
        ensures
            final(values)@.len() == old(values)@.len(),
            forall|k: int|
                0 <= k < old(values)@.len() ==> (#[trigger] final(values)@[k])@ == dft(
                    views(old(values)@),
                    self.inverse_root(),
                    k,
                ) % order(),
    {
        self.ifft_unscaled(values);
    }
}

/// Multiplies every item by a scalar.
pub fn scale<E: Element>(values: &mut Vec<E>, factor: Fr)
    ensures
        final(values)@.len() == old(values)@.len(),
        forall|i: int|
            0 <= i < old(values)@.len() ==> (#[trigger] final(values)@[i])@ == (old(values)@[i]@
                * factor@) % order(),
{
    let ghost before = values@;
    let mut index: usize = 0;
    while index < values.len()
        invariant
            index <= values@.len() == before.len(),
            forall|i: int| index <= i < before.len() ==> #[trigger] values@[i] == before[i],
            forall|i: int|
                0 <= i < index ==> (#[trigger] values@[i])@ == (before[i]@ * factor@) % order(),
        decreases before.len() - index,
    {
        let scaled = values[index].times(factor);
        values.set(index, scaled);
        index = index + 1;
    }
}

/// The inverse transform undoes the transform: transforming residues and transforming the
/// result back gives them again.
pub proof fn law_transform_round_trip(domain: &Radix2Domain, values: Seq<int>, i: int)
    requires
        domain.wf(),
        values.len() == domain.spec_size(),
        0 <= i < values.len(),
        0 <= values[i] < order(),
    ensures
        ({
            let transformed = Seq::new(
                values.len(),
                |k: int| dft(values, size_root(domain.spec_size()), k) % order(),
            );
            (dft(transformed, domain.inverse_root(), i) * domain.spec_size_inverse()) % order()
                == values[i]
        }),
{
    let n = values.len() as int;
    let w = size_root(n);
    let wi = domain.inverse_root();
    let s = domain.spec_size_inverse();
    domain.lemma_domain();
    let log = choose|log: nat| n == pow2(log);
    let full = dft_all(values, w);
    let transformed = Seq::new(values.len(), |k: int| dft(values, w, k) % order());
    lemma_dft_inverse(values, w, wi, log, i);
    assert forall|k: int| 0 <= k < n implies cong(#[trigger] transformed[k], full[k]) by {
        lemma_reduce(dft(values, w, k));
    }
    lemma_dft_cong(transformed, full, wi, i);
    let x = values[i];
    lemma_cong_mul(dft(transformed, wi, i), n * x, s, s);
    lemma_cong_mul(n * s, 1, x, x);
    assert((n * x) * s == (n * s) * x) by (nonlinear_arith);
    assert(1 * x == x);
    lemma_reduced(x);
}

/// The transform undoes the inverse transform: transforming residues back and transforming
/// the result gives them again.
pub proof fn law_inverse_transform_round_trip(domain: &Radix2Domain, values: Seq<int>, i: int)
    requires
        domain.wf(),
        values.len() == domain.spec_size(),
        0 <= i < values.len(),
        0 <= values[i] < order(),
    ensures
        ({
            let restored = Seq::new(
                values.len(),
                |k: int|
                    (dft(values, domain.inverse_root(), k) * domain.spec_size_inverse()) % order(),
            );
            dft(restored, size_root(domain.spec_size()), i) % order() == values[i]
        }),
{
    let n = values.len() as int;
    let w = size_root(n);
    let wi = domain.inverse_root();
    let s = domain.spec_size_inverse();
    domain.lemma_domain();
    let log = choose|log: nat| n == pow2(log);
    let full = dft_all(values, wi);
    let restored = Seq::new(values.len(), |k: int| (dft(values, wi, k) * s) % order());
    let scaled = Seq::new(values.len(), |k: int| dft(values, wi, k) * s);
    assert(w * wi == wi * w) by (nonlinear_arith);
    lemma_dft_inverse(values, wi, w, log, i);
    assert forall|k: int| 0 <= k < n implies cong(#[trigger] restored[k], scaled[k]) by {
        lemma_reduce(dft(values, wi, k) * s);
    }
    lemma_dft_cong(restored, scaled, w, i);
    assert forall|k: int| 0 <= k < n implies #[trigger] dft_terms(scaled, w, i)(k) == s
        * dft_terms(full, w, i)(k) by {
        let (x, y) = (full[k], pow(w, (k * i) as nat));
        assert((x * s) * y == s * (x * y)) by (nonlinear_arith);
    }
    lemma_sum_scale(s, dft_terms(full, w, i), dft_terms(scaled, w, i), 0, n);
    let x = values[i];
    lemma_cong_mul(s, s, dft(full, w, i), n * x);
    lemma_cong_mul(n * s, 1, x, x);
    assert(s * (n * x) == (n * s) * x) by (nonlinear_arith);
    assert(1 * x == x);
    lemma_reduced(x);
}

/// The roots of unity of the sizes fit together: that of the largest is the field's, and the
/// square of that of a size is that of half the size.
pub proof fn law_roots_fit_together(log: nat)
    requires
        log < 32,
    ensures
        size_root(0x1_0000_0000) == root_of_unity(),
        size_root(pow2(log) as int) == (size_root(pow2(log + 1) as int) * size_root(
            pow2(log + 1) as int,
        )) % order(),
{
    let r = root_of_unity();
    lemma_root_of_unity();
    lemma2_to64();
    lemma_size_root(32);
    lemma_pow1(r);
    lemma_reduced(r);
    lemma_size_root(log);
    lemma_size_root(log + 1);
    let e = pow2((31 - log) as nat);
    let power = pow(r, e);
    lemma_pow2_unfold((32 - log) as nat);
    lemma_pow_adds(r, e, e);
    lemma_reduce(power);
    lemma_cong_mul(power % order(), power, power % order(), power);
    assert(32 - (log + 1) == 31 - log);
    assert(cong((power % order()) * (power % order()), pow(r, pow2((32 - log) as nat))));
}

} // verus!
