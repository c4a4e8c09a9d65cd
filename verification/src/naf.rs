//! Width-five non-adjacent forms, and multiplication in the target group by them.
//!
//! A full-width scalar has about 43 digits that are not zero in this form, where
//! its binary form has about 127.
use vstd::arithmetic::power2::{
    lemma2_to64, lemma_pow2_adds, lemma_pow2_strictly_increases, lemma_pow2_unfold, pow2,
};
use vstd::prelude::*;

use crate::algebra::residue::{
    cong, lemma_cong_add, lemma_cong_mul, lemma_reduce, lemma_reduced, order,
};
use crate::bytes::le_value;
use crate::curve::{Element, Fr, GtElement};
use crate::numbers::limbs_value;

verus! {

/// The integer of binary digits, the least significant first; a digit may have any sign and size.
pub open spec fn digits_value(digits: Seq<i8>) -> int
    decreases digits.len(),
{
    if digits.len() == 0 {
        0
    } else {
        digits_value(digits.drop_last()) + digits.last() * pow2((digits.len() - 1) as nat)
    }
}

/// Whether every digit is zero or odd and below sixteen in size, and any two
/// that are not zero are at least five places apart.
pub open spec fn is_naf(digits: Seq<i8>) -> bool {
    &&& forall|i: int|
        0 <= i < digits.len() ==> #[trigger] digits[i] == 0 || (-15 <= digits[i] <= 15 && digits[i]
            % 2 != 0)
    &&& forall|i: int, j: int|
        0 <= i < j < digits.len() && j < i + 5 && #[trigger] digits[i] != 0
            ==> #[trigger] digits[j] == 0
}

fn limb_at(bytes: &[u8; 32], start: usize) -> (limb: u64)
    requires
        start + 8 <= 32,
    ensures
        limb == le_value(bytes@.subrange(start as int, start + 8)),
{
    let ghost b = bytes@;
    let ghost s = start as int;
    let (b0, b1, b2, b3) = (
        bytes[start] as u64,
        bytes[start + 1] as u64,
        bytes[start + 2] as u64,
        bytes[start + 3] as u64,
    );
    let (b4, b5, b6, b7) = (
        bytes[start + 4] as u64,
        bytes[start + 5] as u64,
        bytes[start + 6] as u64,
        bytes[start + 7] as u64,
    );
    proof {
        lemma_le_step(b, s, s + 8);
        lemma_le_step(b, s + 1, s + 8);
        lemma_le_step(b, s + 2, s + 8);
        lemma_le_step(b, s + 3, s + 8);
        lemma_le_step(b, s + 4, s + 8);
        lemma_le_step(b, s + 5, s + 8);
        lemma_le_step(b, s + 6, s + 8);
        lemma_le_step(b, s + 7, s + 8);
        assert(le_value(b.subrange(s + 8, s + 8)) == 0);
    }
    b0 + 256 * (b1 + 256 * (b2 + 256 * (b3 + 256 * (b4 + 256 * (b5 + 256 * (b6 + 256 * b7))))))
}

proof fn lemma_le_step(bytes: Seq<u8>, from: int, to: int)
    requires
        0 <= from < to <= bytes.len(),
    ensures
        le_value(bytes.subrange(from, to)) == bytes[from] + 256 * le_value(
            bytes.subrange(from + 1, to),
        ),
{
    assert(bytes.subrange(from, to).skip(1) =~= bytes.subrange(from + 1, to));
}

/// The value of a byte string from those of its first eight bytes and of the rest.
proof fn lemma_le_split(bytes: Seq<u8>, from: int, to: int)
    requires
        0 <= from,
        from + 8 <= to <= bytes.len(),
    ensures
        le_value(bytes.subrange(from, to)) == le_value(bytes.subrange(from, from + 8))
            + 0x1_0000_0000_0000_0000 * le_value(bytes.subrange(from + 8, to)),
{
    lemma_le_step(bytes, from, to);
    lemma_le_step(bytes, from + 1, to);
    lemma_le_step(bytes, from + 2, to);
    lemma_le_step(bytes, from + 3, to);
    lemma_le_step(bytes, from + 4, to);
    lemma_le_step(bytes, from + 5, to);
    lemma_le_step(bytes, from + 6, to);
    lemma_le_step(bytes, from + 7, to);
    lemma_le_step(bytes, from, from + 8);
    lemma_le_step(bytes, from + 1, from + 8);
    lemma_le_step(bytes, from + 2, from + 8);
    lemma_le_step(bytes, from + 3, from + 8);
    lemma_le_step(bytes, from + 4, from + 8);
    lemma_le_step(bytes, from + 5, from + 8);
    lemma_le_step(bytes, from + 6, from + 8);
    lemma_le_step(bytes, from + 7, from + 8);
    assert(le_value(bytes.subrange(from + 8, from + 8)) == 0);
}

/// Takes a number below `2^64` off.
fn sub_small(limbs: &mut [u64; 4], value: u64)
    requires
        limbs_value(old(limbs)@) >= value,
    ensures
        limbs_value(final(limbs)@) == limbs_value(old(limbs)@) - value,
{
    proof {
        reveal(limbs_value);
    }
    let mut borrow: bool = limbs[0] < value;
    limbs[0] = limbs[0].wrapping_sub(value);
    if borrow {
        borrow = limbs[1] == 0;
        limbs[1] = limbs[1].wrapping_sub(1);
    }
    if borrow {
        borrow = limbs[2] == 0;
        limbs[2] = limbs[2].wrapping_sub(1);
    }
    if borrow {
        limbs[3] = limbs[3].wrapping_sub(1);
    }
}

/// Adds a number below `2^64`.
fn add_small(limbs: &mut [u64; 4], value: u64)
    requires
        limbs_value(old(limbs)@) + value < 0x1_0000_0000_0000_0000 * (0x1_0000_0000_0000_0000 * (
        0x1_0000_0000_0000_0000 * 0x1_0000_0000_0000_0000)),
    ensures
        limbs_value(final(limbs)@) == limbs_value(old(limbs)@) + value,
{
    proof {
        reveal(limbs_value);
    }
    let mut carry: bool = limbs[0] > u64::MAX - value;
    limbs[0] = limbs[0].wrapping_add(value);
    if carry {
        carry = limbs[1] == u64::MAX;
        limbs[1] = limbs[1].wrapping_add(1);
    }
    if carry {
        carry = limbs[2] == u64::MAX;
        limbs[2] = limbs[2].wrapping_add(1);
    }
    if carry {
        limbs[3] = limbs[3].wrapping_add(1);
    }
}

/// Halves, rounding down.
fn shift_right_one(limbs: &mut [u64; 4])
    ensures
        limbs_value(final(limbs)@) == limbs_value(old(limbs)@) / 2,
{
    proof {
        reveal(limbs_value);
    }
    let (l0, l1, l2, l3) = (limbs[0], limbs[1], limbs[2], limbs[3]);
    let half: u64 = 0x8000_0000_0000_0000;
    limbs[3] = l3 / 2;
    limbs[2] = l2 / 2 + half * (l3 % 2);
    limbs[1] = l1 / 2 + half * (l2 % 2);
    limbs[0] = l0 / 2 + half * (l1 % 2);
}

/// Whether the number is zero.
fn is_zero(limbs: &[u64; 4]) -> (result: bool)
    ensures
        result == (limbs_value(limbs@) == 0),
        limbs_value(limbs@) >= 0,
{
    proof {
        reveal(limbs_value);
    }
    limbs[0] == 0 && limbs[1] == 0 && limbs[2] == 0 && limbs[3] == 0
}

/// The lowest five bits.
fn low_bits(limbs: &[u64; 4]) -> (result: u64)
    ensures
        result == limbs_value(limbs@) % 32,
{
    proof {
        reveal(limbs_value);
    }
    limbs[0] % 32
}

/// One more digit keeps the form, where enough zeros lie before it.
proof fn lemma_naf_push(digits: Seq<i8>, digit: i8)
    requires
        is_naf(digits),
        digit == 0 || (-15 <= digit <= 15 && digit % 2 != 0),
        digit != 0 ==> forall|i: int|
            0 <= i < digits.len() && #[trigger] digits[i] != 0 ==> i + 5 <= digits.len(),
    ensures
        is_naf(digits.push(digit)),
        digits_value(digits.push(digit)) == digits_value(digits) + digit * pow2(digits.len()),
{
    let longer = digits.push(digit);
    assert(longer.drop_last() =~= digits);
    assert forall|i: int, j: int|
        0 <= i < j < longer.len() && j < i + 5
            && #[trigger] longer[i] != 0 implies #[trigger] longer[j]
        == 0 by {
        assert(digits[i] != 0);
        if j < digits.len() {
            assert(digits[j] == longer[j]);
        }
    }
    assert forall|i: int| 0 <= i < longer.len() implies #[trigger] longer[i] == 0 || (-15
        <= longer[i] <= 15 && longer[i] % 2 != 0) by {
        if i < digits.len() {
            assert(digits[i] == longer[i]);
        }
    }
}

/// The bound below which the numbers that a form is made of stay.
spec fn naf_limit() -> int {
    0x8000_0000_0000_0000int * (0x1_0000_0000_0000_0000 * (0x1_0000_0000_0000_0000
        * 0x1_0000_0000_0000_0000))
}

/// Whether the lowest `zeros` bits, of at most four, are zero.
spec fn divides(zeros: int, value: int) -> bool {
    &&& zeros >= 1 ==> value % 2 == 0
    &&& zeros >= 2 ==> value % 4 == 0
    &&& zeros >= 3 ==> value % 8 == 0
    &&& zeros >= 4 ==> value % 16 == 0
}

proof fn lemma_naf_step(value: int, middle: int, half: int, low: int, digit: int, zeros: int)
    requires
        low == value % 32,
        digit == if low % 2 == 0 {
            0
        } else if low >= 16 {
            low - 32
        } else {
            low
        },
        middle == value - digit,
        half == middle / 2,
        0 <= zeros <= 4,
        0 < value,
        divides(zeros, value),
    ensures
        value == digit + 2 * half,
        0 <= half < value,
        digit != 0 ==> zeros == 0,
        divides(
            if digit != 0 {
                4
            } else {
                zeros - 1
            },
            half,
        ),
{
}

/// Rounding to a multiple of 32 and halving takes a number that a power of two bounds
/// below the next lower power.
proof fn lemma_naf_bound(value: int, half: int, low: int, digit: int, bits: nat)
    requires
        low == value % 32,
        digit == if low % 2 == 0 {
            0
        } else if low >= 16 {
            low - 32
        } else {
            low
        },
        half == (value - digit) / 2,
        0 < value <= pow2(bits),
    ensures
        bits == 0 ==> half == 0,
        bits > 0 ==> half <= pow2((bits - 1) as nat),
{
    lemma2_to64();
    if bits > 0 {
        lemma_pow2_unfold(bits);
    }
    if bits >= 5 {
        lemma_pow2_adds(5, (bits - 5) as nat);
        let rest = pow2((bits - 5) as nat) as int;
        assert(value - digit <= 32 * rest) by {
            assert((value - digit) % 32 == 0 || digit == 0);
            assert(value <= 32 * rest);
        }
    } else if bits > 0 {
        lemma_pow2_strictly_increases(bits, 5);
        assert(pow2(bits) <= 16) by {
            if bits < 4 {
                lemma_pow2_strictly_increases(bits, 4);
            }
        }
    }
}

/// A scalar has 255 bits.
pub proof fn lemma_scalar_bits()
    ensures
        order() <= pow2(255),
{
    lemma2_to64();
    lemma_pow2_unfold(64);
    lemma_pow2_adds(64, 64);
    lemma_pow2_adds(128, 64);
    lemma_pow2_adds(192, 63);
    assert(pow2(64) == 0x1_0000_0000_0000_0000);
    assert(pow2(63) == 0x8000_0000_0000_0000);
    assert(pow2(128) == 0x1_0000_0000_0000_0000_0000_0000_0000_0000int);
    assert(pow2(192) == 0x1_0000_0000_0000_0000_0000_0000_0000_0000_0000_0000_0000_0000int);
    reveal(order);
}

/// The width-five non-adjacent form of a scalar, the least significant digit first. The
/// last digit is positive, so that zero has no digits.
pub fn width_five_naf(scalar: Fr) -> (digits: Vec<i8>)
    ensures
        digits_value(digits@) == scalar@,
        is_naf(digits@),
        digits@.len() <= 256,
        digits@.len() == 0 <==> scalar@ == 0,
        digits@.len() > 0 ==> digits@.last() > 0,
{
    let bytes = scalar.to_bytes_le();
    let mut limbs: [u64; 4] = [
        limb_at(&bytes, 0),
        limb_at(&bytes, 8),
        limb_at(&bytes, 16),
        limb_at(&bytes, 24),
    ];
    let mut digits: Vec<i8> = Vec::new();
    // How many of the next digits are known to be zero.
    let ghost mut zeros: int = 0;
    proof {
        assert(bytes@.subrange(0, 32) =~= bytes@);
        lemma_le_split(bytes@, 0, 32);
        lemma_le_split(bytes@, 8, 32);
        lemma_le_split(bytes@, 16, 32);
        scalar.lemma_range();
        reveal(order);
        reveal(limbs_value);
        lemma2_to64();
        assert(limbs_value(limbs@) == scalar@);
        lemma_scalar_bits();
        assert(1 * limbs_value(limbs@) == limbs_value(limbs@));
    }
    while !is_zero(&limbs)
        invariant
            0 <= limbs_value(limbs@) < naf_limit(),
            digits_value(digits@) + pow2(digits@.len()) * limbs_value(limbs@) == scalar@,
            0 <= zeros <= 4,
            divides(zeros, limbs_value(limbs@)),
            is_naf(digits@),
            digits@.len() <= 256,
            digits@.len() <= 255 ==> limbs_value(limbs@) <= pow2((255 - digits@.len()) as nat),
            digits@.len() == 256 ==> limbs_value(limbs@) == 0,
            digits@.len() > 0 ==> scalar@ > 0,
            digits@.len() > 0 && limbs_value(limbs@) == 0 ==> digits@.last() > 0,
            forall|i: int|
                0 <= i < digits@.len() && #[trigger] digits@[i] != 0 ==> i + 5 <= digits@.len()
                    + zeros,
        decreases limbs_value(limbs@),
    {
        let ghost value = limbs_value(limbs@);
        let ghost before = digits@;
        let low: u64 = low_bits(&limbs);
        let digit: i8 = if low % 2 == 0 {
            0
        } else if low >= 16 {
            low as i8 - 32
        } else {
            low as i8
        };
        if digit > 0 {
            sub_small(&mut limbs, digit as u64);
        } else if digit < 0 {
            add_small(&mut limbs, (-digit) as u64);
        }
        let ghost middle = limbs_value(limbs@);
        assert(middle == value - digit);
        shift_right_one(&mut limbs);
        digits.push(digit);
        proof {
            let m = limbs_value(limbs@);
            lemma_naf_push(before, digit);
            lemma_naf_step(value, middle, m, low as int, digit as int, zeros);
            lemma_naf_bound(value, m, low as int, digit as int, (255 - before.len()) as nat);
            if before.len() == 0 {
                lemma2_to64();
                assert(1 * value == value);
            }
            lemma_pow2_unfold(digits@.len());
            let (p, d) = (pow2(before.len()) as int, digit as int);
            assert(p * (d + 2 * m) == d * p + (2 * p) * m) by (nonlinear_arith);
            if digit != 0 {
                zeros = 4;
            } else if zeros > 0 {
                zeros = zeros - 1;
            }
        }
    }
    proof {
        assert(pow2(digits@.len()) * 0 == 0);
    }
    digits
}

/// The multiples `1, 3, .., 15` of an element.
fn odd_multiples(base: GtElement) -> (table: Vec<GtElement>)
    ensures
        table@.len() == 8,
        forall|i: int| 0 <= i < 8 ==> cong((#[trigger] table@[i])@, (2 * i + 1) * base@),
{
    let two_base = base.double();
    let mut table: Vec<GtElement> = Vec::new();
    table.push(base);
    assert((2 * 0 + 1) * base@ == base@) by (nonlinear_arith);
    let mut index: usize = 1;
    while index < 8
        invariant
            1 <= index <= 8,
            table@.len() == index,
            two_base@ == (2 * base@) % order(),
            forall|i: int| 0 <= i < index ==> cong((#[trigger] table@[i])@, (2 * i + 1) * base@),
        decreases 8 - index,
    {
        let previous = table[index - 1];
        let next = previous.plus(two_base);
        proof {
            let b = base@;
            lemma_reduce(2 * b);
            lemma_cong_add(previous@, (2 * (index - 1) + 1) * b, two_base@, 2 * b);
            lemma_reduce(previous@ + two_base@);
            assert((2 * (index - 1) + 1) * b + 2 * b == (2 * index + 1) * b) by (nonlinear_arith);
        }
        table.push(next);
        index = index + 1;
    }
    table
}

/// The product of an element and a scalar, by the scalar's non-adjacent form.
pub fn mul_gt(base: GtElement, scalar: Fr) -> (result: GtElement)
    ensures
        result@ == (base@ * scalar@) % order(),
{
    let digits = width_five_naf(scalar);
    let table = odd_multiples(base);
    let ghost b = base@;
    let ghost total = digits_value(digits@) * b;
    let mut accumulator = GtElement::zero();
    let mut position: usize = digits.len();
    proof {
        assert(digits@.take(position as int) =~= digits@);
        assert(0 * pow2(position as nat) == 0);
    }
    while position > 0
        invariant
            position <= digits@.len(),
            is_naf(digits@),
            b == base@,
            table@.len() == 8,
            forall|i: int| 0 <= i < 8 ==> cong((#[trigger] table@[i])@, (2 * i + 1) * b),
            cong(
                accumulator@ * pow2(position as nat) + digits_value(digits@.take(position as int))
                    * b,
                total,
            ),
        decreases position,
    {
        position = position - 1;
        let digit: i8 = digits[position];
        let ghost start = accumulator@;
        let ghost rest = digits_value(digits@.take(position as int));
        let ghost p = pow2(position as nat) as int;
        accumulator = accumulator.double();
        let ghost doubled = accumulator@;
        proof {
            lemma_reduce(2 * start);
            assert(digits@.take(position + 1).drop_last() =~= digits@.take(position as int));
            assert(digits@.take(position + 1).last() == digit);
            lemma_pow2_unfold((position + 1) as nat);
        }
        if digit > 0 {
            let place: usize = (digit as usize - 1) / 2;
            accumulator = accumulator.plus(table[place]);
            proof {
                assert(digits@[position as int] % 2 != 0);
                assert(2 * place + 1 == digit);
                lemma_cong_add(doubled, 2 * start, table@[place as int]@, digit * b);
                lemma_reduce(doubled + table@[place as int]@);
            }
        } else if digit < 0 {
            let place: usize = ((-digit) as usize - 1) / 2;
            let multiple = table[place].negate();
            accumulator = accumulator.plus(multiple);
            proof {
                assert(digits@[position as int] % 2 != 0);
                assert(2 * place + 1 == -digit);
                crate::algebra::residue::lemma_cong_neg(table@[place as int]@, (-digit) * b);
                lemma_reduce(-table@[place as int]@);
                assert(-((-digit) * b) == digit * b) by (nonlinear_arith);
                lemma_cong_add(doubled, 2 * start, multiple@, digit * b);
                lemma_reduce(doubled + multiple@);
            }
        } else {
            assert(digit * b == 0) by (nonlinear_arith)
                requires
                    digit == 0,
            ;
        }
        proof {
            let d = digit as int;
            assert(cong(accumulator@, 2 * start + d * b));
            lemma_cong_mul(accumulator@, 2 * start + d * b, p, p);
            lemma_cong_add(accumulator@ * p, (2 * start + d * b) * p, rest * b, rest * b);
            assert((2 * start + d * b) * p + rest * b == start * (2 * p) + (rest + d * p) * b)
                by (nonlinear_arith);
        }
    }
    proof {
        lemma2_to64();
        assert(digits@.take(0).len() == 0);
        assert(0 * b == 0);
        assert(accumulator@ * 1 == accumulator@);
        accumulator.lemma_range();
        lemma_reduced(accumulator@);
        assert(scalar@ * b == b * scalar@) by (nonlinear_arith);
    }
    accumulator
}

} // verus!
