//! Byte strings: little-endian integers, concatenation and comparison.
use vstd::arithmetic::power2::{lemma2_to64, lemma_pow2_adds, pow2};
use vstd::prelude::*;

verus! {

/// The integer that the bytes write in base 256, the least significant first.
pub open spec fn le_value(bytes: Seq<u8>) -> int
    decreases bytes.len(),
{
    if bytes.len() == 0 {
        0
    } else {
        bytes[0] as int + 256 * le_value(bytes.skip(1))
    }
}

/// The first `count` digits of an integer in base 256, the least significant first.
pub open spec fn le_bytes(value: int, count: nat) -> Seq<u8>
    decreases count,
{
    if count == 0 {
        Seq::empty()
    } else {
        seq![(value % 256) as u8] + le_bytes(value / 256, (count - 1) as nat)
    }
}

/// A byte string of `n` bytes stands for less than `2^(8 n)`.
pub proof fn lemma_le_value_bound(bytes: Seq<u8>)
    ensures
        0 <= le_value(bytes) < pow2((8 * bytes.len()) as nat),
    decreases bytes.len(),
{
    lemma2_to64();
    if bytes.len() > 0 {
        lemma_le_value_bound(bytes.skip(1));
        lemma_pow2_adds(8, (8 * (bytes.len() - 1)) as nat);
        let (x, p) = (le_value(bytes.skip(1)), pow2((8 * (bytes.len() - 1)) as nat) as int);
        assert(256 * x + 255 < 256 * p);
    }
}

/// A byte string is made of the digits of its value.
pub proof fn lemma_le_bytes(bytes: Seq<u8>)
    ensures
        bytes == le_bytes(le_value(bytes), bytes.len()),
        le_value(bytes) >= 0,
    decreases bytes.len(),
{
    if bytes.len() > 0 {
        lemma_le_bytes(bytes.skip(1));
        let value = le_value(bytes);
        let rest = le_value(bytes.skip(1));
        assert(value % 256 == bytes[0] && value / 256 == rest);
        assert(bytes =~= seq![bytes[0]] + bytes.skip(1));
    } else {
        assert(bytes =~= Seq::<u8>::empty());
    }
}

/// The digits of an integer have their number, and write it where they are enough.
pub proof fn lemma_le_digits(value: int, count: nat)
    requires
        0 <= value,
    ensures
        le_bytes(value, count).len() == count,
        value < pow2(8 * count) ==> le_value(le_bytes(value, count)) == value,
    decreases count,
{
    lemma2_to64();
    if count > 0 {
        let rest = (count - 1) as nat;
        lemma_le_digits(value / 256, rest);
        lemma_pow2_adds(8, 8 * rest);
        let digits = le_bytes(value, count);
        assert(digits.skip(1) =~= le_bytes(value / 256, rest));
        let p = pow2(8 * rest) as int;
        if value < 256 * p {
            assert(value / 256 < p);
        }
    }
}

/// Integers with the same eight digits are the same, below `2^64`.
pub proof fn lemma_same_digits(a: int, b: int)
    requires
        0 <= a < 0x1_0000_0000_0000_0000,
        0 <= b < 0x1_0000_0000_0000_0000,
        le_bytes(a, 8) == le_bytes(b, 8),
    ensures
        a == b,
{
    lemma2_to64();
    lemma_le_digits(a, 8);
    lemma_le_digits(b, 8);
}

/// Strings of two parts are the same only where the parts are, once the lengths of one of the
/// parts are the same.
pub proof fn lemma_same_parts(a: Seq<u8>, b: Seq<u8>, c: Seq<u8>, d: Seq<u8>)
    requires
        a + b == c + d,
        a.len() == c.len() || b.len() == d.len(),
    ensures
        a == c,
        b == d,
{
    let (s, t) = (a + b, c + d);
    assert(s.len() == a.len() + b.len() && t.len() == c.len() + d.len());
    assert(s.take(a.len() as int) =~= a);
    assert(t.take(c.len() as int) =~= c);
    assert(s.skip(a.len() as int) =~= b);
    assert(t.skip(c.len() as int) =~= d);
}

/// Appends the first `count` digits of `value` in base 256.
pub fn append_le(output: &mut Vec<u8>, value: u64, count: usize)
    ensures
        final(output)@ == old(output)@ + le_bytes(value as int, count as nat),
{
    let ghost start = output@;
    let mut rest: u64 = value;
    let mut written: usize = 0;
    while written < count
        invariant
            written <= count,
            start + le_bytes(value as int, count as nat) == output@ + le_bytes(
                rest as int,
                (count - written) as nat,
            ),
        decreases count - written,
    {
        let ghost before = output@;
        output.push((rest % 256) as u8);
        proof {
            assert(before + le_bytes(rest as int, (count - written) as nat) =~= output@ + le_bytes(
                rest as int / 256,
                (count - written - 1) as nat,
            ));
        }
        rest = rest / 256;
        written = written + 1;
    }
    assert(output@ =~= output@ + le_bytes(rest as int, 0));
}

/// Appends eight bytes, the least significant first.
pub fn append_u64(output: &mut Vec<u8>, value: u64)
    ensures
        final(output)@ == old(output)@ + le_bytes(value as int, 8),
{
    append_le(output, value, 8);
}

/// Appends a byte string.
pub fn append(output: &mut Vec<u8>, bytes: &[u8])
    ensures
        final(output)@ == old(output)@ + bytes@,
{
    let ghost start = output@;
    let mut index: usize = 0;
    while index < bytes.len()
        invariant
            index <= bytes@.len(),
            output@ == start + bytes@.take(index as int),
        decreases bytes@.len() - index,
    {
        output.push(bytes[index]);
        index = index + 1;
        assert(start + bytes@.take(index as int) =~= (start + bytes@.take(index - 1)).push(
            bytes@[index - 1],
        ));
    }
    assert(bytes@.take(index as int) =~= bytes@);
}

/// Whether two byte strings are the same.
pub fn bytes_equal(left: &[u8], right: &[u8]) -> (equal: bool)
    ensures
        equal == (left@ == right@),
{
    if left.len() != right.len() {
        return false;
    }
    let mut index: usize = 0;
    while index < left.len()
        invariant
            index <= left@.len() == right@.len(),
            forall|i: int| 0 <= i < index ==> left@[i] == right@[i],
        decreases left@.len() - index,
    {
        if left[index] != right[index] {
            return false;
        }
        index = index + 1;
    }
    assert(left@ =~= right@);
    true
}

/// Strings of one length stand for different numbers.
pub proof fn lemma_same_value(a: Seq<u8>, b: Seq<u8>)
    requires
        a.len() == b.len(),
        le_value(a) == le_value(b),
    ensures
        a == b,
    decreases a.len(),
{
    if a.len() > 0 {
        let (x, y) = (le_value(a.skip(1)), le_value(b.skip(1)));
        assert(a[0] as int + 256 * x == b[0] as int + 256 * y);
        assert(x == y);
        lemma_same_value(a.skip(1), b.skip(1));
        assert(a =~= seq![a[0]] + a.skip(1));
        assert(b =~= seq![b[0]] + b.skip(1));
    } else {
        assert(a =~= b);
    }
}

} // verus!
