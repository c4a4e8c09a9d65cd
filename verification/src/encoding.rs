//! Lists of numbers, points and scalars as byte strings.
use vstd::arithmetic::power2::lemma_pow2_strictly_increases;
use vstd::prelude::*;

use crate::algebra::residue::order;
use crate::bytes::{
    append, append_u64, le_bytes, lemma_le_digits, lemma_same_digits, lemma_same_parts,
};
use crate::curve::{g1_compressed, g2_compressed, gt_compressed, views, Fr, G1Point, G2Point};
use crate::hash::gt_encoding;

verus! {

/// Numbers, eight bytes each.
pub open spec fn numbers_encoding(values: Seq<usize>) -> Seq<u8>
    decreases values.len(),
{
    if values.len() == 0 {
        Seq::empty()
    } else {
        numbers_encoding(values.drop_last()) + le_bytes(values.last() as int, 8)
    }
}

/// Scalars, 32 bytes each.
pub open spec fn scalars_encoding(values: Seq<int>) -> Seq<u8>
    decreases values.len(),
{
    if values.len() == 0 {
        Seq::empty()
    } else {
        scalars_encoding(values.drop_last()) + le_bytes(values.last(), 32)
    }
}

/// Points of the first source group, compressed.
pub open spec fn g1_encoding(logs: Seq<int>) -> Seq<u8>
    decreases logs.len(),
{
    if logs.len() == 0 {
        Seq::empty()
    } else {
        g1_encoding(logs.drop_last()) + g1_compressed(logs.last())
    }
}

/// Points of the second source group, compressed.
pub open spec fn g2_encoding(logs: Seq<int>) -> Seq<u8>
    decreases logs.len(),
{
    if logs.len() == 0 {
        Seq::empty()
    } else {
        g2_encoding(logs.drop_last()) + g2_compressed(logs.last())
    }
}

pub fn append_numbers(output: &mut Vec<u8>, values: &[usize])
    ensures
        final(output)@ == old(output)@ + numbers_encoding(values@),
{
    let ghost start = output@;
    let mut index: usize = 0;
    assert(output@ =~= start + numbers_encoding(values@.take(0)));
    while index < values.len()
        invariant
            index <= values@.len(),
            output@ == start + numbers_encoding(values@.take(index as int)),
        decreases values@.len() - index,
    {
        append_u64(output, values[index] as u64);
        index = index + 1;
        proof {
            let now = values@.take(index as int);
            assert(now.drop_last() =~= values@.take(index - 1));
            assert(output@ =~= start + numbers_encoding(now));
        }
    }
    assert(values@.take(index as int) =~= values@);
}

pub fn append_scalars(output: &mut Vec<u8>, values: &[Fr])
    ensures
        final(output)@ == old(output)@ + scalars_encoding(views(values@)),
{
    let ghost start = output@;
    let ghost logs = views(values@);
    let mut index: usize = 0;
    assert(output@ =~= start + scalars_encoding(logs.take(0)));
    while index < values.len()
        invariant
            index <= values@.len(),
            logs == views(values@),
            output@ == start + scalars_encoding(logs.take(index as int)),
        decreases values@.len() - index,
    {
        let bytes = values[index].to_bytes_le();
        append(output, bytes.as_slice());
        index = index + 1;
        proof {
            let now = logs.take(index as int);
            assert(now.drop_last() =~= logs.take(index - 1));
            assert(output@ =~= start + scalars_encoding(now));
        }
    }
    assert(logs.take(index as int) =~= logs);
}

pub fn append_g1(output: &mut Vec<u8>, points: &[G1Point])
    ensures
        final(output)@ == old(output)@ + g1_encoding(views(points@)),
{
    let ghost start = output@;
    let ghost logs = views(points@);
    let mut index: usize = 0;
    assert(output@ =~= start + g1_encoding(logs.take(0)));
    while index < points.len()
        invariant
            index <= points@.len(),
            logs == views(points@),
            output@ == start + g1_encoding(logs.take(index as int)),
        decreases points@.len() - index,
    {
        let bytes = points[index].to_compressed();
        append(output, bytes.as_slice());
        index = index + 1;
        proof {
            let now = logs.take(index as int);
            assert(now.drop_last() =~= logs.take(index - 1));
            assert(output@ =~= start + g1_encoding(now));
        }
    }
    assert(logs.take(index as int) =~= logs);
}

pub fn append_g2(output: &mut Vec<u8>, points: &[G2Point])
    ensures
        final(output)@ == old(output)@ + g2_encoding(views(points@)),
{
    let ghost start = output@;
    let ghost logs = views(points@);
    let mut index: usize = 0;
    assert(output@ =~= start + g2_encoding(logs.take(0)));
    while index < points.len()
        invariant
            index <= points@.len(),
            logs == views(points@),
            output@ == start + g2_encoding(logs.take(index as int)),
        decreases points@.len() - index,
    {
        let bytes = points[index].to_compressed();
        append(output, bytes.as_slice());
        index = index + 1;
        proof {
            let now = logs.take(index as int);
            assert(now.drop_last() =~= logs.take(index - 1));
            assert(output@ =~= start + g2_encoding(now));
        }
    }
    assert(logs.take(index as int) =~= logs);
}

/// Whether a point of the first source group has an encoding of its length.
pub open spec fn is_g1_sized(log: int) -> bool {
    g1_compressed(log).len() == 48
}

/// Whether a point of the second source group has an encoding of its length.
pub open spec fn is_g2_sized(log: int) -> bool {
    g2_compressed(log).len() == 96
}

/// Whether an element of the target group has an encoding of its length.
pub open spec fn is_gt_sized(log: int) -> bool {
    log != 0 ==> gt_compressed(log).len() == 288
}

/// Encodings of target-group elements with something behind them are the same only where the
/// encodings are: the first byte tells the length.
pub proof fn lemma_same_gt(a: int, x: Seq<u8>, b: int, y: Seq<u8>)
    requires
        is_gt_sized(a),
        is_gt_sized(b),
        gt_encoding(a) + x == gt_encoding(b) + y,
    ensures
        gt_encoding(a) == gt_encoding(b),
        x == y,
{
    let (s, t) = (gt_encoding(a) + x, gt_encoding(b) + y);
    assert(s[0] == gt_encoding(a)[0] && t[0] == gt_encoding(b)[0]);
    lemma_same_parts(gt_encoding(a), x, gt_encoding(b), y);
}

/// The encoding of a target-group element tells the identity from the others, and the others
/// apart as their compressed encodings do.
pub proof fn law_gt_encoding_tells_elements_apart(a: int, b: int)
    requires
        gt_encoding(a) == gt_encoding(b),
    ensures
        a == 0 <==> b == 0,
        a != 0 ==> gt_compressed(a) == gt_compressed(b),
        a == 0 ==> gt_encoding(a) == seq![0u8],
        a != 0 ==> gt_encoding(a) == seq![1u8] + gt_compressed(a),
{
    assert(gt_encoding(a)[0] == if a == 0 {
        0u8
    } else {
        1u8
    });
    assert(gt_encoding(b)[0] == if b == 0 {
        0u8
    } else {
        1u8
    });
    if a != 0 {
        assert(gt_encoding(a).skip(1) =~= gt_compressed(a));
        assert(gt_encoding(b).skip(1) =~= gt_compressed(b));
    }
}

/// A list of strings, none of which a longer one in its place begins with, is told by the
/// strings one after the other.
pub proof fn lemma_same_items(a: Seq<Seq<u8>>, b: Seq<Seq<u8>>)
    requires
        a.len() == b.len(),
        a.flatten() == b.flatten(),
        forall|i: int, x: Seq<u8>, y: Seq<u8>|
            0 <= i < a.len() && #[trigger] (a[i] + x) == #[trigger] (b[i] + y) ==> a[i].len()
                == b[i].len(),
    ensures
        a == b,
    decreases a.len(),
{
    if a.len() > 0 {
        let (c, d) = (a.drop_first(), b.drop_first());
        assert(a[0] + c.flatten() == b[0] + d.flatten());
        lemma_same_parts(a[0], c.flatten(), b[0], d.flatten());
        assert forall|i: int, x: Seq<u8>, y: Seq<u8>|
            0 <= i < c.len() && #[trigger] (c[i] + x) == #[trigger] (d[i]
                + y) implies c[i].len() == d[i].len() by {
            assert(a[i + 1] + x == b[i + 1] + y);
        }
        lemma_same_items(c, d);
        assert(a =~= seq![a[0]] + c);
        assert(b =~= seq![b[0]] + d);
    } else {
        assert(a =~= b);
    }
}

/// A list of strings of one length is told by the strings one after the other.
pub proof fn lemma_same_sized_items(a: Seq<Seq<u8>>, b: Seq<Seq<u8>>, size: int)
    requires
        a.len() == b.len(),
        a.flatten() == b.flatten(),
        forall|i: int| 0 <= i < a.len() ==> (#[trigger] a[i]).len() == size,
        forall|i: int| 0 <= i < b.len() ==> (#[trigger] b[i]).len() == size,
    ensures
        a == b,
{
    lemma_same_items(a, b);
}

/// The encoding of a list of numbers is that of the numbers, one after the other.
proof fn lemma_numbers_flat(values: Seq<usize>)
    ensures
        numbers_encoding(values) == values.map_values(
            |value: usize| le_bytes(value as int, 8),
        ).flatten(),
        numbers_encoding(values).len() == 8 * values.len(),
    decreases values.len(),
{
    let f = |value: usize| le_bytes(value as int, 8);
    let items = values.map_values(f);
    if values.len() > 0 {
        lemma_numbers_flat(values.drop_last());
        let rest = values.drop_last().map_values(f);
        assert(items =~= rest.push(f(values.last())));
        rest.lemma_flatten_push(f(values.last()));
        lemma_le_digits(values.last() as int, 8);
    } else {
        assert(items.flatten() =~= Seq::<u8>::empty());
    }
}

/// The encoding of a list of numbers has eight bytes for each, and tells lists apart.
pub proof fn law_numbers_encoding(a: Seq<usize>, b: Seq<usize>)
    ensures
        numbers_encoding(a).len() == 8 * a.len(),
        numbers_encoding(a) == numbers_encoding(b) ==> a == b,
{
    let f = |value: usize| le_bytes(value as int, 8);
    lemma_numbers_flat(a);
    lemma_numbers_flat(b);
    if numbers_encoding(a) == numbers_encoding(b) {
        let (x, y) = (a.map_values(f), b.map_values(f));
        assert forall|i: int| 0 <= i < x.len() implies (#[trigger] x[i]).len() == 8 by {
            lemma_le_digits(a[i] as int, 8);
        }
        assert forall|i: int| 0 <= i < y.len() implies (#[trigger] y[i]).len() == 8 by {
            lemma_le_digits(b[i] as int, 8);
        }
        lemma_same_sized_items(x, y, 8);
        assert forall|i: int| 0 <= i < a.len() implies a[i] == b[i] by {
            assert(x[i] == y[i]);
            lemma_same_digits(a[i] as int, b[i] as int);
        }
        assert(a =~= b);
    }
}

proof fn lemma_scalars_flat(values: Seq<int>)
    requires
        forall|i: int| 0 <= i < values.len() ==> 0 <= #[trigger] values[i],
    ensures
        scalars_encoding(values) == values.map_values(|value: int| le_bytes(value, 32)).flatten(),
        scalars_encoding(values).len() == 32 * values.len(),
    decreases values.len(),
{
    let f = |value: int| le_bytes(value, 32);
    let items = values.map_values(f);
    if values.len() > 0 {
        lemma_scalars_flat(values.drop_last());
        let rest = values.drop_last().map_values(f);
        assert(items =~= rest.push(f(values.last())));
        rest.lemma_flatten_push(f(values.last()));
        lemma_le_digits(values.last(), 32);
    } else {
        assert(items.flatten() =~= Seq::<u8>::empty());
    }
}

/// Scalars with the same 32 digits are the same.
pub proof fn lemma_same_scalar(a: int, b: int)
    requires
        0 <= a < order(),
        0 <= b < order(),
        le_bytes(a, 32) == le_bytes(b, 32),
    ensures
        a == b,
{
    crate::naf::lemma_scalar_bits();
    lemma_pow2_strictly_increases(255, 256);
    lemma_le_digits(a, 32);
    lemma_le_digits(b, 32);
}

/// The encoding of a list of scalars has 32 bytes for each, and tells lists apart.
pub proof fn law_scalars_encoding(a: Seq<int>, b: Seq<int>)
    requires
        forall|i: int| 0 <= i < a.len() ==> 0 <= #[trigger] a[i] < order(),
        forall|i: int| 0 <= i < b.len() ==> 0 <= #[trigger] b[i] < order(),
    ensures
        scalars_encoding(a).len() == 32 * a.len(),
        scalars_encoding(a) == scalars_encoding(b) ==> a == b,
{
    let f = |value: int| le_bytes(value, 32);
    lemma_scalars_flat(a);
    lemma_scalars_flat(b);
    if scalars_encoding(a) == scalars_encoding(b) {
        let (x, y) = (a.map_values(f), b.map_values(f));
        assert forall|i: int| 0 <= i < x.len() implies (#[trigger] x[i]).len() == 32 by {
            lemma_le_digits(a[i], 32);
        }
        assert forall|i: int| 0 <= i < y.len() implies (#[trigger] y[i]).len() == 32 by {
            lemma_le_digits(b[i], 32);
        }
        lemma_same_sized_items(x, y, 32);
        assert forall|i: int| 0 <= i < a.len() implies a[i] == b[i] by {
            assert(x[i] == y[i]);
            lemma_same_scalar(a[i], b[i]);
        }
        assert(a =~= b);
    }
}

proof fn lemma_g1_flat(logs: Seq<int>)
    requires
        forall|i: int| 0 <= i < logs.len() ==> is_g1_sized(#[trigger] logs[i]),
    ensures
        g1_encoding(logs) == logs.map_values(|log: int| g1_compressed(log)).flatten(),
        g1_encoding(logs).len() == 48 * logs.len(),
    decreases logs.len(),
{
    let f = |log: int| g1_compressed(log);
    let items = logs.map_values(f);
    if logs.len() > 0 {
        lemma_g1_flat(logs.drop_last());
        let rest = logs.drop_last().map_values(f);
        assert(items =~= rest.push(f(logs.last())));
        rest.lemma_flatten_push(f(logs.last()));
        assert(is_g1_sized(logs[logs.len() - 1]));
    } else {
        assert(items.flatten() =~= Seq::<u8>::empty());
    }
}

/// The encoding of a list of points has 48 bytes for each, and tells lists apart as their
/// compressed encodings do.
pub proof fn law_g1_encoding(a: Seq<int>, b: Seq<int>)
    requires
        forall|i: int| 0 <= i < a.len() ==> is_g1_sized(#[trigger] a[i]),
        forall|i: int| 0 <= i < b.len() ==> is_g1_sized(#[trigger] b[i]),
    ensures
        g1_encoding(a).len() == 48 * a.len(),
        g1_encoding(a) == g1_encoding(b) ==> a.len() == b.len() && forall|i: int|
            0 <= i < a.len() ==> g1_compressed(#[trigger] a[i]) == g1_compressed(b[i]),
{
    let f = |log: int| g1_compressed(log);
    lemma_g1_flat(a);
    lemma_g1_flat(b);
    if g1_encoding(a) == g1_encoding(b) {
        let (x, y) = (a.map_values(f), b.map_values(f));
        assert forall|i: int| 0 <= i < x.len() implies (#[trigger] x[i]).len() == 48 by {
            assert(is_g1_sized(a[i]));
        }
        assert forall|i: int| 0 <= i < y.len() implies (#[trigger] y[i]).len() == 48 by {
            assert(is_g1_sized(b[i]));
        }
        lemma_same_sized_items(x, y, 48);
        assert forall|i: int| 0 <= i < a.len() implies g1_compressed(#[trigger] a[i])
            == g1_compressed(b[i]) by {
            assert(x[i] == y[i]);
        }
    }
}

proof fn lemma_g2_flat(logs: Seq<int>)
    requires
        forall|i: int| 0 <= i < logs.len() ==> is_g2_sized(#[trigger] logs[i]),
    ensures
        g2_encoding(logs) == logs.map_values(|log: int| g2_compressed(log)).flatten(),
        g2_encoding(logs).len() == 96 * logs.len(),
    decreases logs.len(),
{
    let f = |log: int| g2_compressed(log);
    let items = logs.map_values(f);
    if logs.len() > 0 {
        lemma_g2_flat(logs.drop_last());
        let rest = logs.drop_last().map_values(f);
        assert(items =~= rest.push(f(logs.last())));
        rest.lemma_flatten_push(f(logs.last()));
        assert(is_g2_sized(logs[logs.len() - 1]));
    } else {
        assert(items.flatten() =~= Seq::<u8>::empty());
    }
}

/// The encoding of a list of points has 96 bytes for each, and tells lists apart as their
/// compressed encodings do.
pub proof fn law_g2_encoding(a: Seq<int>, b: Seq<int>)
    requires
        forall|i: int| 0 <= i < a.len() ==> is_g2_sized(#[trigger] a[i]),
        forall|i: int| 0 <= i < b.len() ==> is_g2_sized(#[trigger] b[i]),
    ensures
        g2_encoding(a).len() == 96 * a.len(),
        g2_encoding(a) == g2_encoding(b) ==> a.len() == b.len() && forall|i: int|
            0 <= i < a.len() ==> g2_compressed(#[trigger] a[i]) == g2_compressed(b[i]),
{
    let f = |log: int| g2_compressed(log);
    lemma_g2_flat(a);
    lemma_g2_flat(b);
    if g2_encoding(a) == g2_encoding(b) {
        let (x, y) = (a.map_values(f), b.map_values(f));
        assert forall|i: int| 0 <= i < x.len() implies (#[trigger] x[i]).len() == 96 by {
            assert(is_g2_sized(a[i]));
        }
        assert forall|i: int| 0 <= i < y.len() implies (#[trigger] y[i]).len() == 96 by {
            assert(is_g2_sized(b[i]));
        }
        lemma_same_sized_items(x, y, 96);
        assert forall|i: int| 0 <= i < a.len() implies g2_compressed(#[trigger] a[i])
            == g2_compressed(b[i]) by {
            assert(x[i] == y[i]);
        }
    }
}

} // verus!
