//! Drawing scalars.
use vstd::prelude::*;

use crate::curve::{views, Fr, ScalarRng};

verus! {

/// Draws that are all zero.
pub open spec fn zero_draws(count: int) -> Seq<int> {
    Seq::new(count as nat, |i: int| 0int)
}

/// The draws that are not zero.
pub open spec fn kept(draws: Seq<int>) -> Seq<int> {
    draws.filter(|draw: int| draw != 0)
}

/// What a source drew between two states of its record.
pub open spec fn drawn_since(before: Seq<int>, after: Seq<int>) -> Seq<int> {
    after.skip(before.len() as int)
}

/// What a source drew since it was empty is its record.
pub proof fn lemma_drawn_since_start(after: Seq<int>)
    ensures
        drawn_since(Seq::empty(), after) == after,
{
    assert(drawn_since(Seq::empty(), after) =~= after);
}

/// Whether a scalar that is not zero was drawn for, with the given outcome: the draws
/// end with the first that is not zero, or, with none, after `u64::MAX` zeros.
pub open spec fn is_nonzero_draw(draws: Seq<int>, outcome: Option<int>) -> bool {
    match outcome {
        Some(value) => {
            &&& value != 0
            &&& 1 <= draws.len() <= u64::MAX
            &&& draws == zero_draws(draws.len() - 1).push(value)
        },
        None => draws == zero_draws(u64::MAX as int),
    }
}

/// Whether `count` scalars that are not zero were drawn for, with the given outcome:
/// the draws end with the last scalar that was asked for, or, with fewer, after
/// `u64::MAX` zeros in a row.
pub open spec fn are_nonzero_draws(draws: Seq<int>, count: int, outcome: Option<Seq<int>>) -> bool {
    match outcome {
        Some(values) => {
            &&& values == kept(draws)
            &&& values.len() == count
            &&& if count == 0 {
                draws.len() == 0
            } else {
                draws.last() != 0
            }
        },
        None => {
            &&& kept(draws).len() < count
            &&& u64::MAX <= draws.len()
            &&& draws.skip(draws.len() - u64::MAX) == zero_draws(u64::MAX as int)
        },
    }
}

/// Draws a scalar that is not zero. A source that yields nothing but zeros is
/// given up on after `u64::MAX` draws.
pub fn sample_nonzero<R: ScalarRng>(rng: &mut R) -> (result: Option<Fr>)
    ensures
        old(rng).drawn().is_prefix_of(final(rng).drawn()),
        is_nonzero_draw(
            drawn_since(old(rng).drawn(), final(rng).drawn()),
            match result {
                Some(scalar) => Some(scalar@),
                None => None,
            },
        ),
{
    let ghost start = rng.drawn();
    let mut attempts: u64 = 0;
    assert(rng.drawn() =~= start + zero_draws(0));
    while attempts < u64::MAX
        invariant
            start == old(rng).drawn(),
            rng.drawn() == start + zero_draws(attempts as int),
        decreases u64::MAX - attempts,
    {
        let candidate = rng.random_scalar();
        if !candidate.is_zero() {
            proof {
                assert(drawn_since(start, rng.drawn()) =~= zero_draws(attempts as int).push(
                    candidate@,
                ));
            }
            return Some(candidate);
        }
        attempts = attempts + 1;
        assert(rng.drawn() =~= start + zero_draws(attempts as int));
    }
    assert(drawn_since(start, rng.drawn()) =~= zero_draws(u64::MAX as int));
    None
}

/// `count` scalars drawn from `rng`.
pub fn draw<R: ScalarRng>(rng: &mut R, count: usize) -> (scalars: Vec<Fr>)
    ensures
        scalars@.len() == count,
        final(rng).drawn() == old(rng).drawn() + views(scalars@),
{
    let ghost start = rng.drawn();
    let mut scalars: Vec<Fr> = Vec::new();
    assert(rng.drawn() =~= start + views(scalars@));
    while scalars.len() < count
        invariant
            scalars@.len() <= count,
            rng.drawn() == start + views(scalars@),
        decreases count - scalars@.len(),
    {
        scalars.push(rng.random_scalar());
        assert(rng.drawn() =~= start + views(scalars@));
    }
    scalars
}

/// `count` scalars drawn from `rng`, none of which is zero.
pub fn draw_nonzero<R: ScalarRng>(rng: &mut R, count: usize) -> (result: Option<Vec<Fr>>)
    ensures
        old(rng).drawn().is_prefix_of(final(rng).drawn()),
        are_nonzero_draws(
            drawn_since(old(rng).drawn(), final(rng).drawn()),
            count as int,
            match result {
                Some(scalars) => Some(views(scalars@)),
                None => None,
            },
        ),
        result matches Some(scalars) ==> scalars@.len() == count && forall|i: int|
            0 <= i < count ==> (#[trigger] scalars@[i])@ != 0,
{
    let ghost start = rng.drawn();
    let mut scalars: Vec<Fr> = Vec::new();
    proof {
        lemma_no_zero_kept(0);
        assert(drawn_since(start, start) =~= zero_draws(0));
        assert(views(scalars@) =~= Seq::<int>::empty());
    }
    while scalars.len() < count
        invariant
            scalars@.len() <= count,
            start == old(rng).drawn(),
            start.is_prefix_of(rng.drawn()),
            are_nonzero_draws(
                drawn_since(start, rng.drawn()),
                scalars@.len() as int,
                Some(views(scalars@)),
            ),
            forall|i: int| 0 <= i < scalars@.len() ==> (#[trigger] scalars@[i])@ != 0,
        decreases count - scalars@.len(),
    {
        let ghost before = rng.drawn();
        let ghost earlier = views(scalars@);
        let sampled = sample_nonzero(rng);
        let ghost last = drawn_since(before, rng.drawn());
        proof {
            assert(drawn_since(start, rng.drawn()) =~= drawn_since(start, before) + last);
            lemma_kept_joined(drawn_since(start, before), last);
        }
        match sampled {
            Some(scalar) => {
                scalars.push(scalar);
                assert(views(scalars@) =~= earlier + seq![scalar@]);
            },
            None => {
                let ghost draws = drawn_since(start, rng.drawn());
                assert(draws.skip(draws.len() - u64::MAX) =~= last);
                return None;
            },
        }
    }
    Some(scalars)
}

/// Of the draws for one scalar only the outcome is kept.
proof fn lemma_kept_joined(earlier: Seq<int>, last: Seq<int>)
    ensures
        kept(earlier + last) == kept(earlier) + kept(last),
        forall|value: int|
            #[trigger] is_nonzero_draw(last, Some(value)) ==> kept(last) == seq![value],
        is_nonzero_draw(last, None) ==> kept(last) == Seq::<int>::empty(),
{
    let keep = |draw: int| draw != 0;
    Seq::filter_distributes_over_add(earlier, last, keep);
    if is_nonzero_draw(last, None) {
        lemma_no_zero_kept(u64::MAX as int);
    }
    assert forall|value: int| #[trigger] is_nonzero_draw(last, Some(value)) implies kept(last)
        == seq![value] by {
        let zeros = zero_draws(last.len() - 1);
        lemma_no_zero_kept(last.len() - 1);
        Seq::filter_distributes_over_add(zeros, seq![value], keep);
        assert(zeros.push(value) =~= zeros + seq![value]);
        reveal(Seq::filter);
        assert(seq![value].drop_last() =~= Seq::<int>::empty());
        assert(kept(seq![value]) =~= seq![value]);
    }
}

proof fn lemma_no_zero_kept(count: int)
    requires
        0 <= count,
    ensures
        kept(zero_draws(count)) == Seq::<int>::empty(),
    decreases count,
{
    reveal(Seq::filter);
    if count > 0 {
        lemma_no_zero_kept(count - 1);
        assert(zero_draws(count).drop_last() =~= zero_draws(count - 1));
    }
}

/// The residues of sequences of scalars.
pub open spec fn nested_views<T: View<V = int>>(rows: Seq<Vec<T>>) -> Seq<Seq<int>> {
    Seq::new(rows.len(), |i: int| views(rows[i]@))
}

/// The draws that are kept are those that are not zero, in their order.
pub proof fn law_kept_draws(draws: Seq<int>, next: int)
    ensures
        kept(Seq::empty()) == Seq::<int>::empty(),
        kept(draws.push(next)) == if next == 0 {
            kept(draws)
        } else {
            kept(draws).push(next)
        },
        forall|i: int| 0 <= i < kept(draws).len() ==> #[trigger] kept(draws)[i] != 0,
{
    let keep = |draw: int| draw != 0;
    lemma_no_zero_kept(0);
    assert(zero_draws(0) =~= Seq::<int>::empty());
    reveal(Seq::filter);
    assert(draws.push(next).drop_last() =~= draws);
    assert forall|i: int| 0 <= i < kept(draws).len() implies #[trigger] kept(draws)[i] != 0 by {
        draws.lemma_filter_pred(keep, i);
    }
}

/// A source is given up on only where it has yielded `u64::MAX` zeros in a row, and no fewer.
pub proof fn law_only_zeros_exhaust_a_source(draws: Seq<int>, count: int)
    ensures
        is_nonzero_draw(draws, None) || are_nonzero_draws(draws, count, None) ==> draws.len()
            >= u64::MAX && forall|i: int|
            draws.len() - u64::MAX <= i < draws.len() ==> #[trigger] draws[i] == 0,
{
    if is_nonzero_draw(draws, None) || are_nonzero_draws(draws, count, None) {
        let tail = draws.skip(draws.len() - u64::MAX);
        assert forall|i: int| draws.len() - u64::MAX <= i < draws.len() implies #[trigger] draws[i]
            == 0 by {
            assert(tail[i - (draws.len() - u64::MAX)] == draws[i]);
            assert(zero_draws(u64::MAX as int)[i - (draws.len() - u64::MAX)] == 0);
        }
    }
}

/// A scalar that was drawn for is the last draw and the only one that is not zero; as many as
/// were drawn for are all the draws that are not zero, and the last draw is the last of them.
pub proof fn law_nonzero_draws(draws: Seq<int>, value: int, values: Seq<int>, count: int)
    ensures
        is_nonzero_draw(draws, Some(value)) ==> {
            &&& draws.len() > 0
            &&& draws.last() == value
            &&& value != 0
            &&& forall|i: int| 0 <= i < draws.len() - 1 ==> #[trigger] draws[i] == 0
        },
        are_nonzero_draws(draws, count, Some(values)) ==> {
            &&& values.len() == count
            &&& values == kept(draws)
            &&& count == 0 ==> draws.len() == 0
            &&& count > 0 ==> draws.last() != 0
        },
{
    if is_nonzero_draw(draws, Some(value)) {
        let zeros = zero_draws(draws.len() - 1);
        assert forall|i: int| 0 <= i < draws.len() - 1 implies #[trigger] draws[i] == 0 by {
            assert(zeros.push(value)[i] == zeros[i]);
        }
    }
}

/// Rows of one width, drawn one after the other, are the stretches of that width.
pub proof fn lemma_row(rows: Seq<Seq<int>>, width: int, i: int)
    requires
        0 <= width,
        0 <= i <= rows.len(),
        forall|k: int| 0 <= k < rows.len() ==> (#[trigger] rows[k]).len() == width,
    ensures
        rows.flatten().len() == rows.len() * width,
        0 <= i * width <= rows.len() * width,
        (i + 1) * width == i * width + width,
        i < rows.len() ==> (i + 1) * width <= rows.len() * width && rows[i]
            == rows.flatten().subrange(i * width, (i + 1) * width),
    decreases rows.len(),
{
    assert(0 <= i * width <= rows.len() * width) by (nonlinear_arith)
        requires
            0 <= i <= rows.len(),
            0 <= width,
    ;
    assert((i + 1) * width == i * width + width) by (nonlinear_arith);
    if rows.len() > 0 {
        let rest = rows.drop_last();
        let last = rows.last();
        let count = rest.len() as int;
        let before = if i < count {
            i
        } else {
            count
        };
        lemma_row(rest, width, before);
        rest.lemma_flatten_push(last);
        assert(rest.push(last) =~= rows);
        assert((count + 1) * width == count * width + width) by (nonlinear_arith);
        if i < count {
            assert(rows[i] == rest[i]);
            assert(rows[i] =~= rows.flatten().subrange(i * width, (i + 1) * width));
        } else if i == count {
            assert(rows[i] =~= rows.flatten().subrange(i * width, (i + 1) * width));
        }
    }
}

} // verus!
