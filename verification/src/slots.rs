//! The valid slots of a batch.
use vstd::prelude::*;

use crate::algebra::sums::{lemma_sum_ext, products, sum};

verus! {

/// The valid slots before `end`, in order.
pub open spec fn valid_before(valid: Seq<bool>, end: int) -> Seq<usize>
    decreases end,
{
    if end <= 0 {
        Seq::empty()
    } else if valid[end - 1] {
        valid_before(valid, end - 1).push((end - 1) as usize)
    } else {
        valid_before(valid, end - 1)
    }
}

/// How many slots are valid.
pub open spec fn valid_total(valid: Seq<bool>) -> int {
    valid_before(valid, valid.len() as int).len() as int
}

pub proof fn lemma_valid_before(valid: Seq<bool>, end: int)
    requires
        0 <= end <= valid.len() <= usize::MAX,
    ensures
        valid_before(valid, end).len() <= end,
        forall|i: int|
            0 <= i < valid_before(valid, end).len() ==> (#[trigger] valid_before(valid, end)[i])
                < end && valid[valid_before(valid, end)[i] as int],
    decreases end,
{
    if end > 0 {
        lemma_valid_before(valid, end - 1);
    }
}

/// The valid slots, in order.
pub fn valid_slots(valid: &Vec<bool>) -> (slots: Vec<usize>)
    ensures
        slots@ == valid_before(valid@, valid@.len() as int),
        forall|i: int| 0 <= i < slots@.len() ==> (#[trigger] slots@[i]) < valid@.len(),
{
    let mut slots: Vec<usize> = Vec::new();
    let mut slot: usize = 0;
    while slot < valid.len()
        invariant
            slot <= valid@.len(),
            slots@ == valid_before(valid@, slot as int),
        decreases valid@.len() - slot,
    {
        if valid[slot] {
            slots.push(slot);
        }
        slot = slot + 1;
    }
    proof {
        lemma_valid_before(valid@, valid@.len() as int);
    }
    slots
}

pub open spec fn selected_terms(a: Seq<int>, b: Seq<int>, slots: Seq<usize>) -> spec_fn(int) -> int {
    |i: int| a[slots[i] as int] * b[slots[i] as int]
}

/// Slots that are not valid add nothing to a sum of products with what is zero there.
pub proof fn lemma_selected(a: Seq<int>, b: Seq<int>, valid: Seq<bool>, end: int)
    requires
        0 <= end <= valid.len() <= usize::MAX,
        forall|i: int| 0 <= i < end && !valid[i] ==> #[trigger] a[i] == 0,
    ensures
        sum(
            selected_terms(a, b, valid_before(valid, end)),
            0,
            valid_before(valid, end).len() as int,
        ) == sum(products(a, b), 0, end),
    decreases end,
{
    if end > 0 {
        lemma_selected(a, b, valid, end - 1);
        let shorter = valid_before(valid, end - 1);
        let slots = valid_before(valid, end);
        let f = selected_terms(a, b, slots);
        let g = selected_terms(a, b, shorter);
        if valid[end - 1] {
            let n = shorter.len() as int;
            assert forall|i: int| 0 <= i < n implies #[trigger] f(i) == g(i) by {
                assert(slots[i] == shorter[i]);
            }
            lemma_sum_ext(f, g, 0, n);
            assert(slots[n] == end - 1);
            assert(sum(f, 0, n + 1) == sum(f, 0, n) + f(n));
        } else {
            assert(a[end - 1] == 0);
            assert(0 * b[end - 1] == 0);
        }
    }
}

/// The valid slots before an end are those that are marked, each once and in ascending order.
pub proof fn law_valid_slots(valid: Seq<bool>, end: int)
    requires
        0 <= end <= valid.len() <= usize::MAX,
    ensures
        forall|slot: int|
            0 <= slot < end ==> (#[trigger] valid_before(valid, end).contains(slot as usize)
                <==> valid[slot]),
        forall|i: int|
            0 <= i < valid_before(valid, end).len() ==> (#[trigger] valid_before(valid, end)[i])
                < end,
        forall|i: int, j: int|
            0 <= i < j < valid_before(valid, end).len() ==> (#[trigger] valid_before(
                valid,
                end,
            )[i]) < (#[trigger] valid_before(valid, end)[j]),
    decreases end,
{
    if end > 0 {
        law_valid_slots(valid, end - 1);
        let rest = valid_before(valid, end - 1);
        let now = valid_before(valid, end);
        assert forall|slot: int| 0 <= slot < end implies (#[trigger] now.contains(slot as usize)
            <==> valid[slot]) by {
            if slot < end - 1 {
                assert(rest.contains(slot as usize) <==> valid[slot]);
                if rest.contains(slot as usize) {
                    let i = rest.index_of(slot as usize);
                    assert(now[i] == slot);
                }
                if now.contains(slot as usize) {
                    let i = now.index_of(slot as usize);
                    assert(i < rest.len());
                    assert(rest[i] == slot);
                }
            } else {
                if now.contains(slot as usize) {
                    let i = now.index_of(slot as usize);
                    if i < rest.len() {
                        assert(rest[i] < end - 1);
                    }
                }
                if valid[slot] {
                    assert(now[now.len() - 1] == slot);
                }
            }
        }
    }
}

} // verus!
