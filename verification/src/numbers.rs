//! Lists of numbers, and numbers of several limbs.
use vstd::prelude::*;

verus! {

/// The integer of four limbs, the least significant first.
#[verifier::opaque]
pub open spec fn limbs_value(limbs: Seq<u64>) -> int {
    limbs[0] + 0x1_0000_0000_0000_0000 * (limbs[1] + 0x1_0000_0000_0000_0000 * (limbs[2]
        + 0x1_0000_0000_0000_0000 * limbs[3]))
}

/// A copy of a list of numbers.
pub fn copy_numbers(values: &[usize]) -> (copy: Vec<usize>)
    ensures
        copy@ == values@,
{
    let mut copy: Vec<usize> = Vec::new();
    while copy.len() < values.len()
        invariant
            copy@.len() <= values@.len(),
            forall|i: int| 0 <= i < copy@.len() ==> #[trigger] copy@[i] == values@[i],
        decreases values@.len() - copy@.len(),
    {
        copy.push(values[copy.len()]);
    }
    assert(copy@ =~= values@);
    copy
}

/// Whether two lists of numbers are the same.
pub fn numbers_equal(left: &Vec<usize>, right: &Vec<usize>) -> (equal: bool)
    ensures
        equal == (left@ == right@),
{
    if left.len() != right.len() {
        return false;
    }
    let mut index: usize = 0;
    while index < left.len()
        invariant
            index <= left@.len() == right@.len(),
            forall|i: int| 0 <= i < index ==> left@[i] == right@[i],
        decreases left@.len() - index,
    {
        if left[index] != right[index] {
            return false;
        }
        index = index + 1;
    }
    assert(left@ =~= right@);
    true
}

} // verus!
