//! Conversion of the one-based indices handed over by the calling
//! environment into zero-based positions.

use vstd::prelude::*;

verus! {

/// Converts a one-based integer index into a zero-based position.
pub fn to_zero_based_integer(value: i32) -> (position: usize)
    requires
        value >= 1,
    ensures
        position == value - 1,
{
    (value - 1) as usize
}

/// Converts a one-based index that has already been truncated to an
/// integer into a zero-based position.
pub fn to_zero_based_index(index: isize) -> (position: usize)
    requires
        index >= 1,
    ensures
        position == index - 1,
{
    (index - 1) as usize
}

/// Converts a whole one-based ordering (such as the order in which rows
/// enter the risk set) into zero-based positions, element by element.
pub fn zero_based_order(values: &[i32]) -> (order: Vec<usize>)
    requires
        forall|i: int| 0 <= i < values@.len() ==> values@[i] >= 1,
    ensures
        order@.len() == values@.len(),
        forall|i: int| 0 <= i < values@.len() ==> order@[i] == values@[i] - 1,
{
    let mut order: Vec<usize> = Vec::with_capacity(values.len());
    let mut i: usize = 0;
    while i < values.len()
        invariant
            i <= values@.len(),
            order@.len() == i,
            forall|m: int| 0 <= m < values@.len() ==> values@[m] >= 1,
            forall|m: int| 0 <= m < i ==> order@[m] == values@[m] - 1,
        decreases values@.len() - i,
    {
        order.push(to_zero_based_integer(values[i]));
        i += 1;
    }
    order
}

} // verus!
