//! Calls into code that is not verified here, each behind a stated contract.

use vstd::prelude::*;
use crate::bins::ascending;

verus! {

/// Bounds `value` by `low` and `high`, by `num::clamp`.
///
/// Claimed of it: it gives `low` for a value below `low`, `high` for a value
/// above `high`, and the value itself otherwise. The bounds must be in order.
#[verifier::external_body]
pub(crate) fn clamp_between(value: i128, low: i128, high: i128) -> (r: i128)
    requires
        low <= high,
    ensures
        value < low ==> r == low,
        value > high ==> r == high,
        low <= value <= high ==> r == value,
{
    num::clamp(value, low, high)
}

/// Sorts the vector in place, by the standard library's `sort_unstable` on slices.
///
/// Claimed of it: afterwards the vector holds the same items, each as often
/// as before, in ascending order.
#[verifier::external_body]
pub(crate) fn sort_ascending(items: &mut Vec<i128>)
    ensures
        ascending(final(items)@),
        final(items)@.to_multiset() == old(items)@.to_multiset(),
{
    items.sort_unstable();
}

} // verus!
