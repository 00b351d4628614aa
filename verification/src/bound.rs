//! Ends of ranges.

use std::ops::Bound;
use vstd::prelude::*;

verus! {

/// `std::ops::Bound`, with the three variants that its definition has. Nothing else is claimed of
/// it.
#[verifier::external_type_specification]
#[verifier::reject_recursive_types(T)]
pub struct ExBound<T>(Bound<T>);

/// Applies `f` to the value of a bound, if it has one.
pub fn map_bound<T, U, F: FnOnce(T) -> U>(bound: Bound<T>, f: F) -> (mapped: Bound<U>)
    requires
        match bound {
            Bound::Unbounded => true,
            Bound::Included(x) => f.requires((x,)),
            Bound::Excluded(x) => f.requires((x,)),
        },
    ensures
        match bound {
            Bound::Unbounded => mapped is Unbounded,
            Bound::Included(x) => mapped matches Bound::Included(y) && f.ensures((x,), y),
            Bound::Excluded(x) => mapped matches Bound::Excluded(y) && f.ensures((x,), y),
        },
{
    match bound {
        Bound::Unbounded => Bound::Unbounded,
        Bound::Included(x) => Bound::Included(f(x)),
        Bound::Excluded(x) => Bound::Excluded(f(x)),
    }
}

} // verus!
