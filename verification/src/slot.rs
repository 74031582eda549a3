//! A place for a value whose type is known only at run time.

use vstd::prelude::*;

verus! {

/// A place for one value.
pub struct Slot<T> {
    pub item: T,
}

/// Puts a value in its place.
pub fn hold<T>(item: T) -> (r: Slot<T>)
    ensures
        r.item == item,
{
    Slot { item }
}

} // verus!
