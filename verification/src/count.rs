//! Counts as far as a machine integer holds them.

use vstd::prelude::*;

verus! {

/// A count as far as `usize` can hold it.
pub open spec fn capped(count: nat) -> usize {
    if count > usize::MAX {
        usize::MAX
    } else {
        count as usize
    }
}

} // verus!
