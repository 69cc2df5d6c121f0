//! Small shared helpers.

use vstd::prelude::*;

verus! {

/// Whether a single coordinate lies on the 8-wide board.
pub fn inrange(elem: isize) -> (r: bool)
    ensures
        r == (0 <= elem < 8),
{
    if (elem < 0) || (elem >= 8) {
        return false;
    }
    return true;
}

} // verus!
