use vstd::prelude::*;

verus! {

/// Number of levels that ship with the game.
pub fn total_levels() -> (n: usize)
    ensures
        n == 10,
{
    10
}

} // verus!
