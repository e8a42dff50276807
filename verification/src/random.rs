//! Random numbers.

use rand::Rng;
use vstd::prelude::*;

verus! {

/// Draws a number below `bound` with `rand::Rng::gen_range` from the thread's generator. The number
/// is in range; which one it is depends on chance.
#[verifier::external_body]
pub(crate) fn draw_below(bound: u128) -> (result: u128)
    requires
        bound > 0,
    ensures
        result < bound,
{
    rand::thread_rng().gen_range(0..bound)
}

} // verus!
