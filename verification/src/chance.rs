//! The process-wide random source.

use rand::seq::SliceRandom;
use rand::Rng;
use vstd::prelude::*;

verus! {

/// Calls `Rng::gen_range` of `rand` on the thread-local generator with the
/// closed range from zero to `high`. The range is never empty, so the call
/// returns, and what it returns lies in the range; nothing else is promised.
#[verifier::external_body]
pub(crate) fn draw_up_to(high: u64) -> (r: u64)
    ensures
        r <= high,
{
    rand::thread_rng().gen_range(0..=high)
}

/// Calls `SliceRandom::shuffle` of `rand` on the thread-local generator. The
/// shuffle only swaps elements, so the vector holds afterwards what it held
/// before, each element as often; their order is left open.
#[verifier::external_body]
pub(crate) fn shuffle(order: &mut Vec<usize>)
    ensures
        final(order)@.to_multiset() == old(order)@.to_multiset(),
{
    order.shuffle(&mut rand::thread_rng());
}

} // verus!
