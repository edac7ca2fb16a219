//! Chance: the one place where the simulation draws random numbers.

use vstd::prelude::*;

verus! {

/// `rand::Rng::gen_range` on the thread's generator, `rand::thread_rng()`, over
/// the inclusive range from `lo` to `hi`: some number of that range. Nothing is
/// said of which number is drawn. The call panics on an empty range, which the
/// precondition excludes; the generator itself panics at its first use if the
/// operating system cannot seed it, which no precondition can exclude.
#[verifier::external_body]
pub(crate) fn random_between(lo: i32, hi: i32) -> (r: i32)
    requires
        lo <= hi,
    ensures
        lo <= r <= hi,
{
    rand::Rng::gen_range(&mut rand::thread_rng(), lo..=hi)
}

} // verus!
