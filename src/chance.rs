use rand::Rng;
use vstd::prelude::*;

verus! {

/// Relies on rand's `thread_rng` and `Rng::gen_range`: an integer drawn
/// from the half-open range `lo..hi`, which is never empty here (an empty
/// range would make `gen_range` panic).
#[verifier::external_body]
pub(crate) fn random_in(lo: i32, hi: i32) -> (r: i32)
    requires
        lo < hi,
    ensures
        lo <= r < hi,
{
    rand::thread_rng().gen_range(lo..hi)
}

/// A shade drawn from `lo..hi`, as a colour channel.
pub(crate) fn random_shade(lo: u8, hi: u8) -> (r: u8)
    requires
        lo < hi,
    ensures
        lo <= r < hi,
{
    let v = random_in(lo as i32, hi as i32);
    v as u8
}

} // verus!
