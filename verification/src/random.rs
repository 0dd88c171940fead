//! The one place where chance enters the library.

use vstd::prelude::*;

verus! {

/// Draws a number from `0` up to, but not including, `bound`.
///
/// Calls `rand::thread_rng()` and `rand::Rng::gen_range` on the range
/// `0..bound`. Taken on trust, not proved: that the number drawn lies in that
/// range, which is what `gen_range` documents for a half-open range of
/// integers. `gen_range` panics on an empty range, which the precondition
/// rules out; `thread_rng` panics where the operating system hands it no seed.
/// Nothing is said of which number comes out, nor that two draws agree.
#[verifier::external_body]
pub(crate) fn random_below(bound: usize) -> (drawn: usize)
    requires
        bound > 0,
    ensures
        drawn < bound,
{
    rand::Rng::gen_range(&mut rand::thread_rng(), 0..bound)
}

} // verus!
