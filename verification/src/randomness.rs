use vstd::prelude::*;
use rand::seq::SliceRandom;
use rand::Rng;

verus! {

/// A random 32-bit number from the thread-local generator (`rand::random`).
/// Nothing is promised of its value.
#[verifier::external_body]
pub(crate) fn random_prefix() -> u32 {
    rand::random::<u32>()
}

/// A random number in `low..high`, drawn with `rand::Rng::random_range` from
/// the thread-local generator (`rand::rng`). The range must not be empty:
/// `random_range` panics on an empty range.
#[verifier::external_body]
pub(crate) fn random_millis(low: u64, high: u64) -> (r: u64)
    requires
        low < high,
    ensures
        low <= r < high,
{
    rand::rng().random_range(low..high)
}

/// Puts the lines in a random order (`rand::seq::SliceRandom::shuffle` with the
/// thread-local generator). The shuffle only swaps elements: the same lines stay,
/// each as often as before. Which order comes out is left open.
#[verifier::external_body]
pub(crate) fn shuffle_lines(lines: &mut Vec<String>)
    ensures
        final(lines)@.len() == old(lines)@.len(),
        final(lines).deep_view().to_multiset() == old(lines).deep_view().to_multiset(),
{
    lines.shuffle(&mut rand::rng());
}

} // verus!
