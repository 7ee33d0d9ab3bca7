//! The random stream that drives generation, and the three draws made from it.
//!
//! The stream is the seeded generator of `bevy_turborand`. What its draws
//! return is not proved here, only assumed as far as stated below; every
//! function that draws is verified for whatever the stream hands back.

use bevy_turborand::DelegatedRng;
use bevy_turborand::RngComponent;
use vstd::prelude::*;

verus! {

/// The generator of `bevy_turborand`, carried through as an opaque value.
#[verifier::external_type_specification]
#[verifier::external_body]
pub struct ExRngComponent(RngComponent);

/// A draw from `lo..hi` by `DelegatedRng::usize`. Assumed: on a range that
/// is not empty the generator returns a value of the range. On an empty
/// range it panics or returns `lo`, so such a range is kept out.
#[verifier::external_body]
pub(crate) fn draw_usize(rng: &mut RngComponent, lo: usize, hi: usize) -> (r: usize)
    requires
        lo < hi,
    ensures
        lo <= r < hi,
{
    rng.usize(lo..hi)
}

/// A draw from `lo..hi` by `DelegatedRng::u32`. Assumed: on a range that is
/// not empty the generator returns a value of the range. On an empty range
/// it panics or returns `lo`, so such a range is kept out.
#[verifier::external_body]
pub(crate) fn draw_u32(rng: &mut RngComponent, lo: u32, hi: u32) -> (r: u32)
    requires
        lo < hi,
    ensures
        lo <= r < hi,
{
    rng.u32(lo..hi)
}

/// A reordering of `items` by `DelegatedRng::shuffle`. Assumed: the
/// generator only swaps elements, so the vector holds afterwards what it
/// held before, each element as often as before.
#[verifier::external_body]
pub(crate) fn shuffle(rng: &mut RngComponent, items: &mut Vec<usize>)
    ensures
        final(items)@.to_multiset() == old(items)@.to_multiset(),
{
    rng.shuffle(items.as_mut_slice());
}

} // verus!
