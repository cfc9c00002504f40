use rand::Rng;
use vstd::prelude::*;

verus! {

/// Draws a number from 0 up to, and without, `bound`.
///
/// This is `Rng::gen_range` of the `rand` crate on its thread-local
/// generator, `thread_rng`, called with the bounds 0 and `bound`. The crate
/// documents that the draw is at least the low bound and below the high one,
/// and that the call panics where the low bound is not below the high one:
/// hence the demand on `bound`. Nothing is claimed about which number comes.
///
/// Not covered by the contract: the generator seeds itself from the
/// operating system when a thread first uses it, and gives up with a panic
/// where the system has no randomness to offer.
#[verifier::external_body]
pub(crate) fn random_below(bound: u64) -> (draw: u64)
    requires
        bound > 0,
    ensures
        draw < bound,
{
    rand::thread_rng().gen_range(0, bound)
}

/// Draws an index into a collection of `count` items.
pub fn random_index(count: usize) -> (draw: usize)
    requires
        count > 0,
    ensures
        draw < count,
{
    random_below(count as u64) as usize
}

/// The number of the range from `low` up to, and without, `high` that the
/// draw `offset` stands for: the one that lies `offset` above `low`. The draw
/// has to be below the width of the range.
pub fn place_draw(low: i32, high: i32, offset: u64) -> (draw: i32)
    requires
        low < high,
        offset < high - low,
    ensures
        draw == low + offset,
        low <= draw < high,
{
    (low as i64 + offset as i64) as i32
}

/// Draws a number from `low` up to, and without, `high`: a draw below the
/// width of the range, placed by [`place_draw`].
pub fn random_between(low: i32, high: i32) -> (draw: i32)
    requires
        low < high,
    ensures
        low <= draw < high,
{
    let width: u64 = (high as i64 - low as i64) as u64;
    let offset: u64 = random_below(width);
    place_draw(low, high, offset)
}

} // verus!
