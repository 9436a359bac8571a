use vstd::prelude::*;
use rand::RngExt;

verus! {

/// Number of integer units in one world unit: every coordinate, every ray
/// parameter and every colour channel is an integer count of `1 / UNITS_PER_WORLD`.
pub const UNITS_PER_WORLD: i64 = 20000;

/// The thinnest extent an axis of a bounding box may have (0.0001 world units).
pub const MIN_EXTENT: i64 = 2;

/// The value of `x` clamped to `[min, max]` (checked against `min` first).
pub open spec fn spec_clamp(x: int, min: int, max: int) -> int {
    if x < min {
        min
    } else if x > max {
        max
    } else {
        x
    }
}

/// Clamps `x` to `[min, max]`: `min` below it, `max` above it, `x` otherwise.
pub fn clamp(x: i64, min: i64, max: i64) -> (r: i64)
    ensures
        r == spec_clamp(x as int, min as int, max as int),
{
    if x < min {
        return min;
    }
    if x > max {
        return max;
    }
    x
}

/// Calls rand's `RngExt::random_range` on the thread-local generator
/// `rand::rng()` with the inclusive range `min..=max`, which, by rand's
/// source, yields `low + x` for some `x` below the width of the range, so a
/// value of `[min, max]` (it panics on an empty range, hence the `requires`).
/// Which value comes back is left open: it rests on chance.
#[verifier::external_body]
fn draw_i32_inclusive(min: i32, max: i32) -> (r: i32)
    requires
        min <= max,
    ensures
        min <= r <= max,
{
    rand::rng().random_range(min..=max)
}

/// Returns a random integer in `[min, max]`. For a reversed range
/// (`min > max`) the draw runs the other way, over `(max, min]`.
pub fn random_int(min: i32, max: i32) -> (r: i32)
    ensures
        min <= max ==> min <= r <= max,
        min > max ==> max < r <= min,
{
    if min <= max {
        draw_i32_inclusive(min, max)
    } else {
        draw_i32_inclusive(max + 1, min)
    }
}

} // verus!

verus! {

/// Clamping lands in `[min, max]` (when that range is not empty) and leaves
/// a value already in it unchanged; clamping twice is clamping once.
pub proof fn lemma_clamp(x: int, min: int, max: int)
    requires
        min <= max,
    ensures
        min <= spec_clamp(x, min, max) <= max,
        min <= x <= max ==> spec_clamp(x, min, max) == x,
        spec_clamp(spec_clamp(x, min, max), min, max) == spec_clamp(x, min, max),
{
}

} // verus!
