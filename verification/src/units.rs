//! Fixed-point units and the limits inside which route arithmetic stays exact.

use vstd::prelude::*;

verus! {

/// Number of fixed-point units in one knot, nautical mile, hour or degree.
pub const SCALE: i64 = 1_000;

/// A full turn, in thousandths of a degree.
pub const FULL_TURN: i64 = 360_000;

/// Half a turn, in thousandths of a degree.
pub const HALF_TURN: i64 = 180_000;

/// Largest distance of a single start line or leg.
pub const MAX_DISTANCE: i64 = 1_000_000_000;

/// Longest time a single start line or leg can take: the largest distance at
/// the slowest representable positive speed.
pub const MAX_LEG_TIME: i64 = 1_000_000_000_000;

/// Largest number of steps in one route.
pub const MAX_STEPS: usize = 1_000_000;

/// Start times lie between minus and plus this many thousandths of an hour.
pub const MAX_START_TIME: i64 = 1_000_000_000_000_000_000;

/// How often one leg may be sailed on a route to a target, whatever its own
/// limit allows.
pub const LEG_CAP: u32 = 2;

/// Absolute difference of two integers.
pub open spec fn gap(a: int, b: int) -> int {
    if a >= b {
        a - b
    } else {
        b - a
    }
}

/// Absolute difference of two fixed-point values, which always fits in `u64`.
pub fn gap_between(a: i64, b: i64) -> (d: u64)
    ensures
        d == gap(a as int, b as int),
{
    if a >= b {
        (a as i128 - b as i128) as u64
    } else {
        (b as i128 - a as i128) as u64
    }
}

} // verus!
