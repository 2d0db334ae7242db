//! Fixed-point units and the constants of the decay formula.
//!
//! One intensity unit of `1.0` is `SCALE` fixed-point steps (millionths),
//! and one second is `1_000_000` microseconds, so a strength parsed from
//! decimal text in seconds or intensity units is the same number in both
//! representations.

use vstd::prelude::*;

verus! {

/// Number of fixed-point steps in one intensity unit (and microseconds in
/// one second).
pub const SCALE: i64 = 1_000_000;

/// Half-life of the intensity decay, in microseconds (0.2 s).
pub const HALF_LIFE_US: u64 = 200_000;

/// Linear reduction subtracted on every decay step (0.005 in steps of `SCALE`).
pub const LINEAR_REDUCTION: i64 = 5_000;

/// Intensities strictly below this value snap to zero (0.01 in steps of `SCALE`).
pub const THRESHOLD: i64 = 10_000;

/// Fixed lifetime of a POWER event, in microseconds (300 s).
pub const POWER_DURATION_US: u64 = 300_000_000;

/// `x` clamped to be non-negative from below and to fit an `i64` from above.
pub open spec fn clamp0_sat(x: int) -> int {
    if x <= 0 {
        0
    } else if x > i64::MAX {
        i64::MAX as int
    } else {
        x
    }
}

/// Division truncated toward zero, as `/` on `i64` computes it.
pub open spec fn trunc_div(x: int, d: int) -> int
    recommends
        d > 0,
{
    if x >= 0 {
        x / d
    } else {
        -((-x) / d)
    }
}

/// Adds a (possibly negative) change onto a floor value, saturating at the
/// `i64` limits and clamped to be never negative.
pub fn floor_apply(floor: i64, change: i64) -> (r: i64)
    ensures
        r == clamp0_sat(floor + change),
{
    if change >= 0 {
        if floor > i64::MAX - change {
            i64::MAX
        } else {
            let s = floor + change;
            if s < 0 {
                0
            } else {
                s
            }
        }
    } else {
        if floor < i64::MIN - change {
            0
        } else {
            let s = floor + change;
            if s < 0 {
                0
            } else {
                s
            }
        }
    }
}

} // verus!
