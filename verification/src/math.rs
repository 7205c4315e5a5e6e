//! Small helpers for arithmetic.

use vstd::prelude::*;

verus! {

/// The smaller of two numbers.
pub open spec fn spec_min(a: int, b: int) -> int {
    if a <= b {
        a
    } else {
        b
    }
}

/// The larger of two numbers.
pub open spec fn spec_max(a: int, b: int) -> int {
    if a >= b {
        a
    } else {
        b
    }
}

/// `val` pulled into the range from `min` to `max`.
pub open spec fn spec_clamp(val: int, min: int, max: int) -> int {
    if val < min {
        min
    } else if val > max {
        max
    } else {
        val
    }
}

/// Pulls `val` into the range from `min` to `max`. A range that ends before
/// it starts is the caller's error.
pub fn clamp(val: usize, min: usize, max: usize) -> (r: usize)
    requires
        max >= min,
    ensures
        r == spec_clamp(val as int, min as int, max as int),
        min <= r <= max,
{
    if val < min {
        min
    } else if val > max {
        max
    } else {
        val
    }
}

} // verus!
