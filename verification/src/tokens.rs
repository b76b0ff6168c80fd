//! Arithmetic on token counts.

use vstd::prelude::*;

verus! {

/// The `i32` that is nearest to `n`.
pub open spec fn clamp(n: int) -> i32 {
    if n > i32::MAX {
        i32::MAX
    } else if n < i32::MIN {
        i32::MIN
    } else {
        n as i32
    }
}

/// The smaller of two token counts.
pub open spec fn lesser(a: i32, b: i32) -> i32 {
    if a <= b {
        a
    } else {
        b
    }
}

/// The greater of two token counts.
pub open spec fn greater(a: i32, b: i32) -> i32 {
    if a >= b {
        a
    } else {
        b
    }
}

fn clamp_i64(n: i64) -> (clamped: i32)
    ensures
        clamped == clamp(n as int),
{
    if n > i32::MAX as i64 {
        i32::MAX
    } else if n < i32::MIN as i64 {
        i32::MIN
    } else {
        n as i32
    }
}

/// Adds two token counts, up to the bounds of `i32`.
pub fn saturating_sum(a: i32, b: i32) -> (sum: i32)
    ensures
        sum == clamp(a + b),
{
    clamp_i64(a as i64 + b as i64)
}

/// Subtracts two token counts, up to the bounds of `i32`.
pub fn saturating_difference(a: i32, b: i32) -> (difference: i32)
    ensures
        difference == clamp(a - b),
{
    clamp_i64(a as i64 - b as i64)
}

/// The smaller of two token counts.
pub fn min_tokens(a: i32, b: i32) -> (least: i32)
    ensures
        least == lesser(a, b),
{
    if a <= b {
        a
    } else {
        b
    }
}

/// The greater of two token counts.
pub fn max_tokens(a: i32, b: i32) -> (greatest: i32)
    ensures
        greatest == greater(a, b),
{
    if a >= b {
        a
    } else {
        b
    }
}

} // verus!
