//! Integer helpers with the semantics of Rust's saturating and absolute-difference operations.

use vstd::prelude::*;

verus! {

/// `x` clamped to the range of `i64`.
pub open spec fn clamp_i64(x: int) -> int {
    if x < i64::MIN as int {
        i64::MIN as int
    } else if x > i64::MAX as int {
        i64::MAX as int
    } else {
        x
    }
}

/// `a - b`, saturating at the bounds of `i64` (as `i64::saturating_sub`).
pub fn saturating_sub_i64(a: i64, b: i64) -> (r: i64)
    ensures
        r as int == clamp_i64(a as int - b as int),
{
    let d: i128 = (a as i128) - (b as i128);
    if d < (i64::MIN as i128) {
        i64::MIN
    } else if d > (i64::MAX as i128) {
        i64::MAX
    } else {
        d as i64
    }
}

/// `|a - b|` as an unsigned value (as `i64::abs_diff`).
pub fn abs_diff_i64(a: i64, b: i64) -> (r: u64)
    ensures
        r as int == if a >= b { a as int - b as int } else { b as int - a as int },
{
    if a >= b {
        ((a as i128) - (b as i128)) as u64
    } else {
        ((b as i128) - (a as i128)) as u64
    }
}

/// The value of `x as u64` for an `i64`: two's-complement reinterpretation.
pub open spec fn i64_as_u64(x: i64) -> int {
    if x >= 0 {
        x as int
    } else {
        x as int + 0x1_0000_0000_0000_0000
    }
}

/// `x as u64` for an `i64`.
pub fn reinterpret_i64_as_u64(x: i64) -> (r: u64)
    ensures
        r as int == i64_as_u64(x),
{
    if x >= 0 {
        x as u64
    } else {
        let magnitude: u64 = ((0i128 - (x as i128)) as u64);
        (u64::MAX - magnitude) + 1
    }
}

} // verus!
