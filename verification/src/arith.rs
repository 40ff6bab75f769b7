//! Coordinate arithmetic that saturates at the ends of the integer range.

use vstd::prelude::*;

verus! {

/// The coordinate nearest to `x`.
pub open spec fn clamp(x: int) -> i64 {
    if x < i64::MIN {
        i64::MIN
    } else if x > i64::MAX {
        i64::MAX
    } else {
        x as i64
    }
}

/// `a + b`, or the end of the range that the sum lies beyond.
pub fn sat_add(a: i64, b: i64) -> (r: i64)
    ensures
        r == clamp(a + b),
{
    match a.checked_add(b) {
        Some(v) => v,
        None => if b > 0 {
            i64::MAX
        } else {
            i64::MIN
        },
    }
}

/// `a - b`, or the end of the range that the difference lies beyond.
pub fn sat_sub(a: i64, b: i64) -> (r: i64)
    ensures
        r == clamp(a - b),
{
    match a.checked_sub(b) {
        Some(v) => v,
        None => if b > 0 {
            i64::MIN
        } else {
            i64::MAX
        },
    }
}

/// `-a`, or the largest coordinate where `a` is the smallest.
pub fn sat_neg(a: i64) -> (r: i64)
    ensures
        r == clamp(-a),
{
    if a == i64::MIN {
        i64::MAX
    } else {
        -a
    }
}

/// The absolute value of `a`, or the largest coordinate where `a` is the smallest.
pub fn sat_abs(a: i64) -> (r: i64)
    ensures
        r == clamp(if a < 0 { -a } else { a as int }),
{
    if a < 0 {
        sat_neg(a)
    } else {
        a
    }
}

} // verus!
