//! Nanosecond arithmetic that saturates.

use vstd::prelude::*;

verus! {

/// `t`, or the largest time where it exceeds that.
pub open spec fn capped(t: int) -> u64 {
    if t > u64::MAX {
        u64::MAX
    } else {
        t as u64
    }
}

/// `t`, or zero where it is below that.
pub open spec fn floored(t: int) -> u64 {
    if t < 0 {
        0
    } else {
        t as u64
    }
}

/// The smaller of two numbers.
pub open spec fn smaller(a: int, b: int) -> int {
    if a <= b {
        a
    } else {
        b
    }
}

/// The larger of two numbers.
pub open spec fn larger(a: int, b: int) -> int {
    if a >= b {
        a
    } else {
        b
    }
}

/// `a * b`, saturating at the largest value.
pub fn saturating_product(a: u64, b: u64) -> (r: u64)
    ensures
        r == capped(a * b),
{
    match a.checked_mul(b) {
        Some(v) => v,
        None => u64::MAX,
    }
}

/// The smaller of two times.
pub fn earlier(a: u64, b: u64) -> (r: u64)
    ensures
        r == smaller(a as int, b as int),
{
    if a <= b {
        a
    } else {
        b
    }
}

/// The larger of two times.
pub fn later(a: u64, b: u64) -> (r: u64)
    ensures
        r == larger(a as int, b as int),
{
    if a >= b {
        a
    } else {
        b
    }
}

} // verus!
