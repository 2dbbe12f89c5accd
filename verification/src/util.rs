//! Saturating integer arithmetic and truncating division, shared by the
//! counter kernel and the trace engine.

use vstd::prelude::*;

verus! {

/// Largest value an `i64` holds.
pub open spec fn i64_max() -> int {
    0x7fff_ffff_ffff_ffff
}

/// Smallest value an `i64` holds.
pub open spec fn i64_min() -> int {
    -0x8000_0000_0000_0000
}

/// Largest value a `u64` holds.
pub open spec fn u64_max() -> int {
    0xffff_ffff_ffff_ffff
}

/// Clip an unbounded integer to the `i64` range.
pub open spec fn clip_i64(v: int) -> int {
    if v < i64_min() {
        i64_min()
    } else if v > i64_max() {
        i64_max()
    } else {
        v
    }
}

/// Clip an unbounded integer to the `u64` range.
pub open spec fn clip_u64(v: int) -> int {
    if v < 0 {
        0
    } else if v > u64_max() {
        u64_max()
    } else {
        v
    }
}

/// Saturating sum of two `i64` values.
pub open spec fn sat_add_i64(a: int, b: int) -> int {
    clip_i64(a + b)
}

/// Saturating difference of two `i64` values.
pub open spec fn sat_sub_i64(a: int, b: int) -> int {
    clip_i64(a - b)
}

/// Saturating sum of two `u64` values.
pub open spec fn sat_add_u64(a: int, b: int) -> int {
    clip_u64(a + b)
}

/// Saturating difference of two `u64` values.
pub open spec fn sat_sub_u64(a: int, b: int) -> int {
    clip_u64(a - b)
}

/// Division that truncates toward zero, with a zero divisor mapped to zero;
/// this is the value a `Gauge` reports: its running total over its hit count.
pub open spec fn div_value(total: int, hits: int) -> int {
    if hits == 0 {
        0
    } else if total >= 0 {
        total / hits
    } else {
        -((-total) / hits)
    }
}

/// Mean of two timestamps, rounded down.
pub open spec fn ts_mean(a: int, b: int) -> int {
    (a + b) / 2
}

/// Saturating sum, on machine words.
pub fn add_sat_i64(a: i64, b: i64) -> (r: i64)
    ensures
        r == sat_add_i64(a as int, b as int),
{
    if b >= 0 {
        if a > i64::MAX - b {
            i64::MAX
        } else {
            a + b
        }
    } else {
        if a < i64::MIN - b {
            i64::MIN
        } else {
            a + b
        }
    }
}

/// Saturating difference, on machine words.
pub fn sub_sat_i64(a: i64, b: i64) -> (r: i64)
    ensures
        r == sat_sub_i64(a as int, b as int),
{
    if b <= 0 {
        if b < 0 && a > i64::MAX + b {
            i64::MAX
        } else {
            a - b
        }
    } else {
        if a < i64::MIN + b {
            i64::MIN
        } else {
            a - b
        }
    }
}

/// Saturating sum, on unsigned machine words.
pub fn add_sat_u64(a: u64, b: u64) -> (r: u64)
    ensures
        r == sat_add_u64(a as int, b as int),
{
    if a > u64::MAX - b {
        u64::MAX
    } else {
        a + b
    }
}

/// Saturating difference, on unsigned machine words.
pub fn sub_sat_u64(a: u64, b: u64) -> (r: u64)
    ensures
        r == sat_sub_u64(a as int, b as int),
{
    if a < b {
        0
    } else {
        a - b
    }
}

/// Mean of two timestamps without intermediate overflow.
pub fn mean_u64(a: u64, b: u64) -> (r: u64)
    ensures
        r == ts_mean(a as int, b as int),
{
    let r = a / 2 + b / 2 + (a % 2 + b % 2) / 2;
    proof {
        assert(a / 2 + b / 2 + (a % 2 + b % 2) / 2 == ts_mean(a as int, b as int)) by (nonlinear_arith);
    }
    r
}

/// The reported value of a gauge: total over hits, truncating toward zero,
/// zero when no hit was recorded.
pub fn div_value_i64(total: i64, hits: u64) -> (r: i64)
    ensures
        r == div_value(total as int, hits as int),
{
    if hits == 0 {
        0
    } else if total >= 0 {
        let q = (total as u64) / hits;
        proof {
            assert(q <= total as u64);
        }
        q as i64
    } else {
        let mag = ((-(total + 1)) as u64) + 1;
        proof {
            assert(mag == -(total as int));
        }
        let q = mag / hits;
        proof {
            assert(q <= mag);
        }
        if q == 9_223_372_036_854_775_808u64 {
            i64::MIN
        } else {
            -(q as i64)
        }
    }
}

} // verus!
