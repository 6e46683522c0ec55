//! Numbers with six decimal places, held as integers in millionths.

use vstd::prelude::*;

verus! {

/// One, in millionths.
pub const ONE: i64 = 1_000_000;

/// The integer nearest to a number of millionths; halves go away from zero.
pub open spec fn nearest(v: int) -> int {
    if v >= 0 {
        (v + 500_000) / 1_000_000
    } else {
        -((-v + 500_000) / 1_000_000)
    }
}

/// A number of millionths without its fraction.
pub open spec fn whole(v: int) -> int {
    if v >= 0 {
        v / 1_000_000
    } else {
        -((-v) / 1_000_000)
    }
}

/// The closest `i32`.
pub open spec fn clamped(v: int) -> i32 {
    if v < i32::MIN {
        i32::MIN
    } else if v > i32::MAX {
        i32::MAX
    } else {
        v as i32
    }
}

/// The closest `i32`.
pub fn clamp_to_int(v: i128) -> (r: i32)
    ensures
        r == clamped(v as int),
{
    if v < -0x8000_0000 {
        i32::MIN
    } else if v > 0x7fff_ffff {
        i32::MAX
    } else {
        v as i32
    }
}

/// The `i32` nearest to a number of millionths.
pub fn round(v: i128) -> (r: i32)
    requires
        -0x1000_0000_0000_0000_0000_0000_0000_0000 < v < 0x1000_0000_0000_0000_0000_0000_0000_0000,
    ensures
        r == clamped(nearest(v as int)),
{
    if v >= 0 {
        clamp_to_int((v + 500_000) / 1_000_000)
    } else {
        clamp_to_int(-((-v + 500_000) / 1_000_000))
    }
}

/// A number of millionths without its fraction, as an `i32`.
pub fn truncate(v: i64) -> (r: i32)
    ensures
        r == clamped(whole(v as int)),
{
    let w: i128 = v as i128;
    if w >= 0 {
        clamp_to_int(w / 1_000_000)
    } else {
        clamp_to_int(-((-w) / 1_000_000))
    }
}

/// Rounding moves a number by at most one half.
pub proof fn law_rounding_is_near(v: int)
    ensures
        -500_000 <= v - nearest(v) * 1_000_000 <= 500_000,
        nearest(-v) == -nearest(v),
{
}

} // verus!
