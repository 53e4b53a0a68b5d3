//! Placement of the main window inside the monitor's work area. Its size is
//! worked out in floating point by the application; where it goes, once the
//! size is known, is decided here.

use vstd::prelude::*;

verus! {

/// Half of `d`, rounded toward zero.
pub open spec fn half_toward_zero(d: int) -> int {
    if d >= 0 {
        d / 2
    } else {
        -((-d) / 2)
    }
}

/// The coordinate that centers a window of `size` pixels in an area of
/// `available` pixels starting at `origin`: the margin before it is half of
/// what is left, rounded toward zero. A window larger than the area starts
/// before it, by half of the excess.
pub fn centered_position(origin: i32, available: u32, size: u32) -> (position: i32)
    requires
        i32::MIN <= origin + half_toward_zero(available - size) <= i32::MAX,
    ensures
        position == origin + half_toward_zero(available - size),
{
    let margin: i64 = if available >= size {
        ((available - size) / 2) as i64
    } else {
        -(((size - available) / 2) as i64)
    };
    (origin as i64 + margin) as i32
}

/// A window placed by [`centered_position`] leaves margins on its two sides
/// that differ by at most one pixel.
pub proof fn law_centered_margins(available: int, size: int)
    ensures
        ({
            let before = half_toward_zero(available - size);
            let after = available - size - before;
            -1 <= after - before <= 1
        }),
{
}

} // verus!
