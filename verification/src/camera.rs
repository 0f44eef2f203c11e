//! Keyboard panning of the isometric camera.
use vstd::prelude::*;

verus! {

/// The pan direction, before normalisation, along the world's x and z axes,
/// in units of one over the square root of two: up pulls toward (-1, -1),
/// down toward (1, 1), left toward (-1, 1) and right toward (1, -1).
pub open spec fn spec_pan_axes(up: bool, down: bool, left: bool, right: bool) -> (i32, i32) {
    let u: int = if up { 1 } else { 0 };
    let d: int = if down { 1 } else { 0 };
    let l: int = if left { 1 } else { 0 };
    let r: int = if right { 1 } else { 0 };
    ((-u + d - l + r) as i32, (-u + d + l - r) as i32)
}

/// Sums the isometric directions of the pressed pan keys.
pub fn pan_axes(up: bool, down: bool, left: bool, right: bool) -> (axes: (i32, i32))
    ensures
        axes == spec_pan_axes(up, down, left, right),
        -2 <= axes.0 <= 2,
        -2 <= axes.1 <= 2,
{
    let mut x: i32 = 0;
    let mut z: i32 = 0;
    if up {
        x = x - 1;
        z = z - 1;
    }
    if down {
        x = x + 1;
        z = z + 1;
    }
    if left {
        x = x - 1;
        z = z + 1;
    }
    if right {
        x = x + 1;
        z = z - 1;
    }
    (x, z)
}

/// Opposite keys cancel: holding up with down, or left with right, pans as
/// if neither of the two were held.
pub proof fn lemma_opposite_keys_cancel(up: bool, down: bool, left: bool, right: bool)
    ensures
        spec_pan_axes(true, true, left, right) == spec_pan_axes(false, false, left, right),
        spec_pan_axes(up, down, true, true) == spec_pan_axes(up, down, false, false),
{
}

/// Each key pulls along its own isometric direction, and the pan direction of
/// any set of held keys is the sum of the directions of the keys held.
pub proof fn lemma_pan_axes_sum_of_keys(up: bool, down: bool, left: bool, right: bool)
    ensures
        spec_pan_axes(false, false, false, false) == (0i32, 0i32),
        spec_pan_axes(true, false, false, false) == (-1i32, -1i32),
        spec_pan_axes(false, true, false, false) == (1i32, 1i32),
        spec_pan_axes(false, false, true, false) == (-1i32, 1i32),
        spec_pan_axes(false, false, false, true) == (1i32, -1i32),
        spec_pan_axes(up, down, left, right).0 == spec_pan_axes(up, false, false, false).0 + spec_pan_axes(
            false,
            down,
            false,
            false,
        ).0 + spec_pan_axes(false, false, left, false).0 + spec_pan_axes(false, false, false, right).0,
        spec_pan_axes(up, down, left, right).1 == spec_pan_axes(up, false, false, false).1 + spec_pan_axes(
            false,
            down,
            false,
            false,
        ).1 + spec_pan_axes(false, false, left, false).1 + spec_pan_axes(false, false, false, right).1,
{
}

} // verus!
