//! Polar geometry for protective fields.
//!
//! Fields are tested in the sensor's native polar form rather than by converting every
//! ray to Cartesian. For each bearing we ask a single question — *how far away is the
//! field boundary in this direction?* — and compare the measured range against it. That
//! is one division and two comparisons per ray, no square roots, and no per-ray
//! trigonometry once the direction cosines are cached.

use crate::binary32;
use crate::binary32::Binary32;
use vstd::prelude::*;

verus! {

/// The range at which a ray crosses the plane of the front face.
pub open spec fn front_range(length: Binary32, cos_t: Binary32) -> Binary32 {
    length.over(cos_t)
}

/// The ray is still within the side walls where it crosses the front plane.
pub open spec fn exits_front(
    length: Binary32,
    half_width: Binary32,
    cos_t: Binary32,
    sin_t: Binary32,
) -> bool {
    sin_t.absolute().times(front_range(length, cos_t)).at_most(half_width)
}

/// The ray points forwards and the rectangle has an area.
pub open spec fn enters(length: Binary32, half_width: Binary32, cos_t: Binary32) -> bool {
    &&& binary32::zero().less(cos_t)
    &&& !length.at_most(binary32::zero())
    &&& !half_width.at_most(binary32::zero())
}

/// The range at which a ray leaves the rectangle, through the front face or through a
/// side wall.
pub open spec fn boundary(
    length: Binary32,
    half_width: Binary32,
    cos_t: Binary32,
    sin_t: Binary32,
) -> Option<Binary32> {
    if !enters(length, half_width, cos_t) {
        None
    } else if exits_front(length, half_width, cos_t, sin_t) {
        Some(front_range(length, cos_t))
    } else {
        Some(half_width.over(sin_t.absolute()))
    }
}

/// A return at `range` lies strictly inside the rectangle.
pub open spec fn inside(
    range: Binary32,
    cos_t: Binary32,
    sin_t: Binary32,
    length: Binary32,
    half_width: Binary32,
) -> bool {
    match boundary(length, half_width, cos_t, sin_t) {
        Some(b) => range.less(b),
        None => false,
    }
}

/// Range at which a ray leaves a forward-facing rectangle, or `None` if it never
/// enters one.
///
/// The rectangle spans `x ∈ [0, length]` and `y ∈ [-half_width, half_width]` in the
/// robot frame, with the sensor at the origin. `cos_t` and `sin_t` are the direction
/// cosines of the ray's bearing.
///
/// Rays pointing sideways or backwards (`cos_t <= 0`) cannot enter the rectangle,
/// which is what makes the field forward-facing: an obstacle abreast of the robot is
/// not something the robot is about to drive into.
#[must_use]
pub fn forward_rect_boundary(
    length: Binary32,
    half_width: Binary32,
    cos_t: Binary32,
    sin_t: Binary32,
) -> (r: Option<Binary32>)
    ensures
        r == boundary(length, half_width, cos_t, sin_t),
{
    if !(cos_t > Binary32::zero()) || length <= Binary32::zero() || half_width
        <= Binary32::zero() {
        return None;
    }
    // Range at which the ray crosses the plane x = length.
    let front: Binary32 = length / cos_t;
    // If it is still within the side walls when it gets there, the front face is the
    // exit. Otherwise it left through a side wall first.
    let lateral: Binary32 = sin_t.abs() * front;
    if lateral <= half_width {
        Some(front)
    } else {
        let side: Binary32 = half_width / sin_t.abs();
        Some(side)
    }
}

/// True when a measured return at `(range, bearing)` lies strictly inside the
/// rectangle described by `length` and `half_width`.
#[must_use]
pub fn inside_forward_rect(
    range: Binary32,
    cos_t: Binary32,
    sin_t: Binary32,
    length: Binary32,
    half_width: Binary32,
) -> (r: bool)
    ensures
        r == inside(range, cos_t, sin_t, length, half_width),
{
    match forward_rect_boundary(length, half_width, cos_t, sin_t) {
        Some(boundary) => range < boundary,
        None => false,
    }
}

} // verus!
