//! The shape of a field.

use crate::binary32;
use crate::binary32::Binary32;
use crate::geometry::{boundary, enters, exits_front, front_range, inside};
use crate::numeric;
use crate::rounding;
use vstd::prelude::*;

verus! {

/// A field reaches as far to the left as to the right.
pub proof fn the_boundary_is_symmetric(
    length: Binary32,
    half_width: Binary32,
    cos_t: Binary32,
    sin_t: Binary32,
)
    ensures
        boundary(length, half_width, cos_t, sin_t.opposite()) == boundary(
            length,
            half_width,
            cos_t,
            sin_t,
        ),
{
    reveal(Binary32::opposite);
    reveal(Binary32::absolute);
}

/// A return on the boundary of a field is outside it.
pub proof fn a_point_on_the_boundary_is_outside(
    range: Binary32,
    cos_t: Binary32,
    sin_t: Binary32,
    length: Binary32,
    half_width: Binary32,
)
    requires
        boundary(length, half_width, cos_t, sin_t) matches Some(b) && b.equals(range),
    ensures
        !inside(range, cos_t, sin_t, length, half_width),
{
}

/// A ray that points sideways or backwards never enters a field.
pub proof fn a_ray_behind_never_enters(
    range: Binary32,
    cos_t: Binary32,
    sin_t: Binary32,
    length: Binary32,
    half_width: Binary32,
)
    requires
        cos_t.at_most(binary32::zero()),
    ensures
        boundary(length, half_width, cos_t, sin_t) is None,
        !inside(range, cos_t, sin_t, length, half_width),
{
}

/// A ray enters a field exactly where it points forwards, and the field has neither a
/// length nor a width that is zero or less.
pub proof fn a_ray_ahead_enters(
    length: Binary32,
    half_width: Binary32,
    cos_t: Binary32,
    sin_t: Binary32,
)
    ensures
        boundary(length, half_width, cos_t, sin_t) is Some <==> {
            &&& !cos_t.nan() && cos_t.value() > 0
            &&& length.nan() || length.value() > 0
            &&& half_width.nan() || half_width.value() > 0
        },
{
    numeric::lemma_constants();
}

/// A ray that enters a field leaves it through the front where it is within the walls when
/// it gets there, and through a wall where it is not. The range is the quotient, rounded
/// once, of the distance to that face and the share of the direction that points to it.
pub proof fn a_ray_leaves_through_the_first_face(
    length: Binary32,
    half_width: Binary32,
    cos_t: Binary32,
    sin_t: Binary32,
)
    requires
        length.finite(),
        half_width.finite(),
        cos_t.finite(),
        sin_t.finite(),
        length.value() > 0,
        half_width.value() > 0,
        cos_t.value() > 0,
        numeric::round_value(length.value() * binary32::units_in_one(), cos_t.value())
            < numeric::beyond(),
    ensures
        boundary(length, half_width, cos_t, sin_t) matches Some(b) && {
            let (u, s) = (binary32::units_in_one(), binary32::size(sin_t.value()));
            let front = numeric::round_value(length.value() * u, cos_t.value());
            let lateral = numeric::round_value(s * front, u);
            &&& !b.nan()
            &&& b.value() == if lateral <= half_width.value() {
                front
            } else {
                numeric::round_value(half_width.value() * u, s)
            }
        },
{
    numeric::lemma_constants();
    let s = sin_t.absolute();
    let front = front_range(length, cos_t);
    numeric::lemma_signs(sin_t);
    numeric::lemma_over(length, cos_t);
    numeric::lemma_over_grows(length, length, cos_t);
    numeric::lemma_finite(front);
    numeric::lemma_times(s, front);
    if s.value() > 0 {
        numeric::lemma_over(half_width, s);
    } else {
        assert(0 * front.value() == 0);
        numeric::lemma_round_exact(binary32::zero(), binary32::units_in_one());
        assert(binary32::units_in_one() * 0 == 0);
    }
}

/// A field without a length or without a width holds no point.
pub proof fn an_empty_field_holds_nothing(
    range: Binary32,
    cos_t: Binary32,
    sin_t: Binary32,
    length: Binary32,
    half_width: Binary32,
)
    requires
        length.at_most(binary32::zero()) || half_width.at_most(binary32::zero()),
    ensures
        !inside(range, cos_t, sin_t, length, half_width),
{
}

/// What is nearer than a point inside a field, on the same ray, is inside it too.
pub proof fn a_nearer_point_is_inside_too(
    near: Binary32,
    far: Binary32,
    cos_t: Binary32,
    sin_t: Binary32,
    length: Binary32,
    half_width: Binary32,
)
    requires
        near.at_most(far),
        inside(far, cos_t, sin_t, length, half_width),
    ensures
        inside(near, cos_t, sin_t, length, half_width),
{
}

/// A longer field never excludes a point that a shorter one caught.
///
/// Where the ray meets the front of the shorter field and the side wall of the longer
/// one, the two ranges come from different quotients, which agree only as far as
/// rounding lets them. There the crossing of the front has to lie within the wall with
/// no rounding.
pub proof fn a_longer_field_keeps_every_point(
    range: Binary32,
    cos_t: Binary32,
    sin_t: Binary32,
    short: Binary32,
    long: Binary32,
    half_width: Binary32,
)
    requires
        short.at_most(long),
        cos_t.finite(),
        sin_t.finite(),
        half_width.finite(),
        exits_front(short, half_width, cos_t, sin_t) && !exits_front(
            long,
            half_width,
            cos_t,
            sin_t,
        ) ==> sin_t.absolute().value() * front_range(short, cos_t).value()
            <= half_width.value() * binary32::units_in_one(),
        inside(range, cos_t, sin_t, short, half_width),
    ensures
        inside(range, cos_t, sin_t, long, half_width),
{
    numeric::lemma_constants();
    let u = binary32::units_in_one();
    let s = sin_t.absolute();
    numeric::lemma_signs(sin_t);
    assert(enters(short, half_width, cos_t) && enters(long, half_width, cos_t));
    let (near, far) = (front_range(short, cos_t), front_range(long, cos_t));
    numeric::lemma_over_grows(short, long, cos_t);
    numeric::lemma_finite(near);
    numeric::lemma_finite(far);
    numeric::lemma_finite(s);
    numeric::lemma_finite(half_width);
    let (a, b) = (
        exits_front(short, half_width, cos_t, sin_t),
        exits_front(long, half_width, cos_t, sin_t),
    );
    if !a && b {
        if far.infinite() {
            reveal(Binary32::times);
            numeric::lemma_with_sign(false, 0x7f80_0000);
        } else {
            numeric::lemma_times_grows(s, near, s, far);
        }
    }
    if a && !b {
        if s.value() == 0 {
            reveal(Binary32::over);
            numeric::lemma_signs(half_width);
            numeric::lemma_with_sign(false, 0x7f80_0000);
        } else {
            numeric::lemma_over(half_width, s);
            numeric::lemma_round_between(near, half_width.value() * u, s.value(), near);
        }
    }
}

/// `x` is at most `y`, up to one part in 2^23 of it, or up to half of `grain` where the
/// range that it was computed from is below the normal numbers.
pub open spec fn no_more(x: int, y: int, grain: int) -> bool {
    0x80_0000 * (x - y) <= y || 2 * (x - y) <= grain
}

/// `x` equals `y` up to the same rounding.
pub open spec fn level(x: int, y: int, grain: int) -> bool {
    0x80_0000 * binary32::size(x - y) <= y || 2 * binary32::size(x - y) <= grain
}

/// How far ahead of the sensor a range reaches, in square units.
pub open spec fn ahead(range: Binary32, cos_t: Binary32) -> int {
    cos_t.value() * range.value()
}

/// How far to the side of the sensor a range reaches, in square units.
pub open spec fn aside(range: Binary32, sin_t: Binary32) -> int {
    sin_t.absolute().value() * range.value()
}

/// A length in square units.
pub open spec fn squared(length: Binary32) -> int {
    length.value() * binary32::units_in_one()
}

/// How far a ray reaches to the side is known to half a unit of a product, or of a range.
pub open spec fn aside_grain(sin_t: Binary32) -> int {
    binary32::units_in_one() + sin_t.absolute().value()
}

/// A point lies within the rectangle, read in real numbers and up to rounding.
pub open spec fn in_rectangle(
    range: Binary32,
    cos_t: Binary32,
    sin_t: Binary32,
    length: Binary32,
    half_width: Binary32,
) -> bool {
    &&& no_more(ahead(range, cos_t), squared(length), cos_t.value())
    &&& no_more(aside(range, sin_t), squared(half_width), aside_grain(sin_t))
}

/// A quotient times its divisor is the dividend again, up to rounding.
proof fn lemma_quotient(num: int, den: int)
    requires
        num >= 0,
        den > 0,
        numeric::round_value(num, den) < numeric::beyond(),
    ensures
        level(den * numeric::round_value(num, den), num, den),
{
    numeric::lemma_finite(binary32::infinity());
    rounding::lemma_nearest_error(num, den);
}

/// A product that rounds to at most a value is at most that value, up to rounding.
proof fn lemma_product(x: int, w: Binary32)
    requires
        x >= 0,
        w.finite(),
        numeric::round_value(x, binary32::units_in_one()) <= w.value(),
    ensures
        no_more(x, squared(w), binary32::units_in_one()),
{
    let u = binary32::units_in_one();
    numeric::lemma_constants();
    numeric::lemma_finite(w);
    numeric::lemma_finite(binary32::infinity());
    rounding::lemma_nearest_error(x, u);
    let r = numeric::round_value(x, u);
    assert(u * r <= w.value() * u) by (nonlinear_arith)
        requires
            u > 0,
            r <= w.value(),
    ;
}

/// What a ray crosses first bounds its range in both directions.
proof fn lemma_crossing(
    range: Binary32,
    cos_t: Binary32,
    sin_t: Binary32,
    length: Binary32,
    half_width: Binary32,
)
    requires
        cos_t.finite(),
        sin_t.finite(),
        length.finite(),
        half_width.finite(),
        range.finite(),
        range.value() >= 0,
        boundary(length, half_width, cos_t, sin_t) matches Some(b) && range.at_most(b),
    ensures
        in_rectangle(range, cos_t, sin_t, length, half_width),
{
    numeric::lemma_constants();
    let u = binary32::units_in_one();
    let s = sin_t.absolute();
    numeric::lemma_signs(sin_t);
    numeric::lemma_finite(range);
    let front = front_range(length, cos_t);
    let (c, x, l) = (cos_t.value(), range.value(), squared(length));
    assert(l >= 0 && squared(half_width) >= 0 && s.value() * x >= 0) by (nonlinear_arith)
        requires
            length.value() >= 0,
            half_width.value() >= 0,
            s.value() >= 0,
            x >= 0,
            u > 0,
            l == length.value() * u,
            squared(half_width) == half_width.value() * u,
    ;
    numeric::lemma_over_grows(length, length, cos_t);
    numeric::lemma_over(length, cos_t);
    numeric::lemma_finite(front);
    // Whichever face it is, the range is no further than the front.
    if exits_front(length, half_width, cos_t, sin_t) {
        lemma_front_finite(front, s, half_width);
        numeric::lemma_times(s, front);
        let f = front.value();
        assert(0 <= s.value() * x <= s.value() * f) by (nonlinear_arith)
            requires
                s.value() >= 0,
                0 <= x <= f,
        ;
        lemma_product(s.value() * f, half_width);
    } else {
        lemma_wall(range, s, front, half_width);
    }
    if front.finite() {
        lemma_quotient(l, c);
        assert(c * x <= c * front.value()) by (nonlinear_arith)
            requires
                c > 0,
                x <= front.value(),
        ;
    } else {
        // The front is out of reach of any finite range.
        numeric::lemma_round_between(range, l, c, range);
    }
}

/// A front that a ray crosses within the walls is at a finite range.
proof fn lemma_front_finite(front: Binary32, s: Binary32, half_width: Binary32)
    requires
        !front.nan(),
        front.value() >= 0,
        s.finite(),
        s.value() >= 0,
        half_width.finite(),
        s.times(front).at_most(half_width),
    ensures
        front.finite(),
{
    numeric::lemma_finite(front);
    if !front.finite() {
        numeric::lemma_signs(front);
        numeric::lemma_signs(s);
        numeric::lemma_finite(half_width);
        numeric::lemma_with_sign(s.negative() != front.negative(), 0x7f80_0000);
        reveal(Binary32::times);
        numeric::lemma_signs(s.times(front));
        numeric::lemma_finite(s.times(front));
        if s.value() > 0 {
            assert(!s.negative() && !front.negative());
        }
    }
}

/// A ray that meets a wall first meets it no further away than the front.
proof fn lemma_wall(range: Binary32, s: Binary32, front: Binary32, half_width: Binary32)
    requires
        range.finite(),
        range.value() >= 0,
        s.finite(),
        s.value() >= 0,
        !s.negative(),
        !front.nan(),
        front.value() >= 0,
        half_width.finite(),
        half_width.value() > 0,
        !s.times(front).at_most(half_width),
        range.at_most(half_width.over(s)),
    ensures
        range.value() <= front.value(),
        no_more(
            s.value() * range.value(),
            squared(half_width),
            binary32::units_in_one() + s.value(),
        ),
        !half_width.over(s).nan(),
        s.value() > 0 || front.infinite(),
{
    numeric::lemma_constants();
    let u = binary32::units_in_one();
    let (x, w) = (range.value(), squared(half_width));
    numeric::lemma_finite(range);
    numeric::lemma_finite(front);
    numeric::lemma_signs(s);
    assert(w > 0) by (nonlinear_arith)
        requires
            half_width.value() > 0,
            u > 0,
            w == half_width.value() * u,
    ;
    if s.value() == 0 {
        assert(s.value() * x == 0) by (nonlinear_arith)
            requires
                s.value() == 0,
        ;
        if front.finite() {
            numeric::lemma_times(s, front);
            assert(s.value() * front.value() == 0) by (nonlinear_arith)
                requires
                    s.value() == 0,
            ;
            assert(u * 0 == 0);
            numeric::lemma_round_exact(binary32::zero(), u);
        }
    } else {
        numeric::lemma_over(half_width, s);
        let side = half_width.over(s);
        numeric::lemma_finite(side);
        if front.finite() {
            // Were the front the nearer one, the product could not exceed the wall.
            let f = front.value();
            numeric::lemma_times(s, front);
            assert(s.value() * f > w) by {
                assert(u * half_width.value() == w) by (nonlinear_arith)
                    requires
                        w == half_width.value() * u,
                ;
                numeric::lemma_round_between(half_width, s.value() * f, u, half_width);
            }
            numeric::lemma_round_between(front, w, s.value(), front);
        }
        if side.finite() {
            lemma_quotient(w, s.value());
            assert(s.value() * x <= s.value() * side.value()) by (nonlinear_arith)
                requires
                    s.value() > 0,
                    x <= side.value(),
            ;
        } else {
            numeric::lemma_round_between(range, w, s.value(), range);
        }
    }
}

/// The boundary is where the ray leaves the rectangle: that point lies in the rectangle,
/// and on its front or on a side wall, read in real numbers and up to rounding.
pub proof fn the_boundary_is_where_the_ray_leaves_the_rectangle(
    length: Binary32,
    half_width: Binary32,
    cos_t: Binary32,
    sin_t: Binary32,
    range: Binary32,
)
    requires
        cos_t.finite(),
        sin_t.finite(),
        length.finite(),
        half_width.finite(),
        boundary(length, half_width, cos_t, sin_t) == Some(range),
        range.finite(),
    ensures
        in_rectangle(range, cos_t, sin_t, length, half_width),
        level(ahead(range, cos_t), squared(length), cos_t.value()) || level(
            aside(range, sin_t),
            squared(half_width),
            aside_grain(sin_t),
        ),
{
    numeric::lemma_constants();
    let u = binary32::units_in_one();
    let s = sin_t.absolute();
    numeric::lemma_signs(sin_t);
    numeric::lemma_finite(range);
    let (l, w) = (squared(length), squared(half_width));
    assert(l >= 0 && w >= 0) by (nonlinear_arith)
        requires
            length.value() >= 0,
            half_width.value() >= 0,
            u > 0,
            l == length.value() * u,
            w == half_width.value() * u,
    ;
    numeric::lemma_over_grows(length, length, cos_t);
    if exits_front(length, half_width, cos_t, sin_t) {
        numeric::lemma_over(length, cos_t);
        lemma_quotient(l, cos_t.value());
    } else {
        assert(s.value() > 0) by {
            if s.value() == 0 {
                numeric::lemma_signs(half_width);
                numeric::lemma_with_sign(false, 0x7f80_0000);
                reveal(Binary32::over);
            }
        }
        numeric::lemma_over(half_width, s);
        numeric::lemma_over_grows(half_width, half_width, s);
        lemma_quotient(w, s.value());
    }
    lemma_crossing(range, cos_t, sin_t, length, half_width);
}

/// A point that is found inside a field lies in the rectangle in front of the robot, read
/// in real numbers and up to rounding.
pub proof fn what_is_inside_lies_in_the_rectangle(
    range: Binary32,
    cos_t: Binary32,
    sin_t: Binary32,
    length: Binary32,
    half_width: Binary32,
)
    requires
        cos_t.finite(),
        sin_t.finite(),
        length.finite(),
        half_width.finite(),
        range.finite(),
        range.value() >= 0,
        inside(range, cos_t, sin_t, length, half_width),
    ensures
        cos_t.value() > 0,
        length.value() > 0,
        half_width.value() > 0,
        in_rectangle(range, cos_t, sin_t, length, half_width),
{
    numeric::lemma_constants();
    lemma_crossing(range, cos_t, sin_t, length, half_width);
}

/// A point that lies in the rectangle in front of the robot, in real numbers, is found
/// inside the field, or exactly on the boundary that rounding gives it.
pub proof fn what_lies_in_the_rectangle_is_inside(
    range: Binary32,
    cos_t: Binary32,
    sin_t: Binary32,
    length: Binary32,
    half_width: Binary32,
)
    requires
        cos_t.finite(),
        sin_t.finite(),
        length.finite(),
        half_width.finite(),
        range.finite(),
        range.value() >= 0,
        cos_t.value() > 0,
        length.value() > 0,
        half_width.value() > 0,
        ahead(range, cos_t) <= squared(length),
        aside(range, sin_t) <= squared(half_width),
    ensures
        boundary(length, half_width, cos_t, sin_t) matches Some(b) && (range.less(b)
            || range.equals(b)),
        inside(range, cos_t, sin_t, length, half_width) || boundary(
            length,
            half_width,
            cos_t,
            sin_t,
        )->0.equals(range),
{
    numeric::lemma_constants();
    let s = sin_t.absolute();
    numeric::lemma_signs(sin_t);
    numeric::lemma_finite(range);
    numeric::lemma_over_grows(length, length, cos_t);
    if exits_front(length, half_width, cos_t, sin_t) {
        numeric::lemma_over(length, cos_t);
        numeric::lemma_round_between(range, squared(length), cos_t.value(), range);
    } else if s.value() == 0 {
        numeric::lemma_signs(half_width);
        numeric::lemma_with_sign(false, 0x7f80_0000);
        reveal(Binary32::over);
        numeric::lemma_finite(half_width.over(s));
    } else {
        numeric::lemma_over(half_width, s);
        numeric::lemma_round_between(range, squared(half_width), s.value(), range);
    }
}

/// A longer field excludes at most points on its side wall that a shorter one caught: up
/// to rounding, no other point is lost.
pub proof fn a_longer_field_loses_at_most_its_side_wall(
    range: Binary32,
    cos_t: Binary32,
    sin_t: Binary32,
    short: Binary32,
    long: Binary32,
    half_width: Binary32,
)
    requires
        cos_t.finite(),
        sin_t.finite(),
        short.finite(),
        half_width.finite(),
        short.at_most(long),
        range.finite(),
        range.value() >= 0,
        inside(range, cos_t, sin_t, short, half_width),
    ensures
        inside(range, cos_t, sin_t, long, half_width) || level(
            aside(range, sin_t),
            squared(half_width),
            aside_grain(sin_t),
        ),
{
    numeric::lemma_constants();
    let s = sin_t.absolute();
    let (x, w) = (range.value(), squared(half_width));
    numeric::lemma_signs(sin_t);
    what_is_inside_lies_in_the_rectangle(range, cos_t, sin_t, short, half_width);
    if !inside(range, cos_t, sin_t, long, half_width) {
        lemma_lost(range, cos_t, sin_t, short, long, half_width);
        let side = half_width.over(s);
        numeric::lemma_over(half_width, s);
        numeric::lemma_finite(side);
        numeric::lemma_finite(range);
        assert(w >= 0) by (nonlinear_arith)
            requires
                half_width.value() >= 0,
                w == half_width.value() * binary32::units_in_one(),
                binary32::units_in_one() > 0,
        ;
        lemma_quotient(w, s.value());
        assert(s.value() * side.value() <= s.value() * x) by (nonlinear_arith)
            requires
                s.value() > 0,
                side.value() <= x,
        ;
    }
}

/// A point is lost only where the longer field ends at its side wall, no further than
/// the point.
proof fn lemma_lost(
    range: Binary32,
    cos_t: Binary32,
    sin_t: Binary32,
    short: Binary32,
    long: Binary32,
    half_width: Binary32,
)
    requires
        cos_t.finite(),
        sin_t.finite(),
        short.finite(),
        half_width.finite(),
        short.at_most(long),
        range.finite(),
        inside(range, cos_t, sin_t, short, half_width),
        !inside(range, cos_t, sin_t, long, half_width),
    ensures
        sin_t.absolute().value() > 0,
        half_width.over(sin_t.absolute()).at_most(range),
{
    numeric::lemma_constants();
    let u = binary32::units_in_one();
    let s = sin_t.absolute();
    numeric::lemma_signs(sin_t);
    let front = front_range(short, cos_t);
    if s.value() == 0 {
        assert(s.value() * front.value() == 0 && half_width.value() * u >= 0) by (nonlinear_arith)
            requires
                s.value() == 0,
                half_width.value() > 0,
                u > 0,
        ;
        a_longer_field_keeps_every_point(range, cos_t, sin_t, short, long, half_width);
    } else {
        numeric::lemma_over(half_width, s);
        if exits_front(long, half_width, cos_t, sin_t) || !exits_front(
            short,
            half_width,
            cos_t,
            sin_t,
        ) {
            a_longer_field_keeps_every_point(range, cos_t, sin_t, short, long, half_width);
        }
    }
}

} // verus!
