//! What the arithmetic of [`Binary32`] keeps.

use crate::binary32;
use crate::binary32::Binary32;
use crate::rounding;
use crate::types;
use vstd::arithmetic::power2::lemma_pow2_pos;
use vstd::prelude::*;

verus! {

/// Changing a sign changes that of the value and nothing else.
pub proof fn lemma_signs(x: Binary32)
    ensures
        x.absolute().value() == binary32::size(x.value()),
        x.opposite().value() == -x.value(),
        x.absolute().pattern() == x.pattern(),
        x.opposite().pattern() == x.pattern(),
        !x.absolute().negative(),
        x.value() == 0 <==> x.pattern() == 0,
        x.negative() ==> x.value() <= 0,
        !x.negative() ==> x.value() >= 0,
        x.value() < 0 ==> x.negative(),
        binary32::zero().value() == 0,
{
    reveal(Binary32::value);
    reveal(Binary32::opposite);
    reveal(Binary32::absolute);
    rounding::lemma_magnitude_order(x.pattern(), 0);
}

/// Clamping to a non-negative limit bounds the size of a number, and changes neither
/// its sign nor, within the limit, anything else.
pub proof fn lemma_clamp(x: Binary32, limit: Binary32)
    requires
        !limit.nan(),
        0 <= limit.value(),
    ensures
        ({
            let r = types::clamp(x, limit);
            &&& x.nan() ==> r == x
            &&& !x.nan() ==> {
                &&& !r.nan()
                &&& -limit.value() <= r.value() <= limit.value()
                &&& limit.finite() ==> r.finite()
                &&& x.value() >= 0 ==> 0 <= r.value() <= x.value()
                &&& x.value() <= 0 ==> x.value() <= r.value() <= 0
                &&& -limit.value() <= x.value() <= limit.value() ==> r == x
                &&& x.value() > limit.value() ==> r.value() == limit.value()
                &&& x.value() < -limit.value() ==> r.value() == -limit.value()
            }
        }),
{
    lemma_signs(x);
    lemma_signs(limit);
    if limit.finite() {
        reveal(Binary32::value);
        rounding::lemma_magnitude_order(x.pattern(), limit.pattern());
    }
}

/// The value of the number nearest to `num / den`.
pub open spec fn round_value(num: int, den: int) -> int {
    if num < 0 {
        -rounding::magnitude(rounding::nearest(-num, den))
    } else {
        rounding::magnitude(rounding::nearest(num, den))
    }
}

/// A number that was put together from a sign and a pattern has the value of that
/// pattern.
pub proof fn lemma_with_sign(negative: bool, m: int)
    requires
        0 <= m <= 0x7f80_0000,
    ensures
        ({
            let x = binary32::with_sign(negative, m);
            &&& x.pattern() == m
            &&& !x.nan()
            &&& x.negative() == negative
            &&& x.value() == if negative {
                -rounding::magnitude(m)
            } else {
                rounding::magnitude(m)
            }
        }),
{
    reveal(Binary32::value);
}

/// The value beyond every finite one, which stands for infinity.
pub open spec fn beyond() -> int {
    binary32::infinity().value()
}

/// Finite numbers are those whose value lies strictly within the infinities.
pub proof fn lemma_finite(x: Binary32)
    requires
        !x.nan(),
    ensures
        x.finite() <==> -beyond() < x.value() < beyond(),
        x.infinite() <==> x.value() == beyond() || x.value() == -beyond(),
        -beyond() <= x.value() <= beyond(),
        beyond() == rounding::magnitude(0x7f80_0000),
        beyond() > 0,
{
    reveal(Binary32::value);
    rounding::lemma_magnitude_order(x.pattern(), 0x7f80_0000);
    rounding::lemma_magnitude_order(0x7f80_0000, x.pattern());
    rounding::lemma_magnitude_order(0, 0x7f80_0000);
}

/// Rounding keeps the order of fractions.
pub proof fn lemma_round_order(num1: int, den1: int, num2: int, den2: int)
    requires
        den1 > 0,
        den2 > 0,
        num1 * den2 <= num2 * den1,
    ensures
        round_value(num1, den1) <= round_value(num2, den2),
{
    let (a, b) = (binary32::size(num1), binary32::size(num2));
    rounding::lemma_nearest(a, den1);
    rounding::lemma_nearest(b, den2);
    let (m, n) = (rounding::nearest(a, den1), rounding::nearest(b, den2));
    rounding::lemma_magnitude_order(m, n);
    rounding::lemma_magnitude_order(n, m);
    assert(num1 >= 0 ==> num2 >= 0) by (nonlinear_arith)
        requires
            den1 > 0,
            den2 > 0,
            num1 * den2 <= num2 * den1,
    ;
    if num1 >= 0 {
        rounding::lemma_nearest_order(a, den1, m, b, den2, n);
    } else if num2 < 0 {
        assert((-num2) * den1 <= (-num1) * den2) by (nonlinear_arith)
            requires
                num1 * den2 <= num2 * den1,
        ;
        rounding::lemma_nearest_order(b, den2, n, a, den1, m);
    }
}

/// A value that a number has is not changed by rounding.
pub proof fn lemma_round_exact(x: Binary32, den: int)
    requires
        !x.nan(),
        den > 0,
    ensures
        round_value(den * x.value(), den) == x.value(),
{
    reveal(Binary32::value);
    let m = x.pattern();
    rounding::lemma_magnitude_order(m, 0);
    let v = rounding::magnitude(m);
    rounding::lemma_nearest_of_magnitude(den * v, den, m);
    rounding::lemma_nearest_unique(den * v, den, m);
    assert(den * v >= 0) by (nonlinear_arith)
        requires
            den > 0,
            v >= 0,
    ;
    assert(den * (-v) == -(den * v)) by (nonlinear_arith);
    assert(v == 0 ==> den * v == 0) by (nonlinear_arith);
    assert(v > 0 ==> den * v > 0) by (nonlinear_arith)
        requires
            den > 0,
    ;
}

/// A fraction between the values of two numbers rounds to a value between them.
pub proof fn lemma_round_between(lo: Binary32, num: int, den: int, hi: Binary32)
    requires
        !lo.nan(),
        !hi.nan(),
        den > 0,
    ensures
        den * lo.value() <= num ==> lo.value() <= round_value(num, den),
        num <= den * hi.value() ==> round_value(num, den) <= hi.value(),
{
    lemma_round_exact(lo, den);
    lemma_round_exact(hi, den);
    if den * lo.value() <= num {
        assert((den * lo.value()) * den <= num * den) by (nonlinear_arith)
            requires
                den > 0,
                den * lo.value() <= num,
        ;
        lemma_round_order(den * lo.value(), den, num, den);
    }
    if num <= den * hi.value() {
        assert(num * den <= (den * hi.value()) * den) by (nonlinear_arith)
            requires
                den > 0,
                num <= den * hi.value(),
        ;
        lemma_round_order(num, den, den * hi.value(), den);
    }
}

/// The sum of two finite numbers is the rounded sum of their values.
pub proof fn lemma_plus(a: Binary32, b: Binary32)
    requires
        a.finite(),
        b.finite(),
    ensures
        !a.plus(b).nan(),
        a.plus(b).value() == round_value(a.value() + b.value(), 1),
{
    reveal(Binary32::plus);
    let total = a.value() + b.value();
    let size = binary32::size(total);
    rounding::lemma_nearest(size, 1);
    let m = rounding::nearest(size, 1);
    lemma_with_sign(true, m);
    lemma_with_sign(false, m);
    if total == 0 {
        rounding::lemma_nearest_of_magnitude(0, 1, 0);
        rounding::lemma_nearest_unique(0, 1, 0);
    }
}

/// The product of two finite numbers is the rounded product of their values.
pub proof fn lemma_times(a: Binary32, b: Binary32)
    requires
        a.finite(),
        b.finite(),
    ensures
        !a.times(b).nan(),
        a.times(b).value() == round_value(a.value() * b.value(), binary32::units_in_one()),
{
    reveal(Binary32::times);
    reveal(Binary32::value);
    let (x, y) = (rounding::magnitude(a.pattern()), rounding::magnitude(b.pattern()));
    let u = binary32::units_in_one();
    lemma_pow2_pos(149);
    rounding::lemma_magnitude_order(a.pattern(), 0);
    rounding::lemma_magnitude_order(b.pattern(), 0);
    assert(x * y >= 0 && (-x) * (-y) == x * y && (-x) * y == -(x * y) && x * (-y) == -(x * y))
        by (nonlinear_arith)
        requires
            x >= 0,
            y >= 0,
    ;
    rounding::lemma_nearest(x * y, u);
    let m = rounding::nearest(x * y, u);
    lemma_with_sign(true, m);
    lemma_with_sign(false, m);
    if x * y == 0 {
        assert(u * 0 == 0);
        rounding::lemma_nearest_of_magnitude(0, u, 0);
        rounding::lemma_nearest_unique(0, u, 0);
    }
}

/// The quotient of a finite number and a positive one is the rounded quotient of their
/// values.
pub proof fn lemma_over(a: Binary32, b: Binary32)
    requires
        a.finite(),
        b.finite(),
        b.value() > 0,
    ensures
        !a.over(b).nan(),
        a.over(b).value() == round_value(a.value() * binary32::units_in_one(), b.value()),
{
    reveal(Binary32::over);
    reveal(Binary32::value);
    let (x, y) = (rounding::magnitude(a.pattern()), rounding::magnitude(b.pattern()));
    let u = binary32::units_in_one();
    lemma_pow2_pos(149);
    rounding::lemma_magnitude_order(a.pattern(), 0);
    rounding::lemma_magnitude_order(b.pattern(), 0);
    assert(x * u >= 0 && (-x) * u == -(x * u)) by (nonlinear_arith)
        requires
            x >= 0,
            u > 0,
    ;
    rounding::lemma_nearest(x * u, y);
    let m = rounding::nearest(x * u, y);
    lemma_with_sign(true, m);
    lemma_with_sign(false, m);
    if x * u == 0 {
        assert(y * 0 == 0);
        rounding::lemma_nearest_of_magnitude(0, y, 0);
        rounding::lemma_nearest_unique(0, y, 0);
    }
}

/// Rounding treats both signs alike.
pub proof fn lemma_round_symmetric(num: int)
    ensures
        round_value(-num, 1) == -round_value(num, 1),
{
    rounding::lemma_nearest_of_magnitude(0, 1, 0);
    rounding::lemma_nearest_unique(0, 1, 0);
}

/// Whole numbers of units round in order, and past no value that a number has.
pub proof fn lemma_round_at(x: Binary32, num: int)
    requires
        !x.nan(),
    ensures
        num <= x.value() ==> round_value(num, 1) <= x.value(),
        num >= x.value() ==> round_value(num, 1) >= x.value(),
        num == x.value() ==> round_value(num, 1) == x.value(),
        num <= -x.value() ==> round_value(num, 1) <= -x.value(),
        num >= -x.value() ==> round_value(num, 1) >= -x.value(),
{
    lemma_round_between(x, num, 1, x);
    lemma_round_between(x, -num, 1, x);
    lemma_round_symmetric(num);
}

/// A number that is not smaller in size rounds to one that is not smaller in size.
pub proof fn lemma_round_sizes(a: int, b: int)
    requires
        binary32::size(a) <= binary32::size(b),
    ensures
        binary32::size(round_value(a, 1)) <= binary32::size(round_value(b, 1)),
{
    lemma_round_symmetric(a);
    lemma_round_symmetric(b);
    lemma_signs(binary32::zero());
    lemma_round_at(binary32::zero(), a);
    lemma_round_at(binary32::zero(), b);
    lemma_round_order(binary32::size(a), 1, binary32::size(b), 1);
}

/// Rounding changes a sum of values by at most one part in 2^24.
pub proof fn lemma_round_error(num: int)
    ensures
        ({
            let r = round_value(num, 1);
            &&& binary32::size(num) <= beyond() ==> 0x100_0000 * binary32::size(r - num)
                <= binary32::size(num)
            &&& binary32::size(num) >= beyond() ==> binary32::size(r) == beyond()
            &&& 0x100_0000 * (binary32::size(r) - binary32::size(num)) <= binary32::size(num)
        }),
{
    lemma_finite(binary32::infinity());
    rounding::lemma_nearest_error(binary32::size(num), 1);
    let m = rounding::nearest(binary32::size(num), 1);
    rounding::lemma_nearest(binary32::size(num), 1);
    rounding::lemma_magnitude_order(m, 0);
}

/// Rounding takes at most one part in 2^24 off a value, and half a unit more where the
/// value is below the normal ones.
pub proof fn lemma_round_floor(num: int, den: int)
    requires
        num >= 0,
        den > 0,
        round_value(num, den) < beyond(),
    ensures
        ({
            let x = den * round_value(num, den);
            &&& 0x200_0000 * x >= 0x1ff_fffe * num - 0x100_0000 * den
            &&& round_value(num, den) >= 0x80_0000 || num == 0 ==> 0x100_0000 * x >= 0xff_ffff
                * num
            &&& x >= 0
        }),
{
    lemma_finite(binary32::infinity());
    rounding::lemma_nearest_error(num, den);
    rounding::lemma_nearest(num, den);
    let m = rounding::nearest(num, den);
    rounding::lemma_magnitude_order(m, 0);
    let r = round_value(num, den);
    assert(den * r >= 0) by (nonlinear_arith)
        requires
            den > 0,
            r >= 0,
    ;
    assert(r >= 0x80_0000 ==> den * r >= den * 0x80_0000) by (nonlinear_arith)
        requires
            den > 0,
    ;
}

/// Rounding adds at most one part in 2^24 to a value, and half a unit more where the value
/// is below the normal ones.
pub proof fn lemma_round_ceiling(num: int, den: int)
    requires
        num >= 0,
        den > 0,
        round_value(num, den) < beyond(),
    ensures
        ({
            let x = den * round_value(num, den);
            &&& 0x200_0000 * x <= 0x200_0002 * num + 0x100_0000 * den
            &&& round_value(num, den) >= 0x80_0000 || num == 0 ==> 0xff_ffff * x <= 0x100_0000
                * num
        }),
{
    lemma_finite(binary32::infinity());
    rounding::lemma_nearest_error(num, den);
    rounding::lemma_nearest(num, den);
    let m = rounding::nearest(num, den);
    rounding::lemma_magnitude_order(m, 0);
    let r = round_value(num, den);
    assert(r >= 0x80_0000 ==> den * r >= den * 0x80_0000) by (nonlinear_arith)
        requires
            den > 0,
    ;
    if num == 0 {
        assert(den * 0 == 0);
        rounding::lemma_nearest_of_magnitude(0, den, 0);
        rounding::lemma_nearest_unique(0, den, 0);
    }
}

/// Twice a finite value is a value again, or beyond every finite one.
pub proof fn lemma_round_double(x: Binary32)
    requires
        x.finite(),
    ensures
        ({
            let r = round_value(2 * binary32::size(x.value()), 1);
            r == 2 * binary32::size(x.value()) || (r == beyond() && r <= 2 * binary32::size(
                x.value(),
            ))
        }),
{
    lemma_finite(x);
    reveal(Binary32::value);
    rounding::lemma_magnitude_order(x.pattern(), 0);
    rounding::lemma_nearest_double(x.pattern());
}

/// `x` within `[-limit, limit]`.
pub open spec fn bounded(x: int, limit: int) -> int {
    if x > limit {
        limit
    } else if x < -limit {
        -limit
    } else {
        x
    }
}

/// The value that one step of a ramp reaches.
pub open spec fn ramp_value(current: int, target: int, delta: int) -> int {
    round_value(current + bounded(round_value(target - current, 1), delta), 1)
}

/// One step of a ramp between finite numbers reaches the rounded sum of where it starts
/// and how far it may go.
pub proof fn lemma_ramp(current: Binary32, target: Binary32, delta: Binary32)
    requires
        current.finite(),
        target.finite(),
        delta.finite(),
        delta.value() >= 0,
    ensures
        ({
            let r = current.plus(types::clamp(target.minus(current), delta));
            &&& !r.nan()
            &&& r.value() == ramp_value(current.value(), target.value(), delta.value())
        }),
{
    lemma_signs(current);
    lemma_plus(target, current.opposite());
    let d = target.minus(current);
    lemma_clamp(d, delta);
    lemma_plus(current, types::clamp(d, delta));
}

/// A ramp treats both directions alike.
pub proof fn lemma_ramp_symmetric(current: int, target: int, delta: int)
    requires
        delta >= 0,
    ensures
        ramp_value(-current, -target, delta) == -ramp_value(current, target, delta),
{
    let d = round_value(target - current, 1);
    lemma_round_symmetric(target - current);
    assert(-target - (-current) == -(target - current));
    lemma_round_symmetric(current + bounded(d, delta));
    assert(-current + bounded(-d, delta) == -(current + bounded(d, delta)));
}

/// A step is no longer than the ramp allows, up to the rounding of its end, wherever the
/// ramp leads.
pub proof fn lemma_ramp_step(p: Binary32, target: Binary32, m: Binary32)
    requires
        p.finite(),
        !target.nan(),
        m.finite(),
        m.value() >= 0,
    ensures
        ({
            let r = p.plus(types::clamp(target.minus(p), m));
            let (pv, mv) = (p.value(), m.value());
            &&& !r.nan()
            &&& round_value(pv - mv, 1) <= r.value() <= round_value(pv + mv, 1)
            &&& 0x100_0000 * (binary32::size(r.value() - pv) - mv) <= binary32::size(pv) + mv
        }),
{
    lemma_signs(p);
    let x = target.minus(p);
    assert(!x.nan()) by {
        if target.finite() {
            lemma_plus(target, p.opposite());
        } else {
            reveal(Binary32::plus);
        }
    }
    lemma_clamp(x, m);
    let d = types::clamp(x, m);
    lemma_plus(p, d);
    let sum = p.value() + d.value();
    lemma_round_order(p.value() - m.value(), 1, sum, 1);
    lemma_round_order(sum, 1, p.value() + m.value(), 1);
    lemma_round_error(sum);
    lemma_finite(p);
    lemma_round_at(p, sum);
    lemma_signs(binary32::zero());
    lemma_round_at(binary32::zero(), sum);
}

/// A step toward a target stays within any limit on the target, up to rounding, or
/// brakes as hard as it may.
pub proof fn lemma_ramp_limit(
    p: Binary32,
    t: Binary32,
    up: Binary32,
    down: Binary32,
    limit: int,
    max: int,
)
    requires
        p.finite(),
        t.finite(),
        up.finite(),
        down.finite(),
        up.value() >= 0,
        down.value() >= 0,
        binary32::size(p.value()) <= max,
        binary32::size(t.value()) <= limit <= max,
    ensures
        ({
            let m = if binary32::size(p.value()) < binary32::size(t.value()) {
                up.value()
            } else {
                down.value()
            };
            let r = ramp_value(p.value(), t.value(), m);
            ||| 0x40_0000 * (binary32::size(r) - limit) <= max
            ||| binary32::size(r) <= round_value(binary32::size(p.value()) - down.value(), 1)
        }),
{
    let m = if binary32::size(p.value()) < binary32::size(t.value()) {
        up
    } else {
        down
    };
    if p.value() < 0 {
        lemma_signs(p);
        lemma_signs(t);
        lemma_ramp_limit_forward(p.opposite(), t.opposite(), m, down, limit, max);
        lemma_ramp_symmetric(p.value(), t.value(), m.value());
    } else {
        lemma_ramp_limit_forward(p, t, m, down, limit, max);
    }
}

/// A step from a forward velocity stays within any limit on the target, up to rounding,
/// or brakes as hard as it may.
proof fn lemma_ramp_limit_forward(
    p: Binary32,
    t: Binary32,
    m: Binary32,
    down: Binary32,
    limit: int,
    max: int,
)
    requires
        p.finite(),
        t.finite(),
        m.finite(),
        m.value() >= 0,
        p.value() < binary32::size(t.value()) || m == down,
        0 <= p.value() <= max,
        binary32::size(t.value()) <= limit <= max,
    ensures
        ({
            let r = ramp_value(p.value(), t.value(), m.value());
            ||| 0x40_0000 * (binary32::size(r) - limit) <= max
            ||| binary32::size(r) <= round_value(binary32::size(p.value()) - down.value(), 1)
        }),
{
    let (pv, tv, mv) = (p.value(), t.value(), m.value());
    let x = round_value(tv - pv, 1);
    let r = ramp_value(pv, tv, mv);
    lemma_round_at(m, tv - pv);
    lemma_signs(binary32::zero());
    if x > mv {
        lemma_round_at(p, pv + mv);
        lemma_round_at(t, pv + mv);
    } else if x < -mv {
        lemma_round_at(p, pv - mv);
        lemma_round_at(t, pv - mv);
    } else {
        lemma_finite(m);
        lemma_round_error(tv - pv);
        lemma_round_error(pv + x);
    }
}

/// A step toward a target that is no faster is no faster either.
pub proof fn lemma_ramp_no_faster(p: Binary32, t: Binary32, m: Binary32)
    requires
        p.finite(),
        t.finite(),
        m.finite(),
        m.value() >= 0,
        binary32::size(t.value()) <= binary32::size(p.value()),
    ensures
        binary32::size(ramp_value(p.value(), t.value(), m.value())) <= binary32::size(p.value()),
    decreases
        if p.value() < 0 {
            1int
        } else {
            0
        },
{
    if p.value() < 0 {
        lemma_signs(p);
        lemma_signs(t);
        lemma_ramp_no_faster(p.opposite(), t.opposite(), m);
        lemma_ramp_symmetric(p.value(), t.value(), m.value());
    } else {
        let (pv, tv, mv) = (p.value(), t.value(), m.value());
        let x = round_value(tv - pv, 1);
        lemma_signs(binary32::zero());
        lemma_round_at(binary32::zero(), tv - pv);
        lemma_round_double(p);
        lemma_round_order(pv - tv, 1, 2 * pv, 1);
        lemma_round_symmetric(tv - pv);
        lemma_round_at(p, pv + bounded(x, mv));
    }
}

/// A step from a forward velocity toward another one, or toward rest, does not reverse.
pub proof fn lemma_ramp_forward(p: Binary32, t: Binary32, m: Binary32)
    requires
        p.finite(),
        t.finite(),
        m.finite(),
        m.value() >= 0,
        p.value() >= 0,
        t.value() >= 0,
    ensures
        ramp_value(p.value(), t.value(), m.value()) >= 0,
{
    let (pv, tv, mv) = (p.value(), t.value(), m.value());
    let x = round_value(tv - pv, 1);
    lemma_signs(binary32::zero());
    lemma_round_at(p, tv - pv);
    lemma_round_at(binary32::zero(), tv - pv);
    lemma_round_at(binary32::zero(), pv + bounded(x, mv));
}

/// A step toward rest reaches it where it is near enough, and otherwise only slows down.
pub proof fn lemma_ramp_to_rest(p: Binary32, m: Binary32)
    requires
        p.finite(),
        m.finite(),
        m.value() >= 0,
    ensures
        ({
            let r = ramp_value(p.value(), 0, m.value());
            let speed = binary32::size(p.value());
            &&& binary32::size(r) == if speed <= m.value() {
                0
            } else {
                round_value(speed - m.value(), 1)
            }
            &&& binary32::size(r) <= speed
            &&& p.value() >= 0 ==> r >= 0
            &&& p.value() <= 0 ==> r <= 0
        }),
    decreases
        if p.value() < 0 {
            1int
        } else {
            0
        },
{
    if p.value() < 0 {
        lemma_signs(p);
        lemma_ramp_to_rest(p.opposite(), m);
        lemma_ramp_symmetric(p.value(), 0, m.value());
    } else {
        let (pv, mv) = (p.value(), m.value());
        lemma_round_at(p, -pv);
        lemma_round_at(p, pv - mv);
        lemma_signs(binary32::zero());
        lemma_round_at(binary32::zero(), 0);
        lemma_round_at(binary32::zero(), pv - mv);
    }
}

/// The step that a ramp may take from `p` toward `t`: `up` where that is faster, and
/// `down` where it is not.
pub open spec fn step_toward(p: int, t: int, up: int, down: int) -> int {
    if binary32::size(p) < binary32::size(t) {
        up
    } else {
        down
    }
}

/// Whether slowing the target down from `t` to `s` can leave the next step of a ramp
/// from `p` faster: where `p` and `t` point in opposite directions, `t` is the faster
/// one of the two and `s` is not, and braking leads less near to rest than accelerating.
pub open spec fn swings(p: int, s: int, t: int, up: int, down: int) -> bool {
    let speed = binary32::size(p);
    &&& p < 0 < t || t < 0 < p
    &&& binary32::size(s) <= speed < binary32::size(t)
    &&& binary32::size(speed - down) > binary32::size(speed - up)
}

/// A slower target gives a step that is not faster.
pub proof fn lemma_ramp_slower(p: Binary32, s: Binary32, t: Binary32, up: Binary32, down: Binary32)
    requires
        p.finite(),
        s.finite(),
        t.finite(),
        up.finite(),
        down.finite(),
        up.value() >= 0,
        down.value() >= 0,
        0 <= s.value() <= t.value() || t.value() <= s.value() <= 0,
        !swings(p.value(), s.value(), t.value(), up.value(), down.value()),
    ensures
        ({
            let (pv, sv, tv) = (p.value(), s.value(), t.value());
            let (u, d) = (up.value(), down.value());
            binary32::size(ramp_value(pv, sv, step_toward(pv, sv, u, d))) <= binary32::size(
                ramp_value(pv, tv, step_toward(pv, tv, u, d)),
            )
        }),
{
    let (pv, sv, tv) = (p.value(), s.value(), t.value());
    let (u, d) = (up.value(), down.value());
    if pv < 0 {
        lemma_signs(p);
        lemma_signs(s);
        lemma_signs(t);
        lemma_ramp_slower_forward(p.opposite(), s.opposite(), t.opposite(), up, down);
        lemma_ramp_symmetric(pv, sv, step_toward(pv, sv, u, d));
        lemma_ramp_symmetric(pv, tv, step_toward(pv, tv, u, d));
    } else {
        lemma_ramp_slower_forward(p, s, t, up, down);
    }
}

/// A slower target gives a step from a forward velocity that is not faster.
proof fn lemma_ramp_slower_forward(
    p: Binary32,
    s: Binary32,
    t: Binary32,
    up: Binary32,
    down: Binary32,
)
    requires
        p.finite(),
        s.finite(),
        t.finite(),
        up.finite(),
        down.finite(),
        up.value() >= 0,
        down.value() >= 0,
        p.value() >= 0,
        0 <= s.value() <= t.value() || t.value() <= s.value() <= 0,
        !swings(p.value(), s.value(), t.value(), up.value(), down.value()),
    ensures
        ({
            let (pv, sv, tv) = (p.value(), s.value(), t.value());
            let (u, d) = (up.value(), down.value());
            binary32::size(ramp_value(pv, sv, step_toward(pv, sv, u, d))) <= binary32::size(
                ramp_value(pv, tv, step_toward(pv, tv, u, d)),
            )
        }),
{
    let (pv, sv, tv) = (p.value(), s.value(), t.value());
    let (u, d) = (up.value(), down.value());
    let (ms, mt) = (step_toward(pv, sv, u, d), step_toward(pv, tv, u, d));
    let (xs, xt) = (round_value(sv - pv, 1), round_value(tv - pv, 1));
    let (ds, dt) = (bounded(xs, ms), bounded(xt, mt));
    let (rs, rt) = (round_value(pv + ds, 1), round_value(pv + dt, 1));
    assert(rs == ramp_value(pv, sv, ms) && rt == ramp_value(pv, tv, mt));
    lemma_signs(binary32::zero());
    lemma_round_at(binary32::zero(), sv - pv);
    lemma_round_at(binary32::zero(), tv - pv);
    lemma_round_at(binary32::zero(), pv + ds);
    lemma_round_at(p, sv - pv);
    lemma_round_at(p, tv - pv);
    lemma_round_at(p, pv + ds);
    lemma_round_at(p, pv + dt);
    if tv >= 0 {
        lemma_round_order(sv - pv, 1, tv - pv, 1);
        if ms == mt {
            lemma_round_order(pv + ds, 1, pv + dt, 1);
        }
    } else {
        lemma_round_order(tv - pv, 1, sv - pv, 1);
        if ms == mt {
            lemma_round_order(pv + dt, 1, pv + ds, 1);
        } else {
            lemma_round_double(p);
            lemma_finite(up);
            lemma_round_order(2 * pv, 1, pv - tv, 1);
            lemma_round_order(pv - sv, 1, 2 * pv, 1);
            lemma_round_symmetric(tv - pv);
            lemma_round_symmetric(sv - pv);
            if xs >= -ms && xt >= -mt {
                lemma_round_order(pv + dt, 1, pv + ds, 1);
            } else {
                lemma_round_sizes(pv + ds, pv + dt);
            }
        }
    }
}

/// Products of larger factors are larger.
pub proof fn lemma_times_grows(a: Binary32, b: Binary32, c: Binary32, d: Binary32)
    requires
        a.finite(),
        b.finite(),
        c.finite(),
        d.finite(),
        0 <= a.value() <= c.value(),
        0 <= b.value() <= d.value(),
    ensures
        !a.times(b).nan(),
        !c.times(d).nan(),
        0 <= a.times(b).value() <= c.times(d).value(),
{
    let u = binary32::units_in_one();
    lemma_pow2_pos(149);
    lemma_times(a, b);
    lemma_times(c, d);
    lemma_signs(binary32::zero());
    let (x, y) = (a.value() * b.value(), c.value() * d.value());
    assert(0 <= x <= y) by (nonlinear_arith)
        requires
            0 <= a.value() <= c.value(),
            0 <= b.value() <= d.value(),
            x == a.value() * b.value(),
            y == c.value() * d.value(),
    ;
    assert(x * u <= y * u) by (nonlinear_arith)
        requires
            x <= y,
            u > 0,
    ;
    assert(u * 0 == 0);
    lemma_round_order(x, u, y, u);
    lemma_round_between(binary32::zero(), x, u, binary32::zero());
}

/// Sums of larger terms are larger, and a sum is not less than either of its terms.
pub proof fn lemma_plus_grows(a: Binary32, b: Binary32, c: Binary32, d: Binary32)
    requires
        !a.nan(),
        !b.nan(),
        !c.nan(),
        !d.nan(),
        0 <= a.value() <= c.value(),
        0 <= b.value() <= d.value(),
    ensures
        !a.plus(b).nan(),
        !c.plus(d).nan(),
        a.plus(b).value() <= c.plus(d).value(),
        a.value() <= a.plus(b).value(),
        b.value() <= a.plus(b).value(),
{
    lemma_infinite_sum(a, b);
    lemma_infinite_sum(c, d);
    lemma_finite(c.plus(d));
    lemma_finite(a);
    lemma_finite(b);
    lemma_finite(c);
    lemma_finite(d);
    if a.finite() && b.finite() {
        lemma_plus(a, b);
        lemma_round_at(a, a.value() + b.value());
        lemma_round_at(b, a.value() + b.value());
        lemma_finite(a.plus(b));
        if c.finite() && d.finite() {
            lemma_plus(c, d);
            lemma_round_order(a.value() + b.value(), 1, c.value() + d.value(), 1);
        }
    }
}

/// A sum of non-negative numbers is infinite where either of them is.
proof fn lemma_infinite_sum(a: Binary32, b: Binary32)
    requires
        !a.nan(),
        !b.nan(),
        a.value() >= 0,
        b.value() >= 0,
    ensures
        !a.plus(b).nan(),
        !a.finite() || !b.finite() ==> a.plus(b).value() == beyond(),
{
    lemma_signs(a);
    lemma_signs(b);
    lemma_finite(a);
    lemma_finite(b);
    if a.finite() && b.finite() {
        lemma_plus(a, b);
    } else {
        reveal(Binary32::plus);
    }
}

/// Larger numerators give larger quotients.
pub proof fn lemma_over_grows(a: Binary32, c: Binary32, b: Binary32)
    requires
        !a.nan(),
        !b.nan(),
        !c.nan(),
        0 <= a.value() <= c.value(),
        b.value() > 0,
        !(c.infinite() && b.infinite()),
    ensures
        !a.over(b).nan(),
        !c.over(b).nan(),
        0 <= a.over(b).value() <= c.over(b).value(),
{
    let u = binary32::units_in_one();
    lemma_pow2_pos(149);
    lemma_signs(a);
    lemma_signs(b);
    lemma_signs(c);
    lemma_signs(binary32::zero());
    lemma_finite(a);
    lemma_finite(b);
    lemma_finite(c);
    lemma_with_sign(true, 0);
    lemma_with_sign(false, 0);
    lemma_with_sign(false, 0x7f80_0000);
    rounding::lemma_magnitude_order(0, 0x7f80_0000);
    if b.finite() && a.finite() {
        lemma_over(a, b);
        lemma_finite(a.over(b));
        assert(a.value() * u >= b.value() * 0) by (nonlinear_arith)
            requires
                a.value() >= 0,
                u > 0,
        ;
        lemma_round_between(
            binary32::zero(),
            a.value() * u,
            b.value(),
            binary32::zero(),
        );
        if c.finite() {
            lemma_over(c, b);
            assert((a.value() * u) * b.value() <= (c.value() * u) * b.value()) by (nonlinear_arith)
                requires
                    a.value() <= c.value(),
                    u > 0,
                    b.value() > 0,
            ;
            lemma_round_order(a.value() * u, b.value(), c.value() * u, b.value());
        } else {
            reveal(Binary32::over);
        }
    } else {
        reveal(Binary32::over);
    }
}

/// A factor of at least one makes a number larger.
pub proof fn lemma_times_scale(a: Binary32, k: Binary32)
    requires
        !a.nan(),
        a.value() >= 0,
        k.finite(),
        k.value() >= binary32::units_in_one(),
    ensures
        !a.times(k).nan(),
        a.times(k).value() >= a.value(),
{
    let u = binary32::units_in_one();
    lemma_pow2_pos(149);
    lemma_finite(a);
    lemma_signs(a);
    lemma_signs(k);
    if a.finite() {
        lemma_times(a, k);
        assert(u * a.value() <= a.value() * k.value()) by (nonlinear_arith)
            requires
                a.value() >= 0,
                k.value() >= u,
        ;
        lemma_round_between(a, a.value() * k.value(), u, a);
    } else {
        reveal(Binary32::times);
        lemma_with_sign(false, 0x7f80_0000);
    }
}

/// A factor of at most one makes a number smaller.
pub proof fn lemma_times_fraction(a: Binary32, k: Binary32)
    requires
        a.finite(),
        a.value() >= 0,
        k.finite(),
        0 <= k.value() <= binary32::units_in_one(),
    ensures
        a.times(k).finite(),
        0 <= a.times(k).value() <= a.value(),
{
    let u = binary32::units_in_one();
    lemma_pow2_pos(149);
    lemma_times(a, k);
    lemma_signs(binary32::zero());
    assert(u * 0 <= a.value() * k.value() <= u * a.value()) by (nonlinear_arith)
        requires
            a.value() >= 0,
            0 <= k.value() <= u,
    ;
    lemma_round_between(binary32::zero(), a.value() * k.value(), u, a);
    lemma_finite(a);
    lemma_finite(a.times(k));
}

/// The values of one and two.
pub proof fn lemma_constants()
    ensures
        binary32::zero().value() == 0,
        binary32::unit().value() == binary32::units_in_one(),
        binary32::two().value() == 2 * binary32::units_in_one(),
        binary32::units_in_one() > 0,
{
    reveal(Binary32::value);
    vstd::arithmetic::power2::lemma2_to64();
    rounding::lemma_magnitude_of_significand(126, 0x80_0000);
    rounding::lemma_magnitude_of_significand(127, 0x80_0000);
    vstd::arithmetic::power2::lemma_pow2_adds(23, 126);
    vstd::arithmetic::power2::lemma_pow2_adds(23, 127);
    vstd::arithmetic::power2::lemma_pow2_adds(1, 149);
    lemma_pow2_pos(149);
    rounding::lemma_magnitude_order(0, 0);
}

/// A fraction of at most two is a finite number whose value is its own, rounded.
pub proof fn lemma_fraction(num: int, den: int)
    requires
        0 < den <= 0x10_0000,
        0 < num <= 2 * den,
    ensures
        binary32::fraction(num, den).finite(),
        binary32::fraction(num, den).value() > 0,
        binary32::fraction(num, den).value() == round_value(
            num * binary32::units_in_one(),
            den,
        ),
{
    let u = binary32::units_in_one();
    lemma_constants();
    let least = Binary32 { bits: 1 };
    assert(least.value() == 1) by {
        reveal(Binary32::value);
    }
    assert(u >= 0x10_0000) by {
        vstd::arithmetic::power2::lemma2_to64();
        vstd::arithmetic::power2::lemma_pow2_strictly_increases(20, 149);
    }
    assert(den * 1 <= num * u) by (nonlinear_arith)
        requires
            0 < den <= 0x10_0000,
            num > 0,
            u >= 0x10_0000,
    ;
    assert(num * u <= den * (2 * u)) by (nonlinear_arith)
        requires
            num <= 2 * den,
            u > 0,
    ;
    rounding::lemma_nearest(num * u, den);
    lemma_with_sign(false, rounding::nearest(num * u, den));
    lemma_round_between(least, num * u, den, binary32::two());
    lemma_finite(binary32::two());
    lemma_finite(binary32::fraction(num, den));
}

/// Fractions are ordered as the numbers that they stand for.
pub proof fn lemma_fraction_order(num1: int, den1: int, num2: int, den2: int)
    requires
        0 < den1 <= 0x10_0000,
        0 < num1 <= 2 * den1,
        0 < den2 <= 0x10_0000,
        0 < num2 <= 2 * den2,
        num1 * den2 <= num2 * den1,
    ensures
        binary32::fraction(num1, den1).value() <= binary32::fraction(num2, den2).value(),
{
    let u = binary32::units_in_one();
    lemma_constants();
    lemma_fraction(num1, den1);
    lemma_fraction(num2, den2);
    assert((num1 * u) * den2 <= (num2 * u) * den1) by (nonlinear_arith)
        requires
            num1 * den2 <= num2 * den1,
            u > 0,
    ;
    lemma_round_order(num1 * u, den1, num2 * u, den2);
}

/// A whole fraction has the value that it says.
pub proof fn lemma_fraction_whole(x: Binary32, num: int, den: int)
    requires
        0 < den <= 0x10_0000,
        0 < num <= 2 * den,
        !x.nan(),
        x.value() * den == num * binary32::units_in_one(),
    ensures
        binary32::fraction(num, den).value() == x.value(),
{
    lemma_fraction(num, den);
    assert(x.value() * den == den * x.value()) by (nonlinear_arith);
    lemma_round_exact(x, den);
}

} // verus!
