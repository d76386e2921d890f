//! What the numbers are, and what their arithmetic gives.

use crate::binary32;
use crate::binary32::Binary32;
use crate::numeric;
use crate::rounding::{
    distance, lemma_magnitude_of_significand, lemma_magnitude_order, lemma_nearest, magnitude,
    nearest,
};
use vstd::arithmetic::power2::{lemma2_to64, lemma_pow2_pos, pow2};
use vstd::prelude::*;

verus! {

/// The bit patterns count the magnitudes upwards from zero. Consecutive ones are one unit
/// apart up to the first 2^24 of them, and the spacing doubles with each 2^23 after that.
pub proof fn the_spacing_doubles_with_the_exponent(m: int)
    requires
        m >= 0,
    ensures
        magnitude(0) == 0,
        m < 0x100_0000 ==> magnitude(m + 1) == magnitude(m) + 1,
        m >= 0x80_0000 ==> magnitude(m + 1) == magnitude(m) + pow2(
            (m / 0x80_0000 - 1) as nat,
        ),
{
    lemma2_to64();
    if m < 0x80_0000 {
        lemma_magnitude_of_significand(0, m);
        lemma_magnitude_of_significand(0, m + 1);
    } else {
        let k = (m / 0x80_0000 - 1) as nat;
        let q = 0x80_0000 + m % 0x80_0000;
        assert(m == k * 0x80_0000 + q);
        lemma_magnitude_of_significand(k, q);
        lemma_magnitude_of_significand(k, q + 1);
        assert((q + 1) * pow2(k) == q * pow2(k) + pow2(k)) by (nonlinear_arith);
    }
}

/// Rounding goes to the nearest magnitude, and to the even one of two that are equally
/// near. Infinity takes part as the magnitude after the last finite one.
pub proof fn rounding_goes_to_the_nearest(num: int, den: int, c: int)
    requires
        num >= 0,
        den > 0,
        0 <= c <= 0x7f80_0000,
    ensures
        ({
            let m = nearest(num, den);
            let (near, other) = (
                binary32::size(num - den * magnitude(m)),
                binary32::size(num - den * magnitude(c)),
            );
            &&& 0 <= m <= 0x7f80_0000
            &&& near <= other
            &&& near == other && c != m ==> m % 2 == 0
        }),
{
    lemma_nearest(num, den);
    let m = nearest(num, den);
    assert(distance(num, den, m) <= distance(num, den, c));
}

/// Of two numbers, one is less, or the other is, or they are equal; what is no number is
/// none of these to anything.
pub proof fn numbers_are_ordered(a: Binary32, b: Binary32)
    ensures
        ({
            let numbers = !a.nan() && !b.nan();
            &&& a.less(b) ==> numbers && !b.less(a) && !a.equals(b)
            &&& a.equals(b) ==> numbers && b.equals(a) && !b.less(a)
            &&& numbers ==> a.less(b) || b.less(a) || a.equals(b)
            &&& a.at_most(b) <==> a.less(b) || a.equals(b)
            &&& a.less(b) && a.infinite() ==> a.negative()
            &&& a.less(b) && b.infinite() ==> !b.negative()
        }),
{
    if !a.nan() && !b.nan() {
        numeric::lemma_finite(a);
        numeric::lemma_finite(b);
        numeric::lemma_signs(a);
        numeric::lemma_signs(b);
    }
}

/// Changing the sign and dropping it leave the rest of a number alone.
pub proof fn signs_are_apart_from_sizes(x: Binary32)
    ensures
        x.opposite().negative() == !x.negative(),
        !x.absolute().negative(),
        x.opposite().pattern() == x.pattern(),
        x.absolute().pattern() == x.pattern(),
        x.opposite().value() == -x.value(),
        x.absolute().value() == binary32::size(x.value()),
        x.opposite().opposite() == x,
        !x.negative() ==> x.absolute() == x,
{
    numeric::lemma_signs(x);
    reveal(Binary32::opposite);
    reveal(Binary32::absolute);
}

/// A sum is the exact one, rounded. An infinity outweighs every finite number, two
/// infinities of different signs have no sum, and a zero is negative only where both terms
/// are.
pub proof fn a_sum_is_rounded_once(a: Binary32, b: Binary32)
    ensures
        ({
            let r = a.plus(b);
            &&& r == b.plus(a)
            &&& a.nan() || b.nan() ==> r.nan()
            &&& a.infinite() && b.infinite() && a.negative() != b.negative() ==> r.nan()
            &&& a.infinite() && b.infinite() && a.negative() == b.negative() ==> r == a
            &&& a.infinite() && b.finite() ==> r == a
            &&& a.finite() && b.finite() ==> {
                let total = a.value() + b.value();
                &&& !r.nan() && r.value() == numeric::round_value(total, 1)
                &&& total != 0 ==> (r.negative() <==> total < 0)
                &&& total == 0 ==> (r.negative() <==> a.negative() && b.negative())
            }
        }),
{
    reveal(Binary32::plus);
    if a.finite() && b.finite() {
        numeric::lemma_plus(a, b);
        let size = binary32::size(a.value() + b.value());
        lemma_nearest(size, 1);
        numeric::lemma_with_sign(true, nearest(size, 1));
        numeric::lemma_with_sign(false, nearest(size, 1));
    }
}

/// A difference is the sum with the opposite.
pub proof fn a_difference_is_rounded_once(a: Binary32, b: Binary32)
    requires
        a.finite(),
        b.finite(),
    ensures
        !a.minus(b).nan(),
        a.minus(b).value() == numeric::round_value(a.value() - b.value(), 1),
{
    numeric::lemma_signs(b);
    numeric::lemma_plus(a, b.opposite());
}

/// A product is the exact one, rounded, with a sign where exactly one factor has one. An
/// infinity times anything but zero is an infinity.
pub proof fn a_product_is_rounded_once(a: Binary32, b: Binary32)
    ensures
        ({
            let r = a.times(b);
            &&& a.nan() || b.nan() ==> r.nan()
            &&& !a.nan() && !b.nan() ==> {
                let zero = a.value() == 0 || b.value() == 0;
                &&& !r.nan() ==> (r.negative() <==> a.negative() != b.negative())
                &&& a.infinite() || b.infinite() ==> (if zero {
                    r.nan()
                } else {
                    r.infinite()
                })
                &&& a.finite() && b.finite() ==> !r.nan() && r.value() == numeric::round_value(
                    a.value() * b.value(),
                    binary32::units_in_one(),
                )
            }
        }),
{
    reveal(Binary32::times);
    numeric::lemma_signs(a);
    numeric::lemma_signs(b);
    if a.finite() && b.finite() {
        numeric::lemma_times(a, b);
        let product = magnitude(a.pattern()) * magnitude(b.pattern());
        lemma_magnitude_order(a.pattern(), b.pattern());
        lemma_magnitude_order(b.pattern(), a.pattern());
        lemma_pow2_pos(149);
        assert(product >= 0) by (nonlinear_arith)
            requires
                product == magnitude(a.pattern()) * magnitude(b.pattern()),
                magnitude(a.pattern()) >= 0,
                magnitude(b.pattern()) >= 0,
        ;
        lemma_nearest(product, binary32::units_in_one());
        let m = nearest(product, binary32::units_in_one());
        numeric::lemma_with_sign(true, m);
        numeric::lemma_with_sign(false, m);
    } else {
        numeric::lemma_with_sign(true, 0x7f80_0000);
        numeric::lemma_with_sign(false, 0x7f80_0000);
    }
}

/// A quotient is the exact one, rounded, with a sign where exactly one operand has one.
/// Anything but zero over zero is an infinity, and any finite number over an infinity is
/// zero.
pub proof fn a_quotient_is_rounded_once(a: Binary32, b: Binary32)
    ensures
        ({
            let r = a.over(b);
            &&& a.nan() || b.nan() ==> r.nan()
            &&& !a.nan() && !b.nan() ==> {
                &&& !r.nan() ==> (r.negative() <==> a.negative() != b.negative())
                &&& a.infinite() ==> (if b.infinite() {
                    r.nan()
                } else {
                    r.infinite()
                })
                &&& a.finite() && b.infinite() ==> !r.nan() && r.value() == 0
                &&& a.finite() && b.value() == 0 ==> (if a.value() == 0 {
                    r.nan()
                } else {
                    r.infinite()
                })
                &&& a.finite() && b.finite() && b.value() != 0 ==> {
                    &&& !r.nan()
                    &&& binary32::size(r.value()) == numeric::round_value(
                        binary32::size(a.value()) * binary32::units_in_one(),
                        binary32::size(b.value()),
                    )
                }
            }
        }),
{
    reveal(Binary32::over);
    reveal(Binary32::value);
    numeric::lemma_signs(a);
    numeric::lemma_signs(b);
    numeric::lemma_with_sign(true, 0);
    numeric::lemma_with_sign(false, 0);
    numeric::lemma_with_sign(true, 0x7f80_0000);
    numeric::lemma_with_sign(false, 0x7f80_0000);
    if a.finite() && b.finite() && b.value() != 0 {
        let (x, y, u) = (
            magnitude(a.pattern()),
            magnitude(b.pattern()),
            binary32::units_in_one(),
        );
        lemma_magnitude_order(a.pattern(), b.pattern());
        lemma_magnitude_order(b.pattern(), a.pattern());
        lemma_pow2_pos(149);
        assert(x * u >= 0) by (nonlinear_arith)
            requires
                x >= 0,
                u > 0,
        ;
        lemma_nearest(x * u, y);
        let m = nearest(x * u, y);
        numeric::lemma_with_sign(true, m);
        numeric::lemma_with_sign(false, m);
        lemma_magnitude_order(m, 0);
    }
}

} // verus!
