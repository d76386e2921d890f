//! Round-to-nearest-even over the magnitudes of the binary32 format.
//!
//! Every finite binary32 number is a whole multiple of the smallest subnormal, so a
//! magnitude is an integer: the number of those units. The magnitudes are numbered in
//! increasing order by the bit pattern without the sign, and the pattern that encodes
//! infinity continues the sequence with the first power of two that no longer fits.
//! Rounding to the nearest number of that sequence, ties to the even pattern, is the
//! default rounding of the format, overflow to infinity included.

use vstd::arithmetic::power2::{lemma_pow2_adds, lemma_pow2_pos, lemma_pow2_unfold, pow2};
use vstd::prelude::*;

verus! {

/// The magnitude, in units of the smallest subnormal, of the bit pattern `m` without
/// its sign.
pub open spec fn magnitude(m: int) -> int {
    if m < 0x80_0000 {
        m
    } else {
        (0x80_0000 + m % 0x80_0000) * pow2((m / 0x80_0000 - 1) as nat)
    }
}

/// How far the magnitude of `m` lies from `num / den`, in units of `1 / den`.
pub open spec fn distance(num: int, den: int, m: int) -> int {
    let d = num - den * magnitude(m);
    if d < 0 {
        -d
    } else {
        d
    }
}

/// The pattern `m` is the nearest to `num / den` among zero, the finite magnitudes and
/// infinity, and an even pattern where another one is equally near.
pub open spec fn is_nearest(num: int, den: int, m: int) -> bool {
    &&& 0 <= m <= 0x7f80_0000
    &&& forall|c: int|
        0 <= c <= 0x7f80_0000 && c != m ==> {
            &&& distance(num, den, m) <= #[trigger] distance(num, den, c)
            &&& distance(num, den, m) == distance(num, den, c) ==> m % 2 == 0
        }
}

/// `num / den` rounded to the nearest magnitude, as a bit pattern without sign.
pub open spec fn nearest(num: int, den: int) -> int {
    choose|m: int| is_nearest(num, den, m)
}

/// Within one exponent, consecutive patterns are multiples of one power of two.
pub proof fn lemma_magnitude_of_significand(k: nat, q: int)
    requires
        0 <= q <= 0x100_0000,
        q >= 0x80_0000 || k == 0,
    ensures
        magnitude(k * 0x80_0000 + q) == q * pow2(k),
{
    let m = k * 0x80_0000 + q;
    vstd::arithmetic::power2::lemma2_to64();
    if q < 0x80_0000 {
        assert(m == q);
    } else if q < 0x100_0000 {
        assert(m / 0x80_0000 == k + 1);
        assert(m % 0x80_0000 == q - 0x80_0000);
    } else {
        assert(m / 0x80_0000 == k + 2);
        assert(m % 0x80_0000 == 0);
        lemma_pow2_unfold(k + 1);
        assert(0x80_0000 * (2 * pow2(k)) == 0x100_0000 * pow2(k));
    }
}

/// A larger pattern has a larger magnitude.
pub proof fn lemma_magnitude_increases(a: int, b: int)
    requires
        0 <= a < b,
    ensures
        magnitude(a) < magnitude(b),
    decreases b - a,
{
    if a + 1 < b {
        lemma_magnitude_increases(a, b - 1);
    }
    let m = b - 1;
    if m < 0x80_0000 {
        lemma_magnitude_of_significand(0, m);
        lemma_magnitude_of_significand(0, m + 1);
        vstd::arithmetic::power2::lemma2_to64();
    } else {
        let k = (m / 0x80_0000 - 1) as nat;
        let q = 0x80_0000 + m % 0x80_0000;
        assert(m == k * 0x80_0000 + q);
        lemma_magnitude_of_significand(k, q);
        lemma_magnitude_of_significand(k, q + 1);
        lemma_pow2_pos(k);
        assert((q + 1) * pow2(k) == q * pow2(k) + pow2(k)) by (nonlinear_arith);
    }
}

/// Magnitudes are ordered as their patterns are.
pub proof fn lemma_magnitude_order(a: int, b: int)
    requires
        0 <= a,
        0 <= b,
    ensures
        magnitude(a) < magnitude(b) <==> a < b,
        magnitude(a) == magnitude(b) <==> a == b,
        0 <= magnitude(a),
        magnitude(0) == 0,
{
    if a < b {
        lemma_magnitude_increases(a, b);
    } else if b < a {
        lemma_magnitude_increases(b, a);
    }
    if 0 < a {
        lemma_magnitude_increases(0, a);
    }
}

/// Scaling by a positive denominator keeps the order of the magnitudes.
proof fn lemma_scaled_order(den: int, a: int, b: int)
    requires
        den > 0,
        0 <= a < b,
    ensures
        den * magnitude(a) < den * magnitude(b),
{
    lemma_magnitude_increases(a, b);
    vstd::arithmetic::mul::lemma_mul_strict_inequality(magnitude(a), magnitude(b), den);
    vstd::arithmetic::mul::lemma_mul_is_commutative(den, magnitude(a));
    vstd::arithmetic::mul::lemma_mul_is_commutative(den, magnitude(b));
}

/// Of two neighbours that enclose `num / den`, the nearer one, or the even one half way
/// between them, is the nearest of all.
pub proof fn lemma_nearest_of_neighbours(num: int, den: int, lo: int, m: int)
    requires
        den > 0,
        0 <= lo < 0x7f80_0000,
        den * magnitude(lo) <= num <= den * magnitude(lo + 1),
        m == lo || m == lo + 1,
        2 * num < den * magnitude(lo) + den * magnitude(lo + 1) ==> m == lo,
        2 * num > den * magnitude(lo) + den * magnitude(lo + 1) ==> m == lo + 1,
        2 * num == den * magnitude(lo) + den * magnitude(lo + 1) ==> m % 2 == 0,
    ensures
        is_nearest(num, den, m),
{
    lemma_scaled_order(den, lo, lo + 1);
    assert forall|c: int| 0 <= c <= 0x7f80_0000 && c != m implies {
        &&& distance(num, den, m) <= #[trigger] distance(num, den, c)
        &&& distance(num, den, m) == distance(num, den, c) ==> m % 2 == 0
    } by {
        if c < lo {
            lemma_scaled_order(den, c, lo);
        }
        if c > lo + 1 {
            lemma_scaled_order(den, lo + 1, c);
        }
    }
}

/// A value that is a magnitude rounds to itself.
pub proof fn lemma_nearest_of_magnitude(num: int, den: int, m: int)
    requires
        den > 0,
        0 <= m <= 0x7f80_0000,
        num == den * magnitude(m),
    ensures
        is_nearest(num, den, m),
{
    assert forall|c: int| 0 <= c <= 0x7f80_0000 && c != m implies {
        &&& distance(num, den, m) <= #[trigger] distance(num, den, c)
        &&& distance(num, den, m) == distance(num, den, c) ==> m % 2 == 0
    } by {
        if c < m {
            lemma_scaled_order(den, c, m);
        } else {
            lemma_scaled_order(den, m, c);
        }
    }
}

/// A value beyond every finite magnitude rounds to infinity.
pub proof fn lemma_nearest_of_overflow(num: int, den: int)
    requires
        den > 0,
        num >= den * magnitude(0x7f80_0000),
    ensures
        is_nearest(num, den, 0x7f80_0000),
{
    assert forall|c: int| 0 <= c <= 0x7f80_0000 && c != 0x7f80_0000 implies {
        &&& distance(num, den, 0x7f80_0000) <= #[trigger] distance(num, den, c)
    } by {
        lemma_scaled_order(den, c, 0x7f80_0000);
    }
}

/// Some neighbours enclose any value below the magnitude of `top`.
proof fn lemma_enclosed(num: int, den: int, top: int) -> (lo: int)
    requires
        den > 0,
        num >= 0,
        0 < top,
        num < den * magnitude(top),
    ensures
        0 <= lo < top,
        den * magnitude(lo) <= num < den * magnitude(lo + 1),
    decreases top,
{
    if den * magnitude(top - 1) <= num {
        top - 1
    } else {
        assert(den * 0 == 0);
        lemma_enclosed(num, den, top - 1)
    }
}

/// Every non-negative value rounds to some pattern.
pub proof fn lemma_nearest(num: int, den: int)
    requires
        den > 0,
        num >= 0,
    ensures
        is_nearest(num, den, nearest(num, den)),
        0 <= nearest(num, den) <= 0x7f80_0000,
{
    if num >= den * magnitude(0x7f80_0000) {
        lemma_nearest_of_overflow(num, den);
    } else {
        let lo = lemma_enclosed(num, den, 0x7f80_0000);
        let mid = den * magnitude(lo) + den * magnitude(lo + 1);
        let m = if 2 * num < mid || (2 * num == mid && lo % 2 == 0) {
            lo
        } else {
            lo + 1
        };
        lemma_nearest_of_neighbours(num, den, lo, m);
    }
}

/// Rounding keeps the order of the values.
pub proof fn lemma_nearest_order(num1: int, den1: int, m1: int, num2: int, den2: int, m2: int)
    requires
        den1 > 0,
        den2 > 0,
        num1 * den2 <= num2 * den1,
        is_nearest(num1, den1, m1),
        is_nearest(num2, den2, m2),
    ensures
        m1 <= m2,
{
    if m2 < m1 {
        lemma_magnitude_increases(m2, m1);
        let (a, b) = (magnitude(m2), magnitude(m1));
        lemma_scaled_order(den1, m2, m1);
        lemma_scaled_order(den2, m2, m1);
        assert(distance(num1, den1, m1) <= distance(num1, den1, m2));
        assert(distance(num2, den2, m2) <= distance(num2, den2, m1));
        assert(2 * num1 >= den1 * a + den1 * b);
        assert(2 * num2 <= den2 * a + den2 * b);
        assert(2 * num1 == den1 * (a + b) && 2 * num2 == den2 * (a + b)) by (nonlinear_arith)
            requires
                den1 > 0,
                den2 > 0,
                num1 * den2 <= num2 * den1,
                2 * num1 >= den1 * a + den1 * b,
                2 * num2 <= den2 * a + den2 * b,
        ;
        assert(den1 * (a + b) == den1 * a + den1 * b) by (nonlinear_arith);
        assert(den2 * (a + b) == den2 * a + den2 * b) by (nonlinear_arith);
        assert(m1 % 2 == 0 && m2 % 2 == 0);
        lemma_scaled_order(den1, m2, m2 + 1);
        lemma_scaled_order(den1, m2 + 1, m1);
        assert(distance(num1, den1, m1) <= distance(num1, den1, m2 + 1));
    }
}

/// A value rounds to one pattern only.
pub proof fn lemma_nearest_unique(num: int, den: int, m: int)
    requires
        den > 0,
        is_nearest(num, den, m),
    ensures
        nearest(num, den) == m,
{
    let n = nearest(num, den);
    lemma_nearest_order(num, den, m, num, den, n);
    lemma_nearest_order(num, den, n, num, den, m);
}

/// A fraction rounds as the same fraction in larger terms does.
pub proof fn lemma_nearest_scaled(num: int, den: int, c: int)
    requires
        den > 0,
        num >= 0,
        c > 0,
    ensures
        nearest(num * c, den * c) == nearest(num, den),
{
    assert(num * c >= 0 && den * c > 0) by (nonlinear_arith)
        requires
            den > 0,
            num >= 0,
            c > 0,
    ;
    assert((num * c) * den == num * (den * c)) by (nonlinear_arith);
    lemma_nearest(num, den);
    lemma_nearest(num * c, den * c);
    let (m, n) = (nearest(num, den), nearest(num * c, den * c));
    lemma_nearest_order(num, den, m, num * c, den * c, n);
    lemma_nearest_order(num * c, den * c, n, num, den, m);
}

/// Rounding changes a value by at most one part in 2^24, or by at most half a unit where
/// it is below the normal magnitudes, and takes one beyond every finite magnitude to
/// infinity.
pub proof fn lemma_nearest_error(num: int, den: int)
    requires
        den > 0,
        num >= 0,
    ensures
        num <= den * magnitude(0x7f80_0000) ==> {
            let d = distance(num, den, nearest(num, den));
            ||| 0x100_0000 * d <= num
            ||| 2 * d <= den && num < den * 0x80_0000
        },
        num >= den * magnitude(0x7f80_0000) ==> nearest(num, den) == 0x7f80_0000,
{
    lemma_nearest(num, den);
    if num >= den * magnitude(0x7f80_0000) {
        lemma_nearest_of_overflow(num, den);
        lemma_nearest_unique(num, den, 0x7f80_0000);
    } else {
        let lo = lemma_enclosed(num, den, 0x7f80_0000);
        let m = nearest(num, den);
        let d = distance(num, den, m);
        let (x, y) = (den * magnitude(lo), den * magnitude(lo + 1));
        assert(2 * d <= y - x) by {
            if m != lo {
                assert(d <= distance(num, den, lo));
            }
            if m != lo + 1 {
                assert(d <= distance(num, den, lo + 1));
            }
        }
        vstd::arithmetic::power2::lemma2_to64();
        if lo < 0x80_0000 {
            lemma_magnitude_of_significand(0, lo + 1);
            assert(y - x == den && y <= den * 0x80_0000) by (nonlinear_arith)
                requires
                    den > 0,
                    lo < 0x80_0000,
                    x == den * lo,
                    y == den * (lo + 1),
            ;
        } else {
            let k = (lo / 0x80_0000 - 1) as nat;
            let q = 0x80_0000 + lo % 0x80_0000;
            assert(lo == k * 0x80_0000 + q);
            lemma_magnitude_of_significand(k, q);
            lemma_magnitude_of_significand(k, q + 1);
            lemma_pow2_pos(k);
            assert(0x80_0000 * (y - x) <= x) by (nonlinear_arith)
                requires
                    den > 0,
                    pow2(k) > 0,
                    q >= 0x80_0000,
                    x == den * (q * pow2(k)),
                    y == den * ((q + 1) * pow2(k)),
            ;
        }
    }
}

/// Twice a finite magnitude is a magnitude, or beyond every finite one.
pub proof fn lemma_nearest_double(m: int)
    requires
        0 <= m < 0x7f80_0000,
    ensures
        ({
            let double = 2 * magnitude(m);
            let r = magnitude(nearest(double, 1));
            r == double || (r == magnitude(0x7f80_0000) && r <= double)
        }),
{
    vstd::arithmetic::power2::lemma2_to64();
    let p = if m < 0x80_0000 {
        2 * m
    } else {
        m + 0x80_0000
    };
    if m < 0x80_0000 {
        lemma_magnitude_of_significand(0, p);
    } else {
        let k = (m / 0x80_0000 - 1) as nat;
        let q = 0x80_0000 + m % 0x80_0000;
        assert(m == k * 0x80_0000 + q);
        lemma_magnitude_of_significand(k, q);
        assert(p == (k + 1) * 0x80_0000 + q);
        lemma_magnitude_of_significand(k + 1, q);
        lemma_pow2_unfold(k + 1);
        assert(q * (2 * pow2(k)) == 2 * (q * pow2(k))) by (nonlinear_arith);
    }
    let double = 2 * magnitude(m);
    if p <= 0x7f80_0000 {
        lemma_nearest_of_magnitude(double, 1, p);
        lemma_nearest_unique(double, 1, p);
    } else {
        lemma_magnitude_increases(0x7f80_0000, p);
        lemma_nearest_of_overflow(double, 1);
        lemma_nearest_unique(double, 1, 0x7f80_0000);
    }
}

/// `2^exp`, or one where `exp` is negative.
pub open spec fn scale_up(exp: int) -> int {
    if exp > 0 {
        pow2(exp as nat) as int
    } else {
        1
    }
}

/// `2^-exp`, or one where `exp` is positive.
pub open spec fn scale_down(exp: int) -> int {
    if exp < 0 {
        pow2((-exp) as nat) as int
    } else {
        1
    }
}

/// The value `num / den` is `sig * 2^exp`, or, where `inexact`, lies strictly between
/// that and `(sig + 1) * 2^exp`.
pub open spec fn approximates(num: int, den: int, sig: int, exp: int, inexact: bool) -> bool {
    if inexact {
        den * (sig * scale_up(exp)) < num * scale_down(exp) < den * ((sig + 1) * scale_up(exp))
    } else {
        num * scale_down(exp) == den * (sig * scale_up(exp))
    }
}

/// The number of binary digits of `x`.
pub(crate) fn bit_length(x: u64) -> (n: u32)
    requires
        x > 0,
    ensures
        1 <= n <= 64,
        pow2((n - 1) as nat) <= x,
        x < pow2(n as nat),
{
    let z: u32 = x.leading_zeros();
    proof {
        vstd::std_specs::bits::axiom_u64_leading_zeros(x);
        let top = (63 - z) as u64;
        assert((x >> top) & 1u64 != 0u64);
        assert((x >> top) & 1u64 != 0u64 ==> x >> top >= 1) by (bit_vector);
        vstd::bits::lemma_u64_shr_is_div(x, top);
        lemma_pow2_pos(top as nat);
        vstd::arithmetic::div_mod::lemma_fundamental_div_mod(x as int, pow2(top as nat) as int);
        assert(pow2(top as nat) * (x as int / pow2(top as nat) as int) >= pow2(top as nat))
            by (nonlinear_arith)
            requires
                x as int / pow2(top as nat) as int >= 1,
                pow2(top as nat) > 0,
        ;
        if z > 0 {
            let n = (64 - z) as u64;
            vstd::bits::lemma_u64_shr_is_div(x, n);
            lemma_pow2_pos(n as nat);
            vstd::arithmetic::div_mod::lemma_fundamental_div_mod(x as int, pow2(n as nat) as int);
        } else {
            vstd::arithmetic::power2::lemma2_to64();
        }
    }
    64 - z
}

/// A number below `2^n` has at most `n` binary digits.
pub proof fn lemma_bit_length(x: int, len: nat, n: nat)
    requires
        1 <= len,
        pow2((len - 1) as nat) <= x < pow2(n),
    ensures
        len <= n,
{
    if n < len - 1 {
        vstd::arithmetic::power2::lemma_pow2_strictly_increases(n, (len - 1) as nat);
    }
}

/// Moving a number of `len` digits up by `s` digits gives one of `len + s` digits.
pub proof fn lemma_shifted_up(x: int, len: nat, s: nat)
    requires
        1 <= len,
        pow2((len - 1) as nat) <= x < pow2(len),
    ensures
        pow2((len + s - 1) as nat) <= x * pow2(s) < pow2(len + s),
{
    lemma_pow2_pos(s);
    lemma_pow2_adds((len - 1) as nat, s);
    lemma_pow2_adds(len, s);
    vstd::arithmetic::mul::lemma_mul_inequality(pow2((len - 1) as nat) as int, x, pow2(s) as int);
    vstd::arithmetic::mul::lemma_mul_strict_inequality(x, pow2(len) as int, pow2(s) as int);
}

/// Cutting `shift` binary digits off `sig` leaves a quotient that encloses the value
/// from below, and the remainder tells on which side of the half way point it lies.
proof fn lemma_shifted(
    num: int,
    den: int,
    sig: int,
    exp: int,
    inexact: bool,
    k: nat,
    shift: nat,
    q: int,
    r: int,
)
    requires
        den > 0,
        shift > 0,
        k == exp + shift,
        approximates(num, den, sig, exp, inexact),
        sig == q * pow2(shift) + r,
        0 <= r < pow2(shift),
    ensures
        den * (q * pow2(k)) <= num < den * ((q + 1) * pow2(k)),
        ({
            let half = pow2((shift - 1) as nat);
            let mid = den * (q * pow2(k)) + den * ((q + 1) * pow2(k));
            if r < half {
                2 * num < mid
            } else if r > half || inexact {
                2 * num > mid
            } else {
                2 * num == mid
            }
        }),
{
    let (u, d) = (scale_up(exp), scale_down(exp));
    let (p, half) = (pow2(shift) as int, pow2((shift - 1) as nat) as int);
    let w = pow2(k) as int;
    lemma_pow2_unfold(shift);
    lemma_pow2_pos(k);
    lemma_pow2_pos(shift);
    vstd::arithmetic::power2::lemma2_to64();
    assert(d > 0 && u > 0 && w * d == p * u) by {
        if exp > 0 {
            lemma_pow2_pos(exp as nat);
            lemma_pow2_adds(shift, exp as nat);
        } else if exp < 0 {
            lemma_pow2_pos((-exp) as nat);
            lemma_pow2_adds(k, (-exp) as nat);
        }
    }
    let x = num * d;
    let a = den * u;
    assert(a > 0) by (nonlinear_arith)
        requires
            den > 0,
            u > 0,
            a == den * u,
    ;
    assert(den * (sig * u) == a * sig) by (nonlinear_arith)
        requires
            a == den * u,
    ;
    assert(den * ((sig + 1) * u) == a * sig + a) by (nonlinear_arith)
        requires
            a == den * u,
    ;
    let lo = a * (q * p);
    assert((den * (q * w)) * d == lo) by (nonlinear_arith)
        requires
            w * d == p * u,
            a == den * u,
            lo == a * (q * p),
    ;
    assert((den * w) * d == a * p) by (nonlinear_arith)
        requires
            w * d == p * u,
            a == den * u,
    ;
    assert(den * ((q + 1) * w) == den * (q * w) + den * w) by (nonlinear_arith);
    assert((den * (q * w) + den * w) * d == (den * (q * w)) * d + (den * w) * d)
        by (nonlinear_arith);
    assert(a * sig == lo + a * r) by (nonlinear_arith)
        requires
            sig == q * p + r,
            lo == a * (q * p),
    ;
    assert(a * p == 2 * (a * half)) by (nonlinear_arith)
        requires
            p == 2 * half,
    ;
    assert(a * r >= 0 && a * r + a <= a * p) by (nonlinear_arith)
        requires
            a > 0,
            0 <= r,
            r + 1 <= p,
    ;
    assert(r < half ==> a * r + a <= a * half) by (nonlinear_arith)
        requires
            a > 0,
    ;
    assert(r > half ==> a * r >= a * half + a) by (nonlinear_arith)
        requires
            a > 0,
    ;
    let lower = den * (q * w);
    let upper = den * ((q + 1) * w);
    assert(lower * d <= x && x < upper * d);
    assert(lower <= num && num < upper) by (nonlinear_arith)
        requires
            d > 0,
            x == num * d,
            lower * d <= x,
            x < upper * d,
    ;
    let mid = lower + upper;
    assert(mid * d == 2 * lo + a * p) by (nonlinear_arith)
        requires
            lower * d == lo,
            upper * d == lo + a * p,
            mid == lower + upper,
    ;
    assert((2 * num) * d == 2 * x) by (nonlinear_arith)
        requires
            x == num * d,
    ;
    let y = 2 * num;
    assert(y * d < mid * d ==> y < mid) by (nonlinear_arith)
        requires
            d > 0,
    ;
    assert(y * d > mid * d ==> y > mid) by (nonlinear_arith)
        requires
            d > 0,
    ;
    assert(y * d == mid * d ==> y == mid) by (nonlinear_arith)
        requires
            d > 0,
    ;
}

/// The pattern of the significand `q` at exponent `k`, or infinity where it does not fit.
fn pattern_of_significand(k: u32, q: u64) -> (m: u32)
    requires
        k <= 2000,
        q <= 0x100_0000,
        q >= 0x80_0000 || k == 0,
    ensures
        m == if k * 0x80_0000 + q > 0x7f80_0000 {
            0x7f80_0000
        } else {
            k * 0x80_0000 + q
        },
{
    let m: u64 = k as u64 * 0x80_0000 + q;
    if m > 0x7f80_0000 {
        0x7f80_0000
    } else {
        m as u32
    }
}

/// A value that needs no rounding at exponent `k` is the magnitude of its significand.
proof fn lemma_nearest_of_significand(num: int, den: int, k: nat, q: int, m: int)
    requires
        den > 0,
        0 <= q <= 0x100_0000,
        q >= 0x80_0000 || k == 0,
        num == den * (q * pow2(k)),
        m == if k * 0x80_0000 + q > 0x7f80_0000 {
            0x7f80_0000
        } else {
            k * 0x80_0000 + q
        },
    ensures
        nearest(num, den) == m,
{
    lemma_magnitude_of_significand(k, q);
    let p = k * 0x80_0000 + q;
    if p > 0x7f80_0000 {
        lemma_scaled_order(den, 0x7f80_0000, p);
        lemma_nearest_of_overflow(num, den);
    } else {
        lemma_nearest_of_magnitude(num, den, p);
    }
    lemma_nearest_unique(num, den, m);
}

/// A value between two significands at exponent `k` rounds to the nearer one.
proof fn lemma_nearest_of_significands(num: int, den: int, k: nat, q: int, up: int, m: int)
    requires
        den > 0,
        0 <= q < 0x100_0000,
        q >= 0x80_0000 || k == 0,
        den * (q * pow2(k)) <= num < den * ((q + 1) * pow2(k)),
        up == 0 || up == 1,
        ({
            let mid = den * (q * pow2(k)) + den * ((q + 1) * pow2(k));
            &&& 2 * num < mid ==> up == 0
            &&& 2 * num > mid ==> up == 1
            &&& 2 * num == mid ==> (q + up) % 2 == 0
        }),
        m == if k * 0x80_0000 + q + up > 0x7f80_0000 {
            0x7f80_0000
        } else {
            k * 0x80_0000 + q + up
        },
    ensures
        nearest(num, den) == m,
{
    lemma_magnitude_of_significand(k, q);
    lemma_magnitude_of_significand(k, q + 1);
    let lo = k * 0x80_0000 + q;
    if lo >= 0x7f80_0000 {
        if lo > 0x7f80_0000 {
            lemma_scaled_order(den, 0x7f80_0000, lo);
        }
        lemma_nearest_of_overflow(num, den);
    } else {
        lemma_nearest_of_neighbours(num, den, lo, m);
    }
    lemma_nearest_unique(num, den, m);
}

/// Rounds `num / den`, given as `sig * 2^exp` and whether something follows below it.
pub(crate) fn round_to_nearest(
    sig: u64,
    exp: i32,
    inexact: bool,
    Ghost(num): Ghost<int>,
    Ghost(den): Ghost<int>,
) -> (m: u32)
    requires
        0 < sig,
        sig < 0x8000_0000_0000_0000 || exp >= 0,
        inexact ==> sig >= 0x200_0000,
        -1000 <= exp <= 1000,
        den > 0,
        approximates(num, den, sig as int, exp as int, inexact),
    ensures
        m == nearest(num, den),
        m <= 0x7f80_0000,
{
    let len: u32 = bit_length(sig);
    proof {
        vstd::arithmetic::power2::lemma2_to64();
        vstd::arithmetic::power2::lemma2_to64_rest();
    }
    let top: i32 = exp + len as i32;
    // The exponent of the last digit that is kept, in units of the smallest subnormal.
    let k: i32 = if top > 24 {
        top - 24
    } else {
        0
    };
    let shift: i32 = k - exp;
    if shift <= 0 {
        let up: u64 = (-shift) as u64;
        proof {
            assert(up + len <= 24);
            lemma_pow2_adds(len as nat, up as nat);
            lemma_pow2_pos(up as nat);
            assert(sig * pow2(up as nat) < pow2((len + up) as nat)) by (nonlinear_arith)
                requires
                    sig < pow2(len as nat),
                    pow2(up as nat) > 0,
                    pow2((len + up) as nat) == pow2(len as nat) * pow2(up as nat),
            ;
            assert(pow2((len + up) as nat) <= 0x100_0000) by {
                if len + up < 24 {
                    vstd::arithmetic::power2::lemma_pow2_strictly_increases((len + up) as nat, 24);
                }
            }
            vstd::bits::lemma_u64_shl_is_mul(sig, up);
        }
        let q: u64 = sig << up;
        proof {
            if k > 0 {
                assert(up == 24 - len);
                lemma_pow2_adds((len - 1) as nat, up as nat);
                assert(sig * pow2(up as nat) >= pow2((len - 1) as nat) * pow2(up as nat))
                    by (nonlinear_arith)
                    requires
                        sig >= pow2((len - 1) as nat),
                        pow2(up as nat) > 0,
                ;
            }
            assert(!inexact) by {
                if inexact {
                    assert(len <= 24);
                    if len < 24 {
                        vstd::arithmetic::power2::lemma_pow2_strictly_increases(len as nat, 24);
                    }
                }
            }
            assert(sig * scale_up(exp as int) == q * pow2(k as nat)) by {
                if exp > 0 {
                    lemma_pow2_adds(up as nat, k as nat);
                    vstd::arithmetic::mul::lemma_mul_is_associative(
                        sig as int,
                        pow2(up as nat) as int,
                        pow2(k as nat) as int,
                    );
                }
            }
        }
        let m: u32 = pattern_of_significand(k as u32, q);
        proof {
            lemma_nearest_of_significand(num, den, k as nat, q as int, m as int);
        }
        m
    } else if shift >= 64 {
        proof {
            assert(k == 0);
            vstd::arithmetic::div_mod::lemma_fundamental_div_mod(sig as int, 1);
            if shift > 64 {
                vstd::arithmetic::power2::lemma_pow2_strictly_increases(64, shift as nat);
                vstd::arithmetic::power2::lemma_pow2_strictly_increases(63, (shift - 1) as nat);
            }
            lemma_shifted(
                num,
                den,
                sig as int,
                exp as int,
                inexact,
                0,
                shift as nat,
                0,
                sig as int,
            );
            lemma_nearest_of_significands(num, den, 0, 0, 0, 0);
        }
        0
    } else {
        let s: u64 = shift as u64;
        proof {
            vstd::bits::lemma_u64_shr_is_div(sig, s);
            vstd::bits::lemma_u64_pow2_no_overflow(s as nat);
            vstd::bits::lemma_u64_pow2_no_overflow((s - 1) as nat);
            vstd::bits::lemma_u64_shl_is_mul(1, s);
            vstd::bits::lemma_u64_shl_is_mul(1, (s - 1) as u64);
            lemma_pow2_pos(s as nat);
            vstd::arithmetic::div_mod::lemma_fundamental_div_mod(
                sig as int,
                pow2(s as nat) as int,
            );
            vstd::arithmetic::mul::lemma_mul_is_commutative(
                sig as int / pow2(s as nat) as int,
                pow2(s as nat) as int,
            );
        }
        let q: u64 = sig >> s;
        let r: u64 = sig - q * (1u64 << s);
        let half: u64 = 1u64 << (s - 1);
        let up: u64 = if r > half || (r == half && (inexact || q % 2 == 1)) {
            1
        } else {
            0
        };
        proof {
            let p = pow2(s as nat) as int;
            assert(sig == q * p + r && 0 <= r < p);
            lemma_shifted(
                num,
                den,
                sig as int,
                exp as int,
                inexact,
                k as nat,
                shift as nat,
                q as int,
                r as int,
            );
            assert(q < 0x100_0000) by {
                assert(len <= s + 24);
                if len < s + 24 {
                    vstd::arithmetic::power2::lemma_pow2_strictly_increases(
                        len as nat,
                        (s + 24) as nat,
                    );
                }
                lemma_pow2_adds(24, s as nat);
                assert(q < 0x100_0000) by (nonlinear_arith)
                    requires
                        q * p <= sig,
                        sig < 0x100_0000 * p,
                        p > 0,
                ;
            }
            if k > 0 {
                assert(len == s + 24);
                lemma_pow2_adds(23, s as nat);
                assert(q >= 0x80_0000) by (nonlinear_arith)
                    requires
                        sig < q * p + p,
                        sig >= 0x80_0000 * p,
                        p > 0,
                ;
            }
        }
        let m: u32 = pattern_of_significand(k as u32, q + up);
        proof {
            lemma_nearest_of_significands(
                num,
                den,
                k as nat,
                q as int,
                up as int,
                m as int,
            );
        }
        m
    }
}

} // verus!
