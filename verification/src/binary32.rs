//! IEEE 754 binary32 numbers in integer arithmetic.
//!
//! The type holds the bit pattern of a number, and every operation on it is specified
//! by the real number that its operands stand for: a sum, a product or a quotient is
//! the exact result rounded to the nearest number of the format, ties to even. That
//! makes each operation a function of its operands on every target, with or without a
//! floating-point unit.

use crate::rounding;
use core::cmp::Ordering;
use vstd::arithmetic::power2::{lemma_pow2_adds, lemma_pow2_pos, lemma_pow2_unfold, pow2};
use vstd::prelude::*;
use vstd::std_specs::cmp::{PartialEqSpecImpl, PartialOrdSpecImpl};
use vstd::std_specs::ops::{AddSpecImpl, DivSpecImpl, MulSpecImpl, SubSpecImpl};

verus! {

/// A number in the binary32 format, held as its bit pattern.
#[derive(Clone, Copy, Debug)]
pub struct Binary32 {
    /// The sign, exponent and significand fields, from the most significant bit down.
    pub bits: u32,
}

/// Zero with the sign bit clear.
pub open spec fn zero() -> Binary32 {
    Binary32 { bits: 0 }
}

/// Positive infinity.
pub open spec fn infinity() -> Binary32 {
    Binary32 { bits: 0x7f80_0000 }
}

/// The result of an operation that has no number for a result.
pub open spec fn not_a_number() -> Binary32 {
    Binary32 { bits: 0x7fc0_0000 }
}

/// The number one.
pub open spec fn unit() -> Binary32 {
    Binary32 { bits: 0x3f80_0000 }
}

/// The number two.
pub open spec fn two() -> Binary32 {
    Binary32 { bits: 0x4000_0000 }
}

/// The number of units of the smallest subnormal in one.
pub open spec fn units_in_one() -> int {
    pow2(149) as int
}

/// The bit pattern `m` with a sign in front of it.
pub open spec fn with_sign(negative: bool, m: int) -> Binary32 {
    if negative {
        Binary32 { bits: (0x8000_0000 + m) as u32 }
    } else {
        Binary32 { bits: m as u32 }
    }
}

/// The real number `num / den`, rounded; `negative` gives the sign of a zero result.
pub open spec fn rounded(negative: bool, num: int, den: int) -> Binary32 {
    with_sign(negative, rounding::nearest(num, den))
}

/// The absolute value of an integer.
pub open spec fn size(i: int) -> int {
    if i < 0 {
        -i
    } else {
        i
    }
}

impl Binary32 {
    /// The sign bit is set.
    pub open spec fn negative(self) -> bool {
        self.bits >= 0x8000_0000
    }

    /// The bit pattern without the sign bit.
    pub open spec fn pattern(self) -> int {
        self.bits as int % 0x8000_0000
    }

    /// Not a number.
    pub open spec fn nan(self) -> bool {
        self.pattern() > 0x7f80_0000
    }

    /// Positive or negative infinity.
    pub open spec fn infinite(self) -> bool {
        self.pattern() == 0x7f80_0000
    }

    /// Neither infinite nor not-a-number.
    pub open spec fn finite(self) -> bool {
        self.pattern() < 0x7f80_0000
    }

    /// The real number that a finite number stands for, in units of the smallest
    /// subnormal. An infinity counts as the first power of two beyond the finite
    /// numbers, which places it above all of them.
    #[verifier::opaque]
    pub open spec fn value(self) -> int {
        if self.negative() {
            -rounding::magnitude(self.pattern())
        } else {
            rounding::magnitude(self.pattern())
        }
    }

    /// Numerically less; false where either side is not a number.
    pub open spec fn less(self, other: Binary32) -> bool {
        !self.nan() && !other.nan() && self.value() < other.value()
    }

    /// Numerically less or equal; false where either side is not a number.
    pub open spec fn at_most(self, other: Binary32) -> bool {
        !self.nan() && !other.nan() && self.value() <= other.value()
    }

    /// Numerically equal, so that the two zeros are equal; false where either side is
    /// not a number.
    pub open spec fn equals(self, other: Binary32) -> bool {
        !self.nan() && !other.nan() && self.value() == other.value()
    }

    /// The number with its sign bit flipped.
    #[verifier::opaque]
    pub open spec fn opposite(self) -> Binary32 {
        with_sign(!self.negative(), self.pattern())
    }

    /// The number with its sign bit cleared.
    #[verifier::opaque]
    pub open spec fn absolute(self) -> Binary32 {
        with_sign(false, self.pattern())
    }

    /// The number that has the given bit pattern.
    pub fn from_bits(bits: u32) -> (r: Binary32)
        ensures
            r.bits == bits,
    {
        Binary32 { bits }
    }

    /// The number zero.
    pub fn zero() -> (r: Binary32)
        ensures
            r == zero(),
    {
        Binary32 { bits: 0 }
    }

    /// The number one.
    pub fn one() -> (r: Binary32)
        ensures
            r == unit(),
    {
        Binary32 { bits: 0x3f80_0000 }
    }

    /// The number two.
    pub fn two() -> (r: Binary32)
        ensures
            r == two(),
    {
        Binary32 { bits: 0x4000_0000 }
    }

    /// Positive infinity.
    pub fn infinity() -> (r: Binary32)
        ensures
            r == infinity(),
    {
        Binary32 { bits: 0x7f80_0000 }
    }

    /// The bit pattern of the number.
    pub fn to_bits(self) -> (r: u32)
        ensures
            r == self.bits,
    {
        self.bits
    }

    /// True when the value is not a number.
    pub fn is_nan(self) -> (r: bool)
        ensures
            r == self.nan(),
    {
        self.bits % 0x8000_0000 > 0x7f80_0000
    }

    /// True when the value is neither infinite nor not-a-number.
    pub fn is_finite(self) -> (r: bool)
        ensures
            r == self.finite(),
    {
        self.bits % 0x8000_0000 < 0x7f80_0000
    }

    /// The number without its sign.
    pub fn abs(self) -> (r: Binary32)
        ensures
            r == self.absolute(),
    {
        proof {
            reveal(Binary32::absolute);
        }
        Binary32 { bits: self.bits % 0x8000_0000 }
    }

    /// The number with the other sign.
    pub fn negated(self) -> (r: Binary32)
        ensures
            r == self.opposite(),
    {
        proof {
            reveal(Binary32::opposite);
        }
        if self.bits >= 0x8000_0000 {
            Binary32 { bits: self.bits - 0x8000_0000 }
        } else {
            Binary32 { bits: self.bits + 0x8000_0000 }
        }
    }

    /// The smaller of two numbers, or the one that is a number.
    pub fn min(self, other: Binary32) -> (r: Binary32)
        ensures
            r == self.lesser(other),
    {
        if self.is_nan() || other < self {
            other
        } else {
            self
        }
    }

    /// The larger of two numbers, or the one that is a number.
    pub fn max(self, other: Binary32) -> (r: Binary32)
        ensures
            r == self.greater(other),
    {
        if self.is_nan() || self < other {
            other
        } else {
            self
        }
    }

    /// The smaller of two numbers, or the one that is a number.
    pub open spec fn lesser(self, other: Binary32) -> Binary32 {
        if self.nan() || other.less(self) {
            other
        } else {
            self
        }
    }

    /// The larger of two numbers, or the one that is a number.
    pub open spec fn greater(self, other: Binary32) -> Binary32 {
        if self.nan() || self.less(other) {
            other
        } else {
            self
        }
    }

    /// The bit pattern as a whole number that is ordered as the values are.
    pub open spec fn rank(self) -> int {
        if self.negative() {
            -self.pattern()
        } else {
            self.pattern()
        }
    }

    /// The rank of the number.
    fn key(self) -> (r: i64)
        ensures
            r == self.rank(),
    {
        let m: i64 = (self.bits % 0x8000_0000) as i64;
        if self.bits >= 0x8000_0000 {
            -m
        } else {
            m
        }
    }
}

/// Ranks are ordered as values are.
pub proof fn lemma_key_order(a: Binary32, b: Binary32)
    ensures
        a.value() < b.value() <==> a.rank() < b.rank(),
        a.value() == b.value() <==> a.rank() == b.rank(),
{
    reveal(Binary32::value);
    rounding::lemma_magnitude_order(a.pattern(), b.pattern());
    rounding::lemma_magnitude_order(a.pattern(), 0);
    rounding::lemma_magnitude_order(b.pattern(), 0);
}

impl PartialEqSpecImpl for Binary32 {
    open spec fn obeys_eq_spec() -> bool {
        true
    }

    open spec fn eq_spec(&self, other: &Binary32) -> bool {
        self.equals(*other)
    }
}

impl PartialEq for Binary32 {
    fn eq(&self, other: &Binary32) -> (r: bool) {
        proof {
            lemma_key_order(*self, *other);
        }
        !self.is_nan() && !other.is_nan() && self.key() == other.key()
    }
}

impl PartialOrdSpecImpl for Binary32 {
    open spec fn obeys_partial_cmp_spec() -> bool {
        true
    }

    open spec fn partial_cmp_spec(&self, other: &Binary32) -> Option<Ordering> {
        if self.less(*other) {
            Some(Ordering::Less)
        } else if other.less(*self) {
            Some(Ordering::Greater)
        } else if self.equals(*other) {
            Some(Ordering::Equal)
        } else {
            None
        }
    }
}

impl PartialOrd for Binary32 {
    fn partial_cmp(&self, other: &Binary32) -> (r: Option<Ordering>) {
        proof {
            lemma_key_order(*self, *other);
        }
        if self.is_nan() || other.is_nan() {
            None
        } else if self.key() < other.key() {
            Some(Ordering::Less)
        } else if self.key() > other.key() {
            Some(Ordering::Greater)
        } else {
            Some(Ordering::Equal)
        }
    }
}

impl Binary32 {
    /// The sum of two numbers. An exact zero is negative only where both operands are.
    #[verifier::opaque]
    pub open spec fn plus(self, other: Binary32) -> Binary32 {
        if self.nan() || other.nan() {
            not_a_number()
        } else if self.infinite() && other.infinite() && self.negative() != other.negative() {
            not_a_number()
        } else if self.infinite() {
            self
        } else if other.infinite() {
            other
        } else {
            let total = self.value() + other.value();
            let negative = if total == 0 {
                self.negative() && other.negative()
            } else {
                total < 0
            };
            rounded(negative, size(total), 1)
        }
    }

    /// The difference of two numbers.
    pub open spec fn minus(self, other: Binary32) -> Binary32 {
        self.plus(other.opposite())
    }

    /// The product of two numbers. Its sign is negative where the signs differ.
    #[verifier::opaque]
    pub open spec fn times(self, other: Binary32) -> Binary32 {
        let negative = self.negative() != other.negative();
        if self.nan() || other.nan() {
            not_a_number()
        } else if self.infinite() || other.infinite() {
            if self.pattern() == 0 || other.pattern() == 0 {
                not_a_number()
            } else {
                with_sign(negative, 0x7f80_0000)
            }
        } else {
            rounded(
                negative,
                rounding::magnitude(self.pattern()) * rounding::magnitude(other.pattern()),
                units_in_one(),
            )
        }
    }

    /// The quotient of two numbers. Its sign is negative where the signs differ.
    #[verifier::opaque]
    pub open spec fn over(self, other: Binary32) -> Binary32 {
        let negative = self.negative() != other.negative();
        if self.nan() || other.nan() {
            not_a_number()
        } else if self.infinite() {
            if other.infinite() {
                not_a_number()
            } else {
                with_sign(negative, 0x7f80_0000)
            }
        } else if other.infinite() {
            with_sign(negative, 0)
        } else if other.pattern() == 0 {
            if self.pattern() == 0 {
                not_a_number()
            } else {
                with_sign(negative, 0x7f80_0000)
            }
        } else {
            rounded(
                negative,
                rounding::magnitude(self.pattern()) * units_in_one(),
                rounding::magnitude(other.pattern()),
            )
        }
    }

    /// The significand and the exponent of the magnitude, in units of the smallest
    /// subnormal.
    fn decode(self) -> (r: (u64, u32))
        requires
            self.finite(),
        ensures
            r.0 < 0x100_0000,
            r.1 <= 253,
            r.0 >= 0x80_0000 || r.1 == 0,
            r.0 == 0 <==> self.pattern() == 0,
            rounding::magnitude(self.pattern()) == r.0 * pow2(r.1 as nat),
    {
        let m: u32 = self.bits % 0x8000_0000;
        proof {
            vstd::arithmetic::power2::lemma2_to64();
        }
        if m < 0x80_0000 {
            (m as u64, 0)
        } else {
            ((0x80_0000 + m % 0x80_0000) as u64, m / 0x80_0000 - 1)
        }
    }

    /// The number with the bit pattern `m` behind the given sign.
    fn signed(negative: bool, m: u32) -> (r: Binary32)
        requires
            m <= 0x7f80_0000,
        ensures
            r == with_sign(negative, m as int),
    {
        if negative {
            Binary32 { bits: 0x8000_0000 + m }
        } else {
            Binary32 { bits: m }
        }
    }

    /// The nearest number to a whole number.
    pub fn from_integer(n: u64) -> (r: Binary32)
        ensures
            r == rounded(false, n * units_in_one(), 1),
    {
        if n == 0 {
            proof {
                rounding::lemma_nearest_of_magnitude(0, 1, 0);
                rounding::lemma_nearest_unique(0, 1, 0);
            }
            return Binary32 { bits: 0 };
        }
        let m: u32 = rounding::round_to_nearest(n, 149, false, Ghost(n * units_in_one()), Ghost(1));
        Binary32 { bits: m }
    }
}

/// A product of two decoded magnitudes is the product of their significands at the sum
/// of their exponents.
proof fn lemma_product(sa: int, ea: nat, sb: int, eb: nat)
    ensures
        rounding::approximates(
            (sa * pow2(ea)) * (sb * pow2(eb)),
            units_in_one(),
            sa * sb,
            ea + eb - 149,
            false,
        ),
{
    let num = (sa * pow2(ea)) * (sb * pow2(eb));
    let exp = ea + eb - 149;
    let (p, q, w) = (pow2(ea) as int, pow2(eb) as int, pow2(ea + eb) as int);
    lemma_pow2_adds(ea, eb);
    assert(num == (sa * sb) * w) by (nonlinear_arith)
        requires
            num == (sa * p) * (sb * q),
            w == p * q,
    ;
    vstd::arithmetic::power2::lemma2_to64();
    let (u, d) = (rounding::scale_up(exp), rounding::scale_down(exp));
    assert(w * d == units_in_one() * u) by {
        if exp > 0 {
            lemma_pow2_adds(149, exp as nat);
        } else if exp < 0 {
            lemma_pow2_adds(ea + eb, (-exp) as nat);
        }
    }
    assert(num * d == units_in_one() * ((sa * sb) * u)) by (nonlinear_arith)
        requires
            num == (sa * sb) * w,
            w * d == units_in_one() * u,
    ;
}

impl MulSpecImpl for Binary32 {
    open spec fn obeys_mul_spec() -> bool {
        true
    }

    open spec fn mul_req(self, other: Binary32) -> bool {
        true
    }

    open spec fn mul_spec(self, other: Binary32) -> Binary32 {
        self.times(other)
    }
}

impl core::ops::Mul for Binary32 {
    type Output = Binary32;

    fn mul(self, other: Binary32) -> (r: Binary32) {
        proof {
            reveal(Binary32::times);
        }
        let negative: bool = (self.bits >= 0x8000_0000) != (other.bits >= 0x8000_0000);
        if self.is_nan() || other.is_nan() {
            return Binary32 { bits: 0x7fc0_0000 };
        }
        if !self.is_finite() || !other.is_finite() {
            if self.bits % 0x8000_0000 == 0 || other.bits % 0x8000_0000 == 0 {
                return Binary32 { bits: 0x7fc0_0000 };
            }
            return Binary32::signed(negative, 0x7f80_0000);
        }
        let (sa, ea) = self.decode();
        let (sb, eb) = other.decode();
        let ghost num = rounding::magnitude(self.pattern()) * rounding::magnitude(
            other.pattern(),
        );
        assert(sa * sb < 0x1_0000_0000_0000) by (nonlinear_arith)
            requires
                sa < 0x100_0000,
                sb < 0x100_0000,
        ;
        let sig: u64 = sa * sb;
        proof {
            lemma_pow2_pos(149);
        }
        if sig == 0 {
            proof {
                assert(sa == 0 || sb == 0) by (nonlinear_arith)
                    requires
                        sa * sb == 0,
                ;
                assert(num == 0) by (nonlinear_arith)
                    requires
                        num == (sa * pow2(ea as nat)) * (sb * pow2(eb as nat)),
                        sa == 0 || sb == 0,
                ;
                assert(units_in_one() * 0 == 0);
                rounding::lemma_nearest_of_magnitude(0, units_in_one(), 0);
                rounding::lemma_nearest_unique(0, units_in_one(), 0);
            }
            return Binary32::signed(negative, 0);
        }
        proof {
            lemma_product(sa as int, ea as nat, sb as int, eb as nat);
        }
        let m: u32 = rounding::round_to_nearest(
            sig,
            ea as i32 + eb as i32 - 149,
            false,
            Ghost(num),
            Ghost(units_in_one()),
        );
        Binary32::signed(negative, m)
    }
}

/// Dividing a significand that was first moved up by `s` digits gives the quotient of
/// two decoded magnitudes, and whether anything follows below it.
proof fn lemma_quotient(sa: int, ea: nat, sb: int, eb: nat, s: nat, t: int, q: int)
    requires
        sb > 0,
        t == sa * pow2(s),
        q == t / sb,
    ensures
        rounding::approximates(
            (sa * pow2(ea)) * units_in_one(),
            sb * pow2(eb),
            q,
            ea + 149 - s - eb,
            t % sb != 0,
        ),
{
    let num = (sa * pow2(ea)) * units_in_one();
    let den = sb * pow2(eb);
    let exp = ea + 149 - s - eb;
    let (u, d) = (rounding::scale_up(exp), rounding::scale_down(exp));
    let (f, w1, w2) = (pow2(s) as int, pow2(ea + 149) as int, pow2(s + eb) as int);
    let (p, b, o) = (pow2(ea) as int, pow2(eb) as int, units_in_one());
    lemma_pow2_pos(s);
    lemma_pow2_pos(s + eb);
    lemma_pow2_adds(ea, 149);
    lemma_pow2_adds(s, eb);
    vstd::arithmetic::power2::lemma2_to64();
    assert(w1 * d == w2 * u && u > 0) by {
        if exp > 0 {
            lemma_pow2_pos(exp as nat);
            lemma_pow2_adds(s + eb, exp as nat);
        } else if exp < 0 {
            lemma_pow2_adds(ea + 149, (-exp) as nat);
        }
    }
    let c = w2 * u;
    assert(c > 0) by (nonlinear_arith)
        requires
            c == w2 * u,
            w2 > 0,
            u > 0,
    ;
    assert((num * d) * f == t * c) by {
        assert(num == sa * w1) by (nonlinear_arith)
            requires
                num == (sa * p) * o,
                w1 == p * o,
        ;
        assert((num * d) * f == t * (w1 * d)) by (nonlinear_arith)
            requires
                num == sa * w1,
                t == sa * f,
        ;
    }
    assert((den * u) * f == sb * c) by (nonlinear_arith)
        requires
            den == sb * b,
            w2 == f * b,
            c == w2 * u,
    ;
    let lo = den * (q * u);
    let hi = den * ((q + 1) * u);
    let x = num * d;
    assert(lo * f == (q * sb) * c) by (nonlinear_arith)
        requires
            (den * u) * f == sb * c,
            lo == den * (q * u),
    ;
    assert(hi * f == (q * sb) * c + sb * c) by (nonlinear_arith)
        requires
            (den * u) * f == sb * c,
            hi == den * ((q + 1) * u),
    ;
    vstd::arithmetic::div_mod::lemma_fundamental_div_mod(t, sb);
    vstd::arithmetic::mul::lemma_mul_is_commutative(sb, q);
    let r = t % sb;
    assert(t * c == (q * sb) * c + r * c) by (nonlinear_arith)
        requires
            t == q * sb + r,
    ;
    assert(r * c < sb * c && (r != 0 ==> r * c > 0)) by (nonlinear_arith)
        requires
            0 <= r < sb,
            c > 0,
    ;
    assert(r == 0 ==> r * c == 0);
    assert(lo * f < x * f ==> lo < x) by (nonlinear_arith)
        requires
            f > 0,
    ;
    assert(x * f < hi * f ==> x < hi) by (nonlinear_arith)
        requires
            f > 0,
    ;
    assert(lo * f == x * f ==> lo == x) by (nonlinear_arith)
        requires
            f > 0,
    ;
}

impl DivSpecImpl for Binary32 {
    open spec fn obeys_div_spec() -> bool {
        true
    }

    open spec fn div_req(self, other: Binary32) -> bool {
        true
    }

    open spec fn div_spec(self, other: Binary32) -> Binary32 {
        self.over(other)
    }
}

impl core::ops::Div for Binary32 {
    type Output = Binary32;

    fn div(self, other: Binary32) -> (r: Binary32) {
        proof {
            reveal(Binary32::over);
        }
        let negative: bool = (self.bits >= 0x8000_0000) != (other.bits >= 0x8000_0000);
        if self.is_nan() || other.is_nan() {
            return Binary32 { bits: 0x7fc0_0000 };
        }
        if !self.is_finite() {
            if !other.is_finite() {
                return Binary32 { bits: 0x7fc0_0000 };
            }
            return Binary32::signed(negative, 0x7f80_0000);
        }
        if !other.is_finite() {
            return Binary32::signed(negative, 0);
        }
        let (sa, ea) = self.decode();
        let (sb, eb) = other.decode();
        if sb == 0 {
            if sa == 0 {
                return Binary32 { bits: 0x7fc0_0000 };
            }
            return Binary32::signed(negative, 0x7f80_0000);
        }
        let ghost num = rounding::magnitude(self.pattern()) * units_in_one();
        let ghost den = rounding::magnitude(other.pattern());
        proof {
            lemma_pow2_pos(eb as nat);
            assert(den > 0) by (nonlinear_arith)
                requires
                    den == sb * pow2(eb as nat),
                    sb > 0,
                    pow2(eb as nat) > 0,
            ;
        }
        if sa == 0 {
            proof {
                assert(num == 0) by (nonlinear_arith)
                    requires
                        num == (sa * pow2(ea as nat)) * units_in_one(),
                        sa == 0,
                ;
                assert(den * 0 == 0);
                rounding::lemma_nearest_of_magnitude(0, den, 0);
                rounding::lemma_nearest_unique(0, den, 0);
            }
            return Binary32::signed(negative, 0);
        }
        let len: u32 = rounding::bit_length(sa);
        proof {
            vstd::arithmetic::power2::lemma2_to64();
            vstd::arithmetic::power2::lemma2_to64_rest();
            rounding::lemma_bit_length(sa as int, len as nat, 24);
        }
        let s: u32 = 62 - len;
        proof {
            rounding::lemma_shifted_up(sa as int, len as nat, s as nat);
            vstd::bits::lemma_u64_shl_is_mul(sa, s as u64);
        }
        let t: u64 = sa << s as u64;
        let sig: u64 = t / sb;
        let exp: i32 = ea as i32 + 149 - s as i32 - eb as i32;
        proof {
            lemma_quotient(
                sa as int,
                ea as nat,
                sb as int,
                eb as nat,
                s as nat,
                t as int,
                sig as int,
            );
            assert(sig >= 0x200_0000) by (nonlinear_arith)
                requires
                    sig == t / sb,
                    t >= 0x2000_0000_0000_0000,
                    0 < sb < 0x100_0000,
            ;
            assert(sig <= t) by (nonlinear_arith)
                requires
                    sig == t / sb,
                    sb > 0,
            ;
        }
        let m: u32 = rounding::round_to_nearest(sig, exp, t % sb != 0, Ghost(num), Ghost(den));
        Binary32::signed(negative, m)
    }
}

/// Two magnitudes at most 38 exponents apart combine exactly at the lower exponent.
proof fn lemma_combined(sa: int, ea: nat, sb: int, eb: nat, sig: int, subtract: bool)
    requires
        eb <= ea,
        sig == if subtract {
            sa * pow2((ea - eb) as nat) - sb
        } else {
            sa * pow2((ea - eb) as nat) + sb
        },
    ensures
        ({
            let (a, b) = (sa * pow2(ea), sb * pow2(eb));
            let num = if subtract {
                a - b
            } else {
                a + b
            };
            &&& num == sig * pow2(eb)
            &&& rounding::approximates(num, 1, sig, eb as int, false)
        }),
{
    let (f, w) = (pow2((ea - eb) as nat) as int, pow2(eb) as int);
    lemma_pow2_adds((ea - eb) as nat, eb);
    vstd::arithmetic::power2::lemma2_to64();
    assert((sa * f) * w == sa * pow2(ea)) by (nonlinear_arith)
        requires
            pow2(ea) == f * w,
    ;
    assert((sa * f - sb) * w == (sa * f) * w - sb * w) by (nonlinear_arith);
    assert((sa * f + sb) * w == (sa * f) * w + sb * w) by (nonlinear_arith);
}

/// A magnitude more than 38 exponents below another only tells the direction of
/// rounding.
proof fn lemma_absorbed(sa: int, ea: nat, sb: int, eb: nat, sig: int, subtract: bool)
    requires
        eb + 38 < ea,
        0 < sb < 0x100_0000,
        sig == if subtract {
            sa * 0x4000 - 1
        } else {
            sa * 0x4000
        },
    ensures
        ({
            let (a, b) = (sa * pow2(ea), sb * pow2(eb));
            let num = if subtract {
                a - b
            } else {
                a + b
            };
            rounding::approximates(num, 1, sig, ea - 14, true)
        }),
{
    let e = (ea - 14) as nat;
    let (w, v) = (pow2(e) as int, pow2(eb) as int);
    vstd::arithmetic::power2::lemma2_to64();
    lemma_pow2_adds(14, e);
    lemma_pow2_adds(24, eb);
    lemma_pow2_pos(eb);
    vstd::arithmetic::power2::lemma_pow2_strictly_increases(24 + eb, e);
    assert(sa * pow2(ea) == (sa * 0x4000) * w) by (nonlinear_arith)
        requires
            pow2(ea) == 0x4000 * w,
    ;
    assert(0 < sb * v < w) by (nonlinear_arith)
        requires
            0 < sb < 0x100_0000,
            v > 0,
            0x100_0000 * v < w,
    ;
    assert((sa * 0x4000 - 1) * w == (sa * 0x4000) * w - w) by (nonlinear_arith);
    assert((sa * 0x4000 + 1) * w == (sa * 0x4000) * w + w) by (nonlinear_arith);
}

impl Binary32 {
    /// Rounds the sum of two magnitudes, or their difference, as a bit pattern.
    fn combine(self, other: Binary32, subtract: bool) -> (m: u32)
        requires
            self.finite(),
            other.finite(),
            other.pattern() <= self.pattern(),
        ensures
            m == rounding::nearest(
                if subtract {
                    rounding::magnitude(self.pattern()) - rounding::magnitude(other.pattern())
                } else {
                    rounding::magnitude(self.pattern()) + rounding::magnitude(other.pattern())
                },
                1,
            ),
            m <= 0x7f80_0000,
    {
        let (sa, ea) = self.decode();
        let (sb, eb) = other.decode();
        let ghost (a, b) = (
            rounding::magnitude(self.pattern()),
            rounding::magnitude(other.pattern()),
        );
        let ghost num = if subtract {
            a - b
        } else {
            a + b
        };
        proof {
            rounding::lemma_magnitude_order(self.pattern(), other.pattern());
            vstd::arithmetic::power2::lemma2_to64();
            vstd::arithmetic::power2::lemma2_to64_rest();
            assert(eb <= ea) by {
                if ea < eb {
                    lemma_pow2_pos(ea as nat);
                    lemma_pow2_adds((eb - ea) as nat, ea as nat);
                    lemma_pow2_unfold((eb - ea) as nat);
                    lemma_pow2_pos((eb - ea - 1) as nat);
                    assert(a < b) by (nonlinear_arith)
                        requires
                            a == sa * pow2(ea as nat),
                            b == sb * pow2(eb as nat),
                            sa < 0x100_0000,
                            sb >= 0x80_0000,
                            pow2(eb as nat) == pow2((eb - ea) as nat) * pow2(ea as nat),
                            pow2((eb - ea) as nat) >= 2,
                            pow2(ea as nat) > 0,
                    ;
                }
            }
        }
        let d: u32 = ea - eb;
        if d <= 38 {
            proof {
                if d < 38 {
                    vstd::arithmetic::power2::lemma_pow2_strictly_increases(d as nat, 38);
                }
                lemma_pow2_pos(d as nat);
                assert(sa * pow2(d as nat) < 0x4000_0000_0000_0000) by (nonlinear_arith)
                    requires
                        sa < 0x100_0000,
                        0 < pow2(d as nat) <= 0x40_0000_0000,
                ;
                vstd::bits::lemma_u64_shl_is_mul(sa, d as u64);
                lemma_combined(
                    sa as int,
                    ea as nat,
                    sb as int,
                    eb as nat,
                    if subtract {
                        sa * pow2(d as nat) - sb
                    } else {
                        sa * pow2(d as nat) + sb
                    },
                    subtract,
                );
                lemma_pow2_pos(eb as nat);
                assert(subtract ==> sa * pow2(d as nat) >= sb) by (nonlinear_arith)
                    requires
                        subtract ==> (sa * pow2(d as nat) - sb) * pow2(eb as nat) >= 0,
                        pow2(eb as nat) > 0,
                ;
            }
            let sig: u64 = if subtract {
                (sa << d as u64) - sb
            } else {
                (sa << d as u64) + sb
            };
            assert(num == sig * pow2(eb as nat));
            if sig == 0 {
                proof {
                    assert(num == 0) by (nonlinear_arith)
                        requires
                            num == sig * pow2(eb as nat),
                            sig == 0,
                    ;
                    rounding::lemma_nearest_of_magnitude(0, 1, 0);
                    rounding::lemma_nearest_unique(0, 1, 0);
                }
                return 0;
            }
            rounding::round_to_nearest(sig, eb as i32, false, Ghost(num), Ghost(1))
        } else if sb == 0 {
            proof {
                rounding::lemma_nearest_of_magnitude(num, 1, self.pattern());
                rounding::lemma_nearest_unique(num, 1, self.pattern());
            }
            self.bits % 0x8000_0000
        } else {
            let sig: u64 = if subtract {
                sa * 0x4000 - 1
            } else {
                sa * 0x4000
            };
            proof {
                lemma_absorbed(
                    sa as int,
                    ea as nat,
                    sb as int,
                    eb as nat,
                    sig as int,
                    subtract,
                );
            }
            rounding::round_to_nearest(sig, ea as i32 - 14, true, Ghost(num), Ghost(1))
        }
    }
}

impl AddSpecImpl for Binary32 {
    open spec fn obeys_add_spec() -> bool {
        true
    }

    open spec fn add_req(self, other: Binary32) -> bool {
        true
    }

    open spec fn add_spec(self, other: Binary32) -> Binary32 {
        self.plus(other)
    }
}

impl core::ops::Add for Binary32 {
    type Output = Binary32;

    fn add(self, other: Binary32) -> (r: Binary32) {
        proof {
            reveal(Binary32::plus);
            reveal(Binary32::value);
        }
        let (na, nb) = (self.bits >= 0x8000_0000, other.bits >= 0x8000_0000);
        if self.is_nan() || other.is_nan() {
            return Binary32 { bits: 0x7fc0_0000 };
        }
        if !self.is_finite() {
            if !other.is_finite() && na != nb {
                return Binary32 { bits: 0x7fc0_0000 };
            }
            return self;
        }
        if !other.is_finite() {
            return other;
        }
        let (pa, pb) = (self.bits % 0x8000_0000, other.bits % 0x8000_0000);
        proof {
            rounding::lemma_magnitude_order(self.pattern(), other.pattern());
            rounding::lemma_magnitude_order(self.pattern(), 0);
            rounding::lemma_magnitude_order(other.pattern(), 0);
            rounding::lemma_nearest_of_magnitude(0, 1, 0);
            rounding::lemma_nearest_unique(0, 1, 0);
        }
        if pa == pb && na != nb {
            return Binary32 { bits: 0 };
        }
        if pa >= pb {
            Binary32::signed(na, self.combine(other, na != nb))
        } else {
            Binary32::signed(nb, other.combine(self, na != nb))
        }
    }
}

impl SubSpecImpl for Binary32 {
    open spec fn obeys_sub_spec() -> bool {
        true
    }

    open spec fn sub_req(self, other: Binary32) -> bool {
        true
    }

    open spec fn sub_spec(self, other: Binary32) -> Binary32 {
        self.minus(other)
    }
}

impl core::ops::Sub for Binary32 {
    type Output = Binary32;

    fn sub(self, other: Binary32) -> (r: Binary32) {
        self + other.negated()
    }
}

/// The number nearest to the fraction `num / den`.
pub open spec fn fraction(num: int, den: int) -> Binary32 {
    rounded(false, num * units_in_one(), den)
}

/// A whole number of at most 24 binary digits, times a power of two, is a magnitude.
pub proof fn lemma_short_magnitude(n: int, k: nat) -> (p: int)
    requires
        0 <= n < 0x100_0000,
        k <= 200,
    ensures
        0 <= p < 0x7f80_0000,
        rounding::magnitude(p) == n * pow2(k),
        n > 0 ==> p > 0,
    decreases k,
{
    vstd::arithmetic::power2::lemma2_to64();
    if n >= 0x80_0000 || k == 0 {
        rounding::lemma_magnitude_of_significand(k, n);
        k * 0x80_0000 + n
    } else {
        lemma_pow2_unfold(k);
        assert((2 * n) * pow2((k - 1) as nat) == n * (2 * pow2((k - 1) as nat)))
            by (nonlinear_arith);
        lemma_short_magnitude(2 * n, (k - 1) as nat)
    }
}

/// A whole number of at most 24 binary digits is converted exactly.
pub proof fn lemma_from_integer(n: int, r: Binary32)
    requires
        0 <= n < 0x100_0000,
        r == rounded(false, n * units_in_one(), 1),
    ensures
        r.finite(),
        !r.negative(),
        r.pattern() == 0 <==> n == 0,
        rounding::magnitude(r.pattern()) == n * units_in_one(),
{
    let p = lemma_short_magnitude(n, 149);
    rounding::lemma_nearest_of_magnitude(n * units_in_one(), 1, p);
    rounding::lemma_nearest_unique(n * units_in_one(), 1, p);
    rounding::lemma_magnitude_order(p, 0);
    if n == 0 {
        assert(n * units_in_one() == 0) by (nonlinear_arith)
            requires
                n == 0,
        ;
    }
}

impl Binary32 {
    /// The number nearest to the fraction `num / den`.
    pub fn ratio(num: u32, den: u32) -> (r: Binary32)
        requires
            num < 0x100_0000,
            0 < den < 0x100_0000,
        ensures
            r == fraction(num as int, den as int),
    {
        let a: Binary32 = Binary32::from_integer(num as u64);
        let b: Binary32 = Binary32::from_integer(den as u64);
        proof {
            lemma_from_integer(num as int, a);
            lemma_from_integer(den as int, b);
            lemma_pow2_pos(149);
            reveal(Binary32::over);
            rounding::lemma_nearest_scaled(num * units_in_one(), den as int, units_in_one());
        }
        a / b
    }
}

} // verus!
