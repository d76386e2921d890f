//! The number format, held against the floating-point unit of the machine.

use depot_safety_core::Binary32;

/// The number with the bits of a hardware float.
fn n(x: f32) -> Binary32 {
    Binary32::from_bits(x.to_bits())
}

/// The hardware float with the bits of a number.
fn h(x: Binary32) -> f32 {
    f32::from_bits(x.to_bits())
}

/// Equal bits, or not a number on both sides.
fn same(x: Binary32, y: f32) -> bool {
    x.to_bits() == y.to_bits() || (h(x).is_nan() && y.is_nan())
}

/// A linear congruential sequence of bit patterns.
struct Patterns {
    state: u64,
}

impl Patterns {
    fn next(&mut self) -> u32 {
        self.state = self.state.wrapping_mul(6364136223846793005).wrapping_add(1442695040888963407);
        (self.state >> 32) as u32
    }
}

const SPECIAL: [u32; 30] = [
    0x0000_0000, 0x8000_0000, 0x0000_0001, 0x8000_0001, 0x0000_0002, 0x007f_ffff, 0x807f_ffff,
    0x0080_0000, 0x8080_0000, 0x0080_0001, 0x00ff_ffff, 0x0100_0000, 0x3f80_0000, 0xbf80_0000,
    0x3f80_0001, 0x3f7f_ffff, 0x4000_0000, 0x4b7f_ffff, 0x4b80_0000, 0x4b80_0001, 0x7f7f_ffff,
    0xff7f_ffff, 0x7f00_0000, 0x7f80_0000, 0xff80_0000, 0x7fc0_0000, 0xffc0_0000, 0x7f80_0001,
    0x3eaa_aaab, 0x0020_0000,
];

fn check_pair(x: u32, y: u32) {
    let (a, b) = (Binary32::from_bits(x), Binary32::from_bits(y));
    let (p, q) = (f32::from_bits(x), f32::from_bits(y));
    assert!(same(a + b, p + q), "{x:x} + {y:x}");
    assert!(same(a - b, p - q), "{x:x} - {y:x}");
    assert!(same(a * b, p * q), "{x:x} * {y:x}");
    assert!(same(a / b, p / q), "{x:x} / {y:x}");
    assert_eq!(a < b, p < q, "{x:x} < {y:x}");
    assert_eq!(a <= b, p <= q, "{x:x} <= {y:x}");
    assert_eq!(a > b, p > q, "{x:x} > {y:x}");
    assert_eq!(a >= b, p >= q, "{x:x} >= {y:x}");
    assert_eq!(a == b, p == q, "{x:x} == {y:x}");
    assert_eq!(a != b, p != q, "{x:x} != {y:x}");
    assert!(h(a.min(b)) == p.min(q) || (p.is_nan() && q.is_nan()), "min {x:x} {y:x}");
    assert!(h(a.max(b)) == p.max(q) || (p.is_nan() && q.is_nan()), "max {x:x} {y:x}");
}

#[test]
fn special_patterns_behave_as_in_hardware() {
    for x in SPECIAL {
        let (a, p) = (Binary32::from_bits(x), f32::from_bits(x));
        assert_eq!(a.is_nan(), p.is_nan());
        assert_eq!(a.is_finite(), p.is_finite());
        assert_eq!(a.abs().to_bits(), p.abs().to_bits());
        assert_eq!(a.negated().to_bits(), (-p).to_bits());
        for y in SPECIAL {
            check_pair(x, y);
        }
    }
}

#[test]
fn arbitrary_patterns_behave_as_in_hardware() {
    let mut patterns = Patterns { state: 1 };
    for _ in 0..200_000 {
        let x = patterns.next();
        let y = patterns.next();
        check_pair(x, y);
        // Neighbouring magnitudes, where sums cancel and quotients are close to one.
        check_pair(x, (x ^ 0x8000_0000).wrapping_add(y % 64));
        // Exponents at most 63 apart, where alignment matters.
        check_pair(x, (x & 0x7f80_0000).wrapping_sub((y % 64) << 23) | (y & 0x807f_ffff));
    }
}

#[test]
fn subnormal_results_are_rounded_once() {
    let mut patterns = Patterns { state: 2 };
    for _ in 0..100_000 {
        let x = patterns.next() & 0x80ff_ffff;
        let y = patterns.next();
        check_pair(x, y);
        check_pair(x, 0x3f00_0000 | (y & 0x80ff_ffff));
        check_pair(x, y & 0x80ff_ffff);
    }
}

#[test]
fn whole_numbers_convert_as_in_hardware() {
    let mut patterns = Patterns { state: 3 };
    for shift in 0..64 {
        for _ in 0..500 {
            let wide = ((patterns.next() as u64) << 32) | patterns.next() as u64;
            let i = wide >> shift;
            assert_eq!(Binary32::from_integer(i).to_bits(), (i as f32).to_bits(), "{i}");
        }
    }
    assert_eq!(Binary32::from_integer(0).to_bits(), 0);
    assert_eq!(Binary32::from_integer(u64::MAX).to_bits(), (u64::MAX as f32).to_bits());
    assert_eq!(Binary32::from_integer(16_777_217).to_bits(), 16_777_216f32.to_bits());
}

#[test]
fn fractions_are_the_nearest_numbers() {
    assert_eq!(Binary32::ratio(12, 10).to_bits(), 1.2f32.to_bits());
    assert_eq!(Binary32::ratio(1, 1_000_000).to_bits(), 1e-6f32.to_bits());
    assert_eq!(Binary32::ratio(5, 100).to_bits(), 0.05f32.to_bits());
    assert_eq!(Binary32::ratio(0, 7).to_bits(), 0);
    assert_eq!(Binary32::ratio(1, 3).to_bits(), 0x3eaa_aaab);
}

#[test]
fn named_numbers_have_their_usual_patterns() {
    assert_eq!(Binary32::zero().to_bits(), 0f32.to_bits());
    assert_eq!(Binary32::one().to_bits(), 1f32.to_bits());
    assert_eq!(Binary32::two().to_bits(), 2f32.to_bits());
    assert_eq!(Binary32::infinity().to_bits(), f32::INFINITY.to_bits());
    assert!(n(f32::NAN).is_nan());
}
