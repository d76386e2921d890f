//! Lengths, boundaries and ramps against the same formulas on hardware floats.

use depot_safety_core::geometry::forward_rect_boundary;
use depot_safety_core::{
    Arbiter, Binary32, Command, Direction, FieldExtent, Mode, SafetyConfig, Scan, Tick, Twist,
    MAX_RAYS,
};

fn n(x: f32) -> Binary32 {
    Binary32::from_bits(x.to_bits())
}

fn h(x: Binary32) -> f32 {
    f32::from_bits(x.to_bits())
}

fn direction(theta: Binary32) -> Direction {
    Direction { cos: n(libm::cosf(h(theta))), sin: n(libm::sinf(h(theta))) }
}

/// A linear congruential source of floats.
struct Source {
    state: u64,
}

impl Source {
    fn bits(&mut self) -> u32 {
        self.state = self.state.wrapping_mul(6364136223846793005).wrapping_add(1442695040888963407);
        (self.state >> 32) as u32
    }

    fn between(&mut self, low: f32, high: f32) -> f32 {
        low + (high - low) * (self.bits() >> 8) as f32 / 16_777_216.0
    }
}

#[test]
fn extents_agree_with_hardware() {
    let mut source = Source { state: 7 };
    for _ in 0..20_000 {
        let (max, decel) = (source.between(0.1, 5.0), source.between(0.1, 4.0));
        let (reaction, margin) = (source.between(0.0, 0.5), source.between(0.0, 0.5));
        let (floor, scale) = (source.between(0.01, 1.0), source.between(1.01, 4.0));
        let cfg = SafetyConfig {
            max_linear: n(max),
            max_decel: n(decel),
            reaction_time_s: n(reaction),
            protective_margin_m: n(margin),
            min_protective_m: n(floor),
            warning_scale: n(scale),
            ..SafetyConfig::default()
        };
        let speed = source.between(-6.0, 6.0);
        let v = speed.abs().min(max);
        let length = floor + (v * reaction + (v * v) / (2.0 * decel)) + margin;
        let f = FieldExtent::compute(&cfg, n(speed), Mode::Normal);
        assert_eq!(f.protective_len.to_bits(), length.to_bits());
        assert_eq!(f.warning_len.to_bits(), (length * scale).to_bits());
        let f = FieldExtent::compute(&cfg, n(speed), Mode::Docking);
        assert_eq!(f.protective_len.to_bits(), length.min(0.12).to_bits());
        assert_eq!(f.half_width.to_bits(), 0.22f32.to_bits());
    }
}

#[test]
fn boundaries_agree_with_hardware() {
    let mut source = Source { state: 11 };
    for _ in 0..20_000 {
        let theta = source.between(-3.2, 3.2);
        let (c, s) = (libm::cosf(theta), libm::sinf(theta));
        let (length, half_width) = (source.between(-0.1, 4.0), source.between(-0.1, 1.0));
        let expected = if !(c > 0.0) || length <= 0.0 || half_width <= 0.0 {
            None
        } else if s.abs() * (length / c) <= half_width {
            Some(length / c)
        } else {
            Some(half_width / s.abs())
        };
        let got = forward_rect_boundary(n(length), n(half_width), n(c), n(s));
        assert_eq!(got.map(|b| b.to_bits()), expected.map(|b| b.to_bits()));
    }
}

#[test]
fn ramps_agree_with_hardware() {
    let mut source = Source { state: 13 };
    let ranges = [n(10.0); 3];
    let cfg = SafetyConfig { clear_hold_us: 0, ..SafetyConfig::default() };
    let mut arbiter = Arbiter::new(cfg).unwrap();
    let mut now = 0;
    let (mut linear, mut angular) = (0.0f32, 0.0f32);
    for i in 0..5_000u64 {
        let elapsed = if i == 0 { 0 } else { 1 + (source.bits() % 80_000) as u64 };
        now += elapsed;
        let (x, w) = (source.between(-2.0, 2.0), source.between(-3.0, 3.0));
        let scan = Scan {
            stamp_us: now,
            angle_min: n(-1.0),
            angle_increment: n(1.0),
            range_min: n(0.05),
            range_max: n(12.0),
            ranges: &ranges,
        };
        let tick =
            Tick::new(now).with_scan(scan).with_cmd(Command::new(Twist::new(n(x), n(w)), now));
        let out = arbiter.step(&tick, &direction).twist;

        let dt = (elapsed as f32 * 1e-6).min(0.05);
        let target = (x.max(-1.2).min(1.2), w.max(-1.5).min(1.5));
        let rate = if target.0.abs() > linear.abs() { 0.8f32 } else { 1.0 };
        let step = rate * dt;
        linear += (target.0 - linear).max(-step).min(step);
        linear = linear.max(-1.2).min(1.2);
        let turn = 2.0f32 * dt;
        angular += (target.1 - angular).max(-turn).min(turn);
        angular = angular.max(-1.5).min(1.5);
        assert_eq!(h(out.linear), linear, "cycle {i}");
        assert_eq!(h(out.angular), angular, "cycle {i}");
    }
}

#[test]
fn a_full_scan_is_arbitrated_well_within_ten_milliseconds() {
    let ranges: Vec<Binary32> =
        (0..MAX_RAYS).map(|i| n(0.3 + (i % 40) as f32 * 0.1)).collect();
    let mut arbiter = Arbiter::new(SafetyConfig::default()).unwrap();
    let mut samples = Vec::new();
    for i in 0..100u64 {
        let now = i * 10_000;
        let scan = Scan {
            stamp_us: now,
            angle_min: n(-2.356_194_5),
            angle_increment: n(0.004_363_323),
            range_min: n(0.05),
            range_max: n(25.0),
            ranges: &ranges,
        };
        let tick = Tick::new(now)
            .with_scan(scan)
            .with_cmd(Command::new(Twist::new(n(1.2), n(0.3)), now));
        let start = std::time::Instant::now();
        let decision = arbiter.step(&tick, &direction);
        samples.push(start.elapsed().as_micros());
        assert_eq!(h(decision.closest_m), 0.3);
    }
    samples.sort_unstable();
    assert!(samples[50] < 10_000, "median cycle {} us", samples[50]);
}
