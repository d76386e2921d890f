//! The invariants the rest of the system is allowed to assume, on arbitrary runs.
//!
//! The behavioural suite checks that the layer does the right thing in scenarios we
//! thought of. This suite checks that it cannot do the wrong thing in scenarios we
//! did not.

use depot_safety_core::{
    Arbiter, Binary32, Command, Decision, Direction, FieldState, Micros, Mode, SafetyConfig, Scan,
    ScanGeometry, Tick, Twist, VetoReason, ZoneLimits,
};

const RAYS: usize = 271;
const ANGLE_MIN: f32 = -2.356_194_5; // -135°
const ANGLE_INC: f32 = 0.017_453_292; // 1°
const RANGE_MIN: f32 = 0.05;
const RANGE_MAX: f32 = 12.0;
const PERIOD_US: Micros = 10_000;

fn n(x: f32) -> Binary32 {
    Binary32::from_bits(x.to_bits())
}

fn h(x: Binary32) -> f32 {
    f32::from_bits(x.to_bits())
}

fn direction(theta: Binary32) -> Direction {
    Direction { cos: n(libm::cosf(h(theta))), sin: n(libm::sinf(h(theta))) }
}

fn scan_at(ranges: &[Binary32], stamp_us: Micros) -> Scan<'_> {
    Scan {
        stamp_us,
        angle_min: n(ANGLE_MIN),
        angle_increment: n(ANGLE_INC),
        range_min: n(RANGE_MIN),
        range_max: n(RANGE_MAX),
        ranges,
    }
}

fn config() -> SafetyConfig {
    SafetyConfig::default()
}

/// A linear congruential source of arbitrary values.
struct Source {
    state: u64,
}

impl Source {
    fn bits(&mut self) -> u32 {
        self.state = self.state.wrapping_mul(6364136223846793005).wrapping_add(1442695040888963407);
        (self.state >> 32) as u32
    }

    fn below(&mut self, limit: u32) -> u32 {
        self.bits() % limit
    }

    fn between(&mut self, low: f32, high: f32) -> f32 {
        low + (high - low) * (self.bits() >> 8) as f32 / 16_777_216.0
    }

    /// A range value, deliberately including the pathological ones.
    fn range(&mut self) -> f32 {
        match self.below(12) {
            0 => f32::NAN,
            1 => f32::INFINITY,
            2 => -1.0,
            3 => 0.0,
            _ => self.between(RANGE_MIN, RANGE_MAX),
        }
    }

    fn twist(&mut self) -> Twist {
        match self.below(10) {
            0 => Twist::new(n(f32::NAN), n(0.0)),
            1 => Twist::new(n(1e30), n(1e30)),
            _ => Twist::new(n(self.between(-3.0, 3.0)), n(self.between(-4.0, 4.0))),
        }
    }

    fn step(&mut self) -> Step {
        // Most floors are empty but for a few returns, or nothing would ever move.
        let crowded = self.below(6) == 0;
        let mut ranges = vec![n(RANGE_MAX); RAYS];
        if crowded {
            for r in ranges.iter_mut() {
                *r = n(self.range());
            }
        } else {
            for _ in 0..3 {
                let i = self.below(RAYS as u32) as usize;
                ranges[i] = n(self.range());
            }
        }
        Step {
            ranges,
            cmd: if self.below(4) > 0 { Some(self.twist()) } else { None },
            estop: self.below(40) == 0,
            estop_reset: self.below(3) == 0,
            mode: if self.below(10) == 0 { Mode::Docking } else { Mode::Normal },
            zone: ZoneLimits::new(n(self.between(0.0, 2.0)), n(self.between(0.0, 3.0))),
            scan_present: self.below(10) > 0,
            extra_delay_us: if self.below(10) < 7 { 0 } else { self.below(400_000) as u64 },
        }
    }
}

/// One cycle's worth of arbitrary input.
struct Step {
    ranges: Vec<Binary32>,
    cmd: Option<Twist>,
    estop: bool,
    estop_reset: bool,
    mode: Mode,
    zone: ZoneLimits,
    /// Whether a scan arrives this cycle.
    scan_present: bool,
    /// Extra delay before this cycle, microseconds: models jitter and loop stalls.
    extra_delay_us: u64,
}

fn arbitrary_run(seed: u64, cycles: usize) -> Vec<Step> {
    let mut source = Source { state: seed };
    (0..cycles).map(|_| source.step()).collect()
}

/// A configuration that lets go of stops quickly, so that runs keep moving.
fn nimble() -> SafetyConfig {
    SafetyConfig { clear_hold_us: 20_000, ..config() }
}

/// Feeds a sequence of steps to a fresh arbiter, invoking `check` on every cycle.
fn run(
    cfg: SafetyConfig,
    steps: &[Step],
    mut check: impl FnMut(&Step, Twist, Twist, Decision, f32),
) {
    let mut arbiter = Arbiter::new(cfg).expect("valid config");
    let mut now: Micros = 0;
    for step in steps {
        now += PERIOD_US + step.extra_delay_us;
        let previous = arbiter.last_output();
        let mut tick = Tick::new(now).with_mode(step.mode).with_zone(step.zone);
        tick.estop = step.estop;
        tick.estop_reset = step.estop_reset;
        if let Some(twist) = step.cmd {
            tick = tick.with_cmd(Command::new(twist, now));
        }
        let dt = ((PERIOD_US + step.extra_delay_us) as f32 * 1e-6).min(0.05);
        let decision = if step.scan_present {
            let scan = scan_at(&step.ranges, now);
            arbiter.step(&tick.with_scan(scan), &direction)
        } else {
            arbiter.step(&tick, &direction)
        };
        check(step, previous, decision.twist, decision, dt);
    }
}

/// Runs both the shipped configuration and one that moves more.
fn runs(
    seeds: u64,
    cycles: usize,
    check: impl Fn(SafetyConfig, &Step, Twist, Twist, Decision, f32),
) {
    for seed in 0..seeds {
        let steps = arbitrary_run(seed, cycles);
        for cfg in [config(), nimble()] {
            run(cfg, &steps, |step, previous, out, d, dt| check(cfg, step, previous, out, d, dt));
        }
    }
}

#[test]
fn the_output_is_always_finite_and_within_the_vehicle_limits() {
    runs(20, 200, |cfg, _, _, out, _, _| {
        assert!(out.is_finite());
        assert!(out.linear.abs() <= cfg.max_linear);
        assert!(out.angular.abs() <= cfg.max_angular);
    });
}

#[test]
fn a_protective_stop_is_immediate_and_absolute() {
    runs(20, 200, |_, _, _, out, d, _| {
        if d.state == FieldState::ProtectiveStop || d.estop_latched {
            assert_eq!(out, Twist::zero(), "moved during a stop: {:?}", d.veto);
        }
    });
}

#[test]
fn speed_changes_respect_the_acceleration_limits() {
    runs(20, 200, |cfg, _, previous, out, d, dt| {
        if d.state == FieldState::ProtectiveStop || d.estop_latched {
            return; // hard stops bypass the ramp on purpose
        }
        let allowed = h(cfg.max_accel).max(h(cfg.max_decel)) * dt + 1e-5;
        assert!((h(out.linear) - h(previous.linear)).abs() <= allowed);
        let allowed_ang = h(cfg.max_angular_accel) * dt + 1e-5;
        assert!((h(out.angular) - h(previous.angular)).abs() <= allowed_ang);
    });
}

#[test]
fn zone_limits_only_restrict() {
    runs(20, 200, |cfg, step, previous, out, d, dt| {
        if d.state == FieldState::ProtectiveStop || d.estop_latched {
            return;
        }
        // Either we are already under the zone ceiling, or we are still braking
        // toward it from above.
        let ceiling = h(step.zone.max_linear);
        let braking = h(previous.linear).abs() - h(cfg.max_decel) * dt - 1e-5;
        let speed = h(out.linear).abs();
        assert!(
            speed <= ceiling + 1e-5 || speed <= braking.max(0.0) + 1e-5,
            "speed {speed} above zone ceiling {ceiling} while not braking"
        );
    });
}

#[test]
fn a_latched_estop_cannot_clear_itself() {
    runs(20, 200, |_, step, _, out, d, _| {
        if d.estop_latched {
            assert_eq!(out, Twist::zero());
            assert_eq!(d.veto, VetoReason::EStop);
        } else {
            assert!(!step.estop, "an asserted e-stop must latch");
        }
    });
}

#[test]
fn the_layer_is_deterministic() {
    for seed in 0..5 {
        let steps = arbitrary_run(seed, 200);
        let mut first = Vec::new();
        run(nimble(), &steps, |_, _, out, d, _| {
            first.push((out.linear.to_bits(), out.angular.to_bits(), d.state, d.veto));
        });
        let mut second = Vec::new();
        run(nimble(), &steps, |_, _, out, d, _| {
            second.push((out.linear.to_bits(), out.angular.to_bits(), d.state, d.veto));
        });
        assert_eq!(first, second);
    }
}

#[test]
fn a_closer_obstacle_never_yields_a_faster_command() {
    let mut moved = 0;
    for seed in 0..200 {
        // Warm both copies through an identical history, then diverge for one cycle.
        let mut source = Source { state: 1_000 + seed };
        let mut arbiter = Arbiter::new(nimble()).unwrap();
        let mut now: Micros = 0;
        for step in arbitrary_run(seed, 20) {
            now += PERIOD_US;
            let mut tick = Tick::new(now);
            if step.scan_present {
                tick = tick.with_scan(scan_at(&step.ranges, now));
            }
            if let Some(twist) = step.cmd {
                tick = tick.with_cmd(Command::new(twist, now));
            }
            arbiter.step(&tick, &direction);
        }
        now += PERIOD_US;

        let near_floor = source.below(2) == 0;
        let mut far_ranges = Vec::new();
        let mut near_ranges = Vec::new();
        for _ in 0..RAYS {
            let r = if near_floor { source.between(RANGE_MIN, RANGE_MAX) } else { RANGE_MAX };
            far_ranges.push(n(r));
            let shrink = source.between(0.0, 1.0);
            near_ranges.push(n((r * shrink).max(RANGE_MIN)));
        }

        let request = Twist::new(n(source.between(0.0, 1.2)), n(source.between(-1.0, 1.0)));
        let cmd = Command::new(request, now);
        let mut far_arbiter = arbiter.clone();
        let far = far_arbiter
            .step(&Tick::new(now).with_cmd(cmd).with_scan(scan_at(&far_ranges, now)), &direction);
        let mut near_arbiter = arbiter;
        let near = near_arbiter
            .step(&Tick::new(now).with_cmd(cmd).with_scan(scan_at(&near_ranges, now)), &direction);

        if h(far.twist.linear) != 0.0 {
            moved += 1;
        }
        assert!(
            h(near.twist.linear).abs() <= h(far.twist.linear).abs() + 1e-6,
            "closer obstacles gave {} vs {}",
            h(near.twist.linear),
            h(far.twist.linear)
        );
    }
    assert!(moved > 20, "the far floor should let the robot move, {moved}");
}

/// Property expressed over the scan-geometry cache rather than the arbiter.
#[test]
fn every_bearing_in_the_sensor_sweep_is_cached_exactly() {
    let ranges = [n(1.0_f32); RAYS];
    let scan = scan_at(&ranges, 0);
    let mut geom = ScanGeometry::default();
    geom.configure(&scan, &direction).unwrap();
    assert_eq!(geom.len(), RAYS);
    for i in 0..RAYS {
        let theta = ANGLE_MIN + ANGLE_INC * i as f32;
        assert!(theta.is_finite());
    }
}

#[test]
fn the_sweep_asks_for_each_bearing_once_and_in_order() {
    let ranges = [n(1.0_f32); RAYS];
    let scan = scan_at(&ranges, 0);
    let asked = std::cell::RefCell::new(Vec::new());
    let record = |theta: Binary32| {
        asked.borrow_mut().push(theta.to_bits());
        direction(theta)
    };
    let mut geom = ScanGeometry::default();
    geom.configure(&scan, &record).unwrap();
    let expected: Vec<u32> =
        (0..RAYS).map(|i| (ANGLE_MIN + ANGLE_INC * i as f32).to_bits()).collect();
    assert_eq!(*asked.borrow(), expected);
}
