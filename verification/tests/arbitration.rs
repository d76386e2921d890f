//! Behavioural tests for the safety layer, written as the scenarios that define
//! "done": drive at a wall at full speed and it stops itself; kill the planner
//! mid-drive and it ramps to zero.

use depot_safety_core::{
    Arbiter, Binary32, Command, Decision, Direction, FieldState, Micros, Mode, SafetyConfig, Scan,
    ScanError, Tick, Twist, VetoReason, ZoneLimits,
};

/// Rays in the synthetic sensor: 270° at 1°, the shape of a typical AMR safety lidar.
const RAYS: usize = 271;
/// Bearing of ray zero.
const ANGLE_MIN: f32 = -2.356_194_5; // -135°
/// Bearing step.
const ANGLE_INC: f32 = 0.017_453_292; // 1°
/// Sensor minimum range.
const RANGE_MIN: f32 = 0.05;
/// Sensor maximum range.
const RANGE_MAX: f32 = 12.0;
/// Control period: 100 Hz, comfortably inside the 10 ms budget.
const PERIOD_US: Micros = 10_000;

fn n(x: f32) -> Binary32 {
    Binary32::from_bits(x.to_bits())
}

fn h(x: Binary32) -> f32 {
    f32::from_bits(x.to_bits())
}

fn twist(linear: f32, angular: f32) -> Twist {
    Twist::new(n(linear), n(angular))
}

fn zone(max_linear: f32, max_angular: f32) -> ZoneLimits {
    ZoneLimits::new(n(max_linear), n(max_angular))
}

/// The direction cosines of a bearing.
fn direction(theta: Binary32) -> Direction {
    Direction { cos: n(libm::cosf(h(theta))), sin: n(libm::sinf(h(theta))) }
}

/// Bearing of ray `i`.
fn bearing(i: usize) -> f32 {
    ANGLE_MIN + ANGLE_INC * i as f32
}

/// A scan of an empty floor.
fn empty_floor() -> [Binary32; RAYS] {
    [n(RANGE_MAX); RAYS]
}

/// A scan of an infinite wall perpendicular to the robot's heading, `distance` ahead.
///
/// Rays that would strike the wall beyond sensor range, or that point away from it,
/// report the maximum range.
fn wall_ahead(distance: f32) -> [Binary32; RAYS] {
    let mut ranges = [n(RANGE_MAX); RAYS];
    for (i, r) in ranges.iter_mut().enumerate() {
        let c = libm::cosf(bearing(i));
        if c > 1e-3 {
            let range = distance / c;
            if range < RANGE_MAX {
                *r = n(range);
            }
        }
    }
    ranges
}

/// A pair of shelf legs at `distance`, offset `half_span` either side of centreline.
///
/// This is the docking case: two narrow returns straddling the robot's path, with
/// clear floor between them.
fn shelf_legs(distance: f32, half_span: f32) -> [Binary32; RAYS] {
    let mut ranges = [n(RANGE_MAX); RAYS];
    for (i, r) in ranges.iter_mut().enumerate() {
        let theta = bearing(i);
        let (c, s) = (libm::cosf(theta), libm::sinf(theta));
        if c <= 1e-3 {
            continue;
        }
        // Distance along the ray to the plane x = distance, and its lateral offset.
        let along = distance / c;
        let lateral = libm::fabsf(s * along);
        if libm::fabsf(lateral - half_span) < 0.05 && along < RANGE_MAX {
            *r = n(along);
        }
    }
    ranges
}

/// Wraps a range buffer in a [`Scan`] stamped at `stamp_us`.
fn scan_at(ranges: &[Binary32], stamp_us: Micros) -> Scan<'_> {
    Scan {
        stamp_us,
        angle_min: n(ANGLE_MIN),
        angle_increment: n(ANGLE_INC),
        range_min: n(RANGE_MIN),
        range_max: n(RANGE_MAX),
        ranges,
    }
}

/// The configuration under test: the shipped defaults.
fn config() -> SafetyConfig {
    SafetyConfig::default()
}

/// A one-dimensional robot: integrate the arbitrated command, regenerate the scan.
struct Sim {
    arbiter: Arbiter,
    /// Distance from the lidar origin to the wall, metres.
    distance: f32,
    now_us: Micros,
}

impl Sim {
    fn new(distance: f32) -> Self {
        Self {
            arbiter: Arbiter::new(config()).expect("default config is valid"),
            distance,
            now_us: 0,
        }
    }

    /// Advances one control period, feeding a fresh scan and the given request.
    fn step(&mut self, request: Option<Twist>, mode: Mode, zone: ZoneLimits) -> Decision {
        let ranges = wall_ahead(self.distance);
        let scan = scan_at(&ranges, self.now_us);
        let mut tick = Tick::new(self.now_us).with_scan(scan).with_mode(mode).with_zone(zone);
        if let Some(twist) = request {
            tick = tick.with_cmd(Command::new(twist, self.now_us));
        }
        let decision = self.arbiter.step(&tick, &direction);
        let dt = PERIOD_US as f32 * 1e-6;
        self.distance -= h(decision.twist.linear) * dt;
        self.now_us += PERIOD_US;
        decision
    }
}

fn full_speed() -> Twist {
    twist(1.2, 0.0)
}

#[test]
fn it_stops_itself_short_of_a_wall_at_full_speed() {
    let mut sim = Sim::new(8.0);
    let mut min_distance = f32::INFINITY;

    for _ in 0..2_000 {
        let d = sim.step(Some(full_speed()), Mode::Normal, ZoneLimits::unrestricted());
        min_distance = min_distance.min(sim.distance);
        assert!(h(d.twist.linear) >= 0.0, "the layer never commands reverse on its own");
    }

    let cfg = config();
    assert_eq!(sim.arbiter.last_output(), Twist::zero(), "should have come to rest");
    assert!(min_distance > h(cfg.protective_margin_m), "clearance {min_distance} m");
    assert!(min_distance < 1.5, "stopped {min_distance} m out, which is uselessly timid");
}

#[test]
fn it_reaches_full_speed_on_an_empty_floor() {
    let ranges = empty_floor();
    let mut arbiter = Arbiter::new(config()).unwrap();
    let mut now = 0;
    for _ in 0..500 {
        let tick = Tick::new(now)
            .with_scan(scan_at(&ranges, now))
            .with_cmd(Command::new(full_speed(), now));
        arbiter.step(&tick, &direction);
        now += PERIOD_US;
    }
    let out = arbiter.last_output();
    assert!((h(out.linear) - 1.2).abs() < 1e-3, "expected full speed, got {}", h(out.linear));
}

#[test]
fn losing_the_planner_mid_drive_ramps_to_zero() {
    let ranges = empty_floor();
    let cfg = config();
    let mut arbiter = Arbiter::new(cfg).unwrap();
    let mut now = 0;

    // Get up to speed.
    for _ in 0..400 {
        let tick = Tick::new(now)
            .with_scan(scan_at(&ranges, now))
            .with_cmd(Command::new(full_speed(), now));
        arbiter.step(&tick, &direction);
        now += PERIOD_US;
    }
    let speed_at_failure = h(arbiter.last_output().linear);
    assert!(speed_at_failure > 1.0);

    // The planner dies. Scans keep arriving; commands do not.
    let failure_us = now;
    let mut previous = speed_at_failure;
    let mut stopped_at = None;
    for _ in 0..400 {
        let d = arbiter.step(&Tick::new(now).with_scan(scan_at(&ranges, now)), &direction);
        assert!(h(d.twist.linear) <= previous + 1e-6, "speed must never rise after a dropout");
        previous = h(d.twist.linear);
        if h(d.twist.linear) == 0.0 && stopped_at.is_none() {
            stopped_at = Some(now);
            assert_eq!(d.veto, VetoReason::Watchdog);
        }
        now += PERIOD_US;
    }

    let stopped_at = stopped_at.expect("must reach zero");
    // Budget: detect within the watchdog timeout, then brake at the configured rate.
    let budget_us = cfg.watchdog_timeout_us
        + (speed_at_failure / h(cfg.max_decel) * 1e6) as u64
        + 2 * PERIOD_US;
    assert!(
        stopped_at - failure_us <= budget_us,
        "took {} us, budget {budget_us} us",
        stopped_at - failure_us
    );
}

#[test]
fn a_robot_that_has_never_seen_the_floor_refuses_to_move() {
    let mut arbiter = Arbiter::new(config()).unwrap();
    let d = arbiter.step(&Tick::new(0).with_cmd(Command::new(full_speed(), 0)), &direction);
    assert_eq!(d.twist, Twist::zero());
    assert_eq!(d.state, FieldState::ProtectiveStop);
    assert_eq!(d.veto, VetoReason::ScanStale);
}

#[test]
fn losing_the_lidar_mid_drive_stops_the_robot() {
    let ranges = empty_floor();
    let cfg = config();
    let mut arbiter = Arbiter::new(cfg).unwrap();
    let mut now = 0;
    for _ in 0..400 {
        let tick = Tick::new(now)
            .with_scan(scan_at(&ranges, now))
            .with_cmd(Command::new(full_speed(), now));
        arbiter.step(&tick, &direction);
        now += PERIOD_US;
    }
    assert!(h(arbiter.last_output().linear) > 1.0);

    // Scans stop. Commands keep arriving, so this is specifically a sensor failure.
    let mut d =
        arbiter.step(&Tick::new(now).with_cmd(Command::new(full_speed(), now)), &direction);
    assert_ne!(d.twist, Twist::zero(), "one missing scan is not yet a fault");
    now += cfg.scan_timeout_us + PERIOD_US;
    d = arbiter.step(&Tick::new(now).with_cmd(Command::new(full_speed(), now)), &direction);
    assert_eq!(d.twist, Twist::zero(), "a blind robot stops");
    assert_eq!(d.veto, VetoReason::ScanStale);
}

#[test]
fn the_estop_latches_until_an_operator_acknowledges_it() {
    let ranges = empty_floor();
    let mut arbiter = Arbiter::new(config()).unwrap();
    let mut now = 0;
    let drive = |now| Tick::new(now).with_cmd(Command::new(full_speed(), now));

    for _ in 0..400 {
        arbiter.step(&drive(now).with_scan(scan_at(&ranges, now)), &direction);
        now += PERIOD_US;
    }

    let mut tick = drive(now).with_scan(scan_at(&ranges, now));
    tick.estop = true;
    let d = arbiter.step(&tick, &direction);
    assert_eq!(d.twist, Twist::zero(), "an e-stop is immediate, not ramped");
    assert_eq!(d.veto, VetoReason::EStop);
    now += PERIOD_US;

    // The button is released, but nobody has acknowledged. It stays latched.
    for _ in 0..200 {
        let d = arbiter.step(&drive(now).with_scan(scan_at(&ranges, now)), &direction);
        assert_eq!(d.twist, Twist::zero());
        assert!(d.estop_latched);
        now += PERIOD_US;
    }

    let mut tick = drive(now).with_scan(scan_at(&ranges, now));
    tick.estop_reset = true;
    let d = arbiter.step(&tick, &direction);
    assert!(!d.estop_latched);
}

#[test]
fn an_estop_over_a_clear_floor_still_reads_as_stopped() {
    let ranges = empty_floor();
    let cfg = config();
    let mut arbiter = Arbiter::new(cfg).unwrap();
    let mut now = 0;
    let drive = |now| Tick::new(now).with_cmd(Command::new(full_speed(), now));

    // The floor is clear throughout, so nothing but the e-stop can stop the robot.
    let mut tick = drive(now).with_scan(scan_at(&ranges, now));
    tick.estop = true;
    let d = arbiter.step(&tick, &direction);
    assert_eq!(d.twist, Twist::zero());
    assert_eq!(d.state, FieldState::ProtectiveStop, "the state must not contradict the output");
    assert_eq!(d.veto, VetoReason::EStop);
    now += PERIOD_US;

    // Acknowledged. Re-arming is governed by the ordinary release hold, not instant.
    let mut tick = drive(now).with_scan(scan_at(&ranges, now));
    tick.estop_reset = true;
    let d = arbiter.step(&tick, &direction);
    assert!(!d.estop_latched);
    assert_eq!(d.twist, Twist::zero(), "release must not resume motion on the same cycle");
    assert_eq!(d.state, FieldState::ProtectiveStop);

    let released_at = now;
    let mut moving_at = None;
    for _ in 0..300 {
        now += PERIOD_US;
        let d = arbiter.step(&drive(now).with_scan(scan_at(&ranges, now)), &direction);
        if h(d.twist.linear) > 0.0 {
            moving_at = Some(now);
            break;
        }
    }
    let moving_at = moving_at.expect("the robot must eventually re-arm");
    assert!(
        moving_at - released_at >= cfg.clear_hold_us,
        "re-armed after {} us, hold is {} us",
        moving_at - released_at,
        cfg.clear_hold_us
    );
}

#[test]
fn docking_tolerates_the_shelf_it_is_driving_under_but_still_limits_speed() {
    let cfg = config();
    // Legs 0.35 m off centreline: inside the normal field, outside the docking field.
    let ranges = shelf_legs(0.30, 0.35);
    let creep = twist(0.6, 0.0);

    let run = |mode: Mode| -> Decision {
        let mut arbiter = Arbiter::new(cfg).unwrap();
        let mut now = 0;
        let mut last = None;
        for _ in 0..300 {
            let tick = Tick::new(now)
                .with_scan(scan_at(&ranges, now))
                .with_cmd(Command::new(creep, now))
                .with_mode(mode);
            last = Some(arbiter.step(&tick, &direction));
            now += PERIOD_US;
        }
        last.unwrap()
    };

    let normal = run(Mode::Normal);
    assert_eq!(normal.state, FieldState::ProtectiveStop, "the shelf blocks normal driving");
    assert_eq!(normal.twist, Twist::zero());

    let docking = run(Mode::Docking);
    assert_ne!(h(docking.twist.linear), 0.0, "docking must be able to approach the shelf");
    assert!(
        h(docking.twist.linear) <= h(cfg.docking.max_linear) + 1e-6,
        "docking speed {} exceeds the ceiling",
        h(docking.twist.linear)
    );
    assert!(h(docking.extent.protective_len) > 0.0, "the field is narrowed, never disabled");
}

#[test]
fn a_zone_limit_slows_the_robot_and_cannot_speed_it_up() {
    let ranges = empty_floor();
    let cfg = config();
    let mut arbiter = Arbiter::new(cfg).unwrap();
    let mut now = 0;

    let slow_zone = zone(0.3, 0.5);
    for _ in 0..500 {
        let tick = Tick::new(now)
            .with_scan(scan_at(&ranges, now))
            .with_cmd(Command::new(full_speed(), now))
            .with_zone(slow_zone);
        let d = arbiter.step(&tick, &direction);
        assert!(h(d.twist.linear) <= 0.3 + 1e-6);
        now += PERIOD_US;
    }
    assert_eq!(h(arbiter.last_output().linear), 0.3);

    // A zone claiming a higher ceiling than the vehicle's own cannot raise it.
    let absurd = zone(99.0, 99.0);
    for _ in 0..500 {
        let tick = Tick::new(now)
            .with_scan(scan_at(&ranges, now))
            .with_cmd(Command::new(twist(50.0, 0.0), now))
            .with_zone(absurd);
        let d = arbiter.step(&tick, &direction);
        assert!(h(d.twist.linear) <= h(cfg.max_linear) + 1e-6);
        now += PERIOD_US;
    }
}

#[test]
fn a_garbled_command_is_discarded_rather_than_forwarded() {
    let ranges = empty_floor();
    let mut arbiter = Arbiter::new(config()).unwrap();
    let d = arbiter.step(
        &Tick::new(0)
            .with_scan(scan_at(&ranges, 0))
            .with_cmd(Command::new(twist(f32::NAN, 0.0), 0)),
        &direction,
    );
    assert!(d.twist.is_finite());
    assert_eq!(d.twist, Twist::zero());
}

#[test]
fn the_reported_reason_is_the_rule_with_the_most_authority() {
    let cfg = config();
    let ranges = wall_ahead(0.2); // deep inside the protective field
    let mut arbiter = Arbiter::new(cfg).unwrap();
    let d = arbiter.step(
        &Tick::new(0)
            .with_scan(scan_at(&ranges, 0))
            .with_cmd(Command::new(full_speed(), 0))
            .with_zone(zone(0.1, 0.1)),
        &direction,
    );
    // Both the zone limit and the protective field bind; the field outranks the zone.
    assert_eq!(d.veto, VetoReason::ProtectiveStop);
}

/// An arbiter that has been driving at the given request over an empty floor.
fn warmed_up(request: Twist, cycles: u64) -> (Arbiter, Micros) {
    let ranges = empty_floor();
    let mut arbiter = Arbiter::new(config()).unwrap();
    let mut now = 0;
    for _ in 0..cycles {
        let tick =
            Tick::new(now).with_scan(scan_at(&ranges, now)).with_cmd(Command::new(request, now));
        arbiter.step(&tick, &direction);
        now += PERIOD_US;
    }
    (arbiter, now)
}

#[test]
fn every_veto_can_be_reported() {
    let floor = empty_floor();
    let (arbiter, now) = warmed_up(full_speed(), 200);
    let drive = Tick::new(now)
        .with_scan(scan_at(&floor, now))
        .with_cmd(Command::new(full_speed(), now));
    let veto = |tick: &Tick| arbiter.clone().step(tick, &direction).veto;

    assert_eq!(veto(&drive), VetoReason::NoVeto);
    assert_eq!(veto(&drive.with_zone(zone(0.3, 0.5))), VetoReason::ZoneLimit);
    assert_eq!(veto(&drive.with_mode(Mode::Docking)), VetoReason::DockingLimit);
    let near = wall_ahead(2.0);
    assert_eq!(veto(&drive.with_scan(scan_at(&near, now))), VetoReason::WarningClamp);
    let garbled = Command::new(twist(f32::INFINITY, 0.0), now);
    assert_eq!(veto(&drive.with_cmd(garbled)), VetoReason::CommandInvalid);
    let old = Command::new(full_speed(), now - 100_001);
    assert_eq!(veto(&drive.with_cmd(old)), VetoReason::Watchdog);
    let close = wall_ahead(0.3);
    assert_eq!(veto(&drive.with_scan(scan_at(&close, now))), VetoReason::ProtectiveStop);
    let stale = scan_at(&floor, now - 200_001);
    assert_eq!(veto(&drive.with_scan(stale)), VetoReason::ScanStale);
    let mut pressed = drive;
    pressed.estop = true;
    assert_eq!(veto(&pressed), VetoReason::EStop);
}

#[test]
fn veto_reasons_are_ordered_by_authority() {
    let all = [
        VetoReason::NoVeto,
        VetoReason::ZoneLimit,
        VetoReason::DockingLimit,
        VetoReason::WarningClamp,
        VetoReason::CommandInvalid,
        VetoReason::Watchdog,
        VetoReason::ProtectiveStop,
        VetoReason::ScanStale,
        VetoReason::EStop,
    ];
    for (i, a) in all.iter().enumerate() {
        assert_eq!(a.authority() as usize, i);
        for (j, b) in all.iter().enumerate() {
            assert_eq!(a < b, i < j);
        }
    }
    assert_eq!(VetoReason::default(), VetoReason::NoVeto);
}

#[test]
fn a_hold_is_blamed_on_what_caused_it() {
    let floor = empty_floor();
    let (mut arbiter, mut now) = warmed_up(full_speed(), 200);
    let drive = |now| Tick::new(now).with_cmd(Command::new(full_speed(), now));

    // One unusable scan, then a clear floor again: the hold is the lidar's doing.
    let bad = Scan { angle_increment: n(0.0), ..scan_at(&floor, now) };
    let d = arbiter.step(&drive(now).with_scan(bad), &direction);
    assert_eq!(d.veto, VetoReason::ScanStale);
    assert_eq!(d.scan_error, Some(ScanError::BadIncrement));
    for _ in 0..40 {
        now += PERIOD_US;
        let d = arbiter.step(&drive(now).with_scan(scan_at(&floor, now)), &direction);
        assert_eq!(d.state, FieldState::ProtectiveStop);
        assert_eq!(d.veto, VetoReason::ScanStale);
        assert_eq!(d.scan_error, None);
    }

    // After an acknowledged e-stop the hold is the e-stop's doing.
    now += PERIOD_US;
    let mut tick = drive(now).with_scan(scan_at(&floor, now));
    tick.estop = true;
    arbiter.step(&tick, &direction);
    now += PERIOD_US;
    let mut tick = drive(now).with_scan(scan_at(&floor, now));
    tick.estop_reset = true;
    let d = arbiter.step(&tick, &direction);
    assert!(!d.estop_latched);
    assert_eq!(d.veto, VetoReason::EStop);
}

#[test]
fn each_malformed_scan_is_named() {
    let floor = empty_floor();
    let long = vec![n(1.0); 4096];
    let cases = [
        (Scan { ranges: &[], ..scan_at(&floor, 0) }, ScanError::Empty),
        (Scan { ranges: &long, ..scan_at(&floor, 0) }, ScanError::TooManyRays),
        (Scan { angle_min: n(f32::NAN), ..scan_at(&floor, 0) }, ScanError::BadAngleMin),
        (Scan { angle_increment: n(f32::NAN), ..scan_at(&floor, 0) }, ScanError::BadIncrement),
    ];
    for (scan, error) in cases {
        let mut arbiter = Arbiter::new(config()).unwrap();
        let d = arbiter.step(
            &Tick::new(0).with_scan(scan).with_cmd(Command::new(full_speed(), 0)),
            &direction,
        );
        assert_eq!(d.scan_error, Some(error));
        assert_eq!(d.veto, VetoReason::ScanStale);
        assert_eq!(d.twist, Twist::zero());
        assert_eq!(h(d.closest_m), f32::INFINITY);
    }
}

#[test]
fn a_stalled_loop_earns_no_large_step() {
    let (mut arbiter, now) = warmed_up(twist(0.0, 0.0), 10);
    let floor = empty_floor();
    let late = now + 10_000_000;
    let d = arbiter.step(
        &Tick::new(late)
            .with_scan(scan_at(&floor, late))
            .with_cmd(Command::new(full_speed(), late)),
        &direction,
    );
    assert_eq!(d.twist.linear.to_bits(), (0.8f32 * 0.05).to_bits());
}

#[test]
fn the_configuration_and_the_output_can_be_read_back() {
    let (mut arbiter, now) = warmed_up(full_speed(), 5);
    assert_eq!(*arbiter.config(), config());
    let floor = empty_floor();
    let d = arbiter.step(&Tick::new(now).with_scan(scan_at(&floor, now)), &direction);
    assert_eq!(arbiter.last_output(), d.twist);
}
