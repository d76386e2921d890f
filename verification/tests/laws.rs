//! The laws of the layer on concrete values, and the edges of the few that have one.

use depot_safety_core::geometry::{forward_rect_boundary, inside_forward_rect};
use depot_safety_core::scan::evaluate;
use depot_safety_core::{
    Arbiter, Binary32, Command, ConfigError, Direction, FieldExtent, FieldState, Micros, Mode,
    SafetyConfig, Scan, ScanError, ScanGeometry, ScanVerdict, Tick, Twist, VetoReason, ZoneLimits,
};

const RAYS: usize = 181;
const PERIOD_US: Micros = 10_000;

fn n(x: f32) -> Binary32 {
    Binary32::from_bits(x.to_bits())
}

fn h(x: Binary32) -> f32 {
    f32::from_bits(x.to_bits())
}

fn twist(linear: f32, angular: f32) -> Twist {
    Twist::new(n(linear), n(angular))
}

fn direction(theta: Binary32) -> Direction {
    Direction { cos: n(libm::cosf(h(theta))), sin: n(libm::sinf(h(theta))) }
}

fn scan_at(ranges: &[Binary32], stamp_us: Micros) -> Scan<'_> {
    Scan {
        stamp_us,
        angle_min: n(-core::f32::consts::FRAC_PI_2),
        angle_increment: n(core::f32::consts::PI / 180.0),
        range_min: n(0.05),
        range_max: n(10.0),
        ranges,
    }
}

fn floor() -> Vec<Binary32> {
    vec![n(10.0); RAYS]
}

/// A floor with one return straight ahead.
fn obstacle(range: f32) -> Vec<Binary32> {
    let mut ranges = floor();
    ranges[90] = n(range);
    ranges
}

/// An arbiter that has reached `velocity` over an empty floor, and the time of its next
/// cycle.
fn moving(cfg: SafetyConfig, velocity: f32) -> (Arbiter, Micros) {
    let ranges = floor();
    let mut arbiter = Arbiter::new(cfg).unwrap();
    let mut now = 0;
    for _ in 0..1_000 {
        let tick = Tick::new(now)
            .with_scan(scan_at(&ranges, now))
            .with_cmd(Command::new(twist(velocity, 0.0), now));
        arbiter.step(&tick, &direction);
        now += PERIOD_US;
    }
    assert_eq!(h(arbiter.last_output().linear), velocity);
    (arbiter, now)
}

#[test]
fn longer_and_wider_fields_come_with_speed_and_shrink_with_docking() {
    let cfg = SafetyConfig::default();
    let mut last = FieldExtent::default();
    for i in 0..=150 {
        let speed = n(0.01 * i as f32);
        let normal = FieldExtent::compute(&cfg, speed, Mode::Normal);
        let docking = FieldExtent::compute(&cfg, speed, Mode::Docking);
        assert!(last.protective_len <= normal.protective_len);
        assert!(last.warning_len <= normal.warning_len);
        assert!(cfg.min_protective_m <= normal.protective_len);
        assert!(docking.protective_len <= normal.protective_len);
        assert!(docking.warning_len <= normal.warning_len);
        assert!(docking.half_width <= normal.half_width);
        assert!(docking.protective_len <= cfg.docking.max_protective_m);
        last = normal;
    }
}

#[test]
fn docking_never_disables_the_field() {
    let mut cfg = SafetyConfig::default();
    cfg.docking.max_protective_m = n(0.0);
    assert_eq!(cfg.validate(), Err(ConfigError::NotPositive("docking.max_protective_m")));
    // The smallest positive ceiling still leaves a field.
    cfg.docking.max_protective_m = Binary32::from_bits(1);
    assert_eq!(cfg.validate(), Ok(()));
    for speed in [0.0, 0.1, 1.2, f32::NAN] {
        let f = FieldExtent::compute(&cfg, n(speed), Mode::Docking);
        assert!(f.protective_len > Binary32::zero());
        assert!(f.warning_len > Binary32::zero());
        assert!(f.half_width > Binary32::zero());
    }
}

#[test]
fn an_overflowing_stopping_distance_has_no_length() {
    let cfg = SafetyConfig { max_linear: n(1e30), max_decel: n(3e38), ..SafetyConfig::default() };
    assert_eq!(cfg.validate(), Ok(()));
    let f = FieldExtent::compute(&cfg, n(1e30), Mode::Normal);
    assert!(f.protective_len.is_nan());
    let f = FieldExtent::compute(&cfg, n(1.0), Mode::Normal);
    assert_eq!(h(f.protective_len), 0.25f32 + 0.12 + 0.10);
}

#[test]
fn rounding_may_put_a_return_on_the_side_wall_of_a_longer_field() {
    // The shorter field ends where its front meets the side wall. The two quotients that
    // say how far away that is differ in the last bit.
    let (c, s) = (n(0.863_028_35), n(0.505_155_5));
    let (short, long, half_width) = (n(0.854_220_5), n(2.0), n(0.5));
    let front = forward_rect_boundary(short, half_width, c, s).unwrap();
    let side = forward_rect_boundary(long, half_width, c, s).unwrap();
    assert_eq!(front.to_bits(), side.to_bits() + 1);
    assert!(inside_forward_rect(side, c, s, short, half_width));
    assert!(!inside_forward_rect(side, c, s, long, half_width));
}

fn verdict(ranges: &[Binary32]) -> ScanVerdict {
    let scan = scan_at(ranges, 0);
    let mut geom = ScanGeometry::default();
    geom.configure(&scan, &direction).unwrap();
    let extent = FieldExtent { protective_len: n(1.0), warning_len: n(2.0), half_width: n(0.5) };
    evaluate(&geom, &scan, &extent)
}

#[test]
fn faulty_returns_can_be_exchanged() {
    let mut a = obstacle(0.7);
    let mut b = obstacle(0.7);
    let faults = [f32::NAN, f32::INFINITY, f32::NEG_INFINITY, 0.01, 11.0, -1.0];
    for i in 0..80 {
        a[i] = n(faults[i % 6]);
        b[i] = n(faults[(i + 1) % 6]);
    }
    assert_eq!(verdict(&a), verdict(&b));
    assert_eq!(verdict(&a).protective_hits, 1);
    assert_eq!(h(verdict(&a).closest_m), 0.7);
}

#[test]
fn nearer_returns_never_breach_less() {
    let mut last = verdict(&floor());
    for i in 0..95 {
        let v = verdict(&vec![n(9.9 - 0.1 * i as f32); RAYS]);
        assert!(v.protective_hits >= last.protective_hits);
        assert!(v.warning_hits >= last.warning_hits);
        assert!(v.closest_m <= last.closest_m);
        assert_eq!(v.protective_breach, v.protective_hits > 0);
        assert_eq!(v.warning_breach, v.warning_hits > 0);
        last = v;
    }
    assert!(last.protective_breach && last.warning_breach);
}

#[test]
fn a_zone_wider_than_the_vehicle_changes_nothing() {
    let (arbiter, now) = moving(SafetyConfig::default(), 0.5);
    let ranges = floor();
    let tick = Tick::new(now)
        .with_scan(scan_at(&ranges, now))
        .with_cmd(Command::new(twist(9.0, 9.0), now));
    let free = arbiter.clone().step(&tick, &direction);
    let wide = ZoneLimits::new(n(1.2), n(1.5));
    let zoned = arbiter.clone().step(&tick.with_zone(wide), &direction);
    assert_eq!(free, zoned);
    assert_eq!(free.veto, VetoReason::NoVeto);
}

#[test]
fn a_zone_takes_speed_away() {
    let (arbiter, now) = moving(SafetyConfig::default(), 0.5);
    let ranges = floor();
    let tick = Tick::new(now)
        .with_scan(scan_at(&ranges, now))
        .with_cmd(Command::new(twist(1.0, 0.0), now));
    let free = arbiter.clone().step(&tick, &direction);
    assert_eq!(h(free.twist.linear), 0.5f32 + 0.8f32 * (10_000f32 * 1e-6));
    let zoned = arbiter.clone().step(&tick.with_zone(ZoneLimits::new(n(0.2), n(0.2))), &direction);
    assert_eq!(h(zoned.twist.linear), 0.5f32 - 1.0f32 * (10_000f32 * 1e-6));
    assert_eq!(zoned.veto, VetoReason::ZoneLimit);
}

#[test]
fn braking_against_a_request_may_pass_rest() {
    // The robot creeps forwards and is asked to reverse. Without a zone it accelerates
    // towards the request by 8 mm/s and lands on rest. Within the zone it has to brake,
    // by 10 mm/s, and ends up reversing.
    let (arbiter, now) = moving(SafetyConfig::default(), 0.008);
    let ranges = floor();
    let tick = Tick::new(now)
        .with_scan(scan_at(&ranges, now))
        .with_cmd(Command::new(twist(-1.0, 0.0), now));
    let free = arbiter.clone().step(&tick, &direction);
    assert!(h(free.twist.linear).abs() < 1e-6);
    let tight = ZoneLimits::new(n(0.004), n(1.0));
    let zoned = arbiter.clone().step(&tick.with_zone(tight), &direction);
    assert!((h(zoned.twist.linear) + 0.002).abs() < 1e-6);
}

#[test]
fn a_warning_slows_a_robot_that_brakes_harder_than_it_accelerates() {
    let ranges = (floor(), obstacle(3.0));
    let reverse = |cfg: SafetyConfig| -> (f32, f32) {
        let (arbiter, now) = moving(cfg, 0.5);
        let tick = Tick::new(now).with_cmd(Command::new(twist(-1.0, 0.0), now));
        let far = arbiter.clone().step(&tick.with_scan(scan_at(&ranges.0, now)), &direction);
        let near = arbiter.clone().step(&tick.with_scan(scan_at(&ranges.1, now)), &direction);
        assert_eq!(far.state, FieldState::Clear);
        assert_eq!(near.state, FieldState::Warning);
        (h(far.twist.linear).abs(), h(near.twist.linear).abs())
    };
    let cfg = SafetyConfig { warning_scale: n(5.0), ..SafetyConfig::default() };
    let (far, near) = reverse(cfg);
    assert!(near < far, "{near} {far}");
    // With weaker brakes than engines the warned robot keeps more of its speed for a
    // cycle, because it may not accelerate out of it.
    let (far, near) = reverse(SafetyConfig { max_accel: n(2.0), ..cfg });
    assert!(near > far, "{near} {far}");
}

#[test]
fn a_stream_of_garbage_starves_the_watchdog() {
    let (mut arbiter, start) = moving(SafetyConfig::default(), 1.0);
    let ranges = floor();
    let garbage = twist(f32::NAN, 0.0);
    for i in 0..30 {
        let now = start + i * PERIOD_US;
        let d = arbiter.step(
            &Tick::new(now)
                .with_scan(scan_at(&ranges, now))
                .with_cmd(Command::new(garbage, now)),
            &direction,
        );
        // The last valid command is one cycle older than the first piece of garbage.
        let expired = (i + 1) * PERIOD_US > 100_000;
        assert_eq!(
            d.veto,
            if expired { VetoReason::Watchdog } else { VetoReason::CommandInvalid }
        );
    }
}

#[test]
fn stamps_from_the_future_do_not_keep_anything_fresh() {
    let ranges = floor();
    let cfg = SafetyConfig::default();
    let mut arbiter = Arbiter::new(SafetyConfig { clear_hold_us: 0, ..cfg }).unwrap();
    let far_future = 1_000_000_000;
    arbiter.step(
        &Tick::new(0)
            .with_scan(scan_at(&ranges, far_future))
            .with_cmd(Command::new(twist(1.0, 0.0), far_future)),
        &direction,
    );
    let d = arbiter.step(&Tick::new(100_000), &direction);
    assert_eq!(d.veto, VetoReason::NoVeto);
    let d = arbiter.step(&Tick::new(100_001), &direction);
    assert_eq!(d.veto, VetoReason::Watchdog);
    let d = arbiter.step(&Tick::new(200_000), &direction);
    assert_eq!(d.veto, VetoReason::Watchdog);
    let d = arbiter.step(&Tick::new(200_001), &direction);
    assert_eq!(d.veto, VetoReason::ScanStale);
}

#[test]
fn a_scan_error_is_reported_until_a_usable_scan_arrives() {
    let ranges = floor();
    let mut arbiter = Arbiter::new(SafetyConfig::default()).unwrap();
    let bad = Scan { angle_min: n(f32::INFINITY), ..scan_at(&ranges, 0) };
    let d = arbiter.step(&Tick::new(0).with_scan(bad), &direction);
    assert_eq!(d.scan_error, Some(ScanError::BadAngleMin));
    let d = arbiter.step(&Tick::new(1), &direction);
    assert_eq!(d.scan_error, Some(ScanError::BadAngleMin));
    let d = arbiter.step(&Tick::new(2).with_scan(scan_at(&ranges, 2)), &direction);
    assert_eq!(d.scan_error, None);
    assert_eq!(d.state, FieldState::ProtectiveStop, "the hold still runs");
}

#[test]
fn no_stop_ends_before_the_field_was_clear_for_the_whole_hold() {
    let cfg = SafetyConfig::default();
    let (mut arbiter, mut now) = moving(cfg, 0.5);
    let (clear, blocked) = (floor(), obstacle(0.3));
    let mut stopped_at = None;
    for i in 0..200u64 {
        now += PERIOD_US;
        // The obstacle shows up twice, a fifth of a second apart.
        let ranges = if i == 0 || i == 20 { &blocked } else { &clear };
        let tick = Tick::new(now)
            .with_scan(scan_at(ranges, now))
            .with_cmd(Command::new(twist(0.5, 0.0), now));
        let d = arbiter.step(&tick, &direction);
        if i == 20 {
            stopped_at = Some(now);
        }
        if d.state != FieldState::ProtectiveStop {
            // The hold began with the first clear cycle after the second breach.
            assert_eq!(now - stopped_at.unwrap(), PERIOD_US + cfg.clear_hold_us);
            return;
        }
        assert_eq!(d.twist, Twist::zero());
        assert_eq!(d.veto, VetoReason::ProtectiveStop);
    }
    panic!("the stop never released");
}

#[test]
fn the_braking_steps_add_up_to_the_lost_speed() {
    let (mut arbiter, start) = moving(SafetyConfig::default(), 1.0);
    let ranges = floor();
    let mut speed = 1.0f32;
    let mut now = start + 200_000;
    arbiter.step(&Tick::new(now).with_scan(scan_at(&ranges, now)), &direction);
    speed -= 1.0f32 * 0.05;
    assert_eq!(h(arbiter.last_output().linear), speed);
    let mut cycles = 0;
    while h(arbiter.last_output().linear) != 0.0 {
        now += PERIOD_US;
        let d = arbiter.step(&Tick::new(now).with_scan(scan_at(&ranges, now)), &direction);
        assert_eq!(d.veto, VetoReason::Watchdog);
        let step = 1.0f32 * (10_000f32 * 1e-6);
        speed = if speed <= step { 0.0 } else { speed - step };
        assert_eq!(h(d.twist.linear), speed);
        cycles += 1;
    }
    assert!((95..=96).contains(&cycles), "{cycles}");
}

#[test]
fn the_docking_ceiling_holds_for_any_request() {
    let ranges = floor();
    let mut arbiter = Arbiter::new(SafetyConfig::default()).unwrap();
    let mut now = 0;
    for _ in 0..200 {
        let tick = Tick::new(now)
            .with_scan(scan_at(&ranges, now))
            .with_cmd(Command::new(twist(1.0, 9.0), now))
            .with_mode(Mode::Docking);
        let d = arbiter.step(&tick, &direction);
        assert!(h(d.twist.linear) <= 0.15 + 1e-6);
        now += PERIOD_US;
    }
    assert_eq!(h(arbiter.last_output().linear), 0.15);
    assert_eq!(h(arbiter.last_output().angular), 1.5);
}

#[test]
fn the_field_covers_the_stopping_distance_in_double_precision() {
    for i in 0..=1200 {
        for (decel, reaction) in [(1.0f32, 0.12f32), (0.3, 0.0), (2.7, 0.5)] {
            let cfg = SafetyConfig {
                max_decel: n(decel),
                reaction_time_s: n(reaction),
                min_protective_m: n(1e-30),
                protective_margin_m: n(0.0),
                ..SafetyConfig::default()
            };
            let v = 0.001 * i as f32;
            let length = f64::from(h(FieldExtent::compute(&cfg, n(v), Mode::Normal).protective_len));
            let (v, t, a) = (f64::from(v), f64::from(reaction), f64::from(decel));
            let physical = v * t + v * v / (2.0 * a);
            assert!(length * 16_777_216.0 >= physical * (16_777_216.0 - 5.0), "{v} {length}");
        }
    }
}

#[test]
fn a_speed_whose_square_underflows_has_no_stopping_distance() {
    // The true stopping distance would be about five centimetres.
    let cfg = SafetyConfig {
        max_decel: n(1e-45),
        reaction_time_s: n(0.0),
        min_protective_m: n(1e-30),
        protective_margin_m: n(0.0),
        ..SafetyConfig::default()
    };
    assert_eq!(cfg.validate(), Ok(()));
    let f = FieldExtent::compute(&cfg, n(1e-23), Mode::Normal);
    assert_eq!(h(f.protective_len), 1e-30);
}

#[test]
fn a_lost_scan_is_not_blamed_on_an_obstacle() {
    let (mut arbiter, now) = moving(SafetyConfig::default(), 0.5);
    let ranges = floor();
    let drive = |now| Tick::new(now).with_cmd(Command::new(twist(0.5, 0.0), now));
    let empty = Scan { ranges: &[], ..scan_at(&ranges, now) };
    let d = arbiter.step(&drive(now).with_scan(empty), &direction);
    assert_eq!(d.veto, VetoReason::ScanStale);
    // No scan arrives on this cycle, and the last usable one is not stale yet. What the
    // robot knows of the floor is still nothing.
    let d = arbiter.step(&drive(now + PERIOD_US), &direction);
    assert_eq!(d.state, FieldState::ProtectiveStop);
    assert_eq!(d.veto, VetoReason::ScanStale);
    assert_eq!(d.scan_error, Some(ScanError::Empty));
    // A usable scan starts the hold, which is still the lost scan's doing.
    let now = now + 2 * PERIOD_US;
    let d = arbiter.step(&drive(now).with_scan(scan_at(&ranges, now)), &direction);
    assert_eq!(d.state, FieldState::ProtectiveStop);
    assert_eq!(d.veto, VetoReason::ScanStale);
    assert_eq!(d.scan_error, None);
    // An obstacle is an obstacle.
    let near = obstacle(0.3);
    let now = now + PERIOD_US;
    let d = arbiter.step(&drive(now).with_scan(scan_at(&near, now)), &direction);
    assert_eq!(d.veto, VetoReason::ProtectiveStop);
    let d = arbiter.step(&drive(now + PERIOD_US), &direction);
    assert_eq!(d.veto, VetoReason::ProtectiveStop, "the obstacle stands between scans");
}

#[test]
fn a_rebuilt_cache_keeps_nothing_of_a_longer_scan() {
    let long = vec![n(1.0); 900];
    let ranges = obstacle(0.7);
    let scan = scan_at(&ranges, 0);
    let mut used = ScanGeometry::default();
    used.configure(&Scan { angle_increment: n(0.004), ..scan_at(&long, 0) }, &direction).unwrap();
    used.configure(&scan, &direction).unwrap();
    let mut new = ScanGeometry::default();
    new.configure(&scan, &direction).unwrap();
    assert_eq!(used.len(), RAYS);
    assert!(!used.is_empty() && used.matches(&scan));
    let extent = FieldExtent { protective_len: n(1.0), warning_len: n(2.0), half_width: n(0.5) };
    for s in [scan, scan_at(&long, 0)] {
        assert_eq!(evaluate(&used, &s, &extent), evaluate(&new, &s, &extent));
    }
}

#[test]
fn the_field_is_the_rectangle_in_front_of_the_robot() {
    let (length, half_width) = (1.3f64, 0.45f64);
    let mut seen = (0, 0);
    for i in 0..360 {
        let theta = (i as f32).to_radians();
        let (c, s) = (libm::cosf(theta), libm::sinf(theta));
        for j in 0..200 {
            let range = 0.01 * j as f32;
            let x = f64::from(range) * f64::from(c);
            let y = (f64::from(range) * f64::from(s)).abs();
            // Points too near the edge for rounding to tell are left out.
            if (x - length).abs() < 1e-6 || (y - half_width).abs() < 1e-6 {
                continue;
            }
            let expected = c > 0.0 && x < length && y < half_width;
            let got = inside_forward_rect(n(range), n(c), n(s), n(1.3), n(0.45));
            assert_eq!(got, expected, "{i} {j}");
            if got {
                seen.0 += 1;
            } else {
                seen.1 += 1;
            }
        }
    }
    assert!(seen.0 > 1000 && seen.1 > 1000);
}

#[test]
fn a_lost_planner_also_stops_turning() {
    let ranges = floor();
    let mut arbiter = Arbiter::new(SafetyConfig::default()).unwrap();
    let mut now = 0;
    for _ in 0..300 {
        let tick = Tick::new(now)
            .with_scan(scan_at(&ranges, now))
            .with_cmd(Command::new(twist(0.2, -1.0), now));
        arbiter.step(&tick, &direction);
        now += PERIOD_US;
    }
    assert_eq!(h(arbiter.last_output().angular), -1.0);
    now += 100_000;
    let mut rate = -1.0f32;
    arbiter.step(&Tick::new(now).with_scan(scan_at(&ranges, now)), &direction);
    rate += 2.0f32 * 0.05;
    assert_eq!(h(arbiter.last_output().angular), rate);
    for _ in 0..60 {
        now += PERIOD_US;
        let d = arbiter.step(&Tick::new(now).with_scan(scan_at(&ranges, now)), &direction);
        let step = 2.0f32 * (10_000f32 * 1e-6);
        rate = if -rate <= step { 0.0 } else { rate + step };
        assert_eq!(h(d.twist.angular), rate);
    }
    assert_eq!(rate, 0.0);
}

#[test]
fn no_forward_request_ever_reverses() {
    let ranges = (floor(), obstacle(1.0));
    let mut arbiter = Arbiter::new(SafetyConfig { clear_hold_us: 0, ..SafetyConfig::default() })
        .unwrap();
    let mut now = 0;
    let mut previous = 0.0f32;
    for i in 0..2_000u64 {
        now += 1 + (i * 7_919) % 60_000;
        let request = ((i * 31) % 130) as f32 * 0.01;
        let zone = ZoneLimits::new(n(((i * 17) % 50) as f32 * 0.03), n(1.0));
        let floor = if i % 9 == 0 { &ranges.1 } else { &ranges.0 };
        let tick = Tick::new(now)
            .with_scan(scan_at(floor, now))
            .with_cmd(Command::new(twist(request, 0.0), now))
            .with_zone(zone);
        let out = h(arbiter.step(&tick, &direction).twist.linear);
        assert!(out >= 0.0, "cycle {i}");
        // Rising speeds keep to the gentle limit.
        assert!(out - previous <= 0.8 * 0.05 + 1e-6);
        previous = out;
    }
}

#[test]
fn an_unstopped_robot_closes_in_on_its_request_and_stays_there() {
    let (mut arbiter, mut now) = moving(SafetyConfig::default(), 0.5);
    let ranges = floor();
    let (mut linear, mut angular) = (0.5f32, 0.0f32);
    let (up, turn) = (0.8f32 * (10_000f32 * 1e-6), 2.0f32 * (10_000f32 * 1e-6));
    for _ in 0..200 {
        let tick = Tick::new(now)
            .with_scan(scan_at(&ranges, now))
            .with_cmd(Command::new(twist(1.0, 0.7), now));
        let d = arbiter.step(&tick, &direction);
        assert_eq!(d.state, FieldState::Clear);
        linear = if 1.0 - linear <= up { 1.0 } else { linear + up };
        angular = if 0.7 - angular <= turn { 0.7 } else { angular + turn };
        assert!((h(d.twist.linear) - linear).abs() <= 1.2 / 4_194_304.0);
        assert!((h(d.twist.angular) - angular).abs() <= 1.5 / 4_194_304.0);
        now += PERIOD_US;
    }
    assert_eq!(h(arbiter.last_output().linear), 1.0);
    assert_eq!(h(arbiter.last_output().angular), 0.7);
}

#[test]
fn an_acknowledged_estop_re_arms_on_the_cycle_that_completes_the_hold() {
    let cfg = SafetyConfig::default();
    let (mut arbiter, mut now) = moving(cfg, 0.5);
    let ranges = floor();
    let mut pressed = Tick::new(now).with_scan(scan_at(&ranges, now));
    pressed.estop = true;
    arbiter.step(&pressed, &direction);
    now += PERIOD_US;
    let acknowledged = now;
    loop {
        let mut tick = Tick::new(now).with_scan(scan_at(&ranges, now));
        tick.estop_reset = now == acknowledged;
        let d = arbiter.step(&tick, &direction);
        let over = now - acknowledged >= cfg.clear_hold_us;
        assert_eq!(d.state == FieldState::ProtectiveStop, !over);
        if over {
            break;
        }
        now += PERIOD_US;
    }
}
