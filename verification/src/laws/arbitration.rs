//! What one cycle of arbitration promises.

use crate::arbiter::{
    blind, command_time, decision, docking_limited, docking_target, driven, fields,
    final_target, garbled, latch_after, linear_rate, narrowed, next_memory, output, ramp_toward,
    ramped, request, scan_fault, scan_time, swept, timestep, vehicle_target, verdict,
    warning_limited, warning_speed, warning_target, watchdog_expired, within_limits,
    zone_limited, zone_target, Memory, Tick, VetoReason,
};
use crate::binary32;
use crate::binary32::Binary32;
use crate::config::SafetyConfig;
use crate::field::extent;
use crate::geometry;
use crate::laws::{field, perception};
use crate::numeric;
use crate::rounding;
use crate::scan;
use crate::scan::{Direction, Sweep};
use crate::state::{FieldState, StopCause};
use crate::types;
use crate::types::{Mode, Scan, Twist, ZoneLimits};
use vstd::prelude::*;

verus! {

/// The most that the forward velocity may gain in a cycle.
pub open spec fn gain(pre: Memory, tick: Tick) -> Binary32 {
    pre.cfg.max_accel.times(timestep(pre, tick.now_us))
}

/// The most that the forward velocity may lose in a cycle.
pub open spec fn loss(pre: Memory, tick: Tick) -> Binary32 {
    pre.cfg.max_decel.times(timestep(pre, tick.now_us))
}

/// The most that the forward velocity may change in a cycle.
pub open spec fn change(pre: Memory, tick: Tick) -> Binary32 {
    gain(pre, tick).greater(loss(pre, tick))
}

/// The most that the yaw rate may change in a cycle.
pub open spec fn turn(pre: Memory, tick: Tick) -> Binary32 {
    pre.cfg.max_angular_accel.times(timestep(pre, tick.now_us))
}

/// The time step of a cycle is a number from zero up to a twentieth of a second.
pub proof fn lemma_timestep(pre: Memory, now: u64)
    ensures
        timestep(pre, now).finite(),
        0 <= timestep(pre, now).value() <= binary32::fraction(5, 100).value(),
        binary32::fraction(5, 100).value() <= binary32::units_in_one(),
{
    numeric::lemma_constants();
    numeric::lemma_fraction(1, 1_000_000);
    numeric::lemma_fraction(5, 100);
    numeric::lemma_fraction_order(5, 100, 1, 1);
    numeric::lemma_fraction_whole(binary32::unit(), 1, 1);
    let us = match pre.last_tick_us {
        Some(prev) => types::elapsed(prev, now),
        None => 0,
    };
    let u = binary32::units_in_one();
    assert(us * u >= 0) by (nonlinear_arith)
        requires
            us >= 0,
            u > 0,
    ;
    rounding::lemma_nearest(us * u, 1);
    let m = rounding::nearest(us * u, 1);
    numeric::lemma_with_sign(false, m);
    rounding::lemma_magnitude_order(m, 0);
    let n = binary32::rounded(false, us * u, 1);
    let micro = binary32::fraction(1, 1_000_000);
    if n.finite() {
        numeric::lemma_times_grows(n, micro, n, micro);
    } else {
        reveal(Binary32::times);
        numeric::lemma_signs(micro);
        numeric::lemma_with_sign(micro.negative(), 0x7f80_0000);
    }
}

/// The steps of a cycle are finite and not negative.
pub proof fn lemma_steps(pre: Memory, tick: Tick)
    requires
        pre.cfg.valid(),
    ensures
        gain(pre, tick).finite(),
        loss(pre, tick).finite(),
        turn(pre, tick).finite(),
        gain(pre, tick).value() >= 0,
        loss(pre, tick).value() >= 0,
        turn(pre, tick).value() >= 0,
{
    let dt = timestep(pre, tick.now_us);
    numeric::lemma_constants();
    lemma_timestep(pre, tick.now_us);
    numeric::lemma_times_fraction(pre.cfg.max_accel, dt);
    numeric::lemma_times_fraction(pre.cfg.max_decel, dt);
    numeric::lemma_times_fraction(pre.cfg.max_angular_accel, dt);
}

/// A limit that is not negative bounds each component of a target.
proof fn lemma_narrowed(target: Twist, linear: Binary32, angular: Binary32)
    requires
        !target.linear.nan(),
        !target.angular.nan(),
        !linear.nan(),
        !angular.nan(),
        linear.value() >= 0,
        angular.value() >= 0,
    ensures
        ({
            let r = narrowed(target, target.limited(linear, angular));
            &&& !r.linear.nan()
            &&& !r.angular.nan()
            &&& r.linear.value() == numeric::bounded(target.linear.value(), linear.value())
            &&& r.angular.value() == numeric::bounded(target.angular.value(), angular.value())
            &&& target.linear.finite() || linear.finite() ==> r.linear.finite()
            &&& target.angular.finite() || angular.finite() ==> r.angular.finite()
        }),
{
    let r = narrowed(target, target.limited(linear, angular));
    numeric::lemma_clamp(target.linear, linear);
    numeric::lemma_clamp(target.angular, angular);
    numeric::lemma_finite(target.linear);
    numeric::lemma_finite(target.angular);
    numeric::lemma_finite(linear);
    numeric::lemma_finite(angular);
    numeric::lemma_finite(r.linear);
    numeric::lemma_finite(r.angular);
}

/// A number clamped to any number is a number.
proof fn lemma_clamped_number(x: Binary32, limit: Binary32)
    requires
        !x.nan(),
        !limit.nan(),
    ensures
        !types::clamp(x, limit).nan(),
{
    numeric::lemma_signs(limit);
}

/// Each speed limit bounds the targets behind it.
#[verifier::rlimit(40)]
pub proof fn lemma_targets(cfg: SafetyConfig, tick: Tick, request: Twist, state: FieldState)
    requires
        cfg.valid(),
        request.finite(),
    ensures
        ({
            let v = vehicle_target(cfg, request);
            let z = zone_target(cfg, tick, request);
            let k = docking_target(cfg, tick, request);
            let w = warning_target(cfg, tick, request, state);
            let lin = cfg.max_linear.lesser(tick.zone.max_linear);
            let ang = cfg.max_angular.lesser(tick.zone.max_angular);
            let (ml, ma) = (cfg.max_linear.value(), cfg.max_angular.value());
            &&& v.finite()
            &&& binary32::size(v.linear.value()) <= ml
            &&& binary32::size(v.angular.value()) <= ma
            &&& !z.linear.nan() && !z.angular.nan()
            &&& tick.zone.sane() ==> {
                &&& z.finite()
                &&& !lin.nan() && 0 <= lin.value() <= ml
                &&& !ang.nan() && 0 <= ang.value() <= ma
                &&& z.linear.value() == numeric::bounded(v.linear.value(), lin.value())
                &&& z.angular.value() == numeric::bounded(v.angular.value(), ang.value())
            }
            &&& !k.linear.nan() && !k.angular.nan()
            &&& k.linear.value() == if tick.mode == Mode::Docking {
                numeric::bounded(z.linear.value(), cfg.docking.max_linear.value())
            } else {
                z.linear.value()
            }
            &&& k.angular.value() == if tick.mode == Mode::Docking {
                numeric::bounded(z.angular.value(), ma)
            } else {
                z.angular.value()
            }
            &&& tick.mode == Mode::Docking || tick.zone.sane() ==> k.finite()
            &&& warning_speed(cfg).finite()
            &&& 0 <= warning_speed(cfg).value() <= ml
            &&& !w.linear.nan() && !w.angular.nan()
            &&& w.linear.value() == if state == FieldState::Warning {
                numeric::bounded(k.linear.value(), warning_speed(cfg).value())
            } else {
                k.linear.value()
            }
            &&& w.angular.value() == if state == FieldState::Warning {
                numeric::bounded(k.angular.value(), ma)
            } else {
                k.angular.value()
            }
            &&& state == FieldState::Warning || tick.mode == Mode::Docking || tick.zone.sane()
                ==> w.finite()
        }),
{
    numeric::lemma_constants();
    numeric::lemma_clamp(request.linear, cfg.max_linear);
    numeric::lemma_clamp(request.angular, cfg.max_angular);
    let v = vehicle_target(cfg, request);
    let z = zone_target(cfg, tick, request);
    let k = docking_target(cfg, tick, request);
    let lin = cfg.max_linear.lesser(tick.zone.max_linear);
    let ang = cfg.max_angular.lesser(tick.zone.max_angular);
    lemma_clamped_number(v.linear, lin);
    lemma_clamped_number(v.angular, ang);
    if tick.zone.sane() {
        lemma_narrowed(v, lin, ang);
    }
    lemma_narrowed(z, cfg.docking.max_linear, cfg.max_angular);
    numeric::lemma_times_fraction(cfg.max_linear, cfg.warning_speed_frac);
    lemma_narrowed(k, warning_speed(cfg), cfg.max_angular);
}

/// The command of a cycle without a stop is the next step of the ramp, within the
/// limits of the vehicle.
proof fn lemma_driven(pre: Memory, tick: Tick, target: Twist)
    requires
        pre.sound(),
        !target.linear.nan(),
        !target.angular.nan(),
    ensures
        ({
            let dt = timestep(pre, tick.now_us);
            let out = driven(pre, target, dt);
            let r = ramp_toward(pre, target, dt);
            &&& within_limits(pre.cfg, out)
            &&& !r.linear.nan()
            &&& !r.angular.nan()
            &&& out.linear.value() == numeric::bounded(
                r.linear.value(),
                pre.cfg.max_linear.value(),
            )
            &&& out.angular.value() == numeric::bounded(
                r.angular.value(),
                pre.cfg.max_angular.value(),
            )
        }),
{
    numeric::lemma_constants();
    lemma_steps(pre, tick);
    let dt = timestep(pre, tick.now_us);
    let r = ramp_toward(pre, target, dt);
    numeric::lemma_ramp_step(pre.last_out.linear, target.linear, gain(pre, tick));
    numeric::lemma_ramp_step(pre.last_out.linear, target.linear, loss(pre, tick));
    numeric::lemma_ramp_step(pre.last_out.angular, target.angular, turn(pre, tick));
    numeric::lemma_clamp(r.linear, pre.cfg.max_linear);
    numeric::lemma_clamp(r.angular, pre.cfg.max_angular);
    numeric::lemma_signs(driven(pre, target, dt).linear);
    numeric::lemma_signs(driven(pre, target, dt).angular);
}

/// The target of a cycle is a number, and lies within the limits where the zone is sane.
pub proof fn lemma_final_target(pre: Memory, tick: Tick, state: FieldState)
    requires
        pre.sound(),
    ensures
        !final_target(pre, tick, state).linear.nan(),
        !final_target(pre, tick, state).angular.nan(),
        request(pre, tick).finite(),
{
    numeric::lemma_constants();
    lemma_targets(pre.cfg, tick, request(pre, tick), state);
}

/// Whatever comes in, the command is finite and within the limits of the vehicle.
pub proof fn the_output_is_always_within_the_vehicle_limits(pre: Memory, tick: Tick, sweep: Sweep)
    requires
        pre.sound(),
    ensures
        within_limits(pre.cfg, decision(pre, tick, sweep).twist),
{
    numeric::lemma_constants();
    numeric::lemma_signs(binary32::zero());
    let latch = latch_after(pre, tick, sweep);
    lemma_final_target(pre, tick, latch.state);
    lemma_driven(pre, tick, final_target(pre, tick, latch.state));
}

/// A sound arbiter is sound after every cycle.
pub proof fn soundness_is_kept<F: Fn(Binary32) -> Direction>(
    pre: Memory,
    tick: Tick,
    direction: &F,
    sweep: Sweep,
)
    requires
        pre.sound(),
        swept(pre.sweep, tick, direction, sweep),
    ensures
        next_memory(pre, tick, sweep).sound(),
{
    the_output_is_always_within_the_vehicle_limits(pre, tick, sweep);
    lemma_final_target(pre, tick, FieldState::Clear);
}

/// The reported scan error is the fault of the scan itself: a scan is refused exactly
/// where its own geometry cannot be used, whatever the cache holds.
pub proof fn the_reported_error_is_the_fault_of_the_scan(
    pre: Memory,
    tick: Tick,
    sweep: Sweep,
    s: Scan,
)
    requires
        pre.sound(),
        tick.scan == Some(s),
    ensures
        scan_fault(pre, tick) == scan::geometry_fault(s),
        decision(pre, tick, sweep).scan_error == scan::geometry_fault(s),
{
}

/// A breach is blamed on what was seen: on an obstacle only where there is a return in
/// the protective field, and on blindness only where the robot knows nothing of the
/// floor.
pub proof fn a_breach_is_blamed_on_what_was_seen(pre: Memory, tick: Tick, sweep: Sweep)
    requires
        pre.sound(),
        verdict(pre, tick, sweep).protective_breach,
    ensures
        ({
            let (seen, d) = (verdict(pre, tick, sweep), decision(pre, tick, sweep));
            let cause = latch_after(pre, tick, sweep).cause;
            &&& d.estop_latched <==> cause == Some(StopCause::EStop)
            &&& cause == Some(StopCause::Obstacle) ==> seen.protective_hits > 0 && d.veto
                == VetoReason::ProtectiveStop
            &&& cause == Some(StopCause::Blind) ==> seen == scan::unseen() && d.veto
                == VetoReason::ScanStale
            &&& blind(pre, tick) ==> cause != Some(StopCause::Obstacle)
        }),
{
}

/// A robot that lost its scan is blind until the next usable one: between scans the stop
/// stays blamed on the lost scan.
pub proof fn a_lost_scan_is_never_blamed_on_an_obstacle(
    pre: Memory,
    tick: Tick,
    sweep: Sweep,
)
    requires
        pre.last_verdict == scan::unseen(),
        tick.scan is None || scan_fault(pre, tick) is Some,
    ensures
        ({
            let d = decision(pre, tick, sweep);
            &&& d.state == FieldState::ProtectiveStop
            &&& d.veto == if d.estop_latched {
                VetoReason::EStop
            } else {
                VetoReason::ScanStale
            }
            &&& next_memory(pre, tick, sweep).last_verdict == scan::unseen()
        }),
{
}

/// A protective stop or a latched e-stop commands zero on that same cycle, with no ramp.
pub proof fn a_stop_is_immediate_and_absolute(pre: Memory, tick: Tick, sweep: Sweep)
    ensures
        ({
            let d = decision(pre, tick, sweep);
            d.state == FieldState::ProtectiveStop || d.estop_latched ==> d.twist
                == types::stationary()
        }),
{
}

/// A return in the protective field, as seen on a cycle, stops the robot on that cycle.
pub proof fn a_protective_breach_stops_on_the_same_cycle(pre: Memory, tick: Tick, sweep: Sweep)
    requires
        verdict(pre, tick, sweep).protective_breach,
    ensures
        decision(pre, tick, sweep).state == FieldState::ProtectiveStop,
        decision(pre, tick, sweep).twist == types::stationary(),
{
}

/// A return inside the protective field of a cycle stops the robot on that cycle, on
/// whichever ray of the scan it is, as long as the ray has a direction.
#[verifier::rlimit(40)]
pub proof fn an_obstacle_in_the_protective_field_stops_the_robot(
    pre: Memory,
    tick: Tick,
    sweep: Sweep,
    s: Scan,
    i: int,
)
    requires
        pre.sound(),
        tick.scan == Some(s),
        0 <= i < s.ranges@.len(),
        i < sweep.directions.len(),
        !fields(pre, tick).protective_len.nan(),
        sweep.directions[i].cos.finite(),
        sweep.directions[i].sin.finite(),
        scan::measured(s, s.ranges@[i]),
        ({
            let (d, extent) = (sweep.directions[i], fields(pre, tick));
            &&& geometry::inside(
                s.ranges@[i],
                d.cos,
                d.sin,
                extent.protective_len,
                extent.half_width,
            )
            &&& perception::meets_the_wall(extent, d) ==> perception::within_the_wall(extent, d)
        }),
    ensures
        decision(pre, tick, sweep).state == FieldState::ProtectiveStop,
        decision(pre, tick, sweep).twist == types::stationary(),
{
    let extent = fields(pre, tick);
    let speed = pre.last_out.linear.absolute().greater(request(pre, tick).linear.absolute());
    field::the_warning_field_encloses_the_protective_field(pre.cfg, speed, tick.mode);
    perception::a_return_in_the_protective_field_is_a_hit(sweep, s, extent, i);
    perception::a_breach_is_a_return_in_the_field(
        sweep,
        s,
        extent,
        scan::usable_rays(sweep, s),
    );
    a_protective_breach_stops_on_the_same_cycle(pre, tick, sweep);
}

/// The fields of a cycle are sized for the faster of what the robot does and what it is
/// asked to do, so that they have grown before the robot accelerates into them.
pub proof fn the_fields_grow_before_the_robot_accelerates(pre: Memory, tick: Tick)
    requires
        pre.sound(),
        !fields(pre, tick).protective_len.nan(),
    ensures
        ({
            let grown = fields(pre, tick);
            let (now, next) = (pre.last_out.linear, request(pre, tick).linear);
            &&& extent(pre.cfg, now, tick.mode).protective_len.at_most(grown.protective_len)
            &&& extent(pre.cfg, now, tick.mode).warning_len.at_most(grown.warning_len)
            &&& extent(pre.cfg, next, tick.mode).protective_len.at_most(grown.protective_len)
            &&& extent(pre.cfg, next, tick.mode).warning_len.at_most(grown.warning_len)
        }),
{
    let (now, next) = (pre.last_out.linear, request(pre, tick).linear);
    let speed = now.absolute().greater(next.absolute());
    numeric::lemma_signs(now);
    numeric::lemma_signs(next);
    numeric::lemma_signs(speed);
    field::the_fields_grow_with_speed(pre.cfg, now, speed, tick.mode);
    field::the_fields_grow_with_speed(pre.cfg, next, speed, tick.mode);
}

/// Between scans, while the last one is recent enough, what it said stands.
pub proof fn between_scans_the_verdict_stands(pre: Memory, tick: Tick, sweep: Sweep)
    requires
        tick.scan is None,
        !blind(pre, tick),
    ensures
        verdict(pre, tick, sweep) == pre.last_verdict,
        next_memory(pre, tick, sweep).last_verdict == pre.last_verdict,
        decision(pre, tick, sweep).closest_m == pre.last_verdict.closest_m,
{
}

/// A component lies between the previous one less a step and the previous one more that
/// step, so that it changes by no more than the step and the rounding of the sum.
pub open spec fn within_step(prev: Binary32, out: Binary32, step: Binary32) -> bool {
    &&& prev.minus(step).at_most(out)
    &&& out.at_most(prev.plus(step))
    &&& 0x100_0000 * (binary32::size(out.value() - prev.value()) - step.value())
        <= binary32::size(prev.value()) + step.value()
}

/// One step of a ramp, held within the limit of the vehicle, is within that step and
/// within every longer one.
proof fn lemma_within_step(
    prev: Binary32,
    target: Binary32,
    m: Binary32,
    step: Binary32,
    limit: Binary32,
    out: Binary32,
)
    requires
        prev.finite(),
        !target.nan(),
        m.finite(),
        step.finite(),
        0 <= m.value() <= step.value(),
        limit.finite(),
        binary32::size(prev.value()) <= limit.value(),
        !out.nan(),
        out.value() == numeric::bounded(ramped(prev, target, m).value(), limit.value()),
    ensures
        within_step(prev, out, step),
{
    let p = prev.value();
    numeric::lemma_signs(step);
    numeric::lemma_ramp_step(prev, target, m);
    numeric::lemma_plus(prev, step);
    numeric::lemma_plus(prev, step.opposite());
    numeric::lemma_round_order(p - step.value(), 1, p - m.value(), 1);
    numeric::lemma_round_order(p + m.value(), 1, p + step.value(), 1);
    numeric::lemma_round_at(prev, p - step.value());
    numeric::lemma_round_at(prev, p + step.value());
}

/// Without a stop, the command is one step of the ramp from the previous one.
pub proof fn lemma_output(pre: Memory, tick: Tick, sweep: Sweep)
    requires
        pre.sound(),
        decision(pre, tick, sweep).state != FieldState::ProtectiveStop,
    ensures
        ({
            let out = decision(pre, tick, sweep).twist;
            let target = final_target(pre, tick, decision(pre, tick, sweep).state);
            let (prev, dt) = (pre.last_out, timestep(pre, tick.now_us));
            let m = linear_rate(pre.cfg, prev.linear, target.linear).times(dt);
            &&& prev.finite()
            &&& out.finite()
            &&& !target.linear.nan()
            &&& !target.angular.nan()
            &&& binary32::size(prev.linear.value()) <= pre.cfg.max_linear.value()
            &&& binary32::size(prev.angular.value()) <= pre.cfg.max_angular.value()
            &&& m == if binary32::size(prev.linear.value()) < binary32::size(
                target.linear.value(),
            ) {
                gain(pre, tick)
            } else {
                loss(pre, tick)
            }
            &&& out.linear.value() == numeric::bounded(
                ramped(prev.linear, target.linear, m).value(),
                pre.cfg.max_linear.value(),
            )
            &&& out.angular.value() == numeric::bounded(
                ramped(prev.angular, target.angular, turn(pre, tick)).value(),
                pre.cfg.max_angular.value(),
            )
        }),
{
    let latch = latch_after(pre, tick, sweep);
    let target = final_target(pre, tick, latch.state);
    lemma_final_target(pre, tick, latch.state);
    lemma_driven(pre, tick, target);
    numeric::lemma_signs(pre.last_out.linear);
    numeric::lemma_signs(pre.last_out.angular);
    numeric::lemma_signs(target.linear);
}

/// Without a stop, the command follows the previous one within the acceleration limits.
/// Where the forward speed rises, the limit is the gentle one for accelerating.
pub proof fn speed_changes_respect_the_acceleration_limits(
    pre: Memory,
    tick: Tick,
    sweep: Sweep,
)
    requires
        pre.sound(),
        decision(pre, tick, sweep).state != FieldState::ProtectiveStop,
    ensures
        ({
            let (prev, out) = (pre.last_out, decision(pre, tick, sweep).twist);
            &&& within_step(prev.linear, out.linear, change(pre, tick))
            &&& within_step(prev.angular, out.angular, turn(pre, tick))
            &&& prev.linear.absolute().less(out.linear.absolute()) ==> within_step(
                prev.linear,
                out.linear,
                gain(pre, tick),
            )
        }),
{
    let (prev, out) = (pre.last_out, decision(pre, tick, sweep).twist);
    let target = final_target(pre, tick, decision(pre, tick, sweep).state);
    lemma_output(pre, tick, sweep);
    lemma_steps(pre, tick);
    let (up, down, turn) = (gain(pre, tick), loss(pre, tick), turn(pre, tick));
    let rising = binary32::size(prev.linear.value()) < binary32::size(target.linear.value());
    let m = if rising {
        up
    } else {
        down
    };
    let (linear, angular) = (pre.cfg.max_linear, pre.cfg.max_angular);
    lemma_within_step(prev.linear, target.linear, m, change(pre, tick), linear, out.linear);
    lemma_within_step(prev.angular, target.angular, turn, turn, angular, out.angular);
    if rising {
        lemma_within_step(prev.linear, target.linear, up, up, linear, out.linear);
    } else {
        lemma_not_rising(prev.linear, target.linear, m, linear, out.linear);
    }
}

/// A ramp toward a target that is no faster does not speed up.
proof fn lemma_not_rising(
    prev: Binary32,
    target: Binary32,
    m: Binary32,
    limit: Binary32,
    out: Binary32,
)
    requires
        prev.finite(),
        !target.nan(),
        m.finite(),
        m.value() >= 0,
        binary32::size(target.value()) <= binary32::size(prev.value()) <= limit.value(),
        out.value() == numeric::bounded(ramped(prev, target, m).value(), limit.value()),
    ensures
        !prev.absolute().less(out.absolute()),
{
    numeric::lemma_signs(prev);
    numeric::lemma_signs(out);
    numeric::lemma_finite(prev);
    numeric::lemma_finite(target);
    numeric::lemma_ramp(prev, target, m);
    numeric::lemma_ramp_no_faster(prev, target, m);
}

/// A component made the progress that its step allows: it is at the target, up to one
/// part in 2^22 of the limit of the vehicle, where the target is within one step, and
/// otherwise it has moved toward the target by the whole step.
pub open spec fn approaches(
    prev: Binary32,
    target: Binary32,
    out: Binary32,
    step: Binary32,
    limit: Binary32,
) -> bool {
    let (p, t) = (prev.value(), target.value());
    if binary32::size(t - p) <= step.value() {
        0x40_0000 * binary32::size(out.value() - t) <= limit.value()
    } else if p < t {
        out.equals(prev.plus(step))
    } else {
        out.equals(prev.minus(step))
    }
}

/// One step of a ramp toward a target within the limit of the vehicle makes progress.
pub proof fn lemma_approaches(
    prev: Binary32,
    target: Binary32,
    out: Binary32,
    step: Binary32,
    limit: Binary32,
)
    requires
        prev.finite(),
        target.finite(),
        step.finite(),
        step.value() >= 0,
        limit.finite(),
        !out.nan(),
        binary32::size(prev.value()) <= limit.value(),
        binary32::size(target.value()) <= limit.value(),
        out.value() == numeric::bounded(ramped(prev, target, step).value(), limit.value()),
    ensures
        approaches(prev, target, out, step, limit),
        prev.value() == target.value() ==> out.value() == target.value(),
{
    let (p, t, m) = (prev.value(), target.value(), step.value());
    numeric::lemma_signs(step);
    numeric::lemma_signs(binary32::zero());
    numeric::lemma_ramp(prev, target, step);
    numeric::lemma_round_at(step, t - p);
    numeric::lemma_plus(prev, step);
    numeric::lemma_plus(prev, step.opposite());
    numeric::lemma_round_at(target, p + m);
    numeric::lemma_round_at(target, p - m);
    numeric::lemma_round_at(prev, p + m);
    numeric::lemma_round_at(prev, p - m);
    if binary32::size(t - p) <= m {
        let x = numeric::round_value(t - p, 1);
        numeric::lemma_finite(step);
        numeric::lemma_finite(limit);
        numeric::lemma_round_error(t - p);
        numeric::lemma_round_error(p + x);
        numeric::lemma_round_at(binary32::zero(), p + x);
        numeric::lemma_round_at(prev, p + x);
    }
}

/// An unstopped robot makes progress: each component of the command reaches the target of
/// the cycle where that is within one step, moves toward it by the whole step where it is
/// not, and stays there once it has arrived.
pub proof fn an_unstopped_robot_makes_progress(pre: Memory, tick: Tick, sweep: Sweep)
    requires
        pre.sound(),
        tick.zone.sane(),
        decision(pre, tick, sweep).state != FieldState::ProtectiveStop,
    ensures
        ({
            let (prev, out) = (pre.last_out, decision(pre, tick, sweep).twist);
            let target = final_target(pre, tick, decision(pre, tick, sweep).state);
            let step = if prev.linear.absolute().less(target.linear.absolute()) {
                gain(pre, tick)
            } else {
                loss(pre, tick)
            };
            let turn = turn(pre, tick);
            let (linear, angular) = (pre.cfg.max_linear, pre.cfg.max_angular);
            &&& approaches(prev.linear, target.linear, out.linear, step, linear)
            &&& approaches(prev.angular, target.angular, out.angular, turn, angular)
            &&& prev.linear.equals(target.linear) ==> out.linear.equals(target.linear)
            &&& prev.angular.equals(target.angular) ==> out.angular.equals(target.angular)
        }),
{
    let (prev, out) = (pre.last_out, decision(pre, tick, sweep).twist);
    let state = decision(pre, tick, sweep).state;
    let target = final_target(pre, tick, state);
    lemma_output(pre, tick, sweep);
    lemma_steps(pre, tick);
    lemma_reachable_target(pre, tick, state);
    numeric::lemma_signs(prev.linear);
    numeric::lemma_signs(target.linear);
    let step = if prev.linear.absolute().less(target.linear.absolute()) {
        gain(pre, tick)
    } else {
        loss(pre, tick)
    };
    let (linear, angular) = (pre.cfg.max_linear, pre.cfg.max_angular);
    lemma_approaches(prev.linear, target.linear, out.linear, step, linear);
    lemma_approaches(prev.angular, target.angular, out.angular, turn(pre, tick), angular);
}

/// The target of a cycle lies within the limits of the vehicle.
proof fn lemma_reachable_target(pre: Memory, tick: Tick, state: FieldState)
    requires
        pre.sound(),
        tick.zone.sane(),
    ensures
        ({
            let target = final_target(pre, tick, state);
            &&& target.finite()
            &&& binary32::size(target.linear.value()) <= pre.cfg.max_linear.value()
            &&& binary32::size(target.angular.value()) <= pre.cfg.max_angular.value()
        }),
{
    numeric::lemma_constants();
    lemma_final_target(pre, tick, state);
    lemma_targets(pre.cfg, tick, request(pre, tick), state);
}

/// The layer never reverses on its own: from a forward velocity, or from rest, a request
/// that is not negative gives a command that is not negative.
pub proof fn the_layer_never_reverses_on_its_own(pre: Memory, tick: Tick, sweep: Sweep)
    requires
        pre.sound(),
        tick.zone.sane(),
        binary32::zero().at_most(pre.last_out.linear),
        binary32::zero().at_most(request(pre, tick).linear),
    ensures
        binary32::zero().at_most(decision(pre, tick, sweep).twist.linear),
{
    numeric::lemma_constants();
    let state = latch_after(pre, tick, sweep).state;
    if state != FieldState::ProtectiveStop {
        let target = final_target(pre, tick, state);
        let (p, t, dt) = (pre.last_out.linear, target.linear, timestep(pre, tick.now_us));
        lemma_final_target(pre, tick, state);
        lemma_forward_target(pre, tick, state);
        lemma_driven(pre, tick, target);
        lemma_steps(pre, tick);
        let m = linear_rate(pre.cfg, p, t).times(dt);
        numeric::lemma_ramp(p, t, m);
        numeric::lemma_ramp_forward(p, t, m);
    }
}

/// The speed limits turn no target around.
proof fn lemma_forward_target(pre: Memory, tick: Tick, state: FieldState)
    requires
        pre.sound(),
        tick.zone.sane(),
        binary32::zero().at_most(request(pre, tick).linear),
    ensures
        final_target(pre, tick, state).linear.finite(),
        final_target(pre, tick, state).linear.value() >= 0,
{
    numeric::lemma_constants();
    lemma_final_target(pre, tick, state);
    let r = request(pre, tick);
    lemma_targets(pre.cfg, tick, r, state);
    numeric::lemma_clamp(r.linear, pre.cfg.max_linear);
}

/// The forward speed is at most a ceiling, up to one part in 2^22 of the fastest speed
/// of the vehicle, which is what the rounding of a ramp that ends on the ceiling may add.
pub open spec fn under(pre: Memory, out: Twist, ceiling: Binary32) -> bool {
    0x40_0000 * (binary32::size(out.linear.value()) - ceiling.value())
        <= pre.cfg.max_linear.value()
}

/// The forward speed has come down by a whole braking step.
pub open spec fn braking(pre: Memory, tick: Tick, out: Twist) -> bool {
    out.linear.absolute().at_most(pre.last_out.linear.absolute().minus(loss(pre, tick)))
}

/// The yaw rate is at most a ceiling, up to rounding.
pub open spec fn turns_under(pre: Memory, out: Twist, ceiling: Binary32) -> bool {
    0x40_0000 * (binary32::size(out.angular.value()) - ceiling.value())
        <= pre.cfg.max_angular.value()
}

/// The yaw rate has come down by a whole step.
pub open spec fn turning_less(pre: Memory, tick: Tick, out: Twist) -> bool {
    out.angular.absolute().at_most(pre.last_out.angular.absolute().minus(turn(pre, tick)))
}

/// A ceiling on the target is a ceiling on the command, unless the robot is still
/// braking down to it.
proof fn lemma_ceiling(pre: Memory, tick: Tick, sweep: Sweep, ceiling: Binary32)
    requires
        pre.sound(),
        decision(pre, tick, sweep).state != FieldState::ProtectiveStop,
        ({
            let target = final_target(pre, tick, decision(pre, tick, sweep).state);
            &&& target.linear.finite()
            &&& binary32::size(target.linear.value()) <= ceiling.value()
                <= pre.cfg.max_linear.value()
        }),
    ensures
        ({
            let out = decision(pre, tick, sweep).twist;
            under(pre, out, ceiling) || braking(pre, tick, out)
        }),
{
    let state = decision(pre, tick, sweep).state;
    let target = final_target(pre, tick, state);
    let out = decision(pre, tick, sweep).twist;
    let (p, t, down) = (pre.last_out.linear, target.linear, loss(pre, tick));
    lemma_final_target(pre, tick, state);
    lemma_driven(pre, tick, target);
    lemma_steps(pre, tick);
    numeric::lemma_signs(p);
    numeric::lemma_signs(t);
    numeric::lemma_signs(down);
    numeric::lemma_signs(out.linear);
    let m = linear_rate(pre.cfg, p, t).times(timestep(pre, tick.now_us));
    numeric::lemma_ramp(p, t, m);
    numeric::lemma_ramp_limit(
        p,
        t,
        gain(pre, tick),
        down,
        ceiling.value(),
        pre.cfg.max_linear.value(),
    );
    numeric::lemma_plus(p.absolute(), down.opposite());
}

/// A ceiling on the yaw rate of the target is a ceiling on that of the command, unless
/// the robot is still slowing down to it.
proof fn lemma_turn_ceiling(pre: Memory, tick: Tick, sweep: Sweep, ceiling: Binary32)
    requires
        pre.sound(),
        decision(pre, tick, sweep).state != FieldState::ProtectiveStop,
        ({
            let target = final_target(pre, tick, decision(pre, tick, sweep).state);
            &&& target.angular.finite()
            &&& binary32::size(target.angular.value()) <= ceiling.value()
                <= pre.cfg.max_angular.value()
        }),
    ensures
        ({
            let out = decision(pre, tick, sweep).twist;
            turns_under(pre, out, ceiling) || turning_less(pre, tick, out)
        }),
{
    let state = decision(pre, tick, sweep).state;
    let target = final_target(pre, tick, state);
    let out = decision(pre, tick, sweep).twist;
    let (p, t, m) = (pre.last_out.angular, target.angular, turn(pre, tick));
    lemma_final_target(pre, tick, state);
    lemma_driven(pre, tick, target);
    lemma_steps(pre, tick);
    numeric::lemma_signs(p);
    numeric::lemma_signs(m);
    numeric::lemma_signs(out.angular);
    numeric::lemma_ramp(p, t, m);
    numeric::lemma_ramp_limit(p, t, m, m, ceiling.value(), pre.cfg.max_angular.value());
    numeric::lemma_plus(p.absolute(), m.opposite());
}

/// Zone limits only restrict: each component of the command is under its zone ceiling,
/// and under that of the vehicle where the zone has a higher one or none, or it is still
/// coming down to it as fast as it may.
pub proof fn zone_limits_only_restrict(pre: Memory, tick: Tick, sweep: Sweep)
    requires
        pre.sound(),
        tick.zone.sane(),
        decision(pre, tick, sweep).state != FieldState::ProtectiveStop,
    ensures
        ({
            let out = decision(pre, tick, sweep).twist;
            let linear = pre.cfg.max_linear.lesser(tick.zone.max_linear);
            let angular = pre.cfg.max_angular.lesser(tick.zone.max_angular);
            &&& under(pre, out, linear) || braking(pre, tick, out)
            &&& turns_under(pre, out, angular) || turning_less(pre, tick, out)
        }),
{
    numeric::lemma_constants();
    let state = decision(pre, tick, sweep).state;
    lemma_final_target(pre, tick, state);
    lemma_targets(pre.cfg, tick, request(pre, tick), state);
    lemma_ceiling(pre, tick, sweep, pre.cfg.max_linear.lesser(tick.zone.max_linear));
    lemma_turn_ceiling(pre, tick, sweep, pre.cfg.max_angular.lesser(tick.zone.max_angular));
}

/// While docking, the forward speed is under the docking ceiling, or still coming down
/// to it as fast as it may.
pub proof fn docking_limits_the_speed(pre: Memory, tick: Tick, sweep: Sweep)
    requires
        pre.sound(),
        tick.mode == Mode::Docking,
        decision(pre, tick, sweep).state != FieldState::ProtectiveStop,
    ensures
        ({
            let out = decision(pre, tick, sweep).twist;
            under(pre, out, pre.cfg.docking.max_linear) || braking(pre, tick, out)
        }),
{
    numeric::lemma_constants();
    let state = decision(pre, tick, sweep).state;
    lemma_final_target(pre, tick, state);
    lemma_targets(pre.cfg, tick, request(pre, tick), state);
    lemma_ceiling(pre, tick, sweep, pre.cfg.docking.max_linear);
}

/// While an obstacle is in the warning field, the forward speed is under the warning
/// speed, or still coming down to it as fast as it may.
pub proof fn a_warning_limits_the_speed(pre: Memory, tick: Tick, sweep: Sweep)
    requires
        pre.sound(),
        decision(pre, tick, sweep).state == FieldState::Warning,
    ensures
        ({
            let out = decision(pre, tick, sweep).twist;
            under(pre, out, warning_speed(pre.cfg)) || braking(pre, tick, out)
        }),
{
    numeric::lemma_constants();
    let state = decision(pre, tick, sweep).state;
    lemma_final_target(pre, tick, state);
    lemma_targets(pre.cfg, tick, request(pre, tick), state);
    lemma_ceiling(pre, tick, sweep, warning_speed(pre.cfg));
}

/// Once the command watchdog has expired, neither the forward speed nor the yaw rate ever
/// rises or changes its direction. Each comes down by its step every cycle, and to zero
/// where one step is enough.
pub proof fn a_lost_planner_brakes_the_robot(pre: Memory, tick: Tick, sweep: Sweep)
    requires
        pre.sound(),
        watchdog_expired(pre, tick),
    ensures
        ({
            let (prev, out) = (pre.last_out, decision(pre, tick, sweep).twist);
            let stopped = decision(pre, tick, sweep).state == FieldState::ProtectiveStop;
            &&& slowed(prev.linear, out.linear, loss(pre, tick), stopped)
            &&& slowed(prev.angular, out.angular, turn(pre, tick), stopped)
        }),
{
    let (prev, out) = (pre.last_out, decision(pre, tick, sweep).twist);
    let stopped = decision(pre, tick, sweep).state == FieldState::ProtectiveStop;
    numeric::lemma_constants();
    lemma_steps(pre, tick);
    if stopped {
        numeric::lemma_signs(prev.linear);
        numeric::lemma_signs(prev.angular);
        a_stop_is_immediate_and_absolute(pre, tick, sweep);
    } else {
        lemma_output(pre, tick, sweep);
        assert(final_target(pre, tick, decision(pre, tick, sweep).state) == types::stationary());
    }
    lemma_slowed(prev.linear, out.linear, loss(pre, tick), stopped, pre.cfg.max_linear);
    lemma_slowed(prev.angular, out.angular, turn(pre, tick), stopped, pre.cfg.max_angular);
}

/// A component came down by `step`, or to zero where that is enough, and kept its
/// direction. During a stop it is zero.
pub open spec fn slowed(prev: Binary32, out: Binary32, step: Binary32, stopped: bool) -> bool {
    &&& out.absolute().at_most(prev.absolute())
    &&& binary32::zero().at_most(prev) ==> binary32::zero().at_most(out)
    &&& prev.at_most(binary32::zero()) ==> out.at_most(binary32::zero())
    &&& stopped || prev.absolute().at_most(step) ==> out.equals(binary32::zero())
    &&& !stopped && step.less(prev.absolute()) ==> out.absolute().equals(
        prev.absolute().minus(step),
    )
}

/// A ramp toward rest slows a component down.
proof fn lemma_slowed(
    prev: Binary32,
    out: Binary32,
    step: Binary32,
    stopped: bool,
    limit: Binary32,
)
    requires
        prev.finite(),
        step.finite(),
        step.value() >= 0,
        out.finite(),
        limit.finite(),
        binary32::size(prev.value()) <= limit.value(),
        stopped ==> out == binary32::zero(),
        !stopped ==> out.value() == numeric::bounded(
            ramped(prev, binary32::zero(), step).value(),
            limit.value(),
        ),
    ensures
        slowed(prev, out, step, stopped),
{
    numeric::lemma_constants();
    numeric::lemma_signs(prev);
    numeric::lemma_signs(out);
    numeric::lemma_signs(step);
    numeric::lemma_signs(binary32::zero());
    numeric::lemma_ramp(prev, binary32::zero(), step);
    numeric::lemma_ramp_to_rest(prev, step);
    numeric::lemma_plus(prev.absolute(), step.opposite());
}

/// The next step toward the target `slow` can be faster than the one toward `fast`,
/// though the target is slower: the robot moves against both, `fast` calls for
/// accelerating and `slow` for braking, and a braking step leads less near to rest.
pub open spec fn swings(pre: Memory, tick: Tick, slow: Twist, fast: Twist) -> bool {
    numeric::swings(
        pre.last_out.linear.value(),
        slow.linear.value(),
        fast.linear.value(),
        gain(pre, tick).value(),
        loss(pre, tick).value(),
    )
}

/// A slower target never gives a faster command.
proof fn lemma_slower(pre: Memory, tick: Tick, slow: Twist, fast: Twist)
    requires
        pre.sound(),
        slow.finite(),
        fast.finite(),
        0 <= slow.linear.value() <= fast.linear.value() || fast.linear.value()
            <= slow.linear.value() <= 0,
        !swings(pre, tick, slow, fast),
    ensures
        ({
            let dt = timestep(pre, tick.now_us);
            driven(pre, slow, dt).linear.absolute().at_most(driven(pre, fast, dt).linear.absolute())
        }),
{
    let dt = timestep(pre, tick.now_us);
    let p = pre.last_out.linear;
    lemma_steps(pre, tick);
    lemma_driven(pre, tick, slow);
    lemma_driven(pre, tick, fast);
    numeric::lemma_signs(p);
    numeric::lemma_signs(slow.linear);
    numeric::lemma_signs(fast.linear);
    numeric::lemma_signs(driven(pre, slow, dt).linear);
    numeric::lemma_signs(driven(pre, fast, dt).linear);
    numeric::lemma_ramp(p, slow.linear, linear_rate(pre.cfg, p, slow.linear).times(dt));
    numeric::lemma_ramp(p, fast.linear, linear_rate(pre.cfg, p, fast.linear).times(dt));
    numeric::lemma_ramp_slower(p, slow.linear, fast.linear, gain(pre, tick), loss(pre, tick));
}

/// A scan that differs from another one in its ranges alone, each measured return being
/// at least as near.
pub open spec fn nearer(near: Scan, far: Scan) -> bool {
    &&& near == (Scan { ranges: near.ranges, ..far })
    &&& near.ranges@.len() == far.ranges@.len()
    &&& perception::no_further(near, far, far.ranges@.len() as int)
}

/// Nearer returns stop the robot, or warn it, or change nothing.
proof fn lemma_nearer_state(pre: Memory, tick: Tick, near: Scan, far: Scan, sweep: Sweep)
    requires
        nearer(near, far),
    ensures
        ({
            let a = latch_after(pre, (Tick { scan: Some(near), ..tick }), sweep).state;
            let b = latch_after(pre, (Tick { scan: Some(far), ..tick }), sweep).state;
            ||| a == FieldState::ProtectiveStop
            ||| a == b
            ||| a == FieldState::Warning && b == FieldState::Clear
        }),
{
    let ta = Tick { scan: Some(near), ..tick };
    let tb = Tick { scan: Some(far), ..tick };
    let n = scan::usable_rays(sweep, far);
    assert(n == scan::usable_rays(sweep, near));
    perception::nearer_returns_breach_no_less(sweep, near, far, fields(pre, ta), n);
    assert(scan_fault(pre, ta) == scan_fault(pre, tb));
}

/// A cycle that is not stopped and its warned copy differ by the warning speed alone.
proof fn lemma_warned(pre: Memory, tick: Tick)
    requires
        pre.sound(),
        tick.zone.sane(),
        !watchdog_expired(pre, tick),
        !swings(
            pre,
            tick,
            warning_target(pre.cfg, tick, request(pre, tick), FieldState::Warning),
            warning_target(pre.cfg, tick, request(pre, tick), FieldState::Clear),
        ),
    ensures
        ({
            let dt = timestep(pre, tick.now_us);
            let a = driven(pre, final_target(pre, tick, FieldState::Warning), dt);
            let b = driven(pre, final_target(pre, tick, FieldState::Clear), dt);
            a.linear.absolute().at_most(b.linear.absolute())
        }),
{
    let r = request(pre, tick);
    lemma_final_target(pre, tick, FieldState::Warning);
    lemma_targets(pre.cfg, tick, r, FieldState::Warning);
    lemma_targets(pre.cfg, tick, r, FieldState::Clear);
    lemma_slower(
        pre,
        tick,
        warning_target(pre.cfg, tick, r, FieldState::Warning),
        warning_target(pre.cfg, tick, r, FieldState::Clear),
    );
}

/// The target of a cycle does not depend on its scan.
proof fn lemma_target_without_scan(pre: Memory, tick: Tick, s: Scan, state: FieldState)
    ensures
        final_target(pre, (Tick { scan: Some(s), ..tick }), state) == final_target(
            pre,
            tick,
            state,
        ),
{
}

/// A closer obstacle never yields a faster command: of two cycles that differ only in
/// how near the returns are, the one with the nearer returns is not faster.
///
/// Where the previous command opposes the request, a robot that is warned may have to
/// brake on a cycle on which an unwarned one may accelerate, and with a braking step
/// that leads less near to rest the warned robot is the faster one for that cycle. Only
/// there, where the nearer returns warn and the further ones do not, is anything left out.
pub proof fn a_closer_obstacle_never_yields_a_faster_command(
    pre: Memory,
    tick: Tick,
    near: Scan,
    far: Scan,
    sweep: Sweep,
)
    requires
        pre.sound(),
        tick.zone.sane(),
        nearer(near, far),
        ({
            let a = decision(pre, (Tick { scan: Some(near), ..tick }), sweep).state;
            let b = decision(pre, (Tick { scan: Some(far), ..tick }), sweep).state;
            a == FieldState::Warning && b == FieldState::Clear && !watchdog_expired(pre, tick)
        }) ==> !swings(
            pre,
            tick,
            warning_target(pre.cfg, tick, request(pre, tick), FieldState::Warning),
            warning_target(pre.cfg, tick, request(pre, tick), FieldState::Clear),
        ),
    ensures
        ({
            let a = decision(pre, (Tick { scan: Some(near), ..tick }), sweep);
            let b = decision(pre, (Tick { scan: Some(far), ..tick }), sweep);
            a.twist.linear.absolute().at_most(b.twist.linear.absolute())
        }),
{
    let ta = Tick { scan: Some(near), ..tick };
    let tb = Tick { scan: Some(far), ..tick };
    let (a, b) = (latch_after(pre, ta, sweep), latch_after(pre, tb, sweep));
    lemma_nearer_state(pre, tick, near, far, sweep);
    lemma_target_without_scan(pre, tick, near, a.state);
    lemma_target_without_scan(pre, tick, far, b.state);
    the_output_is_always_within_the_vehicle_limits(pre, tb, sweep);
    let (x, y) = (output(pre, ta, a), output(pre, tb, b));
    assert(decision(pre, tb, sweep).twist == y);
    numeric::lemma_signs(x.linear);
    numeric::lemma_signs(y.linear);
    numeric::lemma_signs(binary32::zero());
    if a.state != FieldState::ProtectiveStop && a.state != b.state && !watchdog_expired(
        pre,
        tick,
    ) {
        lemma_warned(pre, tick);
    }
}

/// What a zone does to the target of a cycle.
#[verifier::rlimit(40)]
proof fn lemma_zoned(pre: Memory, tick: Tick, zone: ZoneLimits, state: FieldState)
    requires
        pre.sound(),
        zone.sane(),
    ensures
        ({
            let a = final_target(pre, (Tick { zone, ..tick }), state);
            let b = final_target(pre, (Tick { zone: types::no_limits(), ..tick }), state);
            &&& a.finite()
            &&& b.finite()
            &&& 0 <= a.linear.value() <= b.linear.value() || b.linear.value() <= a.linear.value()
                <= 0
        }),
{
    let r = request(pre, tick);
    let ta = Tick { zone, ..tick };
    let tb = Tick { zone: types::no_limits(), ..tick };
    numeric::lemma_constants();
    assert(tb.zone.sane()) by {
        numeric::lemma_finite(binary32::infinity());
    }
    assert(pre.cfg.max_linear.lesser(tb.zone.max_linear) == pre.cfg.max_linear) by {
        numeric::lemma_finite(pre.cfg.max_linear);
    }
    assert(request(pre, ta) == r && request(pre, tb) == r);
    assert(r.finite()) by {
        lemma_final_target(pre, ta, state);
    }
    assert(watchdog_expired(pre, ta) == watchdog_expired(pre, tb));
    lemma_forward_limits(pre.cfg, ta, r, state);
    lemma_forward_limits(pre.cfg, tb, r, state);
}

/// What the mode and a warning leave of a forward velocity.
spec fn left_over(cfg: SafetyConfig, mode: Mode, state: FieldState, x: int) -> int {
    let docked = if mode == Mode::Docking {
        numeric::bounded(x, cfg.docking.max_linear.value())
    } else {
        x
    };
    if state == FieldState::Warning {
        numeric::bounded(docked, warning_speed(cfg).value())
    } else {
        docked
    }
}

/// The limits bound the forward velocity in turn: the vehicle, the zone, then the rest.
proof fn lemma_forward_limits(
    cfg: SafetyConfig,
    tick: Tick,
    request: Twist,
    state: FieldState,
)
    requires
        cfg.valid(),
        request.finite(),
        tick.zone.sane(),
    ensures
        ({
            let w = warning_target(cfg, tick, request, state);
            let v = vehicle_target(cfg, request).linear.value();
            let lin = cfg.max_linear.lesser(tick.zone.max_linear).value();
            &&& w.finite()
            &&& w.linear.value() == left_over(
                cfg,
                tick.mode,
                state,
                numeric::bounded(v, lin),
            )
            &&& binary32::size(v) <= cfg.max_linear.value()
            &&& 0 <= lin
            &&& 0 <= cfg.docking.max_linear.value()
            &&& 0 <= warning_speed(cfg).value()
        }),
{
    numeric::lemma_constants();
    lemma_targets(cfg, tick, request, state);
}

/// The field state machine does not look at the zone.
proof fn lemma_latch_without_zone(
    pre: Memory,
    tick: Tick,
    zone: ZoneLimits,
    sweep: Sweep,
)
    ensures
        latch_after(pre, (Tick { zone, ..tick }), sweep) == latch_after(pre, tick, sweep),
{
}

/// A zone limit never speeds the robot up: the command is not faster than without it.
///
/// The exception is the one that nearer returns have too: a robot that moves against its
/// request may for one cycle brake past rest further than it would have accelerated.
pub proof fn a_zone_limit_never_speeds_the_robot_up(
    pre: Memory,
    tick: Tick,
    zone: ZoneLimits,
    sweep: Sweep,
)
    requires
        pre.sound(),
        zone.sane(),
        decision(pre, tick, sweep).state != FieldState::ProtectiveStop ==> !swings(
            pre,
            tick,
            final_target(
                pre,
                (Tick { zone, ..tick }),
                decision(pre, tick, sweep).state,
            ),
            final_target(
                pre,
                (Tick { zone: types::no_limits(), ..tick }),
                decision(pre, tick, sweep).state,
            ),
        ),
    ensures
        ({
            let a = decision(pre, (Tick { zone, ..tick }), sweep);
            let b = decision(pre, (Tick { zone: types::no_limits(), ..tick }), sweep);
            &&& a.state == b.state
            &&& a.twist.linear.absolute().at_most(b.twist.linear.absolute())
        }),
{
    let ta = Tick { zone, ..tick };
    let tb = Tick { zone: types::no_limits(), ..tick };
    lemma_latch_without_zone(pre, tick, zone, sweep);
    lemma_latch_without_zone(pre, tick, types::no_limits(), sweep);
    let state = latch_after(pre, tick, sweep).state;
    numeric::lemma_signs(binary32::zero());
    if state != FieldState::ProtectiveStop {
        lemma_zoned(pre, tick, zone, state);
        lemma_slower(pre, tick, final_target(pre, ta, state), final_target(pre, tb, state));
    }
}

/// A zone that is wider than the limits of the vehicle has no effect at all.
pub proof fn a_wide_zone_has_no_effect(pre: Memory, tick: Tick, zone: ZoneLimits, sweep: Sweep)
    requires
        pre.sound(),
        pre.cfg.max_linear.at_most(zone.max_linear),
        pre.cfg.max_angular.at_most(zone.max_angular),
    ensures
        decision(pre, (Tick { zone, ..tick }), sweep) == decision(
            pre,
            (Tick { zone: types::no_limits(), ..tick }),
            sweep,
        ),
        next_memory(pre, (Tick { zone, ..tick }), sweep) == next_memory(
            pre,
            (Tick { zone: types::no_limits(), ..tick }),
            sweep,
        ),
{
    numeric::lemma_finite(binary32::infinity());
    numeric::lemma_finite(pre.cfg.max_linear);
    numeric::lemma_finite(pre.cfg.max_angular);
    let ta = Tick { zone, ..tick };
    let tb = Tick { zone: types::no_limits(), ..tick };
    assert(pre.cfg.max_linear.lesser(zone.max_linear) == pre.cfg.max_linear.lesser(
        binary32::infinity(),
    ));
    assert(pre.cfg.max_angular.lesser(zone.max_angular) == pre.cfg.max_angular.lesser(
        binary32::infinity(),
    ));
    let latch = latch_after(pre, ta, sweep);
    assert(latch == latch_after(pre, tb, sweep));
    assert(final_target(pre, ta, latch.state) == final_target(pre, tb, latch.state));
}

/// An asserted e-stop latches on that cycle, acknowledged or not, and a latched one
/// clears only on an acknowledgement.
pub proof fn the_estop_latches_until_acknowledged(pre: Memory, tick: Tick, sweep: Sweep)
    ensures
        ({
            let d = decision(pre, tick, sweep);
            &&& tick.estop ==> d.estop_latched
            &&& pre.estop_latched && !tick.estop_reset ==> d.estop_latched
            &&& tick.estop_reset && !tick.estop ==> !d.estop_latched
            &&& !pre.estop_latched && !tick.estop ==> !d.estop_latched
            &&& next_memory(pre, tick, sweep).estop_latched == d.estop_latched
        }),
{
}

/// A latched e-stop commands zero and reads as a stop for the e-stop, however clear the
/// floor is.
pub proof fn a_latched_estop_reads_as_a_stop(pre: Memory, tick: Tick, sweep: Sweep)
    requires
        decision(pre, tick, sweep).estop_latched,
    ensures
        decision(pre, tick, sweep).twist == types::stationary(),
        decision(pre, tick, sweep).state == FieldState::ProtectiveStop,
        decision(pre, tick, sweep).veto == VetoReason::EStop,
{
}

/// A robot that cannot see stops, and says so unless the e-stop outranks it.
pub proof fn a_blind_robot_stops(pre: Memory, tick: Tick, sweep: Sweep)
    requires
        blind(pre, tick),
    ensures
        ({
            let d = decision(pre, tick, sweep);
            &&& d.twist == types::stationary()
            &&& d.state == FieldState::ProtectiveStop
            &&& d.veto == if d.estop_latched {
                VetoReason::EStop
            } else {
                VetoReason::ScanStale
            }
            &&& d.closest_m == binary32::infinity()
        }),
{
}

/// The robot is blind exactly where its newest scan cannot be used, where it has never
/// had one that could, or where the last such scan is too old.
pub proof fn what_blinds_the_robot(pre: Memory, tick: Tick)
    ensures
        scan_fault(pre, tick) is Some ==> blind(pre, tick),
        pre.last_scan_us is None && tick.scan is None ==> blind(pre, tick),
        tick.scan is None ==> (pre.last_scan_us matches Some(t) ==> (blind(pre, tick)
            <==> types::elapsed(t, tick.now_us) > pre.cfg.scan_timeout_us)),
        tick.scan matches Some(s) ==> scan_fault(pre, tick) is None ==> (blind(pre, tick)
            <==> types::elapsed(s.stamp_us, tick.now_us) > pre.cfg.scan_timeout_us),
{
}

/// A scan that cannot be used is reported with the reason, until one arrives that can.
pub proof fn a_rejected_scan_is_reported(pre: Memory, tick: Tick, sweep: Sweep)
    ensures
        ({
            let d = decision(pre, tick, sweep);
            &&& tick.scan is Some ==> d.scan_error == scan_fault(pre, tick)
            &&& tick.scan is None ==> d.scan_error == pre.last_scan_error
            &&& scan_fault(pre, tick) is Some ==> d.state == FieldState::ProtectiveStop
        }),
{
}

/// A command that is not finite is discarded: the request becomes zero, and the
/// watchdog counts the cycle as one without a command.
pub proof fn a_garbled_command_is_discarded(pre: Memory, tick: Tick, sweep: Sweep)
    requires
        garbled(tick),
    ensures
        ({
            let post = next_memory(pre, tick, sweep);
            &&& post.last_cmd == types::stationary()
            &&& post.last_cmd_us == pre.last_cmd_us
            &&& watchdog_expired(pre, tick) == watchdog_expired(pre, (Tick { cmd: None, ..tick }))
            &&& decision(pre, tick, sweep).veto.rank() >= VetoReason::CommandInvalid.rank()
        }),
{
}

/// A stamp from the future counts as the present, so that it keeps neither a command
/// nor a scan fresh for longer.
pub proof fn a_stamp_from_the_future_counts_as_now(pre: Memory, tick: Tick)
    ensures
        tick.cmd matches Some(cmd) ==> cmd.twist.finite() ==> (command_time(pre, tick) matches Some(
            t,
        ) && t <= tick.now_us && t <= cmd.stamp_us),
        tick.scan matches Some(s) ==> scan_fault(pre, tick) is None ==> (scan_time(
            pre,
            tick,
        ) matches Some(t) && t <= tick.now_us && t <= s.stamp_us),
{
}

/// However long the loop stalled, the ramp honours at most a twentieth of a second.
pub proof fn a_stalled_loop_earns_no_large_step(pre: Memory, tick: Tick)
    requires
        pre.cfg.valid(),
    ensures
        timestep(pre, tick.now_us).at_most(binary32::fraction(5, 100)),
        binary32::zero().at_most(timestep(pre, tick.now_us)),
        gain(pre, tick).at_most(pre.cfg.max_accel.times(binary32::fraction(5, 100))),
        loss(pre, tick).at_most(pre.cfg.max_decel.times(binary32::fraction(5, 100))),
        turn(pre, tick).at_most(pre.cfg.max_angular_accel.times(binary32::fraction(5, 100))),
{
    numeric::lemma_constants();
    numeric::lemma_fraction(5, 100);
    lemma_timestep(pre, tick.now_us);
    let (dt, most) = (timestep(pre, tick.now_us), binary32::fraction(5, 100));
    numeric::lemma_times_grows(pre.cfg.max_accel, dt, pre.cfg.max_accel, most);
    numeric::lemma_times_grows(pre.cfg.max_decel, dt, pre.cfg.max_decel, most);
    numeric::lemma_times_grows(pre.cfg.max_angular_accel, dt, pre.cfg.max_angular_accel, most);
}

/// A rule that a veto names bears on a cycle.
pub open spec fn binds(pre: Memory, tick: Tick, sweep: Sweep, reason: VetoReason) -> bool {
    let latch = latch_after(pre, tick, sweep);
    let r = request(pre, tick);
    match reason {
        VetoReason::NoVeto => true,
        VetoReason::ZoneLimit => !zone_limited(pre.cfg, tick, vehicle_target(pre.cfg, r)).equals(
            vehicle_target(pre.cfg, r),
        ),
        VetoReason::DockingLimit => tick.mode == Mode::Docking && !docking_limited(
            pre.cfg,
            zone_target(pre.cfg, tick, r),
        ).equals(zone_target(pre.cfg, tick, r)),
        VetoReason::WarningClamp => latch.state == FieldState::Warning && !warning_limited(
            pre.cfg,
            docking_target(pre.cfg, tick, r),
        ).equals(docking_target(pre.cfg, tick, r)),
        VetoReason::CommandInvalid => garbled(tick),
        VetoReason::Watchdog => watchdog_expired(pre, tick),
        VetoReason::ProtectiveStop => latch.cause == Some(StopCause::Obstacle),
        VetoReason::ScanStale => latch.cause == Some(StopCause::Blind),
        VetoReason::EStop => latch.cause == Some(StopCause::EStop),
    }
}

/// The reported reason is the rule with the most authority among those that bear on the
/// cycle.
pub proof fn the_veto_is_the_strongest_rule(
    pre: Memory,
    tick: Tick,
    sweep: Sweep,
    other: VetoReason,
)
    requires
        binds(pre, tick, sweep, other),
    ensures
        binds(pre, tick, sweep, decision(pre, tick, sweep).veto),
        other.rank() <= decision(pre, tick, sweep).veto.rank(),
{
}

/// Where no rule is reported, the robot heads for the request itself, as far as the
/// vehicle can go.
pub proof fn an_unvetoed_request_passes_through(pre: Memory, tick: Tick, sweep: Sweep)
    requires
        pre.sound(),
        decision(pre, tick, sweep).veto == VetoReason::NoVeto,
    ensures
        ({
            let target = vehicle_target(pre.cfg, request(pre, tick));
            decision(pre, tick, sweep).twist == driven(
                pre,
                target,
                timestep(pre, tick.now_us),
            )
        }),
{
}

/// The same inputs against the same state always give the same decision and the same
/// state.
pub proof fn the_layer_is_deterministic<F: Fn(Binary32) -> Direction>(
    pre: Memory,
    tick: Tick,
    direction: &F,
    a: Sweep,
    b: Sweep,
)
    requires
        perception::steady(direction),
        swept(pre.sweep, tick, direction, a),
        swept(pre.sweep, tick, direction, b),
    ensures
        a == b,
        decision(pre, tick, a) == decision(pre, tick, b),
        next_memory(pre, tick, a) == next_memory(pre, tick, b),
{
    if let Some(s) = tick.scan {
        assert(a.directions =~= b.directions) by {
            assert forall|i: int| 0 <= i < a.directions.len() implies a.directions[i]
                == b.directions[i] by {
                let theta = scan::bearing(s.angle_min, s.angle_increment, i);
                if scan::built_for(a, s, direction) && scan::built_for(b, s, direction) {
                    assert(call_ensures(direction, (theta,), a.directions[i]));
                    assert(call_ensures(direction, (theta,), b.directions[i]));
                }
            }
        }
    }
}

} // verus!
