//! What one cycle makes of its inputs: each law speaks of the memory before, of what came
//! in, and of what came out.

use crate::arbiter::{
    blind, decision, docking_target, fields, final_target, latch_after, next_memory, ramped,
    request, scan_fault, swept, timestep, vehicle_target, warning_speed, watchdog_expired,
    zone_target, Memory, Tick, VetoReason,
};
use crate::binary32;
use crate::binary32::Binary32;
use crate::config::SafetyConfig;
use crate::field::extent;
use crate::laws::arbitration;
use crate::laws::arbitration::{gain, loss, slowed, turn};
use crate::laws::field::{least, lemma_scaled};
use crate::laws::perception;
use crate::laws::perception::{is_closest, stops, warns, well_posed};
use crate::numeric;
use crate::rounding;
use crate::scan;
use crate::scan::{Direction, ScanError, Sweep};
use crate::state::{FieldState, StopCause};
use crate::types;
use crate::types::{Command, Mode, Scan, Twist};
use vstd::prelude::*;

verus! {

/// A command has two finite components.
pub open spec fn valid_command(cmd: Command) -> bool {
    cmd.twist.linear.finite() && cmd.twist.angular.finite()
}

/// Both components of a velocity are zero.
pub open spec fn at_rest(twist: Twist) -> bool {
    &&& !twist.linear.nan() && twist.linear.value() == 0
    &&& !twist.angular.nan() && twist.angular.value() == 0
}

/// The earlier one of a stamp and the present.
pub open spec fn no_later(t: u64, stamp: u64, now: u64) -> bool {
    t <= stamp && t <= now && (t == stamp || t == now)
}

/// The last valid command is held: a cycle without a command keeps it and its age, a
/// valid command replaces it, and a garbled one replaces it by rest without making it any
/// younger.
pub proof fn the_last_valid_command_is_held(pre: Memory, tick: Tick, sweep: Sweep)
    ensures
        ({
            let post = next_memory(pre, tick, sweep);
            match tick.cmd {
                None => post.last_cmd == pre.last_cmd && post.last_cmd_us == pre.last_cmd_us,
                Some(cmd) => if valid_command(cmd) {
                    &&& post.last_cmd == cmd.twist
                    &&& post.last_cmd_us matches Some(t) && no_later(
                        t,
                        cmd.stamp_us,
                        tick.now_us,
                    )
                } else {
                    at_rest(post.last_cmd) && post.last_cmd_us == pre.last_cmd_us
                },
            }
        }),
{
    numeric::lemma_constants();
}

/// A scan has a geometry that can be used.
pub open spec fn usable(s: Scan) -> bool {
    &&& 0 < s.ranges@.len() <= 1081
    &&& s.angle_min.finite()
    &&& s.angle_increment.finite()
    &&& s.angle_increment.value() != 0
}

/// Everything else that a cycle leaves behind comes from the cycle: its time, its
/// command, its state, and the time of the newest usable scan. The configuration never
/// changes.
pub proof fn a_cycle_leaves_its_results_behind(pre: Memory, tick: Tick, sweep: Sweep)
    requires
        pre.sound(),
    ensures
        ({
            let (post, d) = (next_memory(pre, tick, sweep), decision(pre, tick, sweep));
            &&& post.cfg == pre.cfg
            &&& post.sweep == sweep
            &&& post.last_tick_us == Some(tick.now_us)
            &&& post.last_out == d.twist
            &&& post.latch.state == d.state
            &&& post.estop_latched == d.estop_latched
            &&& post.last_scan_error == d.scan_error
            &&& post.last_verdict.closest_m == d.closest_m
            &&& match tick.scan {
                Some(s) if usable(s) => post.last_scan_us matches Some(t) && no_later(
                    t,
                    s.stamp_us,
                    tick.now_us,
                ),
                _ => post.last_scan_us == pre.last_scan_us,
            }
        }),
{
    numeric::lemma_constants();
    if let Some(s) = tick.scan {
        perception::a_scan_is_refused_for_its_first_fault(s);
        arbitration::the_reported_error_is_the_fault_of_the_scan(pre, tick, sweep, s);
    }
}

/// After a usable scan the cache has a direction for each of its rays, and for no more.
pub proof fn the_cache_has_a_direction_for_each_ray<F: Fn(Binary32) -> Direction>(
    pre: Memory,
    tick: Tick,
    direction: &F,
    sweep: Sweep,
    s: Scan,
)
    requires
        pre.sound(),
        swept(pre.sweep, tick, direction, sweep),
        tick.scan == Some(s),
        usable(s),
    ensures
        sweep.directions.len() == s.ranges@.len(),
        sweep.angle_min == s.angle_min,
        sweep.angle_increment == s.angle_increment,
        sweep != pre.sweep ==> forall|i: int|
            0 <= i < s.ranges@.len() ==> call_ensures(
                direction,
                (scan::bearing(s.angle_min, s.angle_increment, i),),
                #[trigger] sweep.directions[i],
            ),
{
    numeric::lemma_constants();
}

/// A cache is replaced only for a usable scan of another geometry: without a scan, with one
/// that cannot be used, and with one that has as many rays and the same bearings, it stays.
pub proof fn the_cache_is_kept_otherwise<F: Fn(Binary32) -> Direction>(
    pre: Memory,
    tick: Tick,
    direction: &F,
    sweep: Sweep,
)
    requires
        pre.sound(),
        swept(pre.sweep, tick, direction, sweep),
        match tick.scan {
            None => true,
            Some(s) => !usable(s) || {
                &&& s.ranges@.len() == pre.sweep.directions.len()
                &&& s.angle_min == pre.sweep.angle_min
                &&& s.angle_increment == pre.sweep.angle_increment
            },
        },
    ensures
        sweep == pre.sweep,
{
    if let Some(s) = tick.scan {
        perception::a_scan_is_refused_for_its_first_fault(s);
    }
}

/// The time step of a cycle is the time since the last one, in seconds and up to
/// rounding: none on the first cycle and none where the clock ran backwards, and never
/// more than a twentieth of a second. It is that many times a millionth, rounded once.
pub proof fn the_time_step_is_the_time_since_the_last_cycle(pre: Memory, now: u64)
    ensures
        ({
            let dt = timestep(pre, now);
            let u = binary32::units_in_one();
            &&& dt.finite()
            &&& match pre.last_tick_us {
                None => dt.value() == 0,
                Some(prev) => if now <= prev {
                    dt.value() == 0
                } else {
                    let us = least(now - prev, 50_000);
                    let micro = numeric::round_value(u, 1_000_000);
                    let most = numeric::round_value(5 * u, 100);
                    &&& 0x40_0000 * binary32::size(1_000_000 * dt.value() - us * u) <= us * u
                    &&& now - prev <= 100_000 ==> dt.value() == least(
                        numeric::round_value((now - prev) * micro, 1),
                        most,
                    )
                    &&& now - prev >= 100_000 ==> dt.value() == most
                },
            }
        }),
{
    numeric::lemma_constants();
    arbitration::lemma_timestep(pre, now);
    let u = binary32::units_in_one();
    let us = match pre.last_tick_us {
        Some(prev) => types::elapsed(prev, now),
        None => 0,
    };
    let most = binary32::fraction(5, 100);
    numeric::lemma_fraction(5, 100);
    lemma_fraction_error(5, 100);
    lemma_micros(us);
    if us >= 50_000 {
        lemma_micros(50_000);
        lemma_micros_order(50_000, us);
    }
    if us >= 100_000 {
        lemma_micros(100_000);
        lemma_micros_order(100_000, us);
    }
    numeric::lemma_fraction(1, 1_000_000);
    assert(1 * u == u);
    assert(50_000 * u == 10_000 * (5 * u));
    assert(us <= 49_999 ==> us * u <= 49_999 * u) by (nonlinear_arith)
        requires
            u > 0,
    ;
    assert(us == 50_000 ==> us * u == 50_000 * u);
    let dt = timestep(pre, now);
    assert(dt == seconds(us).lesser(most));
    assert(0x100_0000 * binary32::size(1_000_000 * most.value() - 50_000 * u) <= 50_000 * u);
    if us >= 50_000 {
        assert(0x40_0000 * binary32::size(1_000_000 * dt.value() - 50_000 * u) <= 50_000 * u);
    } else {
        assert(0x40_0000 * binary32::size(1_000_000 * dt.value() - us * u) <= us * u);
    }
    if us == 0 {
        assert(us * u == 0) by (nonlinear_arith)
            requires
                us == 0,
        ;
    }
}

/// A number of microseconds in seconds.
spec fn seconds(us: int) -> Binary32 {
    binary32::rounded(false, us * binary32::units_in_one(), 1).times(
        binary32::fraction(1, 1_000_000),
    )
}

/// A fraction of at most two is exact up to one part in 2^24.
proof fn lemma_fraction_error(num: int, den: int)
    requires
        0 < den <= 0x10_0000,
        0 < num <= 2 * den,
    ensures
        ({
            let u = binary32::units_in_one();
            0x100_0000 * binary32::size(den * binary32::fraction(num, den).value() - num * u)
                <= num * u
        }),
{
    let u = binary32::units_in_one();
    numeric::lemma_constants();
    numeric::lemma_fraction(num, den);
    let r = binary32::fraction(num, den);
    numeric::lemma_finite(r);
    assert(u >= 0x1000_0000_0000_0000) by {
        vstd::arithmetic::power2::lemma2_to64();
        vstd::arithmetic::power2::lemma2_to64_rest();
        vstd::arithmetic::power2::lemma_pow2_strictly_increases(60, 149);
    }
    assert(num * u > den * 0x80_0000) by (nonlinear_arith)
        requires
            num > 0,
            0 < den <= 0x10_0000,
            u >= 0x1000_0000_0000_0000,
    ;
    assert(num * u > 0) by (nonlinear_arith)
        requires
            num > 0,
            u > 0,
    ;
    rounding::lemma_nearest_error(num * u, den);
}

/// A number of microseconds that the clock can hold is converted to a finite number of
/// seconds, and exactly up to rounding where it is small.
proof fn lemma_micros(us: int)
    requires
        0 <= us <= u64::MAX,
    ensures
        seconds(us).finite(),
        seconds(us).value() >= 0,
        us <= 100_000 ==> 0x40_0000 * binary32::size(
            1_000_000 * seconds(us).value() - us * binary32::units_in_one(),
        ) <= us * binary32::units_in_one(),
        us <= 100_000 ==> seconds(us).value() == numeric::round_value(
            us * binary32::fraction(1, 1_000_000).value(),
            1,
        ),
        us == 0 ==> seconds(us).value() == 0,
{
    numeric::lemma_constants();
    let u = binary32::units_in_one();
    let n = binary32::rounded(false, us * u, 1);
    let micro = binary32::fraction(1, 1_000_000);
    lemma_whole(us);
    numeric::lemma_fraction(1, 1_000_000);
    numeric::lemma_fraction_order(1, 1_000_000, 1, 1);
    numeric::lemma_fraction_whole(binary32::unit(), 1, 1);
    lemma_fraction_error(1, 1_000_000);
    numeric::lemma_times_fraction(n, micro);
    if us <= 100_000 {
        let m = micro.value();
        binary32::lemma_from_integer(us, n);
        assert(n.value() == us * u) by {
            reveal(Binary32::value);
        }
        numeric::lemma_times(n, micro);
        assert((us * u) * m == (us * m) * u) by (nonlinear_arith);
        lemma_scaled(us * m, u);
        let x = us * m;
        assert(x >= 0) by (nonlinear_arith)
            requires
                x == us * m,
                us >= 0,
                m > 0,
        ;
        numeric::lemma_round_error(x);
        numeric::lemma_finite(seconds(us));
        assert(0x100_0000 * binary32::size(1_000_000 * x - us * u) <= us * u) by {
            let d = 1_000_000 * m - u;
            assert(1_000_000 * x - us * u == us * d) by (nonlinear_arith)
                requires
                    x == us * m,
                    d == 1_000_000 * m - u,
            ;
            assert(0x100_0000 * (us * d) <= us * u && 0x100_0000 * (us * d) >= -(us * u))
                by (nonlinear_arith)
                requires
                    us >= 0,
                    0x100_0000 * d <= u,
                    0x100_0000 * d >= -u,
            ;
        }
        assert(us * u >= 0) by (nonlinear_arith)
            requires
                us >= 0,
                u > 0,
        ;
        if us == 0 {
            assert(x == 0) by (nonlinear_arith)
                requires
                    x == us * m,
                    us == 0,
            ;
        }
    }
}

/// Every whole number that the clock can hold is converted to a finite number.
proof fn lemma_whole(us: int)
    requires
        0 <= us <= u64::MAX,
    ensures
        binary32::rounded(false, us * binary32::units_in_one(), 1).finite(),
        binary32::rounded(false, us * binary32::units_in_one(), 1).value()
            == numeric::round_value(us * binary32::units_in_one(), 1),
        binary32::rounded(false, us * binary32::units_in_one(), 1).value() >= 0,
{
    numeric::lemma_constants();
    let u = binary32::units_in_one();
    assert(us * u >= 0) by (nonlinear_arith)
        requires
            us >= 0,
            u > 0,
    ;
    rounding::lemma_nearest(us * u, 1);
    let m = rounding::nearest(us * u, 1);
    numeric::lemma_with_sign(false, m);
    rounding::lemma_magnitude_order(m, 0);
    vstd::arithmetic::power2::lemma2_to64();
    let p = binary32::lemma_short_magnitude(0x80_0000, 190);
    let top = binary32::with_sign(false, p);
    numeric::lemma_with_sign(false, p);
    numeric::lemma_finite(top);
    vstd::arithmetic::power2::lemma_pow2_adds(23, 190);
    vstd::arithmetic::power2::lemma_pow2_adds(64, 149);
    assert(us * u <= top.value()) by (nonlinear_arith)
        requires
            us <= 0x1_0000_0000_0000_0000,
            u > 0,
            top.value() == 0x1_0000_0000_0000_0000 * u,
    ;
    numeric::lemma_round_at(top, us * u);
    numeric::lemma_finite(binary32::with_sign(false, m));
}

/// More microseconds are no fewer seconds.
proof fn lemma_micros_order(a: int, b: int)
    requires
        0 <= a <= b <= u64::MAX,
    ensures
        seconds(a).value() <= seconds(b).value(),
{
    let u = binary32::units_in_one();
    numeric::lemma_constants();
    lemma_whole(a);
    lemma_whole(b);
    assert(a * u <= b * u) by (nonlinear_arith)
        requires
            a <= b,
            u > 0,
    ;
    numeric::lemma_round_order(a * u, 1, b * u, 1);
    numeric::lemma_fraction(1, 1_000_000);
    let micro = binary32::fraction(1, 1_000_000);
    numeric::lemma_times_grows(
        binary32::rounded(false, a * u, 1),
        micro,
        binary32::rounded(false, b * u, 1),
        micro,
    );
}

/// No valid command is recent: the newest one, be it of this cycle or an earlier one, was
/// produced longer ago than the watchdog allows, or there never was one.
pub open spec fn planner_is_silent(pre: Memory, tick: Tick) -> bool {
    match tick.cmd {
        Some(cmd) if valid_command(cmd) => tick.now_us > cmd.stamp_us
            + pre.cfg.watchdog_timeout_us,
        _ => match pre.last_cmd_us {
            Some(t) => tick.now_us > t + pre.cfg.watchdog_timeout_us,
            None => true,
        },
    }
}

/// A silent planner ramps the robot to rest, in every mode: each component comes down by
/// its step and the watchdog is reported, unless a stop outranks it. A planner that is
/// not silent is never taken for one.
pub proof fn a_silent_planner_ramps_the_robot_to_rest(pre: Memory, tick: Tick, sweep: Sweep)
    requires
        pre.sound(),
    ensures
        ({
            let d = decision(pre, tick, sweep);
            let stopped = d.state == FieldState::ProtectiveStop;
            &&& planner_is_silent(pre, tick) ==> {
                &&& slowed(pre.last_out.linear, d.twist.linear, loss(pre, tick), stopped)
                &&& slowed(pre.last_out.angular, d.twist.angular, turn(pre, tick), stopped)
            }
            &&& d.veto == VetoReason::Watchdog <==> planner_is_silent(pre, tick) && !stopped
        }),
{
    lemma_silent(pre, tick);
    if planner_is_silent(pre, tick) {
        arbitration::a_lost_planner_brakes_the_robot(pre, tick, sweep);
    }
    lemma_cause(pre, tick, sweep);
}

/// The watchdog expires exactly where the planner is silent.
proof fn lemma_silent(pre: Memory, tick: Tick)
    ensures
        watchdog_expired(pre, tick) <==> planner_is_silent(pre, tick),
{
}

/// A cause is on record exactly during a stop.
proof fn lemma_cause(pre: Memory, tick: Tick, sweep: Sweep)
    requires
        pre.sound(),
    ensures
        latch_after(pre, tick, sweep).cause is Some <==> decision(pre, tick, sweep).state
            == FieldState::ProtectiveStop,
{
}

/// The fields of a cycle are those of the faster one of two speeds: the one that the robot
/// has, and the one that it is asked for. They are neither longer nor shorter.
#[verifier::rlimit(40)]
pub proof fn the_fields_are_those_of_the_faster_speed(pre: Memory, tick: Tick, sweep: Sweep)
    requires
        pre.sound(),
    ensures
        ({
            let d = decision(pre, tick, sweep);
            let (has, asked) = (
                pre.last_out.linear,
                next_memory(pre, tick, sweep).last_cmd.linear,
            );
            let (x, y) = (binary32::size(has.value()), binary32::size(asked.value()));
            &&& x >= y ==> d.extent == extent(pre.cfg, has, tick.mode)
            &&& x <= y ==> d.extent == extent(pre.cfg, asked, tick.mode)
        }),
{
    let (has, asked) = (pre.last_out.linear, next_memory(pre, tick, sweep).last_cmd.linear);
    arbitration::lemma_final_target(pre, tick, FieldState::Clear);
    numeric::lemma_signs(has);
    numeric::lemma_signs(asked);
    lemma_extent_of_size(pre.cfg, has, tick.mode);
    lemma_extent_of_size(pre.cfg, asked, tick.mode);
    binary32::lemma_key_order(has.absolute(), asked.absolute());
    assert(has.absolute().value() == asked.absolute().value() ==> has.absolute()
        == asked.absolute());
}

/// A field does not depend on the sign of the speed.
proof fn lemma_extent_of_size(cfg: SafetyConfig, speed: Binary32, mode: Mode)
    requires
        speed.finite(),
    ensures
        extent(cfg, speed.absolute(), mode) == extent(cfg, speed, mode),
{
    numeric::lemma_signs(speed);
    reveal(Binary32::absolute);
    assert(speed.absolute().absolute() == speed.absolute());
}

/// The limit on the forward speed that a zone and the vehicle set together.
pub open spec fn zone_ceiling(pre: Memory, tick: Tick) -> int {
    let (most, zone) = (pre.cfg.max_linear.value(), tick.zone.max_linear);
    if zone.nan() {
        most
    } else {
        least(most, zone.value())
    }
}

/// The limit on the yaw rate that a zone and the vehicle set together.
pub open spec fn turn_ceiling(pre: Memory, tick: Tick) -> int {
    let (most, zone) = (pre.cfg.max_angular.value(), tick.zone.max_angular);
    if zone.nan() {
        most
    } else {
        least(most, zone.value())
    }
}

/// The limit on the forward speed that the mode adds.
pub open spec fn docking_ceiling(pre: Memory, tick: Tick) -> int {
    if tick.mode == Mode::Docking {
        least(zone_ceiling(pre, tick), pre.cfg.docking.max_linear.value())
    } else {
        zone_ceiling(pre, tick)
    }
}

/// The configured fraction of the top speed, rounded once.
pub open spec fn fraction_of_top_speed(cfg: SafetyConfig) -> int {
    numeric::round_value(
        cfg.max_linear.value() * cfg.warning_speed_frac.value(),
        binary32::units_in_one(),
    )
}

/// The limit on the forward speed that a warning adds.
pub open spec fn warning_ceiling(pre: Memory, tick: Tick, state: FieldState) -> int {
    if state == FieldState::Warning {
        least(docking_ceiling(pre, tick), fraction_of_top_speed(pre.cfg))
    } else {
        docking_ceiling(pre, tick)
    }
}

/// The zone sets no negative limit.
pub open spec fn zone_is_sane(tick: Tick) -> bool {
    &&& tick.zone.max_linear.nan() || tick.zone.max_linear.value() >= 0
    &&& tick.zone.max_angular.nan() || tick.zone.max_angular.value() >= 0
}

/// The speed permitted in a warning is the configured fraction of the top speed, in real
/// numbers and up to one part in 2^24, or half a unit of the smallest subnormal.
pub proof fn the_warning_speed_is_a_fraction_of_the_top_speed(cfg: SafetyConfig)
    requires
        cfg.valid(),
    ensures
        ({
            let (u, w) = (binary32::units_in_one(), warning_speed(cfg));
            let exact = cfg.max_linear.value() * cfg.warning_speed_frac.value();
            &&& w.finite()
            &&& w.value() == fraction_of_top_speed(cfg)
            &&& 0x100_0000 * binary32::size(u * w.value() - exact) <= exact || 2 * binary32::size(
                u * w.value() - exact,
            ) <= u
            &&& cfg.warning_speed_frac.value() == u ==> w.value() == cfg.max_linear.value()
            &&& cfg.warning_speed_frac.value() == 0 ==> w.value() == 0
        }),
{
    numeric::lemma_constants();
    let u = binary32::units_in_one();
    let exact = cfg.max_linear.value() * cfg.warning_speed_frac.value();
    numeric::lemma_times_fraction(cfg.max_linear, cfg.warning_speed_frac);
    numeric::lemma_times(cfg.max_linear, cfg.warning_speed_frac);
    numeric::lemma_finite(warning_speed(cfg));
    assert(exact >= 0) by (nonlinear_arith)
        requires
            cfg.max_linear.value() >= 0,
            cfg.warning_speed_frac.value() >= 0,
            exact == cfg.max_linear.value() * cfg.warning_speed_frac.value(),
    ;
    rounding::lemma_nearest_error(exact, u);
    numeric::lemma_round_exact(cfg.max_linear, u);
    numeric::lemma_round_exact(binary32::zero(), u);
    assert(cfg.warning_speed_frac.value() == u ==> exact == u * cfg.max_linear.value())
        by (nonlinear_arith)
        requires
            exact == cfg.max_linear.value() * cfg.warning_speed_frac.value(),
    ;
    assert(cfg.warning_speed_frac.value() == 0 ==> exact == 0) by (nonlinear_arith)
        requires
            exact == cfg.max_linear.value() * cfg.warning_speed_frac.value(),
    ;
    assert(u * 0 == 0);
}

/// The forward velocity that a cycle is to reach.
pub open spec fn wanted(pre: Memory, tick: Tick, sweep: Sweep) -> int {
    if planner_is_silent(pre, tick) {
        0
    } else {
        numeric::bounded(
            next_memory(pre, tick, sweep).last_cmd.linear.value(),
            warning_ceiling(pre, tick, decision(pre, tick, sweep).state),
        )
    }
}

/// The yaw rate that a cycle is to reach.
pub open spec fn wanted_turn(pre: Memory, tick: Tick, sweep: Sweep) -> int {
    if planner_is_silent(pre, tick) {
        0
    } else {
        numeric::bounded(
            next_memory(pre, tick, sweep).last_cmd.angular.value(),
            turn_ceiling(pre, tick),
        )
    }
}

/// A component came as near to a wanted value as its step allows: it has gone the whole
/// way, the difference and the sum rounded once each, where that is within one step, and
/// is then there up to one part in 2^22 of the limit of the vehicle. It has moved toward
/// it by the whole step where it is not, and it stays once it has arrived.
pub open spec fn closes_in(
    prev: Binary32,
    wanted: int,
    out: Binary32,
    step: Binary32,
    limit: Binary32,
) -> bool {
    let p = prev.value();
    &&& !out.nan()
    &&& if binary32::size(wanted - p) <= step.value() {
        let reached = numeric::round_value(p + numeric::round_value(wanted - p, 1), 1);
        &&& out.value() == numeric::bounded(reached, limit.value())
        &&& 0x40_0000 * binary32::size(out.value() - wanted) <= limit.value()
    } else if p < wanted {
        out.value() == numeric::round_value(p + step.value(), 1)
    } else {
        out.value() == numeric::round_value(p - step.value(), 1)
    }
    &&& p == wanted ==> out.value() == wanted
}

/// A robot that is not stopped does what it is asked, as far as it may: it closes in on
/// the last valid command within the limits of the vehicle, the zone, the docking mode
/// and the warning, by the gentle step where that is faster than it goes and by the hard
/// one where it is not.
pub proof fn an_unstopped_robot_does_what_it_is_asked(pre: Memory, tick: Tick, sweep: Sweep)
    requires
        pre.sound(),
        zone_is_sane(tick),
        decision(pre, tick, sweep).state != FieldState::ProtectiveStop,
    ensures
        ({
            let (prev, out) = (pre.last_out, decision(pre, tick, sweep).twist);
            let (v, w) = (wanted(pre, tick, sweep), wanted_turn(pre, tick, sweep));
            let step = if binary32::size(prev.linear.value()) < binary32::size(v) {
                gain(pre, tick)
            } else {
                loss(pre, tick)
            };
            &&& closes_in(prev.linear, v, out.linear, step, pre.cfg.max_linear)
            &&& closes_in(prev.angular, w, out.angular, turn(pre, tick), pre.cfg.max_angular)
        }),
{
    let (prev, out) = (pre.last_out, decision(pre, tick, sweep).twist);
    let target = final_target(pre, tick, decision(pre, tick, sweep).state);
    let (linear, angular) = (pre.cfg.max_linear, pre.cfg.max_angular);
    lemma_wanted(pre, tick, sweep);
    arbitration::lemma_output(pre, tick, sweep);
    arbitration::lemma_steps(pre, tick);
    let step = if binary32::size(prev.linear.value()) < binary32::size(target.linear.value()) {
        gain(pre, tick)
    } else {
        loss(pre, tick)
    };
    lemma_closes_in(prev.linear, target.linear, out.linear, step, linear);
    lemma_closes_in(prev.angular, target.angular, out.angular, turn(pre, tick), angular);
}

/// One step of a ramp toward a target within the limit of the vehicle closes in on it.
proof fn lemma_closes_in(
    prev: Binary32,
    target: Binary32,
    out: Binary32,
    step: Binary32,
    limit: Binary32,
)
    requires
        prev.finite(),
        target.finite(),
        step.finite(),
        step.value() >= 0,
        limit.finite(),
        !out.nan(),
        binary32::size(prev.value()) <= limit.value(),
        binary32::size(target.value()) <= limit.value(),
        out.value() == numeric::bounded(ramped(prev, target, step).value(), limit.value()),
    ensures
        closes_in(prev, target.value(), out, step, limit),
{
    let x = target.value() - prev.value();
    arbitration::lemma_approaches(prev, target, out, step, limit);
    numeric::lemma_ramp(prev, target, step);
    numeric::lemma_signs(step);
    numeric::lemma_round_at(step, x);
    numeric::lemma_plus(prev, step);
    numeric::lemma_plus(prev, step.opposite());
}

/// The target of a cycle is what is wanted of it.
#[verifier::rlimit(40)]
proof fn lemma_wanted(pre: Memory, tick: Tick, sweep: Sweep)
    requires
        pre.sound(),
        zone_is_sane(tick),
    ensures
        ({
            let target = final_target(pre, tick, decision(pre, tick, sweep).state);
            &&& tick.zone.sane()
            &&& target.finite()
            &&& target.linear.value() == wanted(pre, tick, sweep)
            &&& target.angular.value() == wanted_turn(pre, tick, sweep)
            &&& binary32::size(target.linear.value()) <= pre.cfg.max_linear.value()
            &&& binary32::size(target.angular.value()) <= pre.cfg.max_angular.value()
        }),
{
    let state = decision(pre, tick, sweep).state;
    let r = request(pre, tick);
    numeric::lemma_constants();
    lemma_silent(pre, tick);
    arbitration::lemma_final_target(pre, tick, state);
    arbitration::lemma_targets(pre.cfg, tick, r, state);
    the_warning_speed_is_a_fraction_of_the_top_speed(pre.cfg);
    numeric::lemma_clamp(r.linear, pre.cfg.max_linear);
    numeric::lemma_clamp(r.angular, pre.cfg.max_angular);
    assert(next_memory(pre, tick, sweep).last_cmd == r);
    let k = docking_target(pre.cfg, tick, r);
    assert(k.linear.value() == numeric::bounded(r.linear.value(), docking_ceiling(pre, tick)));
    assert(k.angular.value() == numeric::bounded(r.angular.value(), turn_ceiling(pre, tick)));
}

/// A scan that is usable and recent enough has arrived, now or before.
pub open spec fn sees(pre: Memory, tick: Tick) -> bool {
    match tick.scan {
        Some(s) => usable(s) && tick.now_us <= s.stamp_us + pre.cfg.scan_timeout_us,
        None => pre.last_scan_us matches Some(t) && tick.now_us <= t + pre.cfg.scan_timeout_us,
    }
}

/// The robot is blind exactly where it does not see.
proof fn lemma_sees(pre: Memory, tick: Tick)
    requires
        pre.sound(),
    ensures
        blind(pre, tick) <==> !sees(pre, tick),
        tick.scan matches Some(s) ==> (scan_fault(pre, tick) is None <==> usable(s)),
{
    numeric::lemma_constants();
    if let Some(s) = tick.scan {
        perception::a_scan_is_refused_for_its_first_fault(s);
    }
}

/// A robot that cannot see knows nothing of the floor, which counts as a breach without a
/// return. Between scans, a robot that sees keeps what the last scan told it.
pub proof fn what_is_not_seen_is_a_breach(pre: Memory, tick: Tick, sweep: Sweep)
    requires
        pre.sound(),
    ensures
        ({
            let v = next_memory(pre, tick, sweep).last_verdict;
            &&& !sees(pre, tick) ==> {
                &&& v.protective_breach && v.warning_breach
                &&& v.protective_hits == 0 && v.warning_hits == 0
                &&& v.closest_m.infinite() && !v.closest_m.negative()
            }
            &&& sees(pre, tick) && tick.scan is None ==> v == pre.last_verdict
        }),
{
    lemma_sees(pre, tick);
}

/// Every ray of a scan is judged by its own range and direction against the fields of the
/// cycle, from the first ray to the last: the protective field is breached exactly where
/// some ray has a measurement in it, the counts are the numbers of those rays, and the
/// closest return is the least measurement of the scan.
pub proof fn every_ray_of_the_scan_is_judged(
    pre: Memory,
    tick: Tick,
    sweep: Sweep,
    s: Scan,
    warning: Set<int>,
    protective: Set<int>,
)
    requires
        pre.sound(),
        tick.scan == Some(s),
        sees(pre, tick),
        sweep.directions.len() == s.ranges@.len(),
        well_posed(sweep, decision(pre, tick, sweep).extent),
        forall|i: int|
            #![trigger warning.contains(i)]
            warning.contains(i) <==> 0 <= i < s.ranges@.len() && warns(
                sweep,
                s,
                decision(pre, tick, sweep).extent,
                i,
            ),
        forall|i: int|
            #![trigger protective.contains(i)]
            protective.contains(i) <==> 0 <= i < s.ranges@.len() && stops(
                sweep,
                s,
                decision(pre, tick, sweep).extent,
                i,
            ),
    ensures
        ({
            let v = next_memory(pre, tick, sweep).last_verdict;
            &&& v.warning_hits == warning.len()
            &&& v.protective_hits == protective.len()
            &&& v.warning_breach <==> exists|i: int| #[trigger] warning.contains(i)
            &&& v.protective_breach <==> exists|i: int| #[trigger] protective.contains(i)
            &&& v.warning_breach <==> v.warning_hits > 0
            &&& v.protective_breach <==> v.protective_hits > 0
            &&& is_closest(sweep, s, v.closest_m)
            &&& decision(pre, tick, sweep).closest_m == v.closest_m
        }),
{
    lemma_sees(pre, tick);
    perception::every_ray_is_looked_at(sweep, s, fields(pre, tick), warning, protective);
}

/// The e-stop is in force: asserted now, or latched before and not acknowledged.
pub open spec fn estop_in_force(pre: Memory, tick: Tick) -> bool {
    tick.estop || pre.estop_latched && !tick.estop_reset
}

/// The state that a floor without a protective breach calls for.
pub open spec fn free_state(warning: bool) -> FieldState {
    if warning {
        FieldState::Warning
    } else {
        FieldState::Clear
    }
}

/// The state follows the e-stop and what is seen. The e-stop and a breach stop the robot
/// on that cycle. A robot that was not stopped is then free. One that was stopped is free
/// once the field has been clear for the whole hold, and until then it keeps its stop, the
/// reason for it, and the time at which the field became clear.
#[verifier::rlimit(40)]
pub proof fn the_state_follows_what_is_seen(pre: Memory, tick: Tick, sweep: Sweep)
    requires
        pre.sound(),
    ensures
        ({
            let (post, d) = (next_memory(pre, tick, sweep), decision(pre, tick, sweep));
            let (v, hold) = (post.last_verdict, pre.cfg.clear_hold_us);
            let stop = FieldState::ProtectiveStop;
            let from = match pre.latch.clear_since {
                Some(t) => t,
                None => tick.now_us,
            };
            &&& d.estop_latched <==> estop_in_force(pre, tick)
            &&& if estop_in_force(pre, tick) {
                &&& d.state == stop && d.veto == VetoReason::EStop
                &&& post.latch.cause == Some(StopCause::EStop) && post.latch.clear_since is None
            } else if v.protective_breach {
                let seen = v.protective_hits > 0;
                &&& d.state == stop && post.latch.clear_since is None
                &&& post.latch.cause == Some(
                    if seen {
                        StopCause::Obstacle
                    } else {
                        StopCause::Blind
                    },
                )
                &&& d.veto == if seen {
                    VetoReason::ProtectiveStop
                } else {
                    VetoReason::ScanStale
                }
            } else if pre.latch.state != stop || hold == 0 || tick.now_us >= from + hold {
                &&& d.state == free_state(v.warning_breach)
                &&& post.latch.cause is None && post.latch.clear_since is None
            } else {
                &&& d.state == stop
                &&& post.latch.cause == pre.latch.cause
                &&& post.latch.clear_since == Some(from)
                &&& d.veto == match pre.latch.cause {
                    Some(StopCause::EStop) => VetoReason::EStop,
                    Some(StopCause::Blind) => VetoReason::ScanStale,
                    _ => VetoReason::ProtectiveStop,
                }
            }
            &&& d.state == stop ==> at_rest(d.twist)
        }),
{
    numeric::lemma_constants();
}

/// A limit leaves a target alone exactly where both components are within it.
proof fn lemma_unbound(target: Twist, linear: Binary32, angular: Binary32)
    requires
        !target.linear.nan(),
        !target.angular.nan(),
        !linear.nan(),
        !angular.nan(),
        linear.value() >= 0,
        angular.value() >= 0,
    ensures
        target.limited(linear, angular).equals(target) <==> binary32::size(target.linear.value())
            <= linear.value() && binary32::size(target.angular.value()) <= angular.value(),
{
    numeric::lemma_clamp(target.linear, linear);
    numeric::lemma_clamp(target.angular, angular);
}

/// The reason that is given where no stop and no silence is: the garbled command, or else
/// the strongest speed limit that the request exceeds, or none.
pub open spec fn limit_reason(pre: Memory, tick: Tick, sweep: Sweep) -> VetoReason {
    let asked = next_memory(pre, tick, sweep).last_cmd;
    let (x, w) = (asked.linear.value(), asked.angular.value());
    let vehicle = numeric::bounded(x, pre.cfg.max_linear.value());
    let turning = numeric::bounded(w, pre.cfg.max_angular.value());
    let zoned = numeric::bounded(x, zone_ceiling(pre, tick));
    let docked = numeric::bounded(x, docking_ceiling(pre, tick));
    if tick.cmd matches Some(cmd) && !valid_command(cmd) {
        VetoReason::CommandInvalid
    } else if decision(pre, tick, sweep).state == FieldState::Warning && binary32::size(docked)
        > fraction_of_top_speed(pre.cfg) {
        VetoReason::WarningClamp
    } else if tick.mode == Mode::Docking && binary32::size(zoned)
        > pre.cfg.docking.max_linear.value() {
        VetoReason::DockingLimit
    } else if binary32::size(vehicle) > zone_ceiling(pre, tick) || binary32::size(turning)
        > turn_ceiling(pre, tick) {
        VetoReason::ZoneLimit
    } else {
        VetoReason::NoVeto
    }
}

/// Without a stop, the reported reason is the strongest rule that changed the request.
#[verifier::rlimit(40)]
pub proof fn the_reason_is_the_strongest_rule_that_changed_the_request(
    pre: Memory,
    tick: Tick,
    sweep: Sweep,
)
    requires
        pre.sound(),
        zone_is_sane(tick),
        decision(pre, tick, sweep).state != FieldState::ProtectiveStop,
    ensures
        decision(pre, tick, sweep).veto == if planner_is_silent(pre, tick) {
            VetoReason::Watchdog
        } else {
            limit_reason(pre, tick, sweep)
        },
{
    let state = decision(pre, tick, sweep).state;
    let (cfg, r) = (pre.cfg, request(pre, tick));
    numeric::lemma_constants();
    lemma_silent(pre, tick);
    lemma_cause(pre, tick, sweep);
    lemma_wanted(pre, tick, sweep);
    arbitration::lemma_final_target(pre, tick, state);
    arbitration::lemma_targets(cfg, tick, r, state);
    the_warning_speed_is_a_fraction_of_the_top_speed(cfg);
    numeric::lemma_clamp(r.linear, cfg.max_linear);
    numeric::lemma_clamp(r.angular, cfg.max_angular);
    let (v, z, k) = (
        vehicle_target(cfg, r),
        zone_target(cfg, tick, r),
        docking_target(cfg, tick, r),
    );
    lemma_unbound(
        v,
        cfg.max_linear.lesser(tick.zone.max_linear),
        cfg.max_angular.lesser(tick.zone.max_angular),
    );
    lemma_unbound(z, cfg.docking.max_linear, cfg.max_angular);
    lemma_unbound(k, warning_speed(cfg), cfg.max_angular);
    assert(z.linear.value() == numeric::bounded(r.linear.value(), zone_ceiling(pre, tick)));
    assert(k.linear.value() == numeric::bounded(r.linear.value(), docking_ceiling(pre, tick)));
}

/// The reported scan error is that of the scan that came in, named for its first fault,
/// and that of the last one where none came in.
pub proof fn a_scan_error_names_its_fault(pre: Memory, tick: Tick, sweep: Sweep)
    requires
        pre.sound(),
    ensures
        ({
            let e = decision(pre, tick, sweep).scan_error;
            match tick.scan {
                None => e == pre.last_scan_error,
                Some(s) => {
                    let rays = s.ranges@.len();
                    &&& usable(s) <==> e is None
                    &&& rays == 0 <==> e == Some(ScanError::Empty)
                    &&& rays > 1081 <==> e == Some(ScanError::TooManyRays)
                    &&& 0 < rays <= 1081 && !s.angle_min.finite() <==> e == Some(
                        ScanError::BadAngleMin,
                    )
                    &&& 0 < rays <= 1081 && s.angle_min.finite() && !usable(s) <==> e == Some(
                        ScanError::BadIncrement,
                    )
                },
            }
        }),
{
    if let Some(s) = tick.scan {
        perception::a_scan_is_refused_for_its_first_fault(s);
        arbitration::the_reported_error_is_the_fault_of_the_scan(pre, tick, sweep, s);
    }
}

} // verus!
