//! What a configuration guarantees.

use crate::arbiter::{fresh, request, warning_speed, warning_target, Memory, Tick};
use crate::binary32;
use crate::binary32::Binary32;
use crate::config::{
    default_config, first_fault, fraction_fault, negative_fault, positive_fault, scale_fault,
    ConfigError, SafetyConfig,
};
use crate::laws::arbitration;
use crate::laws::arbitration::{gain, loss, swings};
use crate::numeric;
use crate::scan::Sweep;
use crate::state::FieldState;
use vstd::prelude::*;

verus! {

/// The default configuration is valid.
pub proof fn the_default_configuration_is_valid()
    ensures
        default_config().valid(),
{
    numeric::lemma_constants();
    numeric::lemma_fraction(12, 10);
    numeric::lemma_fraction(15, 10);
    numeric::lemma_fraction(8, 10);
    numeric::lemma_fraction(1, 1);
    numeric::lemma_fraction(2, 1);
    numeric::lemma_fraction(12, 100);
    numeric::lemma_fraction(10, 100);
    numeric::lemma_fraction(25, 100);
    numeric::lemma_fraction(45, 100);
    numeric::lemma_fraction(35, 100);
    numeric::lemma_fraction(22, 100);
    numeric::lemma_fraction(15, 100);
    numeric::lemma_fraction_whole(binary32::unit(), 1, 1);
    numeric::lemma_fraction_whole(binary32::two(), 2, 1);
    numeric::lemma_fraction_order(35, 100, 1, 1);
    numeric::lemma_fraction_order(22, 100, 45, 100);
    numeric::lemma_fraction_order(15, 100, 12, 10);
}

/// An arbiter that has not run yet is sound.
pub proof fn a_fresh_arbiter_is_sound(cfg: SafetyConfig, sweep: Sweep)
    requires
        cfg.valid(),
        sweep.directions.len() == 0,
    ensures
        fresh(cfg, sweep).sound(),
{
    numeric::lemma_constants();
    numeric::lemma_signs(binary32::zero());
}

/// The robot brakes at least as hard as it accelerates, and its longest braking step
/// does not take it past rest from the warning speed.
pub open spec fn brakes_harder(cfg: SafetyConfig) -> bool {
    &&& cfg.max_accel.at_most(cfg.max_decel)
    &&& cfg.max_decel.times(binary32::fraction(5, 100)).at_most(warning_speed(cfg))
}

/// A robot that brakes at least as hard as it accelerates is never made faster by a
/// warning, not even while it moves against its request.
pub proof fn a_robot_that_brakes_harder_never_swings(pre: Memory, tick: Tick)
    requires
        pre.sound(),
        tick.zone.sane(),
        brakes_harder(pre.cfg),
    ensures
        !swings(
            pre,
            tick,
            warning_target(pre.cfg, tick, request(pre, tick), FieldState::Warning),
            warning_target(pre.cfg, tick, request(pre, tick), FieldState::Clear),
        ),
{
    let r = request(pre, tick);
    arbitration::lemma_final_target(pre, tick, FieldState::Warning);
    arbitration::lemma_targets(pre.cfg, tick, r, FieldState::Warning);
    arbitration::lemma_targets(pre.cfg, tick, r, FieldState::Clear);
    arbitration::a_stalled_loop_earns_no_large_step(pre, tick);
    arbitration::lemma_steps(pre, tick);
    arbitration::lemma_timestep(pre, tick.now_us);
    numeric::lemma_constants();
    let dt = crate::arbiter::timestep(pre, tick.now_us);
    numeric::lemma_times_grows(pre.cfg.max_accel, dt, pre.cfg.max_decel, dt);
    assert(gain(pre, tick).value() <= loss(pre, tick).value() <= warning_speed(pre.cfg).value());
}

/// The robot of the default configuration brakes at least as hard as it accelerates.
pub proof fn the_default_robot_brakes_harder()
    ensures
        brakes_harder(default_config()),
{
    let cfg = default_config();
    let (u, twentieth) = (binary32::units_in_one(), binary32::fraction(5, 100));
    the_default_configuration_is_valid();
    numeric::lemma_constants();
    numeric::lemma_fraction_order(8, 10, 1, 1);
    numeric::lemma_fraction_order(1, 1, 12, 10);
    numeric::lemma_fraction_whole(binary32::unit(), 1, 1);
    numeric::lemma_fraction(5, 100);
    numeric::lemma_fraction(12, 10);
    numeric::lemma_fraction(35, 100);
    numeric::lemma_fraction_order(5, 100, 35, 100);
    numeric::lemma_times(cfg.max_decel, twentieth);
    numeric::lemma_times_grows(
        cfg.max_decel,
        twentieth,
        cfg.max_linear,
        cfg.warning_speed_frac,
    );
}

/// A parameter is the number nearest to a fraction.
pub open spec fn is_fraction(x: Binary32, num: int, den: int) -> bool {
    x.finite() && x.value() == numeric::round_value(num * binary32::units_in_one(), den)
}

/// The default robot is 0.7 m wide, drives at 1.2 m/s, brakes at 1 m/s², slows down to 35
/// parts in a hundred in a warning, and waits half a second before it drives on.
pub proof fn what_the_defaults_are()
    ensures
        ({
            let (c, d) = (default_config(), default_config().docking);
            &&& is_fraction(c.max_linear, 12, 10) && is_fraction(c.max_angular, 15, 10)
            &&& is_fraction(c.max_accel, 8, 10) && is_fraction(c.max_decel, 1, 1)
            &&& is_fraction(c.max_angular_accel, 2, 1)
            &&& is_fraction(c.reaction_time_s, 12, 100)
            &&& is_fraction(c.protective_margin_m, 10, 100)
            &&& is_fraction(c.min_protective_m, 25, 100)
            &&& is_fraction(c.warning_scale, 2, 1)
            &&& is_fraction(c.half_width_m, 45, 100)
            &&& is_fraction(c.warning_speed_frac, 35, 100)
            &&& c.watchdog_timeout_us == 100_000
            &&& c.scan_timeout_us == 200_000
            &&& c.clear_hold_us == 500_000
            &&& is_fraction(d.half_width_m, 22, 100)
            &&& is_fraction(d.max_protective_m, 12, 100)
            &&& is_fraction(d.max_linear, 15, 100)
        }),
{
    numeric::lemma_constants();
    numeric::lemma_fraction(12, 10);
    numeric::lemma_fraction(15, 10);
    numeric::lemma_fraction(8, 10);
    numeric::lemma_fraction(1, 1);
    numeric::lemma_fraction(2, 1);
    numeric::lemma_fraction(12, 100);
    numeric::lemma_fraction(10, 100);
    numeric::lemma_fraction(25, 100);
    numeric::lemma_fraction(45, 100);
    numeric::lemma_fraction(35, 100);
    numeric::lemma_fraction(22, 100);
    numeric::lemma_fraction(15, 100);
}

/// A parameter is a finite number above zero.
pub open spec fn above_zero(x: Binary32) -> bool {
    x.finite() && x.value() > 0
}

/// A parameter is a finite number that is not negative.
pub open spec fn not_negative(x: Binary32) -> bool {
    x.finite() && x.value() >= 0
}

/// A configuration is accepted exactly where every parameter is finite and in its range:
/// speeds, accelerations and field dimensions above zero, times and margins not negative,
/// the warning fraction at most one, the warning scale above one, and docking neither
/// wider nor faster than normal driving.
pub proof fn what_a_valid_configuration_is(cfg: SafetyConfig)
    ensures
        ({
            let u = binary32::units_in_one();
            let (d, scale) = (cfg.docking, cfg.warning_scale);
            cfg.valid() <==> {
                &&& above_zero(cfg.max_linear)
                &&& above_zero(cfg.max_angular)
                &&& above_zero(cfg.max_accel)
                &&& above_zero(cfg.max_decel)
                &&& above_zero(cfg.max_angular_accel)
                &&& above_zero(cfg.min_protective_m)
                &&& above_zero(cfg.half_width_m)
                &&& above_zero(d.half_width_m)
                &&& above_zero(d.max_protective_m)
                &&& not_negative(cfg.reaction_time_s)
                &&& not_negative(cfg.protective_margin_m)
                &&& not_negative(d.max_linear)
                &&& not_negative(cfg.warning_speed_frac) && cfg.warning_speed_frac.value() <= u
                &&& scale.finite() && scale.value() > u
                &&& d.half_width_m.value() <= cfg.half_width_m.value()
                &&& d.max_linear.value() <= cfg.max_linear.value()
            }
        }),
{
    numeric::lemma_constants();
}

/// What is wrong with one parameter: that it is no finite number, or else what `otherwise`
/// says where it is out of range.
pub open spec fn complaint(
    name: &'static str,
    x: Binary32,
    in_range: bool,
    otherwise: ConfigError,
) -> Option<ConfigError> {
    if !x.finite() {
        Some(ConfigError::NotFinite(name))
    } else if !in_range {
        Some(otherwise)
    } else {
        None
    }
}

/// The complaint about a parameter that has to be above zero.
pub open spec fn must_be_above_zero(name: &'static str, x: Binary32) -> Option<ConfigError> {
    complaint(name, x, x.value() > 0, ConfigError::NotPositive(name))
}

/// The complaint about a parameter that must not be negative.
pub open spec fn must_not_be_negative(name: &'static str, x: Binary32) -> Option<ConfigError> {
    complaint(name, x, x.value() >= 0, ConfigError::Negative(name))
}

/// The complaint where docking exceeds normal driving.
pub open spec fn must_not_exceed(docking: Binary32, normal: Binary32) -> Option<ConfigError> {
    if !docking.nan() && !normal.nan() && docking.value() > normal.value() {
        Some(ConfigError::DockingFieldNotNarrower)
    } else {
        None
    }
}

/// The complaints about a configuration, in the order in which they are made.
pub open spec fn complaints(cfg: SafetyConfig) -> Seq<Option<ConfigError>> {
    let (d, u) = (cfg.docking, binary32::units_in_one());
    let frac = cfg.warning_speed_frac;
    seq![
        must_be_above_zero("max_linear", cfg.max_linear),
        must_be_above_zero("max_angular", cfg.max_angular),
        must_be_above_zero("max_accel", cfg.max_accel),
        must_be_above_zero("max_decel", cfg.max_decel),
        must_be_above_zero("max_angular_accel", cfg.max_angular_accel),
        must_be_above_zero("min_protective_m", cfg.min_protective_m),
        must_be_above_zero("half_width_m", cfg.half_width_m),
        must_be_above_zero("docking.half_width_m", d.half_width_m),
        must_not_be_negative("reaction_time_s", cfg.reaction_time_s),
        must_not_be_negative("protective_margin_m", cfg.protective_margin_m),
        must_not_be_negative("docking.max_protective_m", d.max_protective_m),
        must_not_be_negative("docking.max_linear", d.max_linear),
        complaint(
            "warning_speed_frac",
            frac,
            0 <= frac.value() <= u,
            ConfigError::NotAFraction("warning_speed_frac"),
        ),
        complaint(
            "warning_scale",
            cfg.warning_scale,
            cfg.warning_scale.value() > u,
            ConfigError::WarningInsideProtective,
        ),
        must_not_exceed(d.half_width_m, cfg.half_width_m),
        must_not_exceed(d.max_linear, cfg.max_linear),
        must_be_above_zero("docking.max_protective_m", d.max_protective_m),
    ]
}

/// A parameter is complained about exactly where its check finds a fault.
proof fn lemma_complaint(name: &'static str, x: Binary32)
    ensures
        must_be_above_zero(name, x) == positive_fault(name, x),
        must_not_be_negative(name, x) == negative_fault(name, x),
        complaint(
            name,
            x,
            0 <= x.value() <= binary32::units_in_one(),
            ConfigError::NotAFraction(name),
        ) == fraction_fault(name, x),
        complaint(
            name,
            x,
            x.value() > binary32::units_in_one(),
            ConfigError::WarningInsideProtective,
        ) == scale_fault(name, x),
{
    numeric::lemma_constants();
}

/// The complaints are what the checks find.
#[verifier::rlimit(40)]
proof fn lemma_complaints(cfg: SafetyConfig)
    ensures
        complaints(cfg) == cfg.faults(),
{
    let d = cfg.docking;
    lemma_complaint("max_linear", cfg.max_linear);
    lemma_complaint("max_angular", cfg.max_angular);
    lemma_complaint("max_accel", cfg.max_accel);
    lemma_complaint("max_decel", cfg.max_decel);
    lemma_complaint("max_angular_accel", cfg.max_angular_accel);
    lemma_complaint("min_protective_m", cfg.min_protective_m);
    lemma_complaint("half_width_m", cfg.half_width_m);
    lemma_complaint("docking.half_width_m", d.half_width_m);
    lemma_complaint("reaction_time_s", cfg.reaction_time_s);
    lemma_complaint("protective_margin_m", cfg.protective_margin_m);
    lemma_complaint("docking.max_protective_m", d.max_protective_m);
    lemma_complaint("docking.max_linear", d.max_linear);
    lemma_complaint("warning_speed_frac", cfg.warning_speed_frac);
    lemma_complaint("warning_scale", cfg.warning_scale);
}

/// The error of a configuration is the first complaint about it, and there is one exactly
/// where the configuration is not valid.
pub proof fn the_error_is_the_first_complaint(cfg: SafetyConfig, e: ConfigError)
    ensures
        first_fault(cfg.faults(), e) <==> exists|i: int|
            0 <= i < complaints(cfg).len() && #[trigger] complaints(cfg)[i] == Some(e) && (
            forall|j: int| 0 <= j < i ==> (#[trigger] complaints(cfg)[j]) is None),
{
    lemma_complaints(cfg);
}

} // verus!
