//! What the small operations at the boundary promise.

use crate::arbiter::{fresh, VetoReason};
use crate::binary32::Binary32;
use crate::config::SafetyConfig;
use crate::numeric;
use crate::scan::{default_verdict, Sweep};
use crate::state::FieldState;
use crate::types::{clamp, elapsed, no_limits, sane_limit, stationary, Twist};
use vstd::prelude::*;

verus! {

/// Clamping takes a number above the limit to the limit, and one below the opposite of the
/// limit to that opposite. Everything else stays as it is, and so does what is no number.
pub proof fn clamping_moves_only_what_is_out_of_range(x: Binary32, limit: Binary32)
    ensures
        ({
            let (r, l) = (clamp(x, limit), limit.value());
            let (above, below) = (x.value() > l, x.value() < -l);
            let numbers = !x.nan() && !limit.nan();
            &&& !numbers || !above && !below ==> r == x
            &&& numbers && above ==> r == limit
            &&& numbers && !above && below ==> !r.nan() && r.value() == -l
        }),
{
    numeric::lemma_signs(limit);
}

/// A velocity is clamped by component, each to its own limit.
pub proof fn a_twist_is_clamped_by_component(t: Twist, linear: Binary32, angular: Binary32)
    requires
        !linear.nan(),
        !angular.nan(),
        linear.value() >= 0,
        angular.value() >= 0,
        t.linear.finite(),
        t.angular.finite(),
    ensures
        t.limited(linear, angular).linear.value() == numeric::bounded(
            t.linear.value(),
            linear.value(),
        ),
        t.limited(linear, angular).angular.value() == numeric::bounded(
            t.angular.value(),
            angular.value(),
        ),
{
    numeric::lemma_clamp(t.linear, linear);
    numeric::lemma_clamp(t.angular, angular);
}

/// A sane zone limit is taken as it is, and every other one stops the robot.
pub proof fn a_garbled_zone_limit_stops_the_robot(v: Binary32)
    ensures
        v.finite() && v.value() >= 0 ==> sane_limit(v) == v,
        !v.finite() || v.value() < 0 ==> !sane_limit(v).nan() && sane_limit(v).value() == 0,
{
    numeric::lemma_constants();
}

/// Limits that restrict nothing are beyond every number.
pub proof fn no_limits_restrict_nothing(x: Binary32)
    requires
        !x.nan(),
    ensures
        x.at_most(no_limits().max_linear),
        x.at_most(no_limits().max_angular),
{
    numeric::lemma_finite(x);
}

/// Rest is zero in both components.
pub proof fn rest_is_zero()
    ensures
        stationary().linear.finite() && stationary().linear.value() == 0,
        stationary().angular.finite() && stationary().angular.value() == 0,
{
    numeric::lemma_constants();
}

/// Time that has passed leads from then to now, and none has where the clock ran
/// backwards.
pub proof fn elapsed_time_leads_from_then_to_now(since: u64, now: u64)
    ensures
        since <= now ==> since + elapsed(since, now) == now,
        now < since ==> elapsed(since, now) == 0,
{
}

/// The smaller and the larger of two numbers are the two numbers in order.
pub proof fn the_lesser_and_the_greater_are_in_order(a: Binary32, b: Binary32)
    requires
        !a.nan(),
        !b.nan(),
    ensures
        a.lesser(b) == a || a.lesser(b) == b,
        a.greater(b) == a || a.greater(b) == b,
        a.lesser(b).value() <= a.value() <= a.greater(b).value(),
        a.lesser(b).value() <= b.value() <= a.greater(b).value(),
{
}

/// A number wins over what is none.
pub proof fn a_number_wins_over_none(a: Binary32, b: Binary32)
    requires
        a.nan(),
        !b.nan(),
    ensures
        a.lesser(b) == b && b.lesser(a) == b,
        a.greater(b) == b && b.greater(a) == b,
{
}

/// An arbiter that has not run yet knows nothing: it stands still, has no command, has
/// seen nothing, and is neither stopped nor e-stopped.
pub proof fn a_fresh_arbiter_knows_nothing(cfg: SafetyConfig, sweep: Sweep)
    ensures
        ({
            let m = fresh(cfg, sweep);
            &&& m.cfg == cfg && m.sweep == sweep
            &&& m.latch.state == FieldState::Clear && m.latch.cause is None
            &&& m.latch.clear_since is None
            &&& m.last_cmd.linear.value() == 0 && m.last_cmd.angular.value() == 0
            &&& m.last_out.linear.value() == 0 && m.last_out.angular.value() == 0
            &&& m.last_cmd_us is None && m.last_scan_us is None && m.last_tick_us is None
            &&& m.last_verdict.protective_breach && m.last_verdict.protective_hits == 0
            &&& !m.estop_latched && m.last_scan_error is None
        }),
{
    numeric::lemma_constants();
}

/// A verdict on no rays at all is that nothing lies in either field.
pub proof fn a_default_verdict_is_clear()
    ensures
        ({
            let v = default_verdict();
            &&& !v.protective_breach && !v.warning_breach
            &&& v.protective_hits == 0 && v.warning_hits == 0
            &&& v.closest_m.finite() && v.closest_m.value() == 0
        }),
{
    numeric::lemma_constants();
}

/// The order of authority: e-stop, lost scan, protective field, watchdog, garbled command,
/// warning, docking, zone, and last no rule at all.
pub proof fn the_order_of_authority()
    ensures
        VetoReason::EStop.rank() > VetoReason::ScanStale.rank(),
        VetoReason::ScanStale.rank() > VetoReason::ProtectiveStop.rank(),
        VetoReason::ProtectiveStop.rank() > VetoReason::Watchdog.rank(),
        VetoReason::Watchdog.rank() > VetoReason::CommandInvalid.rank(),
        VetoReason::CommandInvalid.rank() > VetoReason::WarningClamp.rank(),
        VetoReason::WarningClamp.rank() > VetoReason::DockingLimit.rank(),
        VetoReason::DockingLimit.rank() > VetoReason::ZoneLimit.rank(),
        VetoReason::ZoneLimit.rank() > VetoReason::NoVeto.rank(),
        VetoReason::NoVeto.rank() == 0,
{
}

} // verus!
