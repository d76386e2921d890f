//! What holds over any number of cycles.

use crate::arbiter::{
    blind, breach_cause, decision, earlier, fresh, latch_after, next_memory, scan_fault, scan_time,
    stop_veto, swept, verdict, watchdog_expired, within_limits, Memory, Tick,
};
use crate::binary32;
use crate::binary32::Binary32;
use crate::config::SafetyConfig;
use crate::laws::arbitration;
use crate::laws::arbitration::{gain, loss, slowed, turn};
use crate::laws::config;
use crate::laws::cycle;
use crate::laws::cycle::{
    closes_in, estop_in_force, no_later, planner_is_silent, turn_ceiling, usable,
    valid_command, warning_ceiling, zone_is_sane,
};
use crate::laws::perception;
use crate::numeric;
use crate::scan::{built_for, geometry_fault, Direction, Sweep};
use crate::state::{FieldState, StopCause};
use crate::types;
use crate::types::{elapsed, Command};
use vstd::prelude::*;

verus! {

/// The memory of an arbiter before and after each of a sequence of cycles, where
/// `direction` gives the direction cosines of a bearing.
pub open spec fn history<F: Fn(Binary32) -> Direction>(
    memories: Seq<Memory>,
    ticks: Seq<Tick>,
    direction: &F,
) -> bool {
    &&& memories.len() == ticks.len() + 1
    &&& forall|k: int|
        #![trigger ticks[k]]
        0 <= k < ticks.len() ==> {
            &&& swept(memories[k].sweep, ticks[k], direction, memories[k + 1].sweep)
            &&& memories[k + 1] == next_memory(memories[k], ticks[k], memories[k + 1].sweep)
        }
}

/// Every arbiter of a history that starts sound is sound, with the same configuration,
/// and every command is within the limits of the vehicle.
pub proof fn every_arbiter_is_sound<F: Fn(Binary32) -> Direction>(
    memories: Seq<Memory>,
    ticks: Seq<Tick>,
    direction: &F,
    k: int,
)
    requires
        history(memories, ticks, direction),
        memories[0].sound(),
        0 <= k < memories.len(),
    ensures
        memories[k].sound(),
        memories[k].cfg == memories[0].cfg,
        within_limits(memories[0].cfg, memories[k].last_out),
    decreases k,
{
    if k > 0 {
        every_arbiter_is_sound(memories, ticks, direction, k - 1);
        assert(ticks[k - 1] == ticks[k - 1]);
        arbitration::soundness_is_kept(
            memories[k - 1],
            ticks[k - 1],
            direction,
            memories[k].sweep,
        );
    }
}

/// From the cycle that asserts the e-stop, every cycle commands zero until an operator
/// acknowledges it.
pub proof fn the_estop_holds_until_acknowledged<F: Fn(Binary32) -> Direction>(
    memories: Seq<Memory>,
    ticks: Seq<Tick>,
    direction: &F,
    i: int,
    j: int,
)
    requires
        history(memories, ticks, direction),
        0 <= i <= j < ticks.len(),
        ticks[i].estop,
        forall|k: int| i < k <= j ==> !(#[trigger] ticks[k]).estop_reset,
    ensures
        memories[j + 1].estop_latched,
        memories[j + 1].last_out == types::stationary(),
        memories[j + 1].latch.state == FieldState::ProtectiveStop,
    decreases j - i,
{
    if i < j {
        the_estop_holds_until_acknowledged(memories, ticks, direction, i, j - 1);
    }
    assert(memories[j + 1] == next_memory(memories[j], ticks[j], memories[j + 1].sweep));
}

/// On cycle `k` the e-stop is not latched and nothing is in the protective field.
pub open spec fn clear_cycle(memories: Seq<Memory>, ticks: Seq<Tick>, k: int) -> bool {
    &&& !estop_in_force(memories[k], ticks[k])
    &&& !memories[k + 1].last_verdict.protective_breach
}

/// The cycles from `a` up to `b` are clear and span the whole hold.
pub open spec fn clear_hold(memories: Seq<Memory>, ticks: Seq<Tick>, a: int, b: int) -> bool {
    &&& forall|k: int| #![trigger ticks[k]] a <= k <= b ==> clear_cycle(memories, ticks, k)
    &&& elapsed(ticks[a].now_us, ticks[b].now_us) >= memories[0].cfg.clear_hold_us
}

/// A stop that latched is over only after clear cycles that span the whole hold, and
/// the command is zero until then. That goes for a breach, for a lost scan and for an
/// e-stop alike.
pub proof fn no_stop_ends_before_the_hold<F: Fn(Binary32) -> Direction>(
    memories: Seq<Memory>,
    ticks: Seq<Tick>,
    direction: &F,
    i: int,
    j: int,
)
    requires
        history(memories, ticks, direction),
        memories[0].sound(),
        0 <= i < j < memories.len(),
        !clear_cycle(memories, ticks, i),
        memories[j].latch.state != FieldState::ProtectiveStop || memories[j].last_out
            != types::stationary(),
    ensures
        exists|a: int, b: int| i < a <= b < j && #[trigger] clear_hold(memories, ticks, a, b),
{
    every_arbiter_is_sound(memories, ticks, direction, j);
    assert(memories[j] == next_memory(memories[j - 1], ticks[j - 1], memories[j].sweep));
    lemma_hold(memories, ticks, direction, i, j);
}

/// During a stop the release timer marks the first of the current clear cycles, and
/// after one there were clear cycles that span the hold.
proof fn lemma_hold<F: Fn(Binary32) -> Direction>(
    memories: Seq<Memory>,
    ticks: Seq<Tick>,
    direction: &F,
    i: int,
    j: int,
)
    requires
        history(memories, ticks, direction),
        memories[0].sound(),
        0 <= i < j < memories.len(),
        !clear_cycle(memories, ticks, i),
    ensures
        ({
            let latch = memories[j].latch;
            &&& latch.state != FieldState::ProtectiveStop ==> exists|a: int, b: int|
                i < a <= b < j && #[trigger] clear_hold(memories, ticks, a, b)
            &&& latch.clear_since matches Some(since) ==> exists|a: int|
                #![trigger ticks[a]]
                i < a < j && ticks[a].now_us == since && forall|k: int|
                    #![trigger ticks[k]]
                    a <= k < j ==> clear_cycle(memories, ticks, k)
        }),
    decreases j - i,
{
    let n = j - 1;
    every_arbiter_is_sound(memories, ticks, direction, n);
    let (pre, tick) = (memories[n], ticks[n]);
    assert(memories[j] == next_memory(pre, tick, memories[j].sweep));
    assert(memories[j].latch == latch_after(pre, tick, memories[j].sweep));
    if i < n {
        lemma_hold(memories, ticks, direction, i, n);
        if clear_cycle(memories, ticks, n) && pre.latch.state == FieldState::ProtectiveStop {
            let hold = pre.cfg.clear_hold_us;
            match pre.latch.clear_since {
                Some(since) => {
                    let a = choose|a: int|
                        #![trigger ticks[a]]
                        i < a < n && ticks[a].now_us == since && forall|k: int|
                            #![trigger ticks[k]]
                            a <= k < n ==> clear_cycle(memories, ticks, k);
                    assert forall|k: int| #![trigger ticks[k]] a <= k < j implies clear_cycle(
                        memories,
                        ticks,
                        k,
                    ) by {
                        if k < n {
                            assert(ticks[k] == ticks[k]);
                        }
                    }
                    if elapsed(since, tick.now_us) >= hold {
                        assert(clear_hold(memories, ticks, a, n));
                    }
                },
                None => {
                    if hold == 0 {
                        assert(clear_hold(memories, ticks, n, n));
                    }
                    assert(ticks[n].now_us == tick.now_us);
                },
            }
        }
    }
}

/// A stop is reported for what latched it, for as long as it lasts: while the cycles
/// after it are clear, neither the recorded cause nor the reported reason changes.
pub proof fn a_hold_is_blamed_on_what_caused_it<F: Fn(Binary32) -> Direction>(
    memories: Seq<Memory>,
    ticks: Seq<Tick>,
    direction: &F,
    i: int,
    j: int,
)
    requires
        history(memories, ticks, direction),
        memories[0].sound(),
        0 <= i <= j < ticks.len(),
        !clear_cycle(memories, ticks, i),
        forall|k: int| #![trigger ticks[k]] i < k <= j ==> clear_cycle(memories, ticks, k),
        memories[j + 1].latch.state == FieldState::ProtectiveStop,
    ensures
        ({
            let cause = if estop_in_force(memories[i], ticks[i]) {
                StopCause::EStop
            } else {
                breach_cause(verdict(memories[i], ticks[i], memories[i + 1].sweep))
            };
            &&& memories[j + 1].latch.cause == Some(cause)
            &&& decision(memories[j], ticks[j], memories[j + 1].sweep).veto == stop_veto(cause)
        }),
    decreases j - i,
{
    let (pre, tick, sweep) = (memories[j], ticks[j], memories[j + 1].sweep);
    assert(memories[j + 1] == next_memory(pre, tick, sweep));
    assert(memories[j + 1].latch == latch_after(pre, tick, sweep));
    if i < j {
        assert(clear_cycle(memories, ticks, j));
        assert(pre.latch.state == FieldState::ProtectiveStop) by {
            if pre.latch.state != FieldState::ProtectiveStop {
                assert(memories[j + 1].latch.state != FieldState::ProtectiveStop);
            }
        }
        a_hold_is_blamed_on_what_caused_it(memories, ticks, direction, i, j - 1);
    }
}

/// A stop ends once the hold is over: where every cycle after the one that latched it is
/// clear, and those cycles span the whole hold, the robot is no longer stopped. That is
/// how a robot re-arms after an acknowledged e-stop.
#[verifier::rlimit(40)]
pub proof fn every_stop_ends_after_the_hold<F: Fn(Binary32) -> Direction>(
    memories: Seq<Memory>,
    ticks: Seq<Tick>,
    direction: &F,
    i: int,
    j: int,
)
    requires
        history(memories, ticks, direction),
        memories[0].sound(),
        0 <= i < j < ticks.len(),
        !clear_cycle(memories, ticks, i),
        forall|k: int| #![trigger ticks[k]] i < k <= j ==> clear_cycle(memories, ticks, k),
        elapsed(ticks[i + 1].now_us, ticks[j].now_us) >= memories[0].cfg.clear_hold_us,
    ensures
        memories[j + 1].latch.state != FieldState::ProtectiveStop,
{
    assert(ticks[j] == ticks[j]);
    lemma_clear_cycle(memories, ticks, direction, j);
    every_arbiter_is_sound(memories, ticks, direction, j);
    if j == i + 1 {
        lemma_latched(memories, ticks, direction, i);
    } else {
        lemma_release(memories, ticks, direction, i, j - 1);
    }
}

/// A cycle that is not clear latches a stop with no release timer.
proof fn lemma_latched<F: Fn(Binary32) -> Direction>(
    memories: Seq<Memory>,
    ticks: Seq<Tick>,
    direction: &F,
    i: int,
)
    requires
        history(memories, ticks, direction),
        0 <= i < ticks.len(),
        !clear_cycle(memories, ticks, i),
    ensures
        memories[i + 1].latch.state == FieldState::ProtectiveStop,
        memories[i + 1].latch.clear_since is None,
{
    assert(memories[i + 1] == next_memory(memories[i], ticks[i], memories[i + 1].sweep));
    assert(memories[i + 1].latch == latch_after(memories[i], ticks[i], memories[i + 1].sweep));
}

/// A clear cycle advances the release of a stop, and starts no new one.
proof fn lemma_clear_cycle<F: Fn(Binary32) -> Direction>(
    memories: Seq<Memory>,
    ticks: Seq<Tick>,
    direction: &F,
    k: int,
)
    requires
        history(memories, ticks, direction),
        0 <= k < ticks.len(),
        clear_cycle(memories, ticks, k),
    ensures
        ({
            let (before, after) = (memories[k].latch, memories[k + 1].latch);
            let now = ticks[k].now_us;
            let stopped = before.state == FieldState::ProtectiveStop && elapsed(
                before.clear_from(now),
                now,
            ) < memories[k].cfg.clear_hold_us;
            &&& after.state == FieldState::ProtectiveStop <==> stopped
            &&& stopped ==> after.clear_since == Some(before.clear_from(now))
        }),
{
    assert(memories[k + 1] == next_memory(memories[k], ticks[k], memories[k + 1].sweep));
    assert(memories[k + 1].latch == latch_after(memories[k], ticks[k], memories[k + 1].sweep));
}

/// After a stop latched, clear cycles have released it or count from the first of them.
proof fn lemma_release<F: Fn(Binary32) -> Direction>(
    memories: Seq<Memory>,
    ticks: Seq<Tick>,
    direction: &F,
    i: int,
    j: int,
)
    requires
        history(memories, ticks, direction),
        0 <= i < j < ticks.len(),
        !clear_cycle(memories, ticks, i),
        forall|k: int| #![trigger ticks[k]] i < k <= j ==> clear_cycle(memories, ticks, k),
    ensures
        memories[j + 1].latch.state == FieldState::ProtectiveStop ==> memories[j
            + 1].latch.clear_since == Some(ticks[i + 1].now_us),
    decreases j - i,
{
    assert(ticks[j] == ticks[j]);
    lemma_clear_cycle(memories, ticks, direction, j);
    if j == i + 1 {
        lemma_latched(memories, ticks, direction, i);
    } else {
        lemma_release(memories, ticks, direction, i, j - 1);
    }
}

/// A usable scan arrived on cycle `i` and is recent enough on cycle `k`.
pub open spec fn sees_by(memories: Seq<Memory>, ticks: Seq<Tick>, i: int, k: int) -> bool {
    &&& 0 <= i <= k
    &&& ticks[i].scan matches Some(s) && {
        &&& usable(s)
        &&& ticks[k].now_us <= s.stamp_us + memories[0].cfg.scan_timeout_us
        &&& ticks[k].now_us <= ticks[i].now_us + memories[0].cfg.scan_timeout_us
    }
}

/// A robot moves only on the strength of a recent scan: from a fresh start, wherever
/// the command is not zero, a usable scan has arrived that is not too old.
pub proof fn the_robot_never_moves_blind<F: Fn(Binary32) -> Direction>(
    memories: Seq<Memory>,
    ticks: Seq<Tick>,
    direction: &F,
    cfg: SafetyConfig,
    sweep: Sweep,
    k: int,
)
    requires
        history(memories, ticks, direction),
        cfg.valid(),
        sweep.directions.len() == 0,
        memories[0] == fresh(cfg, sweep),
        0 <= k < ticks.len(),
        memories[k + 1].last_out != types::stationary() || memories[k + 1].latch.state
            != FieldState::ProtectiveStop,
    ensures
        exists|i: int| sees_by(memories, ticks, i, k),
{
    config::a_fresh_arbiter_is_sound(cfg, sweep);
    every_arbiter_is_sound(memories, ticks, direction, k);
    assert(ticks[k] == ticks[k]);
    lemma_sighted(memories[k], ticks[k], memories[k + 1].sweep);
    let i = if ticks[k].scan is Some {
        k
    } else {
        lemma_last_scan(memories, ticks, direction, cfg, sweep, k)
    };
    every_arbiter_is_sound(memories, ticks, direction, i);
    lemma_usable(memories[i], ticks[i]);
    assert(sees_by(memories, ticks, i, k));
}

/// A scan without a fault is usable.
proof fn lemma_usable(pre: Memory, tick: Tick)
    requires
        pre.sound(),
    ensures
        tick.scan matches Some(s) ==> scan_fault(pre, tick) is None ==> usable(s),
{
    numeric::lemma_constants();
    if let Some(s) = tick.scan {
        perception::a_scan_is_refused_for_its_first_fault(s);
    }
}

/// A robot that is not stopped has a scan that is recent enough.
proof fn lemma_sighted(pre: Memory, tick: Tick, sweep: Sweep)
    requires
        ({
            let post = next_memory(pre, tick, sweep);
            post.last_out != types::stationary() || post.latch.state != FieldState::ProtectiveStop
        }),
    ensures
        scan_fault(pre, tick) is None,
        scan_time(pre, tick) matches Some(t) && elapsed(t, tick.now_us)
            <= pre.cfg.scan_timeout_us,
{
    if blind(pre, tick) {
        arbitration::a_blind_robot_stops(pre, tick, sweep);
    }
}

/// The time of the last usable scan is that of a scan that arrived.
proof fn lemma_last_scan<F: Fn(Binary32) -> Direction>(
    memories: Seq<Memory>,
    ticks: Seq<Tick>,
    direction: &F,
    cfg: SafetyConfig,
    sweep: Sweep,
    k: int,
) -> (i: int)
    requires
        history(memories, ticks, direction),
        memories[0] == fresh(cfg, sweep),
        0 <= k < memories.len(),
        memories[k].last_scan_us is Some,
    ensures
        0 <= i < k,
        ticks[i].scan matches Some(s) && scan_fault(memories[i], ticks[i]) is None && memories[
        k].last_scan_us == Some(earlier(s.stamp_us, ticks[i].now_us)),
    decreases k,
{
    let n = k - 1;
    assert(memories[k] == next_memory(memories[n], ticks[n], memories[k].sweep));
    if ticks[n].scan is Some && scan_fault(memories[n], ticks[n]) is None {
        n
    } else {
        lemma_last_scan(memories, ticks, direction, cfg, sweep, n)
    }
}

/// How much the braking steps of the cycles from `i` up to `j` add up to.
pub open spec fn braked(memories: Seq<Memory>, ticks: Seq<Tick>, i: int, j: int) -> int
    decreases j - i,
{
    if j <= i {
        0
    } else {
        braked(memories, ticks, i, j - 1) + loss(memories[j - 1], ticks[j - 1]).value()
    }
}

/// The forward speed of the last command.
pub open spec fn speed(memory: Memory) -> int {
    binary32::size(memory.last_out.linear.value())
}

/// A robot that has lost its planner comes to rest: the speed never rises, and it is
/// zero once the braking steps add up to the speed at which the watchdog expired and the
/// rounding of each step, at most one part in 2^24 of the fastest speed.
pub proof fn a_lost_planner_brings_the_robot_to_rest<F: Fn(Binary32) -> Direction>(
    memories: Seq<Memory>,
    ticks: Seq<Tick>,
    direction: &F,
    i: int,
    j: int,
)
    requires
        history(memories, ticks, direction),
        memories[0].sound(),
        0 <= i <= j < memories.len(),
        forall|k: int| #![trigger ticks[k]] i <= k < j ==> watchdog_expired(memories[k], ticks[k]),
    ensures
        speed(memories[j]) <= speed(memories[i]),
        speed(memories[j]) == 0 || 0x100_0000 * (speed(memories[j]) + braked(memories, ticks, i, j)
            - speed(memories[i])) <= (j - i) * memories[0].cfg.max_linear.value(),
        0x100_0000 * (braked(memories, ticks, i, j) - speed(memories[i])) > (j - i)
            * memories[0].cfg.max_linear.value() ==> speed(memories[j]) == 0,
    decreases j - i,
{
    let max = memories[0].cfg.max_linear.value();
    if i == j {
        assert((j - i) * max == 0) by (nonlinear_arith)
            requires
                i == j,
        ;
    } else {
        let n = j - 1;
        every_arbiter_is_sound(memories, ticks, direction, n);
        a_lost_planner_brings_the_robot_to_rest(memories, ticks, direction, i, n);
        assert(watchdog_expired(memories[n], ticks[n]));
        lemma_cycle(memories, ticks, direction, n);
        assert((j - i) * max == (n - i) * max + max) by (nonlinear_arith)
            requires
                j == n + 1,
        ;
    }
}

/// A cycle of a history without a planner takes a braking step off the speed.
proof fn lemma_cycle<F: Fn(Binary32) -> Direction>(
    memories: Seq<Memory>,
    ticks: Seq<Tick>,
    direction: &F,
    n: int,
)
    requires
        history(memories, ticks, direction),
        0 <= n < ticks.len(),
        memories[n].sound(),
        watchdog_expired(memories[n], ticks[n]),
    ensures
        0 <= speed(memories[n + 1]) <= speed(memories[n]),
        speed(memories[n + 1]) == 0 || 0x100_0000 * (speed(memories[n + 1]) + loss(
            memories[n],
            ticks[n],
        ).value() - speed(memories[n])) <= memories[n].cfg.max_linear.value(),
{
    assert(memories[n + 1] == next_memory(memories[n], ticks[n], memories[n + 1].sweep));
    lemma_braking_cycle(memories[n], ticks[n], memories[n + 1].sweep);
}

/// A cycle without a planner takes a braking step off the speed, up to its rounding.
proof fn lemma_braking_cycle(pre: Memory, tick: Tick, sweep: Sweep)
    requires
        pre.sound(),
        watchdog_expired(pre, tick),
    ensures
        ({
            let post = next_memory(pre, tick, sweep);
            &&& 0 <= speed(post) <= speed(pre)
            &&& speed(post) == 0 || 0x100_0000 * (speed(post) + loss(pre, tick).value() - speed(
                pre,
            )) <= pre.cfg.max_linear.value()
        }),
{
    arbitration::a_lost_planner_brakes_the_robot(pre, tick, sweep);
    arbitration::the_output_is_always_within_the_vehicle_limits(pre, tick, sweep);
    let out = decision(pre, tick, sweep).twist.linear;
    let (prev, down) = (pre.last_out.linear, loss(pre, tick));
    numeric::lemma_constants();
    numeric::lemma_signs(prev);
    numeric::lemma_signs(out);
    numeric::lemma_signs(down);
    numeric::lemma_signs(binary32::zero());
    arbitration::lemma_steps(pre, tick);
    if down.less(prev.absolute()) {
        lemma_difference(prev.absolute(), down);
    }
}

/// A difference of two finite numbers is exact up to one part in 2^24.
proof fn lemma_difference(a: Binary32, b: Binary32)
    requires
        a.finite(),
        0 <= b.value() <= a.value(),
        !b.nan(),
    ensures
        !a.minus(b).nan(),
        0x100_0000 * (a.minus(b).value() - (a.value() - b.value())) <= a.value() - b.value(),
{
    numeric::lemma_finite(a);
    numeric::lemma_finite(b);
    numeric::lemma_signs(b);
    numeric::lemma_plus(a, b.opposite());
    numeric::lemma_round_error(a.value() - b.value());
}

/// The geometry cache of an arbiter was built for a usable scan that arrived: cycle `i`
/// brought the scan.
pub open spec fn built_on<F: Fn(Binary32) -> Direction>(
    sweep: Sweep,
    ticks: Seq<Tick>,
    direction: &F,
    i: int,
) -> bool {
    ticks[i].scan matches Some(s) && geometry_fault(s) is None && built_for(sweep, s, direction)
}

/// From a fresh start, a cache that holds anything holds the directions of a usable scan
/// that arrived before.
pub proof fn every_cache_comes_from_a_usable_scan<F: Fn(Binary32) -> Direction>(
    memories: Seq<Memory>,
    ticks: Seq<Tick>,
    direction: &F,
    k: int,
)
    requires
        history(memories, ticks, direction),
        memories[0].sweep.directions.len() == 0,
        0 <= k < memories.len(),
        memories[k].sweep.directions.len() > 0,
    ensures
        exists|i: int| 0 <= i < k && #[trigger] built_on(memories[k].sweep, ticks, direction, i),
    decreases k,
{
    let n = k - 1;
    let (before, after) = (memories[n].sweep, memories[k].sweep);
    assert(swept(before, ticks[n], direction, after));
    if after == before {
        every_cache_comes_from_a_usable_scan(memories, ticks, direction, n);
        let i = choose|i: int| 0 <= i < n && #[trigger] built_on(before, ticks, direction, i);
        assert(built_on(after, ticks, direction, i));
    } else {
        assert(built_on(after, ticks, direction, n));
    }
}

/// A stop that is blamed on an obstacle goes back to a cycle on which a return lay in the
/// protective field.
pub proof fn a_stop_for_an_obstacle_had_a_return_in_the_field<F: Fn(Binary32) -> Direction>(
    memories: Seq<Memory>,
    ticks: Seq<Tick>,
    direction: &F,
    k: int,
)
    requires
        history(memories, ticks, direction),
        memories[0].latch.cause is None,
        0 <= k < memories.len(),
        memories[k].latch.cause == Some(StopCause::Obstacle),
    ensures
        exists|i: int|
            #![trigger ticks[i]]
            0 <= i < k && verdict(memories[i], ticks[i], memories[i + 1].sweep).protective_hits
                > 0,
    decreases k,
{
    let n = k - 1;
    let (pre, tick, sweep) = (memories[n], ticks[n], memories[k].sweep);
    assert(memories[k] == next_memory(pre, tick, sweep));
    assert(memories[k].latch == latch_after(pre, tick, sweep));
    if verdict(pre, tick, sweep).protective_hits == 0 {
        a_stop_for_an_obstacle_had_a_return_in_the_field(memories, ticks, direction, n);
    }
}

/// A cycle asks for no reverse motion.
pub open spec fn asks_forward(tick: Tick) -> bool {
    &&& tick.zone.sane()
    &&& tick.cmd matches Some(cmd) ==> cmd.twist.finite() ==> binary32::zero().at_most(
        cmd.twist.linear,
    )
}

/// As long as nobody asks for reverse motion, no command reverses.
pub proof fn the_robot_never_reverses_on_its_own<F: Fn(Binary32) -> Direction>(
    memories: Seq<Memory>,
    ticks: Seq<Tick>,
    direction: &F,
    k: int,
)
    requires
        history(memories, ticks, direction),
        memories[0].sound(),
        binary32::zero().at_most(memories[0].last_out.linear),
        binary32::zero().at_most(memories[0].last_cmd.linear),
        forall|i: int| 0 <= i < ticks.len() ==> asks_forward(#[trigger] ticks[i]),
        0 <= k < memories.len(),
    ensures
        binary32::zero().at_most(memories[k].last_out.linear),
        binary32::zero().at_most(memories[k].last_cmd.linear),
    decreases k,
{
    if k > 0 {
        let n = k - 1;
        the_robot_never_reverses_on_its_own(memories, ticks, direction, n);
        every_arbiter_is_sound(memories, ticks, direction, n);
        let (pre, tick, sweep) = (memories[n], ticks[n], memories[k].sweep);
        assert(memories[k] == next_memory(pre, tick, sweep));
        assert(asks_forward(tick));
        arbitration::the_layer_never_reverses_on_its_own(pre, tick, sweep);
    }
}

/// The newest valid command is held for as long as no other command arrives.
pub proof fn the_newest_command_is_held<F: Fn(Binary32) -> Direction>(
    memories: Seq<Memory>,
    ticks: Seq<Tick>,
    direction: &F,
    i: int,
    k: int,
    cmd: Command,
)
    requires
        history(memories, ticks, direction),
        0 <= i <= k < ticks.len(),
        ticks[i].cmd == Some(cmd),
        valid_command(cmd),
        forall|j: int| i < j <= k ==> (#[trigger] ticks[j]).cmd is None,
    ensures
        memories[k + 1].last_cmd == cmd.twist,
        memories[k + 1].last_cmd_us matches Some(t) && no_later(
            t,
            cmd.stamp_us,
            ticks[i].now_us,
        ),
    decreases k - i,
{
    assert(memories[k + 1] == next_memory(memories[k], ticks[k], memories[k + 1].sweep));
    cycle::the_last_valid_command_is_held(memories[k], ticks[k], memories[k + 1].sweep);
    if i < k {
        the_newest_command_is_held(memories, ticks, direction, i, k - 1, cmd);
    }
}

/// The newest valid command is followed until it is too old: on every cycle without a
/// stop up to then, with or without a command of its own, the robot closes in on it
/// within the limits of that cycle.
#[verifier::rlimit(40)]
pub proof fn the_newest_command_is_followed<F: Fn(Binary32) -> Direction>(
    memories: Seq<Memory>,
    ticks: Seq<Tick>,
    direction: &F,
    i: int,
    k: int,
    cmd: Command,
)
    requires
        history(memories, ticks, direction),
        memories[0].sound(),
        0 <= i <= k < ticks.len(),
        ticks[i].cmd == Some(cmd),
        valid_command(cmd),
        forall|j: int| i < j <= k ==> (#[trigger] ticks[j]).cmd is None,
        ticks[k].now_us <= cmd.stamp_us + memories[0].cfg.watchdog_timeout_us,
        ticks[k].now_us <= ticks[i].now_us + memories[0].cfg.watchdog_timeout_us,
        zone_is_sane(ticks[k]),
        memories[k + 1].latch.state != FieldState::ProtectiveStop,
    ensures
        ({
            let (pre, tick, post) = (memories[k], ticks[k], memories[k + 1]);
            let v = numeric::bounded(
                cmd.twist.linear.value(),
                warning_ceiling(pre, tick, post.latch.state),
            );
            let step = if binary32::size(pre.last_out.linear.value()) < binary32::size(v) {
                gain(pre, tick)
            } else {
                loss(pre, tick)
            };
            let w = numeric::bounded(cmd.twist.angular.value(), turn_ceiling(pre, tick));
            let (linear, angular) = (pre.cfg.max_linear, pre.cfg.max_angular);
            let (from, to) = (pre.last_out, post.last_out);
            &&& closes_in(from.linear, v, to.linear, step, linear)
            &&& closes_in(from.angular, w, to.angular, turn(pre, tick), angular)
        }),
{
    let (pre, tick, sweep) = (memories[k], ticks[k], memories[k + 1].sweep);
    every_arbiter_is_sound(memories, ticks, direction, k);
    assert(memories[k + 1] == next_memory(pre, tick, sweep));
    the_newest_command_is_held(memories, ticks, direction, i, k, cmd);
    if i < k {
        the_newest_command_is_held(memories, ticks, direction, i, k - 1, cmd);
    }
    assert(!planner_is_silent(pre, tick));
    cycle::an_unstopped_robot_does_what_it_is_asked(pre, tick, sweep);
}

/// A cycle brings no valid command: none at all, or a garbled one.
pub open spec fn brings_no_command(tick: Tick) -> bool {
    tick.cmd matches Some(cmd) ==> !valid_command(cmd)
}

/// Every cycle that is later than the newest valid command by more than the watchdog
/// allows takes a braking step, in every mode.
#[verifier::rlimit(40)]
pub proof fn a_late_cycle_brakes<F: Fn(Binary32) -> Direction>(
    memories: Seq<Memory>,
    ticks: Seq<Tick>,
    direction: &F,
    i: int,
    k: int,
    cmd: Command,
)
    requires
        history(memories, ticks, direction),
        memories[0].sound(),
        0 <= i <= k < ticks.len(),
        ticks[i].cmd == Some(cmd),
        valid_command(cmd),
        forall|j: int| i < j <= k ==> brings_no_command(#[trigger] ticks[j]),
        ticks[k].now_us > cmd.stamp_us + memories[0].cfg.watchdog_timeout_us
            || ticks[k].now_us > ticks[i].now_us + memories[0].cfg.watchdog_timeout_us,
    ensures
        ({
            let (pre, post, tick) = (memories[k], memories[k + 1], ticks[k]);
            let stopped = post.latch.state == FieldState::ProtectiveStop;
            let (from, to) = (pre.last_out, post.last_out);
            &&& slowed(from.linear, to.linear, loss(pre, tick), stopped)
            &&& slowed(from.angular, to.angular, turn(pre, tick), stopped)
        }),
{
    let (pre, tick, sweep) = (memories[k], ticks[k], memories[k + 1].sweep);
    every_arbiter_is_sound(memories, ticks, direction, k);
    assert(memories[k + 1] == next_memory(pre, tick, sweep));
    if i < k {
        assert(brings_no_command(ticks[k]));
        lemma_command_time(memories, ticks, direction, i, k - 1, cmd);
    }
    assert(planner_is_silent(pre, tick));
    cycle::a_silent_planner_ramps_the_robot_to_rest(pre, tick, sweep);
}

/// The age of the newest valid command counts on through cycles that bring none.
proof fn lemma_command_time<F: Fn(Binary32) -> Direction>(
    memories: Seq<Memory>,
    ticks: Seq<Tick>,
    direction: &F,
    i: int,
    k: int,
    cmd: Command,
)
    requires
        history(memories, ticks, direction),
        0 <= i <= k < ticks.len(),
        ticks[i].cmd == Some(cmd),
        valid_command(cmd),
        forall|j: int| i < j <= k ==> brings_no_command(#[trigger] ticks[j]),
    ensures
        memories[k + 1].last_cmd_us matches Some(t) && no_later(
            t,
            cmd.stamp_us,
            ticks[i].now_us,
        ),
    decreases k - i,
{
    assert(memories[k + 1] == next_memory(memories[k], ticks[k], memories[k + 1].sweep));
    cycle::the_last_valid_command_is_held(memories[k], ticks[k], memories[k + 1].sweep);
    if i < k {
        assert(brings_no_command(ticks[k]));
        lemma_command_time(memories, ticks, direction, i, k - 1, cmd);
    }
}

} // verus!
