//! Stops engage at once and release deliberately.

use crate::scan::ScanVerdict;
use crate::state::{advanced, latched, observed, released, FieldState, StopCause, StopLatch};
use crate::types::{elapsed, Micros};
use vstd::prelude::*;

verus! {

/// One observation of the field state machine.
pub struct Observation {
    /// What was seen.
    pub verdict: ScanVerdict,
    /// What a stop would latch for.
    pub cause: StopCause,
    /// When it was seen.
    pub now: Micros,
}

/// The latch after a sequence of observations.
pub open spec fn run(latch: StopLatch, observations: Seq<Observation>, hold: u64) -> StopLatch
    decreases observations.len(),
{
    if observations.len() == 0 {
        latch
    } else {
        let last = observations.last();
        advanced(
            run(latch, observations.drop_last(), hold),
            last.verdict,
            last.cause,
            last.now,
            hold,
        )
    }
}

/// The protective field was clear in every observation from `i` up to `j`.
pub open spec fn clear_between(observations: Seq<Observation>, i: int, j: int) -> bool {
    &&& 0 <= i <= j < observations.len()
    &&& forall|k: int| i <= k <= j ==> !(#[trigger] observations[k]).verdict.protective_breach
}

/// The observations from `i` up to `j` are clear and span the whole hold.
pub open spec fn releases(observations: Seq<Observation>, i: int, j: int, hold: u64) -> bool {
    &&& clear_between(observations, i, j)
    &&& elapsed(observations[i].now, observations[j].now) >= hold
}

/// A breach stops the robot on the very observation that shows it, whatever went
/// before, and the reason is on record from then on.
pub proof fn a_breach_stops_at_once(
    latch: StopLatch,
    verdict: ScanVerdict,
    cause: StopCause,
    now: Micros,
    hold: u64,
)
    requires
        verdict.protective_breach,
    ensures
        advanced(latch, verdict, cause, now, hold).state == FieldState::ProtectiveStop,
        advanced(latch, verdict, cause, now, hold).cause == Some(cause),
{
}

/// A forced stop is the same as a stop for a breach.
pub proof fn a_forced_stop_latches_like_a_breach(
    latch: StopLatch,
    verdict: ScanVerdict,
    cause: StopCause,
    now: Micros,
    hold: u64,
)
    requires
        verdict.protective_breach,
    ensures
        latched(cause) == advanced(latch, verdict, cause, now, hold),
{
}

/// A stop that is over was released by clear observations that span the whole hold,
/// with no breach among them.
pub proof fn a_stop_lasts_through_the_hold(
    cause: StopCause,
    observations: Seq<Observation>,
    hold: u64,
)
    requires
        run(latched(cause), observations, hold).state != FieldState::ProtectiveStop,
    ensures
        exists|i: int, j: int| releases(observations, i, j, hold),
{
    lemma_run(cause, observations, hold);
}

/// During a stop the release timer marks the start of the current clear stretch, and
/// after one there was a stretch that spans the hold.
proof fn lemma_run(cause: StopCause, observations: Seq<Observation>, hold: u64)
    ensures
        ({
            let latch = run(latched(cause), observations, hold);
            let n = observations.len();
            &&& latch.state != FieldState::ProtectiveStop ==> exists|i: int, j: int|
                releases(observations, i, j, hold)
            &&& latch.clear_since matches Some(since) ==> exists|i: int|
                #[trigger] clear_between(observations, i, n - 1) && observations[i].now == since
        }),
    decreases observations.len(),
{
    let n = observations.len();
    if n > 0 {
        let before = observations.drop_last();
        lemma_run(cause, before, hold);
        let latch = run(latched(cause), before, hold);
        let last = observations.last();
        if latch.state != FieldState::ProtectiveStop {
            let (i, j) = choose|i: int, j: int| releases(before, i, j, hold);
            assert forall|k: int| i <= k <= j implies !(
            #[trigger] observations[k]).verdict.protective_breach by {
                assert(before[k] == observations[k]);
            }
            assert(releases(observations, i, j, hold));
        }
        if !last.verdict.protective_breach {
            match latch.clear_since {
                Some(since) => {
                    let i = choose|i: int|
                        #[trigger] clear_between(before, i, n - 2) && before[i].now == since;
                    assert forall|k: int| i <= k <= n - 1 implies !(
                    #[trigger] observations[k]).verdict.protective_breach by {
                        if k < n - 1 {
                            assert(before[k] == observations[k]);
                        }
                    }
                    assert(clear_between(observations, i, n - 1));
                    assert(elapsed(since, last.now) >= hold ==> releases(
                        observations,
                        i,
                        n - 1,
                        hold,
                    ));
                },
                None => {
                    assert(clear_between(observations, n - 1, n - 1));
                    assert(hold == 0 ==> releases(observations, n - 1, n - 1, hold));
                },
            }
        }
    }
}

/// The field is clear for the whole hold, so the stop releases, into a warning where
/// there is one.
pub proof fn a_clear_hold_releases_the_stop(
    latch: StopLatch,
    verdict: ScanVerdict,
    cause: StopCause,
    now: Micros,
    hold: u64,
)
    requires
        latch.state == FieldState::ProtectiveStop,
        !verdict.protective_breach,
        elapsed(latch.clear_from(now), now) >= hold,
    ensures
        ({
            let after = advanced(latch, verdict, cause, now, hold);
            &&& after.state == if verdict.warning_breach {
                FieldState::Warning
            } else {
                FieldState::Clear
            }
            &&& after.cause is None
        }),
{
}

/// A breach during the hold restarts it: the time that went before counts for nothing.
pub proof fn a_breach_restarts_the_hold(
    latch: StopLatch,
    breach: Observation,
    clear: Observation,
    hold: u64,
)
    requires
        breach.verdict.protective_breach,
        !clear.verdict.protective_breach,
        hold > 0,
    ensures
        ({
            let after = run(latch, seq![breach, clear], hold);
            &&& after.state == FieldState::ProtectiveStop
            &&& after.clear_since == Some(clear.now)
        }),
{
    reveal_with_fuel(run, 3);
    assert(seq![breach, clear].drop_last() =~= seq![breach]);
    assert(seq![breach].drop_last() =~= Seq::<Observation>::empty());
}

/// A clock that runs backwards never ends a hold, nor does it move the start of it.
pub proof fn time_running_backwards_keeps_the_stop(
    latch: StopLatch,
    verdict: ScanVerdict,
    cause: StopCause,
    now: Micros,
    hold: u64,
)
    requires
        latch.state == FieldState::ProtectiveStop,
        latch.clear_since matches Some(since) && now <= since,
        hold > 0,
    ensures
        ({
            let after = advanced(latch, verdict, cause, now, hold);
            &&& after.state == FieldState::ProtectiveStop
            &&& !verdict.protective_breach ==> after.clear_since == latch.clear_since
        }),
{
}

/// The reason for a stop stands for as long as the stop does, until another breach
/// gives a new one.
pub proof fn the_cause_survives_the_hold(
    cause: StopCause,
    observations: Seq<Observation>,
    hold: u64,
)
    requires
        forall|k: int|
            0 <= k < observations.len() ==> !(
            #[trigger] observations[k]).verdict.protective_breach,
    ensures
        ({
            let latch = run(latched(cause), observations, hold);
            latch.cause == if latch.state == FieldState::ProtectiveStop {
                Some(cause)
            } else {
                None
            }
        }),
    decreases observations.len(),
{
    if observations.len() > 0 {
        let before = observations.drop_last();
        assert forall|k: int| 0 <= k < before.len() implies !(
        #[trigger] before[k]).verdict.protective_breach by {
            assert(before[k] == observations[k]);
        }
        the_cause_survives_the_hold(cause, before, hold);
    }
}

/// Without a stop, the state follows what is seen, with no hold in either direction.
pub proof fn warnings_come_and_go_freely(
    latch: StopLatch,
    verdict: ScanVerdict,
    cause: StopCause,
    now: Micros,
    hold: u64,
)
    requires
        latch.state != FieldState::ProtectiveStop,
        !verdict.protective_breach,
    ensures
        advanced(latch, verdict, cause, now, hold).state == observed(verdict),
{
}

/// One observation decides everything about the latch: a breach latches it for its cause,
/// and without one a machine that is free follows what is seen, while a stop ends where
/// the field has been clear for the hold and otherwise stays, with its cause and with the
/// time at which the field became clear.
pub proof fn one_observation_decides_the_latch(
    latch: StopLatch,
    verdict: ScanVerdict,
    cause: StopCause,
    now: Micros,
    hold: u64,
)
    requires
        latch.consistent(),
    ensures
        ({
            let after = advanced(latch, verdict, cause, now, hold);
            let stop = FieldState::ProtectiveStop;
            let from = match latch.clear_since {
                Some(t) => t,
                None => now,
            };
            if verdict.protective_breach {
                after.state == stop && after.cause == Some(cause) && after.clear_since is None
            } else if latch.state != stop || hold == 0 || now >= from + hold {
                &&& verdict.warning_breach ==> after.state == FieldState::Warning
                &&& !verdict.warning_breach ==> after.state == FieldState::Clear
                &&& after.cause is None && after.clear_since is None
            } else {
                after.state == stop && after.cause == latch.cause && after.clear_since == Some(
                    from,
                )
            }
        }),
{
}

/// A machine has a cause on record exactly during a stop, whatever it has observed.
pub proof fn the_latch_stays_consistent(
    latch: StopLatch,
    observations: Seq<Observation>,
    hold: u64,
)
    requires
        latch.consistent(),
    ensures
        run(latch, observations, hold).consistent(),
        released().consistent(),
    decreases observations.len(),
{
    if observations.len() > 0 {
        the_latch_stays_consistent(latch, observations.drop_last(), hold);
    }
}

} // verus!
