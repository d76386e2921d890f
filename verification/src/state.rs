//! The protective-field state machine.
//!
//! Two properties matter here and they pull in opposite directions. A protective stop
//! must engage on the *first* cycle that sees a breach — no filtering, no averaging,
//! no waiting for confirmation. And it must not release the instant the field looks
//! clear, or a robot nosed up against a pallet will chatter between stopped and
//! creeping as returns flicker in and out. So: instant to engage, deliberate to
//! release.

use crate::scan::ScanVerdict;
use crate::types;
use crate::types::Micros;
use vstd::prelude::*;

verus! {

/// Where the robot stands with respect to its protective fields.
#[derive(Clone, Copy, Debug, PartialEq, Eq, Structural)]
pub enum FieldState {
    /// Nothing in either field. Commands pass through subject to other limits.
    Clear,
    /// Something in the warning field. Speed is clamped.
    Warning,
    /// Something in the protective field, or the robot cannot see. Motion is refused.
    ProtectiveStop,
}

impl Default for FieldState {
    fn default() -> (r: FieldState)
        ensures
            r == FieldState::Clear,
    {
        FieldState::Clear
    }
}

impl FieldState {
    /// True when this state forbids motion outright.
    #[must_use]
    pub fn is_stopped(self) -> (r: bool)
        ensures
            r == (self == FieldState::ProtectiveStop),
    {
        matches!(self, FieldState::ProtectiveStop)
    }
}

/// Why a protective stop latched.
///
/// A stop lasts at least `clear_hold_us`, so the cycle that *caused* it is long gone by
/// the time an operator looks. Blaming half a second of stop on an obstacle that was
/// never there — because the robot was actually blind for one cycle — sends someone to
/// look for a pallet instead of a lidar cable.
#[derive(Clone, Copy, Debug, PartialEq, Eq, Structural)]
pub enum StopCause {
    /// A return lay inside the protective field.
    Obstacle,
    /// The scan was missing, stale or unusable, so the floor was unknown.
    Blind,
    /// The e-stop was asserted or still latched.
    EStop,
}

/// What the state machine remembers between cycles.
pub struct StopLatch {
    /// The current state.
    pub state: FieldState,
    /// What latched the current stop.
    pub cause: Option<StopCause>,
    /// When the protective field first became clear during the current stop.
    pub clear_since: Option<Micros>,
}

impl StopLatch {
    /// A cause is on record exactly during a stop, and a release timer runs only then.
    pub open spec fn consistent(self) -> bool {
        &&& self.cause is Some <==> self.state == FieldState::ProtectiveStop
        &&& self.clear_since is Some ==> self.state == FieldState::ProtectiveStop
    }

    /// The time from which the field counts as clear, if it is clear at `now`.
    pub open spec fn clear_from(self, now: Micros) -> Micros {
        match self.clear_since {
            Some(since) => since,
            None => now,
        }
    }
}

/// The latch of a machine that starts clear.
pub open spec fn released() -> StopLatch {
    StopLatch { state: FieldState::Clear, cause: None, clear_since: None }
}

/// A stop that has just latched.
pub open spec fn latched(cause: StopCause) -> StopLatch {
    StopLatch {
        state: FieldState::ProtectiveStop,
        cause: Some(cause),
        clear_since: None,
    }
}

/// The state that a verdict without a protective breach calls for.
pub open spec fn observed(verdict: ScanVerdict) -> FieldState {
    if verdict.warning_breach {
        FieldState::Warning
    } else {
        FieldState::Clear
    }
}

/// The latch after one observation.
///
/// A breach latches a stop. A stop stands until the field has been clear for the whole
/// hold, counted from the first clear observation, and its cause stands with it.
pub open spec fn advanced(
    latch: StopLatch,
    verdict: ScanVerdict,
    cause: StopCause,
    now: Micros,
    hold: u64,
) -> StopLatch {
    if verdict.protective_breach {
        latched(cause)
    } else if latch.state != FieldState::ProtectiveStop {
        StopLatch { state: observed(verdict), cause: None, ..latch }
    } else if types::elapsed(latch.clear_from(now), now) < hold {
        StopLatch { clear_since: Some(latch.clear_from(now)), ..latch }
    } else {
        StopLatch { state: observed(verdict), cause: None, clear_since: None }
    }
}

/// Latching state machine with a release hold.
#[derive(Clone, Copy, Debug)]
pub struct FieldStateMachine {
    state: FieldState,
    /// What latched the current stop, held for as long as the stop is.
    cause: Option<StopCause>,
    /// When the protective field first became clear during a latched stop.
    clear_since_us: Option<Micros>,
}

impl View for FieldStateMachine {
    type V = StopLatch;

    closed spec fn view(&self) -> StopLatch {
        StopLatch { state: self.state, cause: self.cause, clear_since: self.clear_since_us }
    }
}

impl Default for FieldStateMachine {
    fn default() -> (r: FieldStateMachine)
        ensures
            r@ == released(),
    {
        FieldStateMachine { state: FieldState::Clear, cause: None, clear_since_us: None }
    }
}

impl FieldStateMachine {
    /// A machine in [`FieldState::Clear`].
    #[must_use]
    pub fn new() -> (r: FieldStateMachine)
        ensures
            r@ == released(),
    {
        FieldStateMachine::default()
    }

    /// The current state.
    #[must_use]
    pub fn state(&self) -> (r: FieldState)
        ensures
            r == self@.state,
    {
        self.state
    }

    /// What latched the current stop, or `None` when the machine is not stopped.
    #[must_use]
    pub fn cause(&self) -> (r: Option<StopCause>)
        ensures
            r == self@.cause,
    {
        self.cause
    }

    /// Advances the machine by one observation.
    ///
    /// A protective breach latches immediately, recording `cause` so the reason survives
    /// the whole hold rather than only the cycle that produced it. Release requires the
    /// protective field to have been continuously clear for `clear_hold_us`; a single
    /// breached cycle during the hold restarts the timer from scratch.
    ///
    /// If `now_us` moves backwards — a clock that was stepped, a replay seeking
    /// backwards — the elapsed time saturates to zero and the stop simply holds
    /// longer. Time going backwards must never shorten a safety hold.
    pub fn update(
        &mut self,
        verdict: &ScanVerdict,
        cause: StopCause,
        now_us: Micros,
        clear_hold_us: u64,
    ) -> (r: FieldState)
        ensures
            final(self)@ == advanced(old(self)@, *verdict, cause, now_us, clear_hold_us),
            r == final(self)@.state,
    {
        if verdict.protective_breach {
            self.state = FieldState::ProtectiveStop;
            self.cause = Some(cause);
            self.clear_since_us = None;
            return self.state;
        }
        let observed: FieldState = if verdict.warning_breach {
            FieldState::Warning
        } else {
            FieldState::Clear
        };

        if self.state.is_stopped() {
            let since: Micros = match self.clear_since_us {
                Some(since) => since,
                None => now_us,
            };
            self.clear_since_us = Some(since);
            if now_us.saturating_sub(since) >= clear_hold_us {
                self.state = observed;
                self.cause = None;
                self.clear_since_us = None;
            }
        } else {
            self.state = observed;
            self.cause = None;
        }
        self.state
    }

    /// Forces a latched stop, as when an e-stop is asserted.
    pub fn force_stop(&mut self, cause: StopCause)
        ensures
            final(self)@ == latched(cause),
    {
        self.state = FieldState::ProtectiveStop;
        self.cause = Some(cause);
        self.clear_since_us = None;
    }
}

} // verus!
