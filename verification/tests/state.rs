//! The field state machine.

use depot_safety_core::state::{FieldStateMachine, StopCause};
use depot_safety_core::{Binary32, FieldState, ScanVerdict};

fn clear() -> ScanVerdict {
    ScanVerdict { closest_m: Binary32::infinity(), ..ScanVerdict::default() }
}

fn warning() -> ScanVerdict {
    ScanVerdict { warning_breach: true, warning_hits: 1, ..clear() }
}

fn protective() -> ScanVerdict {
    ScanVerdict {
        protective_breach: true,
        warning_breach: true,
        protective_hits: 1,
        warning_hits: 1,
        ..clear()
    }
}

const HOLD: u64 = 500_000;

#[test]
fn a_breach_stops_on_the_very_first_cycle() {
    let mut m = FieldStateMachine::new();
    assert_eq!(m.update(&clear(), StopCause::Obstacle, 0, HOLD), FieldState::Clear);
    assert_eq!(
        m.update(&protective(), StopCause::Obstacle, 1_000, HOLD),
        FieldState::ProtectiveStop
    );
}

#[test]
fn the_stop_holds_until_the_field_has_been_clear_long_enough() {
    let mut m = FieldStateMachine::new();
    m.update(&protective(), StopCause::Obstacle, 0, HOLD);
    assert_eq!(
        m.update(&clear(), StopCause::Obstacle, 100_000, HOLD),
        FieldState::ProtectiveStop
    );
    assert_eq!(
        m.update(&clear(), StopCause::Obstacle, 400_000, HOLD),
        FieldState::ProtectiveStop
    );
    assert_eq!(m.update(&clear(), StopCause::Obstacle, 600_000, HOLD), FieldState::Clear);
}

#[test]
fn a_flicker_during_the_hold_restarts_it() {
    let mut m = FieldStateMachine::new();
    m.update(&protective(), StopCause::Obstacle, 0, HOLD);
    m.update(&clear(), StopCause::Obstacle, 400_000, HOLD);
    m.update(&protective(), StopCause::Obstacle, 450_000, HOLD); // one bad cycle
    assert_eq!(
        m.update(&clear(), StopCause::Obstacle, 900_000, HOLD),
        FieldState::ProtectiveStop
    );
    assert_eq!(
        m.update(&clear(), StopCause::Obstacle, 1_000_000, HOLD),
        FieldState::ProtectiveStop
    );
    assert_eq!(
        m.update(&clear(), StopCause::Obstacle, 1_000_000 + HOLD, HOLD),
        FieldState::Clear
    );
}

#[test]
fn releasing_into_a_warning_does_not_skip_to_clear() {
    let mut m = FieldStateMachine::new();
    m.update(&protective(), StopCause::Obstacle, 0, HOLD);
    // The hold starts here, at the first clear cycle.
    m.update(&warning(), StopCause::Obstacle, 100_000, HOLD);
    assert_eq!(
        m.update(&warning(), StopCause::Obstacle, 500_000, HOLD),
        FieldState::ProtectiveStop
    );
    assert_eq!(m.update(&warning(), StopCause::Obstacle, 600_001, HOLD), FieldState::Warning);
}

#[test]
fn time_moving_backwards_extends_the_hold_rather_than_ending_it() {
    let mut m = FieldStateMachine::new();
    m.update(&protective(), StopCause::Obstacle, 1_000_000, HOLD);
    m.update(&clear(), StopCause::Obstacle, 1_000_000, HOLD);
    assert_eq!(m.update(&clear(), StopCause::Obstacle, 0, HOLD), FieldState::ProtectiveStop);
}

#[test]
fn warning_and_clear_move_freely_without_a_hold() {
    let mut m = FieldStateMachine::new();
    assert_eq!(m.update(&warning(), StopCause::Obstacle, 0, HOLD), FieldState::Warning);
    assert_eq!(m.update(&clear(), StopCause::Obstacle, 1_000, HOLD), FieldState::Clear);
}

#[test]
fn the_latch_cause_survives_the_whole_hold() {
    let mut m = FieldStateMachine::new();
    m.update(&protective(), StopCause::Blind, 0, HOLD);
    assert_eq!(m.cause(), Some(StopCause::Blind));
    // The floor is visibly clear again, but the stop stands — and so must the reason
    // for it, or half a second of stop gets blamed on an obstacle nobody ever saw.
    m.update(&clear(), StopCause::Obstacle, 100_000, HOLD);
    assert_eq!(m.cause(), Some(StopCause::Blind));
    m.update(&clear(), StopCause::Obstacle, 600_000, HOLD);
    assert_eq!(m.cause(), None);
}

#[test]
fn a_forced_stop_latches_like_a_breach() {
    let mut m = FieldStateMachine::new();
    m.force_stop(StopCause::EStop);
    assert_eq!(
        m.update(&clear(), StopCause::Obstacle, 100_000, HOLD),
        FieldState::ProtectiveStop
    );
    assert_eq!(m.update(&clear(), StopCause::Obstacle, 700_000, HOLD), FieldState::Clear);
}

#[test]
fn a_new_machine_is_clear_and_has_no_cause() {
    let m = FieldStateMachine::new();
    assert_eq!(m.state(), FieldState::Clear);
    assert_eq!(m.cause(), None);
    assert!(!m.state().is_stopped());
    assert!(!FieldState::Warning.is_stopped());
    assert!(FieldState::ProtectiveStop.is_stopped());
    assert_eq!(FieldState::default(), FieldState::Clear);
}

#[test]
fn a_hold_of_nothing_releases_at_once_even_if_time_runs_backwards() {
    let mut m = FieldStateMachine::new();
    m.update(&protective(), StopCause::Obstacle, 1_000, 0);
    assert_eq!(m.update(&warning(), StopCause::Obstacle, 10, 0), FieldState::Warning);
}
