//! Value types at the boundary of the layer.

use depot_safety_core::types::clamp_sym;
use depot_safety_core::{Binary32, Command, Mode, Twist, ZoneLimits};

fn n(x: f32) -> Binary32 {
    Binary32::from_bits(x.to_bits())
}

#[test]
fn clamping_is_symmetric_and_passes_nan_through() {
    assert_eq!(clamp_sym(n(2.0), n(1.5)), n(1.5));
    assert_eq!(clamp_sym(n(-2.0), n(1.5)), n(-1.5));
    assert_eq!(clamp_sym(n(0.25), n(1.5)), n(0.25));
    assert_eq!(clamp_sym(n(f32::INFINITY), n(1.5)), n(1.5));
    assert!(clamp_sym(n(f32::NAN), n(1.5)).is_nan());
}

#[test]
fn a_twist_is_clamped_and_scaled_by_component() {
    let t = Twist::new(n(2.0), n(-3.0));
    assert_eq!(t.clamped(n(1.0), n(5.0)), Twist::new(n(1.0), n(-3.0)));
    assert_eq!(t.scaled(n(0.5)), Twist::new(n(1.0), n(-1.5)));
    assert_eq!(Twist::default(), Twist::zero());
}

#[test]
fn a_twist_with_a_non_finite_component_is_not_finite() {
    assert!(Twist::new(n(1.0), n(-1.0)).is_finite());
    assert!(!Twist::new(n(f32::NAN), n(0.0)).is_finite());
    assert!(!Twist::new(n(0.0), n(f32::NEG_INFINITY)).is_finite());
}

#[test]
fn the_two_zeros_are_the_same_velocity() {
    assert_eq!(Twist::new(n(-0.0), n(0.0)), Twist::zero());
    assert_ne!(Twist::new(n(f32::NAN), n(0.0)), Twist::new(n(f32::NAN), n(0.0)));
}

#[test]
fn a_garbled_zone_message_becomes_a_stop() {
    let z = ZoneLimits::new(n(f32::NAN), n(-1.0));
    assert_eq!(z, ZoneLimits { max_linear: n(0.0), max_angular: n(0.0) });
    let z = ZoneLimits::new(n(f32::INFINITY), n(f32::NEG_INFINITY));
    assert_eq!(z, ZoneLimits { max_linear: n(0.0), max_angular: n(0.0) });
    let z = ZoneLimits::new(n(0.3), n(0.5));
    assert_eq!(z, ZoneLimits { max_linear: n(0.3), max_angular: n(0.5) });
}

#[test]
fn defaults_impose_nothing() {
    assert_eq!(ZoneLimits::default(), ZoneLimits::unrestricted());
    assert_eq!(ZoneLimits::default().max_linear, n(f32::INFINITY));
    assert_eq!(ZoneLimits::default().max_angular, n(f32::INFINITY));
    assert_eq!(Mode::default(), Mode::Normal);
}

#[test]
fn a_command_keeps_its_parts() {
    let c = Command::new(Twist::new(n(1.0), n(0.5)), 77);
    assert_eq!(c.twist, Twist::new(n(1.0), n(0.5)));
    assert_eq!(c.stamp_us, 77);
}
