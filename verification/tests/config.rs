//! Configuration defaults and validation.

use depot_safety_core::{Arbiter, Binary32, ConfigError, DockingConfig, SafetyConfig};

fn n(x: f32) -> Binary32 {
    Binary32::from_bits(x.to_bits())
}

#[test]
fn the_defaults_are_the_nearest_numbers_to_their_decimals() {
    let c = SafetyConfig::default();
    assert_eq!(c.max_linear.to_bits(), 1.2f32.to_bits());
    assert_eq!(c.max_angular.to_bits(), 1.5f32.to_bits());
    assert_eq!(c.max_accel.to_bits(), 0.8f32.to_bits());
    assert_eq!(c.max_decel.to_bits(), 1.0f32.to_bits());
    assert_eq!(c.max_angular_accel.to_bits(), 2.0f32.to_bits());
    assert_eq!(c.reaction_time_s.to_bits(), 0.12f32.to_bits());
    assert_eq!(c.protective_margin_m.to_bits(), 0.10f32.to_bits());
    assert_eq!(c.min_protective_m.to_bits(), 0.25f32.to_bits());
    assert_eq!(c.warning_scale.to_bits(), 2.0f32.to_bits());
    assert_eq!(c.half_width_m.to_bits(), 0.45f32.to_bits());
    assert_eq!(c.warning_speed_frac.to_bits(), 0.35f32.to_bits());
    assert_eq!(c.watchdog_timeout_us, 100_000);
    assert_eq!(c.scan_timeout_us, 200_000);
    assert_eq!(c.clear_hold_us, 500_000);
    let d = DockingConfig::default();
    assert_eq!(c.docking, d);
    assert_eq!(d.half_width_m.to_bits(), 0.22f32.to_bits());
    assert_eq!(d.max_protective_m.to_bits(), 0.12f32.to_bits());
    assert_eq!(d.max_linear.to_bits(), 0.15f32.to_bits());
}

#[test]
fn the_default_configuration_is_valid() {
    assert_eq!(SafetyConfig::default().validate(), Ok(()));
    assert!(Arbiter::new(SafetyConfig::default()).is_ok());
}

/// The error for the default configuration with one change.
fn error_after(change: fn(&mut SafetyConfig)) -> Option<ConfigError> {
    let mut c = SafetyConfig::default();
    change(&mut c);
    let r = c.validate().err();
    assert_eq!(Arbiter::new(c).err(), r);
    r
}

#[test]
fn a_parameter_that_must_be_positive_is_checked_by_name() {
    assert_eq!(
        error_after(|c| c.max_linear = n(f32::NAN)),
        Some(ConfigError::NotFinite("max_linear"))
    );
    assert_eq!(
        error_after(|c| c.max_angular = n(0.0)),
        Some(ConfigError::NotPositive("max_angular"))
    );
    assert_eq!(
        error_after(|c| c.max_accel = n(-1.0)),
        Some(ConfigError::NotPositive("max_accel"))
    );
    assert_eq!(
        error_after(|c| c.max_decel = n(f32::INFINITY)),
        Some(ConfigError::NotFinite("max_decel"))
    );
    assert_eq!(
        error_after(|c| c.max_angular_accel = n(-0.0)),
        Some(ConfigError::NotPositive("max_angular_accel"))
    );
    assert_eq!(
        error_after(|c| c.min_protective_m = n(0.0)),
        Some(ConfigError::NotPositive("min_protective_m"))
    );
    assert_eq!(
        error_after(|c| c.half_width_m = n(f32::NAN)),
        Some(ConfigError::NotFinite("half_width_m"))
    );
    assert_eq!(
        error_after(|c| c.docking.half_width_m = n(0.0)),
        Some(ConfigError::NotPositive("docking.half_width_m"))
    );
    assert_eq!(
        error_after(|c| c.docking.max_protective_m = n(0.0)),
        Some(ConfigError::NotPositive("docking.max_protective_m"))
    );
    assert_eq!(
        error_after(|c| c.docking.max_protective_m = n(-1.0)),
        Some(ConfigError::Negative("docking.max_protective_m"))
    );
    assert_eq!(
        error_after(|c| c.docking.max_protective_m = n(f32::NAN)),
        Some(ConfigError::NotFinite("docking.max_protective_m"))
    );
}

#[test]
fn a_parameter_that_must_not_be_negative_may_be_zero() {
    assert_eq!(error_after(|c| c.reaction_time_s = n(0.0)), None);
    assert_eq!(error_after(|c| c.protective_margin_m = n(0.0)), None);
    assert_eq!(error_after(|c| c.docking.max_linear = n(0.0)), None);
    assert_eq!(
        error_after(|c| c.reaction_time_s = n(-0.1)),
        Some(ConfigError::Negative("reaction_time_s"))
    );
    assert_eq!(
        error_after(|c| c.protective_margin_m = n(f32::NAN)),
        Some(ConfigError::NotFinite("protective_margin_m"))
    );
    assert_eq!(
        error_after(|c| c.docking.max_linear = n(-1.0)),
        Some(ConfigError::Negative("docking.max_linear"))
    );
}

#[test]
fn the_warning_parameters_have_their_own_ranges() {
    assert_eq!(error_after(|c| c.warning_speed_frac = n(0.0)), None);
    assert_eq!(error_after(|c| c.warning_speed_frac = n(1.0)), None);
    assert_eq!(
        error_after(|c| c.warning_speed_frac = n(1.01)),
        Some(ConfigError::NotAFraction("warning_speed_frac"))
    );
    assert_eq!(
        error_after(|c| c.warning_speed_frac = n(f32::NAN)),
        Some(ConfigError::NotFinite("warning_speed_frac"))
    );
    assert_eq!(
        error_after(|c| c.warning_scale = n(f32::INFINITY)),
        Some(ConfigError::NotFinite("warning_scale"))
    );
    assert_eq!(
        error_after(|c| c.warning_scale = n(1.0)),
        Some(ConfigError::WarningInsideProtective)
    );
}

#[test]
fn docking_may_not_be_wider_or_faster_than_normal() {
    assert_eq!(
        error_after(|c| c.docking.half_width_m = n(0.46)),
        Some(ConfigError::DockingFieldNotNarrower)
    );
    assert_eq!(
        error_after(|c| c.docking.max_linear = n(1.3)),
        Some(ConfigError::DockingFieldNotNarrower)
    );
    assert_eq!(error_after(|c| c.docking.max_linear = c.max_linear), None);
}

#[test]
fn the_first_fault_is_the_one_reported() {
    let mut c = SafetyConfig::default();
    c.warning_scale = n(0.5);
    c.reaction_time_s = n(-1.0);
    assert_eq!(c.validate(), Err(ConfigError::Negative("reaction_time_s")));
    c.half_width_m = n(0.0);
    assert_eq!(c.validate(), Err(ConfigError::NotPositive("half_width_m")));
    let mut c = SafetyConfig::default();
    c.docking.max_protective_m = n(0.0);
    c.docking.max_linear = n(-1.0);
    assert_eq!(c.validate(), Err(ConfigError::Negative("docking.max_linear")));
}
