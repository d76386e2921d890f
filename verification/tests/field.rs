//! Field sizing.

use depot_safety_core::{Binary32, FieldExtent, Mode, SafetyConfig};

fn n(x: f32) -> Binary32 {
    Binary32::from_bits(x.to_bits())
}

fn h(x: Binary32) -> f32 {
    f32::from_bits(x.to_bits())
}

#[test]
fn a_stationary_robot_still_has_a_field() {
    let cfg = SafetyConfig::default();
    let f = FieldExtent::compute(&cfg, n(0.0), Mode::Normal);
    assert!(f.protective_len >= cfg.min_protective_m);
}

#[test]
fn the_field_grows_with_speed() {
    let cfg = SafetyConfig::default();
    let slow = FieldExtent::compute(&cfg, n(0.2), Mode::Normal);
    let fast = FieldExtent::compute(&cfg, n(1.2), Mode::Normal);
    assert!(fast.protective_len > slow.protective_len);
}

#[test]
fn the_field_covers_the_true_stopping_distance() {
    let cfg = SafetyConfig::default();
    for i in 0..=12 {
        let v = 0.1 * i as f32;
        let f = FieldExtent::compute(&cfg, n(v), Mode::Normal);
        let physical = v * h(cfg.reaction_time_s) + (v * v) / (2.0 * h(cfg.max_decel));
        assert!(
            h(f.protective_len) >= physical,
            "v={v}: field {} shorter than stopping distance {physical}",
            h(f.protective_len)
        );
    }
}

#[test]
fn the_warning_field_encloses_the_protective_field() {
    let cfg = SafetyConfig::default();
    for mode in [Mode::Normal, Mode::Docking] {
        for i in 0..=12 {
            let f = FieldExtent::compute(&cfg, n(0.1 * i as f32), mode);
            assert!(f.warning_len >= f.protective_len);
        }
    }
}

#[test]
fn docking_narrows_the_field_but_never_removes_it() {
    let cfg = SafetyConfig::default();
    let normal = FieldExtent::compute(&cfg, n(0.15), Mode::Normal);
    let docking = FieldExtent::compute(&cfg, n(0.15), Mode::Docking);
    assert!(docking.protective_len < normal.protective_len);
    assert!(docking.half_width < normal.half_width);
    assert!(docking.protective_len > n(0.0));
    assert!(docking.half_width > n(0.0));
}

#[test]
fn a_garbage_speed_estimate_yields_the_largest_field() {
    let cfg = SafetyConfig::default();
    let worst = FieldExtent::compute(&cfg, cfg.max_linear, Mode::Normal);
    for bad in [f32::NAN, f32::INFINITY, -f32::INFINITY, 1e9] {
        let f = FieldExtent::compute(&cfg, n(bad), Mode::Normal);
        assert!(f.protective_len.is_finite());
        assert!((h(f.protective_len) - h(worst.protective_len)).abs() < 1e-6, "{bad}");
    }
}

#[test]
fn the_extent_at_full_speed_is_exact() {
    let cfg = SafetyConfig::default();
    let f = FieldExtent::compute(&cfg, n(-1.2), Mode::Normal);
    let v = 1.2f32;
    let expected = 0.25f32 + (v * 0.12 + (v * v) / (2.0 * 1.0)) + 0.10;
    assert_eq!(f.protective_len.to_bits(), expected.to_bits());
    assert_eq!(f.warning_len.to_bits(), (expected * 2.0).to_bits());
    assert_eq!(f.half_width.to_bits(), 0.45f32.to_bits());
}

#[test]
fn the_default_extent_is_empty() {
    let f = FieldExtent::default();
    assert_eq!(f.protective_len, n(0.0));
    assert_eq!(f.warning_len, n(0.0));
    assert_eq!(f.half_width, n(0.0));
}
