//! Scan geometry and evaluation.

use depot_safety_core::scan::evaluate;
use depot_safety_core::{
    Binary32, Direction, FieldExtent, Scan, ScanError, ScanGeometry, ScanVerdict, MAX_RAYS,
};

fn n(x: f32) -> Binary32 {
    Binary32::from_bits(x.to_bits())
}

fn h(x: Binary32) -> f32 {
    f32::from_bits(x.to_bits())
}

/// The direction cosines of a bearing.
fn direction(theta: Binary32) -> Direction {
    Direction { cos: n(libm::cosf(h(theta))), sin: n(libm::sinf(h(theta))) }
}

fn numbers(ranges: &[f32]) -> Vec<Binary32> {
    ranges.iter().map(|r| n(*r)).collect()
}

fn scan_of(ranges: &[Binary32]) -> Scan<'_> {
    Scan {
        stamp_us: 0,
        angle_min: n(-core::f32::consts::FRAC_PI_2),
        angle_increment: n(core::f32::consts::PI / (ranges.len() as f32 - 1.0)),
        range_min: n(0.05),
        range_max: n(10.0),
        ranges,
    }
}

fn extent() -> FieldExtent {
    FieldExtent { protective_len: n(1.0), warning_len: n(2.0), half_width: n(0.5) }
}

/// The verdict of a scan over its own geometry.
fn verdict(ranges: &[f32]) -> ScanVerdict {
    let ranges = numbers(ranges);
    let scan = scan_of(&ranges);
    let mut geom = ScanGeometry::default();
    geom.configure(&scan, &direction).unwrap();
    evaluate(&geom, &scan, &extent())
}

#[test]
fn an_empty_floor_is_clear() {
    let ranges = [8.0_f32; 181];
    let v = verdict(&ranges);
    assert!(!v.protective_breach);
    assert!(!v.warning_breach);
}

#[test]
fn a_wall_dead_ahead_breaches_the_protective_field() {
    let mut ranges = [8.0_f32; 181];
    ranges[90] = 0.5; // index 90 is straight ahead across a 180-degree sweep
    let v = verdict(&ranges);
    assert!(v.protective_breach);
    assert!(v.warning_breach, "a protective breach is always a warning breach");
    assert_eq!(v.protective_hits, 1);
}

#[test]
fn an_obstacle_beside_the_robot_is_ignored() {
    let mut ranges = [8.0_f32; 181];
    ranges[0] = 0.2; // hard left, 90 degrees off axis
    ranges[180] = 0.2; // hard right
    let v = verdict(&ranges);
    assert!(!v.protective_breach, "the robot is not about to drive sideways");
}

#[test]
fn nan_returns_are_faults_not_clear_floor() {
    let mut ranges = [f32::NAN; 181];
    ranges[90] = 8.0;
    let v = verdict(&ranges);
    assert!(!v.protective_breach);
    assert_eq!(h(v.closest_m), 8.0, "NaN must not become the closest return");
}

#[test]
fn returns_outside_the_sensor_band_are_discarded() {
    let mut ranges = [8.0_f32; 181];
    ranges[90] = 0.01; // below range_min: a self-reflection, not an obstacle
    let v = verdict(&ranges);
    assert!(!v.protective_breach);
}

#[test]
fn geometry_is_cached_and_rebuilt_only_when_it_changes() {
    let a = numbers(&[8.0_f32; 181]);
    let b = numbers(&[8.0_f32; 91]);
    let scan_a = scan_of(&a);
    let scan_b = scan_of(&b);
    let mut geom = ScanGeometry::default();
    geom.ensure(&scan_a, &direction).unwrap();
    assert!(geom.matches(&scan_a));
    assert!(!geom.matches(&scan_b));
    geom.ensure(&scan_b, &direction).unwrap();
    assert_eq!(geom.len(), 91);
}

#[test]
fn malformed_geometry_is_rejected() {
    let ranges = numbers(&[1.0_f32; 8]);
    let mut geom = ScanGeometry::default();
    let mut s = scan_of(&ranges);
    s.angle_increment = n(0.0);
    assert_eq!(geom.configure(&s, &direction), Err(ScanError::BadIncrement));
    s.angle_increment = n(0.01);
    s.angle_min = n(f32::NAN);
    assert_eq!(geom.configure(&s, &direction), Err(ScanError::BadAngleMin));

    let empty: [Binary32; 0] = [];
    let s = Scan { ranges: &empty, ..scan_of(&ranges) };
    assert_eq!(geom.configure(&s, &direction), Err(ScanError::Empty));

    let huge = numbers(&[1.0_f32; MAX_RAYS + 1]);
    let s = Scan { ranges: &huge, ..scan_of(&ranges) };
    assert_eq!(geom.configure(&s, &direction), Err(ScanError::TooManyRays));
}

#[test]
fn a_cached_geometry_asks_for_no_directions() {
    let ranges = numbers(&[1.0_f32; 31]);
    let scan = scan_of(&ranges);
    let mut geom = ScanGeometry::default();
    assert!(geom.is_empty());
    geom.ensure(&scan, &direction).unwrap();
    assert!(!geom.is_empty());
    let refuse = |_: Binary32| -> Direction { panic!("the cache should have been used") };
    assert_eq!(geom.ensure(&scan, &refuse), Ok(()));
}

#[test]
fn a_rejected_scan_leaves_the_cache_alone() {
    let ranges = numbers(&[1.0_f32; 31]);
    let scan = scan_of(&ranges);
    let mut geom = ScanGeometry::default();
    geom.ensure(&scan, &direction).unwrap();
    let bad = Scan { angle_increment: n(f32::INFINITY), ..scan };
    assert_eq!(geom.ensure(&bad, &direction), Err(ScanError::BadIncrement));
    assert!(geom.matches(&scan));
    assert_eq!(geom.len(), 31);
}

#[test]
fn an_empty_scan_is_never_usable() {
    let empty: [Binary32; 0] = [];
    let scan = Scan {
        stamp_us: 0,
        angle_min: n(0.0),
        angle_increment: n(0.0),
        range_min: n(0.05),
        range_max: n(10.0),
        ranges: &empty,
    };
    let mut geom = ScanGeometry::default();
    assert_eq!(geom.ensure(&scan, &direction), Err(ScanError::Empty));
}

#[test]
fn a_blind_verdict_is_a_breach_without_hits() {
    let v = ScanVerdict::blind();
    assert!(v.protective_breach && v.warning_breach);
    assert_eq!((v.protective_hits, v.warning_hits), (0, 0));
    assert_eq!(h(v.closest_m), f32::INFINITY);
    let v = ScanVerdict::default();
    assert!(!v.protective_breach && !v.warning_breach);
    assert_eq!(h(v.closest_m), 0.0);
}

#[test]
fn hits_are_counted_per_field() {
    let mut ranges = [8.0_f32; 181];
    ranges[88] = 0.5;
    ranges[90] = 0.6;
    ranges[92] = 1.5;
    let v = verdict(&ranges);
    assert_eq!(v.protective_hits, 2);
    assert_eq!(v.warning_hits, 3);
    assert_eq!(h(v.closest_m), 0.5);
}

#[test]
fn a_scan_without_valid_returns_has_no_closest_one() {
    let v = verdict(&[f32::INFINITY; 181]);
    assert_eq!(h(v.closest_m), f32::INFINITY);
    assert!(!v.warning_breach);
}

#[test]
fn only_rays_that_have_a_direction_are_evaluated() {
    let short = numbers(&[8.0_f32; 3]);
    let mut long = [8.0_f32; 181];
    long[90] = 0.5;
    let long = numbers(&long);
    let mut geom = ScanGeometry::default();
    geom.configure(&scan_of(&short), &direction).unwrap();
    let v = evaluate(&geom, &scan_of(&long), &extent());
    assert!(!v.protective_breach);
    assert_eq!(h(v.closest_m), 8.0);
}
