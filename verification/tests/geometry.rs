//! Field boundaries in polar form.

use depot_safety_core::geometry::{forward_rect_boundary, inside_forward_rect};
use depot_safety_core::Binary32;

const EPS: f32 = 1e-5;

fn n(x: f32) -> Binary32 {
    Binary32::from_bits(x.to_bits())
}

fn h(x: Binary32) -> f32 {
    f32::from_bits(x.to_bits())
}

/// The boundary of a field, from and to hardware floats.
fn boundary(length: f32, half_width: f32, cos_t: f32, sin_t: f32) -> Option<f32> {
    forward_rect_boundary(n(length), n(half_width), n(cos_t), n(sin_t)).map(h)
}

/// Whether a return is inside a field, from hardware floats.
fn inside(range: f32, cos_t: f32, sin_t: f32, length: f32, half_width: f32) -> bool {
    inside_forward_rect(n(range), n(cos_t), n(sin_t), n(length), n(half_width))
}

#[test]
fn straight_ahead_boundary_is_the_field_length() {
    let b = boundary(2.0, 0.5, 1.0, 0.0).unwrap();
    assert!((b - 2.0).abs() < EPS, "{b}");
}

#[test]
fn rays_behind_the_robot_never_enter_the_field() {
    assert!(boundary(2.0, 0.5, -1.0, 0.0).is_none());
    assert!(boundary(2.0, 0.5, 0.0, 1.0).is_none());
}

#[test]
fn steep_rays_exit_through_the_side_wall() {
    // 45 degrees: the front face is 2 m away along x, so the ray would need to be
    // 2 m off-axis, far outside a 0.5 m half-width.
    let c = core::f32::consts::FRAC_1_SQRT_2;
    let b = boundary(2.0, 0.5, c, c).unwrap();
    let expected = 0.5 / c;
    assert!((b - expected).abs() < EPS, "{b} vs {expected}");
}

#[test]
fn the_boundary_is_symmetric_in_bearing() {
    let c = 0.8_f32;
    let s = 0.6_f32;
    let left = boundary(1.5, 0.4, c, s).unwrap();
    let right = boundary(1.5, 0.4, c, -s).unwrap();
    assert!((left - right).abs() < EPS);
}

#[test]
fn a_point_on_the_boundary_is_outside_the_field() {
    // Strict inequality matters: a wall exactly at the field edge should not latch
    // a stop, or a robot parked at the limit would chatter.
    assert!(!inside(2.0, 1.0, 0.0, 2.0, 0.5));
    assert!(inside(2.0 - 1e-3, 1.0, 0.0, 2.0, 0.5));
}

#[test]
fn a_longer_field_never_excludes_a_point_a_shorter_one_caught() {
    // Monotonicity in length, relied on by the speed-scaling argument.
    for i in 0..64 {
        let theta = -1.0 + 2.0 * (i as f32) / 63.0;
        let (s, c) = (libm::sinf(theta), libm::cosf(theta));
        for j in 0..32 {
            let range = 0.05 + 0.1 * j as f32;
            let short = inside(range, c, s, 1.0, 0.5);
            let long = inside(range, c, s, 2.0, 0.5);
            assert!(!short || long, "theta={theta} range={range}");
        }
    }
}

#[test]
fn an_empty_rectangle_has_no_boundary() {
    assert!(boundary(0.0, 0.5, 1.0, 0.0).is_none());
    assert!(boundary(-1.0, 0.5, 1.0, 0.0).is_none());
    assert!(boundary(1.0, 0.0, 1.0, 0.0).is_none());
    assert!(!inside(0.1, 1.0, 0.0, 0.0, 0.5));
}

#[test]
fn the_boundary_is_exact_to_the_last_bit() {
    assert_eq!(boundary(2.0, 0.5, 0.8, 0.6).unwrap().to_bits(), (0.5f32 / 0.6).to_bits());
    assert_eq!(boundary(0.5, 0.5, 0.8, 0.6).unwrap().to_bits(), (0.5f32 / 0.8).to_bits());
}
