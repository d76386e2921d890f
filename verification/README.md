# depot_safety_core

The safety and velocity-arbitration core of a warehouse robot, verified with Verus. It
sits below the navigation stack, takes a raw lidar scan and a requested velocity, and
decides what reaches the motors.

* `src/arbiter.rs` turns requests into motion: one call of `Arbiter::step` per cycle.
* `src/field.rs`, `src/geometry.rs`, `src/scan.rs` size the protective fields and test
  a scan against them.
* `src/state.rs` latches stops and releases them after a hold.
* `src/config.rs`, `src/types.rs` hold the configuration and the values at the boundary.
* `src/binary32.rs`, `src/rounding.rs` are IEEE 754 binary32 arithmetic on integers,
  proved to round to nearest, ties to even. `src/numeric.rs` holds what that arithmetic
  keeps.
* `src/laws.rs` and the files below it state and prove what the layer promises as a
  whole: over one cycle and over any history of cycles.
* `app/` supplies direction cosines from `libm` and converts native floats.

```rust
let mut arbiter = Arbiter::new(SafetyConfig::default()).unwrap();
// No scan has ever arrived, so the layer refuses to move.
let decision = arbiter.step(&Tick::new(0), &direction);
assert_eq!(decision.twist, Twist::zero());
assert_eq!(decision.state, FieldState::ProtectiveStop);
```
