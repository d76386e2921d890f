//! Deterministic safety and velocity-arbitration core for a warehouse robot fleet.
//!
//! This crate sits *below* the navigation stack. It consumes a raw lidar scan and a
//! requested velocity and decides what actually reaches the motors. Navigation can be
//! wrong; this layer is what keeps wrong from becoming dangerous.
//!
//! # Guarantees
//!
//! * **No heap allocation.** Nothing here allocates, at init or after. Scan geometry
//!   lookup tables live in fixed-size arrays owned by the caller's [`Arbiter`].
//! * **No I/O and no clock reads.** Time enters through [`Tick::now_us`]. The same
//!   inputs against the same state always produce the same [`Decision`], which is what
//!   makes the layer testable and replayable.
//! * **Bounded work.** Every loop is bounded by the ray count, itself bounded by
//!   [`MAX_RAYS`]. There is no recursion and no unbounded iteration.
//! * **No panics.** No indexing goes out of bounds and no integer arithmetic overflows.
//! * **Exact arithmetic.** Quantities are [`Binary32`] numbers, whose operations are
//!   specified by the real numbers they stand for.
//!
//! # Order of authority
//!
//! When several rules apply, the most restrictive wins. Reported precedence, highest
//! first, is E-stop, missing or stale scan, protective field, command watchdog,
//! warning field, then externally supplied zone limits.
//!
//! What the layer promises as a whole is stated and proved in [`laws`].

pub mod arbiter;
pub mod binary32;
pub mod config;
pub mod field;
pub mod geometry;
pub mod laws;
pub mod numeric;
pub mod rounding;
pub mod scan;
pub mod state;
pub mod types;

pub use arbiter::{Arbiter, Decision, Tick, VetoReason};
pub use binary32::Binary32;
pub use config::{ConfigError, DockingConfig, SafetyConfig};
pub use field::FieldExtent;
pub use scan::{Direction, ScanError, ScanGeometry, ScanVerdict, MAX_RAYS};
pub use state::FieldState;
pub use types::{Command, Micros, Mode, Scan, Twist, ZoneLimits};
