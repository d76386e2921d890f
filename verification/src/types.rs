//! Value types crossing the safety-layer boundary.

use crate::binary32;
use crate::binary32::Binary32;
use vstd::prelude::*;
use vstd::std_specs::cmp::PartialEqSpecImpl;

verus! {

/// Monotonic timestamp in microseconds.
///
/// The core never reads a clock. Every timestamp is supplied by the caller, which is
/// what lets a recorded run be replayed bit-for-bit.
pub type Micros = u64;

/// The time from `since` to `now`, or zero where the clock has gone backwards.
pub open spec fn elapsed(since: Micros, now: Micros) -> int {
    if since <= now {
        now - since
    } else {
        0
    }
}

/// A planar velocity command for a differential-drive base.
#[derive(Clone, Copy, Debug)]
pub struct Twist {
    /// Forward velocity, metres per second. Positive is forward.
    pub linear: Binary32,
    /// Yaw rate, radians per second. Positive is counter-clockwise.
    pub angular: Binary32,
}

/// The stationary command.
pub open spec fn stationary() -> Twist {
    Twist { linear: binary32::zero(), angular: binary32::zero() }
}

impl Twist {
    /// Both components are finite.
    pub open spec fn finite(self) -> bool {
        self.linear.finite() && self.angular.finite()
    }

    /// Each component clamped to its own limit.
    pub open spec fn limited(self, max_linear: Binary32, max_angular: Binary32) -> Twist {
        Twist {
            linear: clamp(self.linear, max_linear),
            angular: clamp(self.angular, max_angular),
        }
    }

    /// Each component is numerically equal.
    pub open spec fn equals(self, other: Twist) -> bool {
        self.linear.equals(other.linear) && self.angular.equals(other.angular)
    }

    /// A stationary command.
    pub fn zero() -> (r: Twist)
        ensures
            r == stationary(),
    {
        Twist { linear: Binary32::zero(), angular: Binary32::zero() }
    }

    /// Constructs a twist.
    #[must_use]
    pub fn new(linear: Binary32, angular: Binary32) -> (r: Twist)
        ensures
            r == (Twist { linear, angular }),
    {
        Twist { linear, angular }
    }

    /// True when both components are finite.
    ///
    /// A NaN slipping through to the motors is a runaway, so non-finite commands are
    /// rejected rather than clamped.
    #[must_use]
    pub fn is_finite(&self) -> (r: bool)
        ensures
            r == self.finite(),
    {
        self.linear.is_finite() && self.angular.is_finite()
    }

    /// Clamps both components to the given symmetric limits.
    #[must_use]
    pub fn clamped(self, max_linear: Binary32, max_angular: Binary32) -> (r: Twist)
        ensures
            r == self.limited(max_linear, max_angular),
    {
        Twist {
            linear: clamp_sym(self.linear, max_linear),
            angular: clamp_sym(self.angular, max_angular),
        }
    }

    /// Scales both components by `factor`.
    #[must_use]
    pub fn scaled(self, factor: Binary32) -> (r: Twist)
        ensures
            r == (Twist {
                linear: self.linear.times(factor),
                angular: self.angular.times(factor),
            }),
    {
        Twist { linear: self.linear * factor, angular: self.angular * factor }
    }
}

impl PartialEqSpecImpl for Twist {
    open spec fn obeys_eq_spec() -> bool {
        true
    }

    open spec fn eq_spec(&self, other: &Twist) -> bool {
        self.equals(*other)
    }
}

impl PartialEq for Twist {
    fn eq(&self, other: &Twist) -> (r: bool) {
        self.linear == other.linear && self.angular == other.angular
    }
}

impl Default for Twist {
    fn default() -> (r: Twist)
        ensures
            r == stationary(),
    {
        Twist::zero()
    }
}

/// `value` where it lies within `[-limit, limit]`, and otherwise the bound that it
/// passes. A NaN passes no bound.
pub open spec fn clamp(value: Binary32, limit: Binary32) -> Binary32 {
    if limit.less(value) {
        limit
    } else if value.less(limit.opposite()) {
        limit.opposite()
    } else {
        value
    }
}

/// Clamps `value` into `[-limit, limit]`. `limit` is assumed non-negative.
#[must_use]
pub fn clamp_sym(value: Binary32, limit: Binary32) -> (r: Binary32)
    ensures
        r == clamp(value, limit),
{
    if value > limit {
        limit
    } else if value < limit.negated() {
        limit.negated()
    } else {
        value
    }
}

/// A velocity request from the navigation stack, with the time it was produced.
///
/// The stamp is the *origin* time, not the arrival time, so the watchdog measures the
/// age of the freshest command rather than the health of the transport.
#[derive(Clone, Copy, Debug, PartialEq)]
pub struct Command {
    /// The requested velocity.
    pub twist: Twist,
    /// When the requesting node produced it.
    pub stamp_us: Micros,
}

impl Command {
    /// Constructs a command.
    #[must_use]
    pub fn new(twist: Twist, stamp_us: Micros) -> (r: Command)
        ensures
            r == (Command { twist, stamp_us }),
    {
        Command { twist, stamp_us }
    }
}

/// A single planar lidar revolution, borrowed from the caller's buffer.
///
/// Ranges are metres, indexed from `angle_min` in steps of `angle_increment`.
/// Non-finite entries and entries outside `[range_min, range_max]` are treated as
/// no-return, not as obstacles.
#[derive(Clone, Copy, Debug)]
pub struct Scan<'a> {
    /// When the scan was measured.
    pub stamp_us: Micros,
    /// Bearing of `ranges[0]`, radians, robot frame, zero straight ahead.
    pub angle_min: Binary32,
    /// Bearing step between consecutive rays, radians.
    pub angle_increment: Binary32,
    /// Minimum trustworthy range, metres.
    pub range_min: Binary32,
    /// Maximum trustworthy range, metres.
    pub range_max: Binary32,
    /// Measured ranges, metres.
    pub ranges: &'a [Binary32],
}

/// Which protective-field profile is in force.
#[derive(Clone, Copy, Debug, PartialEq, Eq, Structural)]
pub enum Mode {
    /// Free navigation. The full speed-scaled field applies.
    Normal,
    /// Final approach beneath a shelf.
    ///
    /// A shelf leg is *supposed* to be directly ahead here, so the field is narrowed
    /// and shortened and the speed ceiling is dropped. It is never disabled: the robot
    /// still stops for anything closer than the docking field, and it still cannot
    /// exceed the docking speed limit.
    Docking,
}

impl Default for Mode {
    fn default() -> (r: Mode)
        ensures
            r == Mode::Normal,
    {
        Mode::Normal
    }
}

/// Externally imposed speed ceilings, typically from human detection upstream.
///
/// These only ever restrict. A zone limit wider than the configured maximum has no
/// effect, so a misbehaving perception node cannot raise the robot's speed.
#[derive(Clone, Copy, Debug, PartialEq)]
pub struct ZoneLimits {
    /// Maximum permitted forward speed, metres per second.
    pub max_linear: Binary32,
    /// Maximum permitted yaw rate, radians per second.
    pub max_angular: Binary32,
}

/// Limits that impose no restriction of their own.
pub open spec fn no_limits() -> ZoneLimits {
    ZoneLimits { max_linear: binary32::infinity(), max_angular: binary32::infinity() }
}

/// A limit as received, or zero where it is non-finite or negative.
pub open spec fn sane_limit(v: Binary32) -> Binary32 {
    if !v.finite() || v.less(binary32::zero()) {
        binary32::zero()
    } else {
        v
    }
}

impl ZoneLimits {
    /// Neither limit is negative, as in all limits that [`ZoneLimits::new`] makes.
    pub open spec fn sane(self) -> bool {
        !self.max_linear.less(binary32::zero()) && !self.max_angular.less(binary32::zero())
    }

    /// Limits that impose no restriction of their own.
    #[must_use]
    pub fn unrestricted() -> (r: ZoneLimits)
        ensures
            r == no_limits(),
    {
        ZoneLimits {
            max_linear: Binary32::infinity(),
            max_angular: Binary32::infinity(),
        }
    }

    /// Constructs zone limits, mapping non-finite or negative values to zero.
    ///
    /// A garbled zone message therefore stops the robot rather than freeing it.
    #[must_use]
    pub fn new(max_linear: Binary32, max_angular: Binary32) -> (r: ZoneLimits)
        ensures
            r == (ZoneLimits {
                max_linear: sane_limit(max_linear),
                max_angular: sane_limit(max_angular),
            }),
    {
        ZoneLimits {
            max_linear: sanitize_limit(max_linear),
            max_angular: sanitize_limit(max_angular),
        }
    }
}

impl Default for ZoneLimits {
    fn default() -> (r: ZoneLimits)
        ensures
            r == no_limits(),
    {
        ZoneLimits::unrestricted()
    }
}

fn sanitize_limit(v: Binary32) -> (r: Binary32)
    ensures
        r == sane_limit(v),
{
    if !v.is_finite() || v < Binary32::zero() {
        Binary32::zero()
    } else {
        v
    }
}

} // verus!
