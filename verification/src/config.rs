//! Static configuration for the safety layer.
//!
//! Configuration is validated once at construction and immutable afterwards. There is
//! no runtime tuning path on purpose: a field that can be shrunk while the robot is
//! moving will eventually be shrunk while the robot is moving.

use crate::binary32;
use crate::binary32::Binary32;
use vstd::prelude::*;

verus! {

/// Why a [`SafetyConfig`] was rejected.
#[derive(Clone, Copy, Debug, PartialEq, Eq)]
pub enum ConfigError {
    /// A parameter was NaN or infinite.
    NotFinite(&'static str),
    /// A parameter that must be strictly positive was zero or negative.
    NotPositive(&'static str),
    /// A parameter that must be non-negative was negative.
    Negative(&'static str),
    /// The warning field would not enclose the protective field.
    WarningInsideProtective,
    /// The docking field would be wider, or docking faster, than normal driving.
    DockingFieldNotNarrower,
    /// A fraction parameter fell outside `[0, 1]`.
    NotAFraction(&'static str),
}

/// The protective-field profile used during shelf docking.
///
/// Docking deliberately drives *at* a known obstacle, so the normal field would latch
/// a protective stop on the shelf itself. The response is a narrower and shorter
/// field plus a hard speed ceiling — never a disabled field.
#[derive(Clone, Copy, Debug, PartialEq)]
pub struct DockingConfig {
    /// Lateral half-extent of the docking field, metres. Must fit between shelf legs.
    pub half_width_m: Binary32,
    /// Hard ceiling on the docking protective-field length, metres. Must be positive,
    /// or docking would disable the field.
    pub max_protective_m: Binary32,
    /// Hard ceiling on forward speed while docking, metres per second.
    pub max_linear: Binary32,
}

/// The docking profile for a 0.35 m half-width base approaching a shelf with a 0.9 m
/// leg span.
pub open spec fn default_docking() -> DockingConfig {
    DockingConfig {
        half_width_m: binary32::fraction(22, 100),
        max_protective_m: binary32::fraction(12, 100),
        max_linear: binary32::fraction(15, 100),
    }
}

impl Default for DockingConfig {
    /// Tuned for a 0.35 m half-width base approaching a shelf with a 0.9 m leg span.
    fn default() -> (r: DockingConfig)
        ensures
            r == default_docking(),
    {
        DockingConfig {
            half_width_m: Binary32::ratio(22, 100),
            max_protective_m: Binary32::ratio(12, 100),
            max_linear: Binary32::ratio(15, 100),
        }
    }
}

/// Everything the arbitration core needs to know about the vehicle and its limits.
#[derive(Clone, Copy, Debug, PartialEq)]
pub struct SafetyConfig {
    /// Absolute forward-speed ceiling, metres per second.
    pub max_linear: Binary32,
    /// Absolute yaw-rate ceiling, radians per second.
    pub max_angular: Binary32,
    /// Comfortable forward acceleration used for output ramping, m/s².
    pub max_accel: Binary32,
    /// Braking capability used both for ramping and for stopping-distance sizing, m/s².
    ///
    /// Size this from *measured* deceleration on the worst floor surface you expect,
    /// not from the motor datasheet. Every field length depends on it.
    pub max_decel: Binary32,
    /// Yaw acceleration limit used for output ramping, rad/s².
    pub max_angular_accel: Binary32,
    /// Sensing-plus-compute-plus-actuation latency folded into field length, seconds.
    pub reaction_time_s: Binary32,
    /// Constant pad added beyond the computed stopping distance, metres.
    pub protective_margin_m: Binary32,
    /// Field length floor, applied even at a standstill, metres.
    pub min_protective_m: Binary32,
    /// Warning-field length as a multiple of the protective length. Must exceed 1.
    pub warning_scale: Binary32,
    /// Lateral half-extent of the field, metres: body half-width plus clearance.
    pub half_width_m: Binary32,
    /// Fraction of `max_linear` permitted while an obstacle is in the warning field.
    pub warning_speed_frac: Binary32,
    /// Command age at which the watchdog begins ramping to zero, microseconds.
    pub watchdog_timeout_us: u64,
    /// Scan age beyond which the robot is considered blind, microseconds.
    pub scan_timeout_us: u64,
    /// How long the protective field must stay clear before the stop releases, µs.
    pub clear_hold_us: u64,
    /// The docking profile.
    pub docking: DockingConfig,
}

/// The configuration of a mid-size warehouse robot: 0.7 m wide, 1.2 m/s, 1.0 m/s²
/// braking.
pub open spec fn default_config() -> SafetyConfig {
    SafetyConfig {
        max_linear: binary32::fraction(12, 10),
        max_angular: binary32::fraction(15, 10),
        max_accel: binary32::fraction(8, 10),
        max_decel: binary32::fraction(1, 1),
        max_angular_accel: binary32::fraction(2, 1),
        reaction_time_s: binary32::fraction(12, 100),
        protective_margin_m: binary32::fraction(10, 100),
        min_protective_m: binary32::fraction(25, 100),
        warning_scale: binary32::fraction(2, 1),
        half_width_m: binary32::fraction(45, 100),
        warning_speed_frac: binary32::fraction(35, 100),
        watchdog_timeout_us: 100_000,
        scan_timeout_us: 200_000,
        clear_hold_us: 500_000,
        docking: default_docking(),
    }
}

impl Default for SafetyConfig {
    /// Defaults for a mid-size warehouse AMR: 0.7 m wide, 1.2 m/s, 1.0 m/s² braking.
    fn default() -> (r: SafetyConfig)
        ensures
            r == default_config(),
    {
        SafetyConfig {
            max_linear: Binary32::ratio(12, 10),
            max_angular: Binary32::ratio(15, 10),
            max_accel: Binary32::ratio(8, 10),
            max_decel: Binary32::ratio(1, 1),
            max_angular_accel: Binary32::ratio(2, 1),
            reaction_time_s: Binary32::ratio(12, 100),
            protective_margin_m: Binary32::ratio(10, 100),
            min_protective_m: Binary32::ratio(25, 100),
            warning_scale: Binary32::ratio(2, 1),
            half_width_m: Binary32::ratio(45, 100),
            warning_speed_frac: Binary32::ratio(35, 100),
            watchdog_timeout_us: 100_000,
            scan_timeout_us: 200_000,
            clear_hold_us: 500_000,
            docking: DockingConfig::default(),
        }
    }
}

/// A parameter is finite and greater than zero.
pub open spec fn positive(x: Binary32) -> bool {
    x.finite() && binary32::zero().less(x)
}

/// A parameter is finite and at least zero.
pub open spec fn non_negative(x: Binary32) -> bool {
    x.finite() && binary32::zero().at_most(x)
}

/// What is wrong with a parameter that must be positive.
pub open spec fn positive_fault(name: &'static str, x: Binary32) -> Option<ConfigError> {
    if !x.finite() {
        Some(ConfigError::NotFinite(name))
    } else if !positive(x) {
        Some(ConfigError::NotPositive(name))
    } else {
        None
    }
}

/// What is wrong with a parameter that must not be negative.
pub open spec fn negative_fault(name: &'static str, x: Binary32) -> Option<ConfigError> {
    if !x.finite() {
        Some(ConfigError::NotFinite(name))
    } else if !non_negative(x) {
        Some(ConfigError::Negative(name))
    } else {
        None
    }
}

/// What is wrong with the warning speed fraction.
pub open spec fn fraction_fault(name: &'static str, x: Binary32) -> Option<ConfigError> {
    if !x.finite() {
        Some(ConfigError::NotFinite(name))
    } else if !(binary32::zero().at_most(x) && x.at_most(binary32::unit())) {
        Some(ConfigError::NotAFraction(name))
    } else {
        None
    }
}

/// What is wrong with the scale of the warning field.
pub open spec fn scale_fault(name: &'static str, x: Binary32) -> Option<ConfigError> {
    if !x.finite() {
        Some(ConfigError::NotFinite(name))
    } else if !binary32::unit().less(x) {
        Some(ConfigError::WarningInsideProtective)
    } else {
        None
    }
}

/// What is wrong with a docking parameter that must not exceed the normal one.
pub open spec fn docking_fault(docking: Binary32, normal: Binary32) -> Option<ConfigError> {
    if normal.less(docking) {
        Some(ConfigError::DockingFieldNotNarrower)
    } else {
        None
    }
}

/// The error `e` is the first fault of a list.
pub open spec fn first_fault(faults: Seq<Option<ConfigError>>, e: ConfigError) -> bool {
    exists|i: int|
        0 <= i < faults.len() && #[trigger] faults[i] == Some(e) && (forall|j: int|
            0 <= j < i ==> (#[trigger] faults[j]) is None)
}

/// Describes a parameter that must be positive and is not.
fn check_positive(name: &'static str, x: Binary32) -> (r: Option<ConfigError>)
    ensures
        r == positive_fault(name, x),
{
    if !x.is_finite() {
        Some(ConfigError::NotFinite(name))
    } else if x <= Binary32::zero() {
        Some(ConfigError::NotPositive(name))
    } else {
        None
    }
}

/// Describes a parameter that must not be negative and is.
fn check_non_negative(name: &'static str, x: Binary32) -> (r: Option<ConfigError>)
    ensures
        r == negative_fault(name, x),
{
    if !x.is_finite() {
        Some(ConfigError::NotFinite(name))
    } else if x < Binary32::zero() {
        Some(ConfigError::Negative(name))
    } else {
        None
    }
}

/// Describes a parameter that must lie within `[0, 1]` and does not.
fn check_fraction(name: &'static str, x: Binary32) -> (r: Option<ConfigError>)
    ensures
        r == fraction_fault(name, x),
{
    if !x.is_finite() {
        Some(ConfigError::NotFinite(name))
    } else if x < Binary32::zero() || x > Binary32::one() {
        Some(ConfigError::NotAFraction(name))
    } else {
        None
    }
}

/// Describes a warning scale that does not exceed one.
fn check_scale(name: &'static str, x: Binary32) -> (r: Option<ConfigError>)
    ensures
        r == scale_fault(name, x),
{
    if !x.is_finite() {
        Some(ConfigError::NotFinite(name))
    } else if x <= Binary32::one() {
        Some(ConfigError::WarningInsideProtective)
    } else {
        None
    }
}

/// Describes a docking parameter that exceeds the normal one.
fn check_docking(docking: Binary32, normal: Binary32) -> (r: Option<ConfigError>)
    ensures
        r == docking_fault(docking, normal),
{
    if docking > normal {
        Some(ConfigError::DockingFieldNotNarrower)
    } else {
        None
    }
}

impl SafetyConfig {
    /// Every invariant that the rest of the crate relies on.
    pub open spec fn valid(self) -> bool {
        &&& positive(self.max_linear)
        &&& positive(self.max_angular)
        &&& positive(self.max_accel)
        &&& positive(self.max_decel)
        &&& positive(self.max_angular_accel)
        &&& positive(self.min_protective_m)
        &&& positive(self.half_width_m)
        &&& positive(self.docking.half_width_m)
        &&& non_negative(self.reaction_time_s)
        &&& non_negative(self.protective_margin_m)
        &&& positive(self.docking.max_protective_m)
        &&& non_negative(self.docking.max_linear)
        &&& non_negative(self.warning_speed_frac)
        &&& self.warning_speed_frac.at_most(binary32::unit())
        &&& self.warning_scale.finite()
        &&& binary32::unit().less(self.warning_scale)
        &&& self.docking.half_width_m.at_most(self.half_width_m)
        &&& self.docking.max_linear.at_most(self.max_linear)
    }

    /// The outcome of each check, in the order in which a fault is reported.
    pub open spec fn faults(self) -> Seq<Option<ConfigError>> {
        seq![
            positive_fault("max_linear", self.max_linear),
            positive_fault("max_angular", self.max_angular),
            positive_fault("max_accel", self.max_accel),
            positive_fault("max_decel", self.max_decel),
            positive_fault("max_angular_accel", self.max_angular_accel),
            positive_fault("min_protective_m", self.min_protective_m),
            positive_fault("half_width_m", self.half_width_m),
            positive_fault("docking.half_width_m", self.docking.half_width_m),
            negative_fault("reaction_time_s", self.reaction_time_s),
            negative_fault("protective_margin_m", self.protective_margin_m),
            negative_fault("docking.max_protective_m", self.docking.max_protective_m),
            negative_fault("docking.max_linear", self.docking.max_linear),
            fraction_fault("warning_speed_frac", self.warning_speed_frac),
            scale_fault("warning_scale", self.warning_scale),
            docking_fault(self.docking.half_width_m, self.half_width_m),
            docking_fault(self.docking.max_linear, self.max_linear),
            positive_fault("docking.max_protective_m", self.docking.max_protective_m),
        ]
    }

    /// Checks every invariant the rest of the crate relies on.
    ///
    /// # Errors
    ///
    /// Returns the first violated invariant. Called by [`crate::Arbiter::new`], so a
    /// constructed arbiter always holds a valid configuration.
    pub fn validate(&self) -> (r: Result<(), ConfigError>)
        ensures
            r is Ok <==> self.valid(),
            r matches Err(e) ==> first_fault(self.faults(), e),
    {
        let faults: [Option<ConfigError>; 17] = [
            check_positive("max_linear", self.max_linear),
            check_positive("max_angular", self.max_angular),
            check_positive("max_accel", self.max_accel),
            check_positive("max_decel", self.max_decel),
            check_positive("max_angular_accel", self.max_angular_accel),
            check_positive("min_protective_m", self.min_protective_m),
            check_positive("half_width_m", self.half_width_m),
            check_positive("docking.half_width_m", self.docking.half_width_m),
            check_non_negative("reaction_time_s", self.reaction_time_s),
            check_non_negative("protective_margin_m", self.protective_margin_m),
            check_non_negative("docking.max_protective_m", self.docking.max_protective_m),
            check_non_negative("docking.max_linear", self.docking.max_linear),
            check_fraction("warning_speed_frac", self.warning_speed_frac),
            check_scale("warning_scale", self.warning_scale),
            check_docking(self.docking.half_width_m, self.half_width_m),
            check_docking(self.docking.max_linear, self.max_linear),
            // A ceiling of zero would disable the field while docking.
            check_positive("docking.max_protective_m", self.docking.max_protective_m),
        ];
        assert(faults@ =~= self.faults());
        let mut i: usize = 0;
        while i < 17
            invariant
                i <= 17,
                faults@ == self.faults(),
                forall|j: int| 0 <= j < i ==> (#[trigger] self.faults()[j]) is None,
            decreases 17 - i,
        {
            if let Some(e) = faults[i] {
                assert(self.faults()[i as int] == Some(e));
                proof {
                    self.lemma_faults();
                }
                return Err(e);
            }
            i = i + 1;
        }
        proof {
            self.lemma_faults();
        }
        Ok(())
    }

    /// A configuration is valid exactly where no check finds a fault.
    proof fn lemma_faults(&self)
        ensures
            self.valid() <==> forall|j: int| 0 <= j < 17 ==> (#[trigger] self.faults()[j]) is None,
    {
        let f = self.faults();
        if forall|j: int| 0 <= j < 17 ==> (#[trigger] f[j]) is None {
            assert(f[0] is None && f[1] is None && f[2] is None && f[3] is None);
            assert(f[4] is None && f[5] is None && f[6] is None && f[7] is None);
            assert(f[8] is None && f[9] is None && f[10] is None && f[11] is None);
            assert(f[12] is None && f[13] is None && f[14] is None && f[15] is None);
            assert(f[16] is None);
        }
    }
}

} // verus!
