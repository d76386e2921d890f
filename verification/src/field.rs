//! Speed-scaled protective and warning field extents.

use crate::binary32;
use crate::binary32::Binary32;
use crate::config::SafetyConfig;
use crate::types::Mode;
use vstd::prelude::*;

verus! {

/// The field dimensions in force for one control cycle.
#[derive(Clone, Copy, Debug, PartialEq)]
pub struct FieldExtent {
    /// Forward length of the protective field, metres. An obstacle inside it stops
    /// the robot.
    pub protective_len: Binary32,
    /// Forward length of the warning field, metres. An obstacle inside it clamps
    /// speed. Always at least `protective_len`.
    pub warning_len: Binary32,
    /// Lateral half-extent shared by both fields, metres.
    pub half_width: Binary32,
}

impl Default for FieldExtent {
    fn default() -> (r: FieldExtent)
        ensures
            r == (FieldExtent {
                protective_len: binary32::zero(),
                warning_len: binary32::zero(),
                half_width: binary32::zero(),
            }),
    {
        FieldExtent {
            protective_len: Binary32::zero(),
            warning_len: Binary32::zero(),
            half_width: Binary32::zero(),
        }
    }
}

/// The speed that the field is sized for: at most the ceiling of the vehicle, and the
/// ceiling itself where the estimate is not finite.
pub open spec fn sizing_speed(cfg: SafetyConfig, speed: Binary32) -> Binary32 {
    if speed.finite() {
        speed.absolute().lesser(cfg.max_linear)
    } else {
        cfg.max_linear
    }
}

/// The distance covered at speed `v` before the robot can stop: `v·t + v² / (2·a)`.
pub open spec fn stopping_distance(cfg: SafetyConfig, v: Binary32) -> Binary32 {
    v.times(cfg.reaction_time_s).plus(v.times(v).over(binary32::two().times(cfg.max_decel)))
}

/// The length of the normal protective field at speed `v`: the stopping distance on top
/// of the floor and the margin.
pub open spec fn protective_length(cfg: SafetyConfig, v: Binary32) -> Binary32 {
    cfg.min_protective_m.plus(stopping_distance(cfg, v)).plus(cfg.protective_margin_m)
}

/// The fields for a given speed and mode.
pub open spec fn extent(cfg: SafetyConfig, speed: Binary32, mode: Mode) -> FieldExtent {
    let full = protective_length(cfg, sizing_speed(cfg, speed));
    let (protective, half_width) = match mode {
        Mode::Normal => (full, cfg.half_width_m),
        Mode::Docking => (full.lesser(cfg.docking.max_protective_m), cfg.docking.half_width_m),
    };
    FieldExtent {
        protective_len: protective,
        warning_len: protective.times(cfg.warning_scale),
        half_width,
    }
}

impl FieldExtent {
    /// Sizes the fields for a given speed and mode.
    ///
    /// The protective length is the distance the robot covers before it can stop:
    ///
    /// ```text
    /// length = min_protective + v·t_reaction + v² / (2·a_decel) + margin
    /// ```
    ///
    /// The `v²` term is why a fast robot needs a much longer field than a slow one, and
    /// why scaling with speed is not a nicety — a fixed field sized for walking pace is
    /// a collision at full speed, and one sized for full speed makes the robot useless
    /// in a corridor.
    ///
    /// `speed` is taken as an absolute value, so reverse motion is sized as
    /// conservatively as forward motion even though the field itself faces forward.
    #[must_use]
    pub fn compute(cfg: &SafetyConfig, speed: Binary32, mode: Mode) -> (r: FieldExtent)
        ensures
            r == extent(*cfg, speed, mode),
    {
        // A non-finite speed estimate must not produce a non-finite field. Falling back
        // to the configured ceiling yields the largest, most conservative field.
        let v: Binary32 = if speed.is_finite() {
            speed.abs()
        } else {
            cfg.max_linear
        };
        let v: Binary32 = v.min(cfg.max_linear);

        let stopping: Binary32 = v * cfg.reaction_time_s + (v * v) / (Binary32::two()
            * cfg.max_decel);
        let protective: Binary32 = cfg.min_protective_m + stopping + cfg.protective_margin_m;

        match mode {
            Mode::Normal => FieldExtent {
                protective_len: protective,
                warning_len: protective * cfg.warning_scale,
                half_width: cfg.half_width_m,
            },
            Mode::Docking => {
                // Shortened and narrowed, never zero: the robot still stops for anything
                // closer than the docking field, it just tolerates the shelf ahead.
                let protective: Binary32 = protective.min(cfg.docking.max_protective_m);
                FieldExtent {
                    protective_len: protective,
                    warning_len: protective * cfg.warning_scale,
                    half_width: cfg.docking.half_width_m,
                }
            },
        }
    }
}

} // verus!
