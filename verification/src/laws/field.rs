//! The fields and the speed they are sized for.

use crate::binary32;
use crate::binary32::Binary32;
use crate::config::SafetyConfig;
use crate::field::{extent, protective_length, sizing_speed, stopping_distance};
use crate::numeric;
use crate::rounding;
use crate::types::Mode;
use vstd::prelude::*;

verus! {

/// The length of the normal field grows with the speed, from the floor and the stopping
/// distance up.
proof fn lemma_lengths(cfg: SafetyConfig, slow: Binary32, fast: Binary32)
    requires
        cfg.valid(),
        slow.finite(),
        fast.finite(),
        0 <= slow.value() <= fast.value(),
        !protective_length(cfg, fast).nan(),
    ensures
        !protective_length(cfg, slow).nan(),
        !stopping_distance(cfg, slow).nan(),
        protective_length(cfg, slow).value() <= protective_length(cfg, fast).value(),
        0 <= stopping_distance(cfg, slow).value() <= protective_length(cfg, slow).value(),
        cfg.min_protective_m.value() <= protective_length(cfg, slow).value(),
{
    numeric::lemma_constants();
    let (t, twice) = (cfg.reaction_time_s, binary32::two().times(cfg.max_decel));
    numeric::lemma_finite(binary32::two());
    numeric::lemma_times_scale(cfg.max_decel, binary32::two());
    numeric::lemma_times(cfg.max_decel, binary32::two());
    numeric::lemma_times(binary32::two(), cfg.max_decel);
    assert(binary32::two().value() * cfg.max_decel.value() == cfg.max_decel.value()
        * binary32::two().value()) by (nonlinear_arith);
    numeric::lemma_times_grows(slow, t, fast, t);
    numeric::lemma_times_grows(slow, slow, fast, fast);
    assert(!(fast.times(fast).infinite() && twice.infinite())) by {
        if fast.times(fast).infinite() && twice.infinite() {
            reveal(Binary32::over);
            reveal(Binary32::plus);
        }
    }
    let (qs, qf) = (slow.times(slow).over(twice), fast.times(fast).over(twice));
    numeric::lemma_over_grows(slow.times(slow), fast.times(fast), twice);
    numeric::lemma_plus_grows(slow.times(t), qs, fast.times(t), qf);
    let (ss, sf) = (stopping_distance(cfg, slow), stopping_distance(cfg, fast));
    let (low, pad) = (cfg.min_protective_m, cfg.protective_margin_m);
    numeric::lemma_plus_grows(low, ss, low, sf);
    numeric::lemma_plus_grows(low.plus(ss), pad, low.plus(sf), pad);
}

/// The speed that a field is sized for is at most that of the vehicle, and is the given
/// speed where that is finite and no faster.
proof fn lemma_sizing_speed(cfg: SafetyConfig, speed: Binary32)
    requires
        cfg.valid(),
    ensures
        ({
            let v = sizing_speed(cfg, speed);
            &&& v.finite()
            &&& 0 <= v.value() <= cfg.max_linear.value()
            &&& speed.finite() ==> v.value() <= binary32::size(speed.value())
            &&& speed.finite() && binary32::size(speed.value()) <= cfg.max_linear.value() ==> v
                == speed.absolute()
            &&& speed.finite() && binary32::size(speed.value()) > cfg.max_linear.value() ==> v
                == cfg.max_linear
        }),
{
    numeric::lemma_signs(speed);
    numeric::lemma_signs(cfg.max_linear);
}

/// A faster robot has fields that are at least as long, and as wide. A speed that is not
/// a finite number counts as faster than any other.
pub proof fn the_fields_grow_with_speed(
    cfg: SafetyConfig,
    slow: Binary32,
    fast: Binary32,
    mode: Mode,
)
    requires
        cfg.valid(),
        fast.finite() ==> slow.finite() && slow.absolute().at_most(fast.absolute()),
        !extent(cfg, fast, mode).protective_len.nan(),
    ensures
        extent(cfg, slow, mode).protective_len.at_most(extent(cfg, fast, mode).protective_len),
        extent(cfg, slow, mode).warning_len.at_most(extent(cfg, fast, mode).warning_len),
        extent(cfg, slow, mode).half_width == extent(cfg, fast, mode).half_width,
{
    numeric::lemma_constants();
    lemma_sizing_speed(cfg, slow);
    lemma_sizing_speed(cfg, fast);
    numeric::lemma_signs(slow);
    numeric::lemma_signs(fast);
    let (vs, vf) = (sizing_speed(cfg, slow), sizing_speed(cfg, fast));
    let (ps, pf) = (
        extent(cfg, slow, mode).protective_len,
        extent(cfg, fast, mode).protective_len,
    );
    if !protective_length(cfg, vf).nan() {
        lemma_lengths(cfg, vs, vf);
    } else if !protective_length(cfg, vs).nan() {
        lemma_lengths(cfg, vs, vs);
    }
    numeric::lemma_finite(ps);
    numeric::lemma_finite(pf);
    lemma_warning(cfg, ps);
    lemma_warning(cfg, pf);
    if pf.finite() {
        numeric::lemma_times_grows(ps, cfg.warning_scale, pf, cfg.warning_scale);
    }
    numeric::lemma_finite(ps.times(cfg.warning_scale));
    numeric::lemma_finite(pf.times(cfg.warning_scale));
}

/// Scaling a length by the warning scale makes it no shorter.
proof fn lemma_warning(cfg: SafetyConfig, length: Binary32)
    requires
        cfg.valid(),
        !length.nan(),
        length.value() >= 0,
    ensures
        length.at_most(length.times(cfg.warning_scale)),
{
    numeric::lemma_constants();
    numeric::lemma_times_scale(length, cfg.warning_scale);
}

/// The normal protective field is at least as long as the distance that the robot covers
/// before it can stop, and at least as long as its floor, even at a standstill.
pub proof fn the_field_covers_the_stopping_distance(cfg: SafetyConfig, speed: Binary32)
    requires
        cfg.valid(),
        !extent(cfg, speed, Mode::Normal).protective_len.nan(),
    ensures
        ({
            let length = extent(cfg, speed, Mode::Normal).protective_len;
            &&& cfg.min_protective_m.at_most(length)
            &&& stopping_distance(cfg, sizing_speed(cfg, speed)).at_most(length)
            &&& speed.finite() && speed.absolute().at_most(cfg.max_linear) ==> stopping_distance(
                cfg,
                speed.absolute(),
            ).at_most(length)
        }),
{
    numeric::lemma_signs(speed);
    lemma_sizing_speed(cfg, speed);
    lemma_lengths(cfg, sizing_speed(cfg, speed), sizing_speed(cfg, speed));
}

/// The square of a speed is zero or a normal number, so that it has all of its digits.
pub open spec fn squares_exactly_enough(v: Binary32) -> bool {
    v.value() == 0 || v.times(v).value() >= 0x80_0000
}

/// In real numbers, a length is at least `v·t + v² / (2·a)`, up to five parts in 2^24.
/// Both sides are multiplied by `2·a`, so that no quotient is left.
pub open spec fn covers(cfg: SafetyConfig, v: Binary32, length: Binary32) -> bool {
    let (u, t, c) = (
        binary32::units_in_one(),
        cfg.reaction_time_s.value(),
        2 * cfg.max_decel.value(),
    );
    0xff_fffb * ((v.value() * t) * c + (v.value() * v.value()) * u) <= 0x100_0000 * ((u * c)
        * length.value())
}

/// In real numbers, a length is `min + v·t + v² / (2·a) + margin`, up to eight parts in
/// 2^24 and one unit of the smallest subnormal. Both sides are multiplied by `2·a`, so
/// that no quotient is left.
pub open spec fn matches_formula(cfg: SafetyConfig, v: int, length: Binary32) -> bool {
    let (u, c) = (binary32::units_in_one(), 2 * cfg.max_decel.value());
    let exact = ((v * cfg.reaction_time_s.value()) * c + (v * v) * u) + (u * c) * (
    cfg.min_protective_m.value() + cfg.protective_margin_m.value());
    &&& 0xff_fffb * exact <= 0x100_0000 * ((u * c) * length.value() + u * c)
    &&& 0xff_fff8 * ((u * c) * length.value()) <= 0x100_0000 * (exact + u * c)
}

/// The smaller of two values.
pub open spec fn least(a: int, b: int) -> int {
    if a < b {
        a
    } else {
        b
    }
}

/// The speed that a field has to be sized for, in units: the size of the estimate, at
/// most the ceiling of the vehicle, and the ceiling where the estimate is no number.
pub open spec fn speed_to_size_for(cfg: SafetyConfig, speed: Binary32) -> int {
    if speed.finite() {
        least(binary32::size(speed.value()), cfg.max_linear.value())
    } else {
        cfg.max_linear.value()
    }
}

/// The fields are no longer and no shorter than the formula for their speed says: the
/// normal protective field is the floor, the distance covered while the robot reacts and
/// brakes, and the margin. Docking cuts it at its ceiling, the warning field scales it,
/// and the width is that of the mode.
pub proof fn the_fields_are_what_the_speed_calls_for(
    cfg: SafetyConfig,
    speed: Binary32,
    v: int,
)
    requires
        cfg.valid(),
        v == speed_to_size_for(cfg, speed),
        2 * cfg.max_decel.value() < numeric::beyond(),
        v == 0 || numeric::round_value(v * v, binary32::units_in_one()) >= 0x80_0000,
    ensures
        ({
            let (normal, docking) = (
                extent(cfg, speed, Mode::Normal),
                extent(cfg, speed, Mode::Docking),
            );
            let u = binary32::units_in_one();
            let scale = cfg.warning_scale.value();
            &&& normal.half_width == cfg.half_width_m
            &&& docking.half_width == cfg.docking.half_width_m
            &&& !normal.protective_len.nan()
            &&& normal.protective_len.finite() ==> {
                &&& matches_formula(cfg, v, normal.protective_len)
                &&& normal.warning_len.value() == numeric::round_value(
                    normal.protective_len.value() * scale,
                    u,
                )
            }
            &&& docking.protective_len.value() == least(
                normal.protective_len.value(),
                cfg.docking.max_protective_m.value(),
            )
            &&& docking.warning_len.value() == numeric::round_value(
                docking.protective_len.value() * scale,
                u,
            )
        }),
{
    numeric::lemma_constants();
    lemma_sizing_speed(cfg, speed);
    numeric::lemma_signs(speed);
    let x = sizing_speed(cfg, speed);
    numeric::lemma_times(x, x);
    lemma_doubled(cfg);
    let length = protective_length(cfg, x);
    assert(!length.nan()) by {
        lemma_number(cfg, x);
    }
    numeric::lemma_finite(length);
    lemma_lengths(cfg, x, x);
    if length.finite() {
        lemma_covers(cfg, x);
        numeric::lemma_times(length, cfg.warning_scale);
    }
    let docking = extent(cfg, speed, Mode::Docking).protective_len;
    numeric::lemma_finite(cfg.docking.max_protective_m);
    numeric::lemma_finite(docking);
    numeric::lemma_times(docking, cfg.warning_scale);
}

/// A braking rate that can be doubled is doubled exactly.
proof fn lemma_doubled(cfg: SafetyConfig)
    requires
        cfg.valid(),
        2 * cfg.max_decel.value() < numeric::beyond(),
    ensures
        binary32::two().times(cfg.max_decel).finite(),
        binary32::two().times(cfg.max_decel).value() == 2 * cfg.max_decel.value(),
{
    numeric::lemma_constants();
    let u = binary32::units_in_one();
    let (d, c) = (cfg.max_decel.value(), 2 * cfg.max_decel.value());
    let twice = binary32::two().times(cfg.max_decel);
    numeric::lemma_finite(binary32::two());
    numeric::lemma_times(binary32::two(), cfg.max_decel);
    assert(binary32::two().value() * d == c * u) by (nonlinear_arith)
        requires
            binary32::two().value() == 2 * u,
            c == 2 * d,
    ;
    numeric::lemma_round_double(cfg.max_decel);
    lemma_scaled(c, u);
    numeric::lemma_finite(twice);
}

/// The length formula has a number for a result where the braking rate can be doubled.
proof fn lemma_number(cfg: SafetyConfig, v: Binary32)
    requires
        cfg.valid(),
        v.finite(),
        v.value() >= 0,
        binary32::two().times(cfg.max_decel).finite(),
        binary32::two().times(cfg.max_decel).value() > 0,
    ensures
        !protective_length(cfg, v).nan(),
{
    numeric::lemma_constants();
    let (t, twice) = (cfg.reaction_time_s, binary32::two().times(cfg.max_decel));
    numeric::lemma_times_grows(v, t, v, t);
    numeric::lemma_times_grows(v, v, v, v);
    let q = v.times(v).over(twice);
    numeric::lemma_over_grows(v.times(v), v.times(v), twice);
    numeric::lemma_plus_grows(v.times(t), q, v.times(t), q);
    let (s, low) = (stopping_distance(cfg, v), cfg.min_protective_m);
    numeric::lemma_plus_grows(low, s, low, s);
    let (m, pad) = (low.plus(s), cfg.protective_margin_m);
    numeric::lemma_plus_grows(m, pad, m, pad);
}

/// The normal protective field covers the true stopping distance: in real numbers, with
/// no rounding on that side, it is at least as long as the distance that the robot
/// covers while it reacts and brakes, up to the rounding of its own length.
///
/// Speeds whose square underflows are left out, and braking rates that overflow when
/// doubled: their quotient says nothing.
pub proof fn the_field_covers_the_true_stopping_distance(cfg: SafetyConfig, speed: Binary32)
    requires
        cfg.valid(),
        binary32::two().times(cfg.max_decel).finite(),
        squares_exactly_enough(sizing_speed(cfg, speed)),
    ensures
        ({
            let length = extent(cfg, speed, Mode::Normal).protective_len;
            length.finite() ==> covers(cfg, sizing_speed(cfg, speed), length)
        }),
{
    let v = sizing_speed(cfg, speed);
    let length = protective_length(cfg, v);
    lemma_sizing_speed(cfg, speed);
    if length.finite() {
        lemma_lengths(cfg, v, v);
        lemma_covers(cfg, v);
    }
}

/// What each operation of the length formula loses by rounding.
proof fn lemma_covers(cfg: SafetyConfig, v: Binary32)
    requires
        cfg.valid(),
        v.finite(),
        v.value() >= 0,
        binary32::two().times(cfg.max_decel).finite(),
        squares_exactly_enough(v),
        protective_length(cfg, v).finite(),
    ensures
        covers(cfg, v, protective_length(cfg, v)),
        matches_formula(cfg, v.value(), protective_length(cfg, v)),
{
    numeric::lemma_constants();
    let u = binary32::units_in_one();
    let (t, twice) = (cfg.reaction_time_s, binary32::two().times(cfg.max_decel));
    let (d, c) = (cfg.max_decel.value(), 2 * cfg.max_decel.value());
    // Doubling is exact.
    numeric::lemma_finite(binary32::two());
    numeric::lemma_times(binary32::two(), cfg.max_decel);
    assert(binary32::two().value() * d == c * u) by (nonlinear_arith)
        requires
            binary32::two().value() == 2 * u,
            c == 2 * d,
    ;
    numeric::lemma_finite(twice);
    assert(twice.value() == c) by {
        numeric::lemma_round_double(cfg.max_decel);
        lemma_scaled(c, u);
    }
    // The distance that is covered while the robot reacts and while it brakes.
    let (a, b) = (v.times(t), v.times(v));
    let q = b.over(twice);
    let s = stopping_distance(cfg, v);
    let m = cfg.min_protective_m.plus(s);
    let length = protective_length(cfg, v);
    numeric::lemma_times_grows(v, t, v, t);
    numeric::lemma_times_grows(v, v, v, v);
    numeric::lemma_over_grows(b, b, twice);
    numeric::lemma_plus_grows(a, q, a, q);
    numeric::lemma_plus_grows(cfg.min_protective_m, s, cfg.min_protective_m, s);
    numeric::lemma_plus_grows(m, cfg.protective_margin_m, m, cfg.protective_margin_m);
    numeric::lemma_finite(length);
    numeric::lemma_finite(m);
    numeric::lemma_finite(s);
    numeric::lemma_finite(a);
    numeric::lemma_finite(q);
    numeric::lemma_finite(b);
    assert(b.finite()) by {
        if !b.finite() {
            numeric::lemma_signs(b);
            numeric::lemma_signs(twice);
            numeric::lemma_with_sign(false, 0x7f80_0000);
            reveal(Binary32::over);
        }
    }
    numeric::lemma_times(v, t);
    numeric::lemma_times(v, v);
    numeric::lemma_over(b, twice);
    numeric::lemma_plus(a, q);
    numeric::lemma_plus(cfg.min_protective_m, s);
    numeric::lemma_plus(m, cfg.protective_margin_m);
    let (vt, vv, bu) = (v.value() * t.value(), v.value() * v.value(), b.value() * u);
    assert(vt >= 0 && vv >= 0 && bu >= 0) by (nonlinear_arith)
        requires
            v.value() >= 0,
            t.value() >= 0,
            b.value() >= 0,
            u > 0,
            vt == v.value() * t.value(),
            vv == v.value() * v.value(),
            bu == b.value() * u,
    ;
    assert(v.value() == 0 ==> vv == 0) by (nonlinear_arith)
        requires
            vv == v.value() * v.value(),
    ;
    numeric::lemma_round_floor(vt, u);
    numeric::lemma_round_floor(vv, u);
    numeric::lemma_round_floor(bu, c);
    lemma_sum_floor(a.value() + q.value());
    lemma_sum_floor(cfg.min_protective_m.value() + s.value());
    lemma_sum_floor(m.value() + cfg.protective_margin_m.value());
    lemma_combined(
        u,
        c,
        vt,
        vv,
        a.value(),
        b.value(),
        q.value(),
        s.value(),
        m.value(),
        cfg.min_protective_m.value(),
        cfg.protective_margin_m.value(),
        length.value(),
    );
    numeric::lemma_round_ceiling(vt, u);
    numeric::lemma_round_ceiling(vv, u);
    numeric::lemma_round_ceiling(bu, c);
    lemma_sum_ceiling(a.value() + q.value());
    lemma_sum_ceiling(cfg.min_protective_m.value() + s.value());
    lemma_sum_ceiling(m.value() + cfg.protective_margin_m.value());
    lemma_length_bounds(
        u,
        c,
        vt,
        vv,
        a.value(),
        b.value(),
        q.value(),
        s.value(),
        m.value(),
        cfg.min_protective_m.value(),
        cfg.protective_margin_m.value(),
        length.value(),
    );
}

/// A sum gains at most one part in 2^24 by rounding.
proof fn lemma_sum_ceiling(sum: int)
    requires
        sum >= 0,
    ensures
        0x100_0000 * numeric::round_value(sum, 1) <= 0x100_0001 * sum,
{
    numeric::lemma_round_error(sum);
    rounding::lemma_nearest(sum, 1);
    rounding::lemma_magnitude_order(rounding::nearest(sum, 1), 0);
}

/// The roundings of the single operations move the length by a few parts in 2^24 and by
/// one unit.
proof fn lemma_length_bounds(
    u: int,
    c: int,
    vt: int,
    vv: int,
    a: int,
    b: int,
    q: int,
    s: int,
    m: int,
    low: int,
    pad: int,
    length: int,
)
    requires
        u > 0,
        c > 0,
        vt >= 0,
        vv >= 0,
        low >= 1,
        pad >= 0,
        0x200_0000 * (u * a) >= 0x1ff_fffe * vt - 0x100_0000 * u,
        0x100_0000 * (u * b) >= 0xff_ffff * vv,
        0x200_0000 * (c * q) >= 0x1ff_fffe * (b * u) - 0x100_0000 * c,
        0x100_0000 * s >= 0xff_ffff * (a + q),
        0x100_0000 * m >= 0xff_ffff * (low + s),
        0x100_0000 * length >= 0xff_ffff * (m + pad),
        0x200_0000 * (u * a) <= 0x200_0002 * vt + 0x100_0000 * u,
        0xff_ffff * (u * b) <= 0x100_0000 * vv,
        0x200_0000 * (c * q) <= 0x200_0002 * (b * u) + 0x100_0000 * c,
        0x100_0000 * s <= 0x100_0001 * (a + q),
        0x100_0000 * m <= 0x100_0001 * (low + s),
        0x100_0000 * length <= 0x100_0001 * (m + pad),
    ensures
        ({
            let (exact, w) = ((vt * c + vv * u) + (u * c) * (low + pad), u * c);
            &&& 0xff_fffb * exact <= 0x100_0000 * (w * length + w)
            &&& 0xff_fff8 * (w * length) <= 0x100_0000 * (exact + w)
        }),
{
    let w = u * c;
    let (wa, vtc, wq, buu, vvu) = (w * a, vt * c, w * q, (b * u) * u, vv * u);
    let (ws, wm, wl, wlow, wpad) = (w * s, w * m, w * length, w * low, w * pad);
    assert(w > 0 && vtc >= 0 && vvu >= 0 && wlow >= 0 && wpad >= 0) by (nonlinear_arith)
        requires
            u > 0,
            c > 0,
            vt >= 0,
            vv >= 0,
            low >= 1,
            pad >= 0,
            w == u * c,
            vtc == vt * c,
            vvu == vv * u,
            wlow == w * low,
            wpad == w * pad,
    ;
    assert(0x200_0000 * wa >= 0x1ff_fffe * vtc - 0x100_0000 * w) by (nonlinear_arith)
        requires
            c > 0,
            0x200_0000 * (u * a) >= 0x1ff_fffe * vt - 0x100_0000 * u,
            w == u * c,
            wa == w * a,
            vtc == vt * c,
    ;
    assert(0x200_0000 * wa <= 0x200_0002 * vtc + 0x100_0000 * w) by (nonlinear_arith)
        requires
            c > 0,
            0x200_0000 * (u * a) <= 0x200_0002 * vt + 0x100_0000 * u,
            w == u * c,
            wa == w * a,
            vtc == vt * c,
    ;
    assert(0x200_0000 * wq >= 0x1ff_fffe * buu - 0x100_0000 * w) by (nonlinear_arith)
        requires
            u > 0,
            0x200_0000 * (c * q) >= 0x1ff_fffe * (b * u) - 0x100_0000 * c,
            w == u * c,
            wq == w * q,
            buu == (b * u) * u,
    ;
    assert(0x200_0000 * wq <= 0x200_0002 * buu + 0x100_0000 * w) by (nonlinear_arith)
        requires
            u > 0,
            0x200_0000 * (c * q) <= 0x200_0002 * (b * u) + 0x100_0000 * c,
            w == u * c,
            wq == w * q,
            buu == (b * u) * u,
    ;
    assert(0x100_0000 * buu >= 0xff_ffff * vvu && 0xff_ffff * buu <= 0x100_0000 * vvu)
        by (nonlinear_arith)
        requires
            u > 0,
            0x100_0000 * (u * b) >= 0xff_ffff * vv,
            0xff_ffff * (u * b) <= 0x100_0000 * vv,
            buu == (b * u) * u,
            vvu == vv * u,
    ;
    assert(0x100_0000 * ws >= 0xff_ffff * (wa + wq) && 0x100_0000 * ws <= 0x100_0001 * (wa + wq))
        by (nonlinear_arith)
        requires
            w > 0,
            0x100_0000 * s >= 0xff_ffff * (a + q),
            0x100_0000 * s <= 0x100_0001 * (a + q),
            ws == w * s,
            wa == w * a,
            wq == w * q,
    ;
    assert(0x100_0000 * wm >= 0xff_ffff * (wlow + ws) && 0x100_0000 * wm <= 0x100_0001 * (wlow
        + ws)) by (nonlinear_arith)
        requires
            w > 0,
            0x100_0000 * m >= 0xff_ffff * (low + s),
            0x100_0000 * m <= 0x100_0001 * (low + s),
            wm == w * m,
            wlow == w * low,
            ws == w * s,
    ;
    assert(0x100_0000 * wl >= 0xff_ffff * (wm + wpad) && 0x100_0000 * wl <= 0x100_0001 * (wm
        + wpad)) by (nonlinear_arith)
        requires
            w > 0,
            0x100_0000 * length >= 0xff_ffff * (m + pad),
            0x100_0000 * length <= 0x100_0001 * (m + pad),
            wl == w * length,
            wm == w * m,
            wpad == w * pad,
    ;
    assert(w * (low + pad) == wlow + wpad) by (nonlinear_arith)
        requires
            wlow == w * low,
            wpad == w * pad,
    ;
    let n = vtc + vvu;
    assert(0x1_0000_0000_0000 * (wa + wq) >= 0xffff_fe00_0001 * n - 0x1_0000_0000_0000 * w);
    // Two more parts for the square and its quotient, one for the reaction.
    assert(0xff_fffd * (wa + wq) <= 0x100_0000 * n + 0xff_fffd * w);
    assert(0xff_fffc * ws <= 0x100_0000 * n + 0x100_0000 * w);
    assert(0xff_fffb * wm <= 0x100_0000 * (n + wlow) + 0x100_0000 * w);
    assert(0xff_fffa * wl <= 0x100_0000 * (n + wlow + wpad) + 0x100_0000 * w);
}

/// A fraction rounds as its lowest terms do.
pub proof fn lemma_scaled(num: int, c: int)
    requires
        c > 0,
    ensures
        numeric::round_value(num * c, c) == numeric::round_value(num, 1),
{
    rounding::lemma_nearest_scaled(binary32::size(num), 1, c);
    assert((num < 0 <==> num * c < 0) && binary32::size(num * c) == binary32::size(num) * c)
        by (nonlinear_arith)
        requires
            c > 0,
    ;
}

/// A sum loses at most one part in 2^24 by rounding.
proof fn lemma_sum_floor(sum: int)
    requires
        sum >= 0,
        numeric::round_value(sum, 1) < numeric::beyond(),
    ensures
        0x100_0000 * numeric::round_value(sum, 1) >= 0xff_ffff * sum,
{
    numeric::lemma_finite(binary32::infinity());
    numeric::lemma_round_error(sum);
    rounding::lemma_nearest(sum, 1);
    rounding::lemma_magnitude_order(rounding::nearest(sum, 1), 0);
}

/// The losses of the single operations add up to five parts in 2^24.
proof fn lemma_combined(
    u: int,
    c: int,
    vt: int,
    vv: int,
    a: int,
    b: int,
    q: int,
    s: int,
    m: int,
    low: int,
    pad: int,
    length: int,
)
    requires
        u > 0,
        c > 0,
        vt >= 0,
        vv >= 0,
        low >= 1,
        pad >= 0,
        0x200_0000 * (u * a) >= 0x1ff_fffe * vt - 0x100_0000 * u,
        0x100_0000 * (u * b) >= 0xff_ffff * vv,
        0x200_0000 * (c * q) >= 0x1ff_fffe * (b * u) - 0x100_0000 * c,
        0x100_0000 * s >= 0xff_ffff * (a + q),
        0x100_0000 * m >= 0xff_ffff * (low + s),
        0x100_0000 * length >= 0xff_ffff * (m + pad),
    ensures
        0xff_fffb * (vt * c + vv * u) <= 0x100_0000 * ((u * c) * length),
{
    let w = u * c;
    assert(w > 0) by (nonlinear_arith)
        requires
            u > 0,
            c > 0,
            w == u * c,
    ;
    // Reaction: times `c`.
    let (wa, vtc) = (w * a, vt * c);
    assert(0x200_0000 * wa >= 0x1ff_fffe * vtc - 0x100_0000 * w) by (nonlinear_arith)
        requires
            c > 0,
            0x200_0000 * (u * a) >= 0x1ff_fffe * vt - 0x100_0000 * u,
            w == u * c,
            wa == w * a,
            vtc == vt * c,
    ;
    // Braking: times `u`, twice.
    let (wq, buu, vvu) = (w * q, (b * u) * u, vv * u);
    assert(0x200_0000 * wq >= 0x1ff_fffe * buu - 0x100_0000 * w) by (nonlinear_arith)
        requires
            u > 0,
            0x200_0000 * (c * q) >= 0x1ff_fffe * (b * u) - 0x100_0000 * c,
            w == u * c,
            wq == w * q,
            buu == (b * u) * u,
    ;
    assert(0x100_0000 * buu >= 0xff_ffff * vvu) by (nonlinear_arith)
        requires
            u > 0,
            0x100_0000 * (u * b) >= 0xff_ffff * vv,
            buu == (b * u) * u,
            vvu == vv * u,
    ;
    assert(vtc >= 0 && vvu >= 0) by (nonlinear_arith)
        requires
            u > 0,
            c > 0,
            vt >= 0,
            vv >= 0,
            vtc == vt * c,
            vvu == vv * u,
    ;
    // Sums: times `w`.
    let (ws, wm, wl, wlow) = (w * s, w * m, w * length, w * low);
    assert(0x100_0000 * ws >= 0xff_ffff * (wa + wq)) by (nonlinear_arith)
        requires
            w > 0,
            0x100_0000 * s >= 0xff_ffff * (a + q),
            ws == w * s,
            wa == w * a,
            wq == w * q,
    ;
    assert(0x100_0000 * wm >= 0xff_ffff * (wlow + ws)) by (nonlinear_arith)
        requires
            w > 0,
            0x100_0000 * m >= 0xff_ffff * (low + s),
            wm == w * m,
            wlow == w * low,
            ws == w * s,
    ;
    assert(0x100_0000 * wl >= 0xff_ffff * wm) by (nonlinear_arith)
        requires
            w > 0,
            pad >= 0,
            0x100_0000 * length >= 0xff_ffff * (m + pad),
            wl == w * length,
            wm == w * m,
    ;
    assert(wlow >= w) by (nonlinear_arith)
        requires
            w > 0,
            low >= 1,
            wlow == w * low,
    ;
    let n = vtc + vvu;
    assert(0x1_0000_0000_0000 * (wa + wq) >= 0xffff_fe00_0001 * n - 0x1_0000_0000_0000 * w);
}

/// The warning field encloses the protective field.
pub proof fn the_warning_field_encloses_the_protective_field(
    cfg: SafetyConfig,
    speed: Binary32,
    mode: Mode,
)
    requires
        cfg.valid(),
        !extent(cfg, speed, mode).protective_len.nan(),
    ensures
        extent(cfg, speed, mode).protective_len.at_most(extent(cfg, speed, mode).warning_len),
{
    numeric::lemma_constants();
    lemma_sizing_speed(cfg, speed);
    let v = sizing_speed(cfg, speed);
    if !protective_length(cfg, v).nan() {
        lemma_lengths(cfg, v, v);
    }
    lemma_warning(cfg, extent(cfg, speed, mode).protective_len);
}

/// Docking makes the fields neither longer nor wider.
pub proof fn docking_narrows_the_fields(cfg: SafetyConfig, speed: Binary32)
    requires
        cfg.valid(),
        !extent(cfg, speed, Mode::Normal).protective_len.nan(),
    ensures
        ({
            let docking = extent(cfg, speed, Mode::Docking);
            let normal = extent(cfg, speed, Mode::Normal);
            &&& docking.protective_len.at_most(normal.protective_len)
            &&& docking.warning_len.at_most(normal.warning_len)
            &&& docking.half_width.at_most(normal.half_width)
            &&& docking.protective_len.at_most(cfg.docking.max_protective_m)
        }),
{
    numeric::lemma_constants();
    lemma_sizing_speed(cfg, speed);
    let v = sizing_speed(cfg, speed);
    lemma_lengths(cfg, v, v);
    let (d, p) = (
        extent(cfg, speed, Mode::Docking).protective_len,
        extent(cfg, speed, Mode::Normal).protective_len,
    );
    numeric::lemma_finite(p);
    numeric::lemma_finite(d);
    lemma_warning(cfg, d);
    lemma_warning(cfg, p);
    if p.finite() {
        numeric::lemma_times_grows(d, cfg.warning_scale, p, cfg.warning_scale);
    }
    numeric::lemma_finite(d.times(cfg.warning_scale));
    numeric::lemma_finite(p.times(cfg.warning_scale));
}

/// Docking never removes the fields, whatever the speed.
pub proof fn docking_never_removes_the_field(cfg: SafetyConfig, speed: Binary32)
    requires
        cfg.valid(),
    ensures
        ({
            let docking = extent(cfg, speed, Mode::Docking);
            &&& binary32::zero().less(docking.protective_len)
            &&& binary32::zero().less(docking.warning_len)
            &&& binary32::zero().less(docking.half_width)
        }),
{
    numeric::lemma_constants();
    lemma_sizing_speed(cfg, speed);
    let v = sizing_speed(cfg, speed);
    if !protective_length(cfg, v).nan() {
        lemma_lengths(cfg, v, v);
    }
    lemma_warning(cfg, extent(cfg, speed, Mode::Docking).protective_len);
}

/// There is always a field: in every mode and at every speed it has a length and a
/// width.
pub proof fn the_fields_are_never_removed(cfg: SafetyConfig, speed: Binary32, mode: Mode)
    requires
        cfg.valid(),
        !extent(cfg, speed, mode).protective_len.nan(),
    ensures
        ({
            let e = extent(cfg, speed, mode);
            &&& binary32::zero().less(e.protective_len)
            &&& binary32::zero().less(e.warning_len)
            &&& binary32::zero().less(e.half_width)
        }),
{
    numeric::lemma_constants();
    lemma_sizing_speed(cfg, speed);
    match mode {
        Mode::Normal => {
            let v = sizing_speed(cfg, speed);
            lemma_lengths(cfg, v, v);
            lemma_warning(cfg, extent(cfg, speed, mode).protective_len);
        },
        Mode::Docking => docking_never_removes_the_field(cfg, speed),
    }
}

/// A speed estimate that is no finite number, or that is beyond the ceiling of the
/// vehicle, gives the fields of the fastest robot.
pub proof fn a_garbage_speed_gives_the_largest_fields(
    cfg: SafetyConfig,
    speed: Binary32,
    mode: Mode,
)
    requires
        cfg.valid(),
        !speed.finite() || cfg.max_linear.at_most(speed.absolute()),
    ensures
        extent(cfg, speed, mode) == extent(cfg, cfg.max_linear, mode),
{
    let max = cfg.max_linear;
    numeric::lemma_signs(speed);
    numeric::lemma_signs(max);
    binary32::lemma_key_order(speed.absolute(), max);
    numeric::lemma_signs(binary32::zero());
    assert(max.absolute() == max && !max.negative()) by {
        reveal(Binary32::absolute);
    }
}

} // verus!
