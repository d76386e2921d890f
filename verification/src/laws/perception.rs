//! What a scan says, and what it takes to say it.

use crate::binary32;
use crate::binary32::Binary32;
use crate::field::FieldExtent;
use crate::geometry::{enters, exits_front, front_range, inside};
use crate::laws::field::lemma_scaled;
use crate::laws::geometry;
use crate::numeric;
use crate::scan::{
    bearing, built_for, closest, ensured, geometry_fault, measured, protective_hit, survey, tally,
    usable_rays, warning_hit, Direction, ScanError, Sweep, MAX_RAYS,
};
use crate::types::Scan;
use vstd::prelude::*;

verus! {

/// A property that holds wherever another does is met at least as often.
proof fn lemma_tally(f: spec_fn(int) -> bool, g: spec_fn(int) -> bool, n: int)
    requires
        n >= 0,
        forall|i: int| 0 <= i < n && #[trigger] f(i) ==> g(i),
    ensures
        tally(f, n) <= tally(g, n) <= n,
    decreases n,
{
    if n > 0 {
        lemma_tally(f, g, n - 1);
    }
}

/// A property is met at all exactly where some ray meets it.
proof fn lemma_tally_exists(f: spec_fn(int) -> bool, n: int)
    requires
        n >= 0,
    ensures
        tally(f, n) > 0 <==> exists|i: int| 0 <= i < n && #[trigger] f(i),
    decreases n,
{
    if n > 0 {
        lemma_tally_exists(f, n - 1);
        if f(n - 1) {
            assert(0 <= n - 1 < n && f(n - 1));
        }
        if tally(f, n - 1) > 0 {
            let i = choose|i: int| 0 <= i < n - 1 && #[trigger] f(i);
            assert(0 <= i < n && f(i));
        }
    }
}

/// Each field is breached exactly where some ray has a return in it.
pub proof fn a_breach_is_a_return_in_the_field(
    sweep: Sweep,
    scan: Scan,
    extent: FieldExtent,
    n: int,
)
    requires
        n >= 0,
    ensures
        survey(sweep, scan, extent, n).warning_breach <==> exists|i: int|
            0 <= i < n && #[trigger] warning_hit(sweep, scan, extent, i),
        survey(sweep, scan, extent, n).protective_breach <==> exists|i: int|
            0 <= i < n && #[trigger] protective_hit(sweep, scan, extent, i),
{
    let warns = |i: int| warning_hit(sweep, scan, extent, i);
    let stops = |i: int| protective_hit(sweep, scan, extent, i);
    lemma_tally_exists(warns, n);
    lemma_tally_exists(stops, n);
    if exists|i: int| 0 <= i < n && #[trigger] warning_hit(sweep, scan, extent, i) {
        let i = choose|i: int| 0 <= i < n && #[trigger] warning_hit(sweep, scan, extent, i);
        assert(0 <= i < n && warns(i));
    }
    if exists|i: int| 0 <= i < n && #[trigger] protective_hit(sweep, scan, extent, i) {
        let i = choose|i: int| 0 <= i < n && #[trigger] protective_hit(sweep, scan, extent, i);
        assert(0 <= i < n && stops(i));
    }
}

/// A protective breach is always a warning breach, and every return in the protective
/// field is counted in the warning field. The counts are exact: a scan has too few rays
/// to saturate them.
pub proof fn a_protective_breach_is_a_warning_breach(
    sweep: Sweep,
    scan: Scan,
    extent: FieldExtent,
    n: int,
)
    requires
        0 <= n <= MAX_RAYS,
    ensures
        ({
            let v = survey(sweep, scan, extent, n);
            &&& v.protective_breach ==> v.warning_breach
            &&& v.protective_hits <= v.warning_hits
            &&& v.protective_breach <==> v.protective_hits > 0
            &&& v.warning_breach <==> v.warning_hits > 0
            &&& v.protective_hits == tally(|i: int| protective_hit(sweep, scan, extent, i), n)
            &&& v.warning_hits == tally(|i: int| warning_hit(sweep, scan, extent, i), n)
        }),
{
    lemma_tally(
        |i: int| protective_hit(sweep, scan, extent, i),
        |i: int| warning_hit(sweep, scan, extent, i),
        n,
    );
}

/// The closest return is one that was measured, and none that was measured is closer.
/// It is infinite exactly where nothing was measured.
pub proof fn the_closest_return_is_the_nearest_measured_one(scan: Scan, n: int)
    requires
        0 <= n <= scan.ranges@.len(),
    ensures
        ({
            let c = closest(scan, n);
            &&& !c.nan()
            &&& forall|i: int|
                0 <= i < n && measured(scan, #[trigger] scan.ranges@[i]) ==> c.at_most(
                    scan.ranges@[i],
                )
            &&& c == binary32::infinity() || exists|i: int|
                0 <= i < n && measured(scan, #[trigger] scan.ranges@[i]) && c == scan.ranges@[i]
            &&& c == binary32::infinity() <==> forall|i: int|
                0 <= i < n ==> !measured(scan, #[trigger] scan.ranges@[i])
        }),
    decreases n,
{
    if n > 0 {
        the_closest_return_is_the_nearest_measured_one(scan, n - 1);
        let range = scan.ranges@[n - 1];
        numeric::lemma_finite(binary32::infinity());
        if !range.nan() {
            numeric::lemma_finite(range);
        }
    }
}

/// Returns that are no measurement say nothing: replacing one by another changes
/// neither the breaches nor the counts nor the closest return.
pub proof fn faulty_returns_say_nothing(
    sweep: Sweep,
    a: Scan,
    b: Scan,
    extent: FieldExtent,
    n: int,
)
    requires
        0 <= n <= a.ranges@.len(),
        n <= b.ranges@.len(),
        a.range_min == b.range_min,
        a.range_max == b.range_max,
        forall|i: int|
            0 <= i < n ==> #[trigger] a.ranges@[i] == b.ranges@[i] || (!measured(a, a.ranges@[i])
                && !measured(b, b.ranges@[i])),
    ensures
        survey(sweep, a, extent, n) == survey(sweep, b, extent, n),
{
    assert forall|i: int| 0 <= i < n implies warning_hit(sweep, a, extent, i) == warning_hit(
        sweep,
        b,
        extent,
        i,
    ) && protective_hit(sweep, a, extent, i) == protective_hit(sweep, b, extent, i) by {
        assert(a.ranges@[i] == b.ranges@[i] || !measured(a, a.ranges@[i]));
    }
    lemma_tally(
        |i: int| warning_hit(sweep, a, extent, i),
        |i: int| warning_hit(sweep, b, extent, i),
        n,
    );
    lemma_tally(
        |i: int| warning_hit(sweep, b, extent, i),
        |i: int| warning_hit(sweep, a, extent, i),
        n,
    );
    lemma_tally(
        |i: int| protective_hit(sweep, a, extent, i),
        |i: int| protective_hit(sweep, b, extent, i),
        n,
    );
    lemma_tally(
        |i: int| protective_hit(sweep, b, extent, i),
        |i: int| protective_hit(sweep, a, extent, i),
        n,
    );
    lemma_closest(a, b, n);
}

/// The closest return of a scan is that of its measurements.
proof fn lemma_closest(a: Scan, b: Scan, n: int)
    requires
        0 <= n <= a.ranges@.len(),
        n <= b.ranges@.len(),
        a.range_min == b.range_min,
        a.range_max == b.range_max,
        forall|i: int|
            0 <= i < n ==> #[trigger] a.ranges@[i] == b.ranges@[i] || (!measured(a, a.ranges@[i])
                && !measured(b, b.ranges@[i])),
    ensures
        closest(a, n) == closest(b, n),
    decreases n,
{
    if n > 0 {
        lemma_closest(a, b, n - 1);
        assert(a.ranges@[n - 1] == b.ranges@[n - 1] || !measured(a, a.ranges@[n - 1]));
    }
}

/// An obstacle abreast of the robot or behind it breaches neither field.
pub proof fn an_obstacle_beside_the_robot_is_ignored(
    sweep: Sweep,
    scan: Scan,
    extent: FieldExtent,
    i: int,
)
    requires
        sweep.directions[i].cos.at_most(binary32::zero()),
    ensures
        !warning_hit(sweep, scan, extent, i),
        !protective_hit(sweep, scan, extent, i),
{
}

/// Every measurement of the scan `far` has one in the scan `near` that is no further.
pub open spec fn no_further(near: Scan, far: Scan, n: int) -> bool {
    forall|i: int|
        #![trigger far.ranges@[i]]
        #![trigger near.ranges@[i]]
        0 <= i < n && measured(far, far.ranges@[i]) ==> measured(near, near.ranges@[i])
            && near.ranges@[i].at_most(far.ranges@[i])
}

/// Where every return is at least as near, every breach stays a breach, no count goes
/// down, and the closest return is at least as close.
pub proof fn nearer_returns_breach_no_less(
    sweep: Sweep,
    near: Scan,
    far: Scan,
    extent: FieldExtent,
    n: int,
)
    requires
        0 <= n <= near.ranges@.len(),
        n <= far.ranges@.len(),
        no_further(near, far, n),
    ensures
        ({
            let (a, b) = (survey(sweep, near, extent, n), survey(sweep, far, extent, n));
            &&& b.protective_breach ==> a.protective_breach
            &&& b.warning_breach ==> a.warning_breach
            &&& b.protective_hits <= a.protective_hits
            &&& b.warning_hits <= a.warning_hits
            &&& a.closest_m.at_most(b.closest_m)
        }),
{
    the_closest_return_is_the_nearest_measured_one(near, n);
    the_closest_return_is_the_nearest_measured_one(far, n);
    let (c, d) = (closest(near, n), closest(far, n));
    if d == binary32::infinity() {
        numeric::lemma_finite(c);
    } else {
        let i = choose|i: int|
            0 <= i < n && measured(far, #[trigger] far.ranges@[i]) && d == far.ranges@[i];
        assert(near.ranges@[i].at_most(far.ranges@[i]));
    }
    assert forall|i: int| 0 <= i < n implies (warning_hit(sweep, far, extent, i) ==> warning_hit(
        sweep,
        near,
        extent,
        i,
    )) && (protective_hit(sweep, far, extent, i) ==> protective_hit(sweep, near, extent, i)) by {
        if measured(far, far.ranges@[i]) {
            assert(near.ranges@[i].at_most(far.ranges@[i]));
        }
    }
    lemma_tally(
        |i: int| warning_hit(sweep, far, extent, i),
        |i: int| warning_hit(sweep, near, extent, i),
        n,
    );
    lemma_tally(
        |i: int| protective_hit(sweep, far, extent, i),
        |i: int| protective_hit(sweep, near, extent, i),
        n,
    );
}

/// A hit in the warning field is a measured return inside it, and a hit in the protective
/// field is one that is inside both.
pub proof fn a_hit_is_a_measured_return_inside_the_field(
    sweep: Sweep,
    scan: Scan,
    extent: FieldExtent,
    i: int,
)
    requires
        !extent.warning_len.nan(),
        extent.half_width.finite(),
        sweep.directions[i].cos.finite(),
        sweep.directions[i].sin.finite(),
    ensures
        ({
            let (r, d, w) = (scan.ranges@[i], sweep.directions[i], extent.half_width);
            let warns = inside(r, d.cos, d.sin, extent.warning_len, w);
            let stops = inside(r, d.cos, d.sin, extent.protective_len, w);
            &&& warning_hit(sweep, scan, extent, i) <==> measured(scan, r) && warns
            &&& protective_hit(sweep, scan, extent, i) <==> measured(scan, r) && warns && stops
        }),
{
    let (d, length, w) = (sweep.directions[i], extent.warning_len, extent.half_width);
    let s = d.sin.absolute();
    numeric::lemma_constants();
    numeric::lemma_signs(d.sin);
    if enters(length, w, d.cos) {
        numeric::lemma_over_grows(length, length, d.cos);
        if s.value() == 0 {
            reveal(Binary32::over);
            numeric::lemma_signs(w);
            numeric::lemma_with_sign(false, 0x7f80_0000);
        } else {
            numeric::lemma_over_grows(w, w, s);
        }
    }
}

/// A return inside the protective field is a hit, the warning field being the longer one.
///
/// On a ray that meets the front of the protective field and the side wall of the
/// warning field, the crossing has to lie within the wall before rounding.
pub proof fn a_return_in_the_protective_field_is_a_hit(
    sweep: Sweep,
    scan: Scan,
    extent: FieldExtent,
    i: int,
)
    requires
        extent.protective_len.at_most(extent.warning_len),
        extent.half_width.finite(),
        sweep.directions[i].cos.finite(),
        sweep.directions[i].sin.finite(),
        measured(scan, scan.ranges@[i]),
        ({
            let d = sweep.directions[i];
            &&& inside(
                scan.ranges@[i],
                d.cos,
                d.sin,
                extent.protective_len,
                extent.half_width,
            )
            &&& meets_the_wall(extent, d) ==> within_the_wall(extent, d)
        }),
    ensures
        protective_hit(sweep, scan, extent, i),
        warning_hit(sweep, scan, extent, i),
{
    let d = sweep.directions[i];
    geometry::a_longer_field_keeps_every_point(
        scan.ranges@[i],
        d.cos,
        d.sin,
        extent.protective_len,
        extent.warning_len,
        extent.half_width,
    );
}

/// A ray leaves the protective field through its front and the warning field through a
/// side wall.
pub open spec fn meets_the_wall(extent: FieldExtent, d: Direction) -> bool {
    &&& exits_front(extent.protective_len, extent.half_width, d.cos, d.sin)
    &&& !exits_front(extent.warning_len, extent.half_width, d.cos, d.sin)
}

/// A ray crosses the front of the protective field no further out than the side walls,
/// with no rounding.
pub open spec fn within_the_wall(extent: FieldExtent, d: Direction) -> bool {
    d.sin.absolute().value() * front_range(extent.protective_len, d.cos).value()
        <= extent.half_width.value() * binary32::units_in_one()
}

/// A cache that was brought in line with a scan fits it, and is kept for every scan of
/// the same geometry: no direction is asked for again.
pub proof fn the_cache_is_rebuilt_only_for_a_new_geometry<
    F: Fn(Binary32) -> Direction,
    G: Fn(Binary32) -> Direction,
>(
    before: Sweep,
    scan: Scan,
    first: &F,
    after: Sweep,
    again: Scan,
    second: &G,
    result: Result<(), ScanError>,
    last: Sweep,
)
    requires
        ensured(before, scan, first, Ok(()), after),
        again.ranges@.len() == scan.ranges@.len(),
        again.angle_min.bits == scan.angle_min.bits,
        again.angle_increment.bits == scan.angle_increment.bits,
        ensured(after, again, second, result, last),
    ensures
        after.fits(scan),
        result is Ok,
        last == after,
{
}

/// The directions that a bearing has are always the same.
pub open spec fn steady<F: Fn(Binary32) -> Direction>(direction: &F) -> bool {
    forall|theta: Binary32, a: Direction, b: Direction|
        call_ensures(direction, (theta,), a) && call_ensures(direction, (theta,), b) ==> a == b
}

/// A rebuilt cache holds nothing of the geometry that it held before: it has a direction
/// for each ray of the scan, and any two caches that were built for one scan are the same
/// and judge every scan alike.
pub proof fn a_rebuilt_cache_keeps_nothing_of_the_old_one<F: Fn(Binary32) -> Direction>(
    a: Sweep,
    b: Sweep,
    built: Scan,
    direction: &F,
    scan: Scan,
    extent: FieldExtent,
)
    requires
        steady(direction),
        geometry_fault(built) is None,
        built_for(a, built, direction),
        built_for(b, built, direction),
    ensures
        a.directions.len() == built.ranges@.len(),
        a.directions.len() > 0,
        a.fits(built),
        a == b,
        survey(a, scan, extent, usable_rays(a, scan)) == survey(
            b,
            scan,
            extent,
            usable_rays(b, scan),
        ),
{
    assert(a.directions =~= b.directions) by {
        assert forall|i: int| 0 <= i < a.directions.len() implies a.directions[i]
            == b.directions[i] by {
            let theta = bearing(built.angle_min, built.angle_increment, i);
            assert(call_ensures(direction, (theta,), a.directions[i]));
            assert(call_ensures(direction, (theta,), b.directions[i]));
        }
    }
}

/// A cache that was rebuilt for a scan holds the direction of each of its bearings.
pub proof fn every_bearing_is_cached<F: Fn(Binary32) -> Direction>(
    before: Sweep,
    scan: Scan,
    direction: &F,
    after: Sweep,
    i: int,
)
    requires
        ensured(before, scan, direction, Ok(()), after),
        !before.fits(scan),
        0 <= i < scan.ranges@.len(),
    ensures
        after.directions.len() == scan.ranges@.len(),
        call_ensures(
            direction,
            (bearing(scan.angle_min, scan.angle_increment, i),),
            after.directions[i],
        ),
{
}

/// A scan that cannot be used is refused with the reason, and leaves the cache as it is.
/// Nothing else is refused.
pub proof fn a_refused_scan_leaves_the_cache_alone<F: Fn(Binary32) -> Direction>(
    before: Sweep,
    scan: Scan,
    direction: &F,
    result: Result<(), ScanError>,
    after: Sweep,
)
    requires
        ensured(before, scan, direction, result, after),
    ensures
        result matches Err(e) ==> geometry_fault(scan) == Some(e) && after == before,
        geometry_fault(scan) is None ==> result is Ok,
        geometry_fault(scan) is Some && !before.fits(scan) ==> result is Err,
        scan.ranges@.len() == 0 ==> result == Err::<(), ScanError>(ScanError::Empty),
{
}

/// A range is a measurement: it is finite, and no shorter than the least and no longer
/// than the greatest range of the sensor, where the sensor gives one.
pub open spec fn trusted(scan: Scan, range: Binary32) -> bool {
    &&& range.finite()
    &&& scan.range_min.nan() || scan.range_min.value() <= range.value()
    &&& scan.range_max.nan() || range.value() <= scan.range_max.value()
}

/// Ray `i` has a measurement inside a field of the given length.
pub open spec fn lies_in(
    sweep: Sweep,
    scan: Scan,
    length: Binary32,
    half_width: Binary32,
    i: int,
) -> bool {
    let (range, d) = (scan.ranges@[i], sweep.directions[i]);
    trusted(scan, range) && inside(range, d.cos, d.sin, length, half_width)
}

/// Ray `i` has a measurement inside the warning field.
pub open spec fn warns(sweep: Sweep, scan: Scan, extent: FieldExtent, i: int) -> bool {
    lies_in(sweep, scan, extent.warning_len, extent.half_width, i)
}

/// Ray `i` has a measurement inside both fields.
pub open spec fn stops(sweep: Sweep, scan: Scan, extent: FieldExtent, i: int) -> bool {
    &&& warns(sweep, scan, extent, i)
    &&& lies_in(sweep, scan, extent.protective_len, extent.half_width, i)
}

/// The fields have a shape, and every direction is a number.
pub open spec fn well_posed(sweep: Sweep, extent: FieldExtent) -> bool {
    &&& !extent.warning_len.nan()
    &&& extent.half_width.finite()
    &&& forall|i: int|
        0 <= i < sweep.directions.len() ==> (#[trigger] sweep.directions[i]).cos.finite()
            && sweep.directions[i].sin.finite()
}

/// As many rays have a property as there are rays that have it.
proof fn lemma_tally_set(f: spec_fn(int) -> bool, rays: Set<int>, n: int)
    requires
        n >= 0,
        forall|i: int| #[trigger] rays.contains(i) <==> 0 <= i < n && f(i),
    ensures
        rays.finite(),
        rays.len() == tally(f, n),
    decreases n,
{
    if n == 0 {
        assert(rays =~= Set::<int>::empty());
    } else {
        let rest = rays.remove(n - 1);
        assert forall|i: int| #[trigger] rest.contains(i) <==> 0 <= i < n - 1 && f(i) by {
            assert(rest.contains(i) ==> rays.contains(i));
            assert(0 <= i < n && f(i) ==> rays.contains(i));
        }
        lemma_tally_set(f, rest, n - 1);
        assert(rays.contains(n - 1) <==> f(n - 1));
        if f(n - 1) {
            assert(rays =~= rest.insert(n - 1));
        } else {
            assert(rays =~= rest);
        }
    }
}

/// What a hit is, from the range and the direction of its ray alone.
proof fn lemma_hits(sweep: Sweep, scan: Scan, extent: FieldExtent, i: int)
    requires
        well_posed(sweep, extent),
        0 <= i < sweep.directions.len(),
    ensures
        warning_hit(sweep, scan, extent, i) <==> warns(sweep, scan, extent, i),
        protective_hit(sweep, scan, extent, i) <==> stops(sweep, scan, extent, i),
        measured(scan, scan.ranges@[i]) <==> trusted(scan, scan.ranges@[i]),
{
    let d = sweep.directions[i];
    assert(d.cos.finite() && d.sin.finite());
    a_hit_is_a_measured_return_inside_the_field(sweep, scan, extent, i);
}

/// Every ray is looked at: each ray that has both a range and a direction counts, from
/// the first to the last. A field is breached exactly where some ray has a measurement in
/// it, the counts are the numbers of those rays, and the closest return is the least
/// measurement of all, infinite where there is none.
pub proof fn every_ray_is_looked_at(
    sweep: Sweep,
    scan: Scan,
    extent: FieldExtent,
    warning: Set<int>,
    protective: Set<int>,
)
    requires
        well_posed(sweep, extent),
        sweep.directions.len() <= 1081,
        forall|i: int|
            #![trigger warning.contains(i)]
            warning.contains(i) <==> 0 <= i < sweep.directions.len() && i < scan.ranges@.len()
                && warns(sweep, scan, extent, i),
        forall|i: int|
            #![trigger protective.contains(i)]
            protective.contains(i) <==> 0 <= i < sweep.directions.len() && i
                < scan.ranges@.len() && stops(sweep, scan, extent, i),
    ensures
        ({
            let v = survey(sweep, scan, extent, usable_rays(sweep, scan));
            &&& warning.finite() && v.warning_hits == warning.len()
            &&& protective.finite() && v.protective_hits == protective.len()
            &&& v.warning_breach <==> v.warning_hits > 0
            &&& v.protective_breach <==> v.protective_hits > 0
            &&& forall|i: int| #[trigger] warning.contains(i) ==> v.warning_breach
            &&& forall|i: int| #[trigger] protective.contains(i) ==> v.protective_breach
            &&& v.warning_breach ==> exists|i: int| #[trigger] warning.contains(i)
            &&& v.protective_breach ==> exists|i: int| #[trigger] protective.contains(i)
            &&& is_closest(sweep, scan, v.closest_m)
        }),
{
    let n = usable_rays(sweep, scan);
    assert forall|i: int| 0 <= i < n implies (warning_hit(sweep, scan, extent, i) <==> warns(
        sweep,
        scan,
        extent,
        i,
    )) && (protective_hit(sweep, scan, extent, i) <==> stops(sweep, scan, extent, i)) && (
    measured(scan, #[trigger] scan.ranges@[i]) <==> trusted(scan, scan.ranges@[i])) by {
        lemma_hits(sweep, scan, extent, i);
    }
    let (w, p) = (
        |i: int| warning_hit(sweep, scan, extent, i),
        |i: int| protective_hit(sweep, scan, extent, i),
    );
    assert forall|i: int| #[trigger] warning.contains(i) <==> 0 <= i < n && w(i) by {
        assert(0 <= i < n ==> scan.ranges@[i] == scan.ranges@[i]);
    }
    assert forall|i: int| #[trigger] protective.contains(i) <==> 0 <= i < n && p(i) by {
        assert(0 <= i < n ==> scan.ranges@[i] == scan.ranges@[i]);
    }
    lemma_tally_set(w, warning, n);
    lemma_tally_set(p, protective, n);
    a_protective_breach_is_a_warning_breach(sweep, scan, extent, n);
    a_breach_is_a_return_in_the_field(sweep, scan, extent, n);
    the_closest_return_is_the_nearest_measured_one(scan, n);
    let v = survey(sweep, scan, extent, n);
    assert forall|i: int| #[trigger] warning.contains(i) implies v.warning_breach by {
        assert(w(i) && warning_hit(sweep, scan, extent, i));
    }
    assert forall|i: int| #[trigger] protective.contains(i) implies v.protective_breach by {
        assert(p(i) && protective_hit(sweep, scan, extent, i));
    }
    if v.warning_breach {
        let i = choose|i: int| 0 <= i < n && #[trigger] warning_hit(sweep, scan, extent, i);
        assert(w(i) && warning.contains(i));
    }
    if v.protective_breach {
        let i = choose|i: int| 0 <= i < n && #[trigger] protective_hit(sweep, scan, extent, i);
        assert(p(i) && protective.contains(i));
    }
}

/// The least measurement of all rays that have a direction, infinite where there is none.
pub open spec fn is_closest(sweep: Sweep, scan: Scan, closest: Binary32) -> bool {
    &&& forall|i: int|
        0 <= i < sweep.directions.len() && i < scan.ranges@.len() && trusted(
            scan,
            #[trigger] scan.ranges@[i],
        ) ==> !closest.nan() && closest.value() <= scan.ranges@[i].value()
    &&& closest.infinite() && !closest.negative() || exists|i: int|
        0 <= i < sweep.directions.len() && i < scan.ranges@.len() && trusted(
            scan,
            #[trigger] scan.ranges@[i],
        ) && closest == scan.ranges@[i]
}

/// A cache fits exactly the scans that have as many rays as it has directions, and the
/// same first bearing and the same step, bit for bit.
pub proof fn a_cache_fits_scans_of_its_own_geometry(sweep: Sweep, scan: Scan)
    ensures
        sweep.fits(scan) <==> sweep.directions.len() == scan.ranges@.len()
            && sweep.angle_min == scan.angle_min && sweep.angle_increment
            == scan.angle_increment,
{
}

/// A scan can be used exactly where it has from 1 to 1081 rays, a finite first bearing and
/// a finite step other than zero. The first of these that fails is the reason given.
pub proof fn a_scan_is_refused_for_its_first_fault(scan: Scan)
    ensures
        ({
            let (rays, fault) = (scan.ranges@.len(), geometry_fault(scan));
            let turns = scan.angle_increment.finite() && scan.angle_increment.value() != 0;
            &&& rays == 0 <==> fault == Some(ScanError::Empty)
            &&& rays > 1081 <==> fault == Some(ScanError::TooManyRays)
            &&& 0 < rays <= 1081 && !scan.angle_min.finite() <==> fault == Some(
                ScanError::BadAngleMin,
            )
            &&& 0 < rays <= 1081 && scan.angle_min.finite() && !turns <==> fault == Some(
                ScanError::BadIncrement,
            )
            &&& 0 < rays <= 1081 && scan.angle_min.finite() && turns <==> fault is None
        }),
{
    numeric::lemma_constants();
}

/// The bearings are evenly spaced: ray `i` looks `i` steps past the first bearing, each
/// product and each sum rounded once.
pub proof fn bearings_are_evenly_spaced(angle_min: Binary32, step: Binary32, i: int)
    requires
        angle_min.finite(),
        step.finite(),
        0 <= i < 1081,
        numeric::round_value(step.value() * i, 1) < numeric::beyond(),
        numeric::round_value(step.value() * i, 1) > -numeric::beyond(),
    ensures
        !bearing(angle_min, step, i).nan(),
        bearing(angle_min, step, i).value() == numeric::round_value(
            angle_min.value() + numeric::round_value(step.value() * i, 1),
            1,
        ),
        i == 0 ==> bearing(angle_min, step, i).value() == angle_min.value(),
{
    let u = binary32::units_in_one();
    let n = binary32::rounded(false, i * u, 1);
    numeric::lemma_constants();
    binary32::lemma_from_integer(i, n);
    assert(n.value() == i * u) by {
        reveal(Binary32::value);
    }
    numeric::lemma_times(step, n);
    let x = step.value() * i;
    assert(step.value() * (i * u) == x * u) by (nonlinear_arith)
        requires
            x == step.value() * i,
    ;
    lemma_scaled(x, u);
    let turn = step.times(n);
    numeric::lemma_finite(turn);
    numeric::lemma_plus(angle_min, turn);
    if i == 0 {
        assert(x == 0) by (nonlinear_arith)
            requires
                x == step.value() * i,
                i == 0,
        ;
        numeric::lemma_round_at(binary32::zero(), 0);
        numeric::lemma_round_at(angle_min, angle_min.value());
    }
}

} // verus!
