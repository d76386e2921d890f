//! Fixed-capacity lidar scan evaluation.
//!
//! Direction cosines are cached per ray so the per-cycle cost is arithmetic only. The
//! cache is rebuilt when the sensor's angular geometry changes, which in practice
//! happens once at startup.

use crate::binary32;
use crate::binary32::Binary32;
use crate::field::FieldExtent;
use crate::geometry;
use crate::geometry::forward_rect_boundary;
use crate::types::Scan;
use vstd::prelude::*;

verus! {

/// Maximum rays the core will consider in one scan.
///
/// Sized for a 270° sensor at 0.25° resolution. A longer scan is rejected, which the
/// node binding treats as a configuration error rather than silently ignoring the tail.
pub const MAX_RAYS: usize = 1081;

/// Why a scan could not be used.
#[derive(Clone, Copy, Debug, PartialEq, Eq, Structural)]
pub enum ScanError {
    /// The scan contained no rays.
    Empty,
    /// `angle_increment` was zero or non-finite.
    BadIncrement,
    /// `angle_min` was non-finite.
    BadAngleMin,
    /// More rays than [`MAX_RAYS`].
    TooManyRays,
}

/// The direction cosines of one bearing.
#[derive(Clone, Copy, Debug)]
pub struct Direction {
    /// Cosine of the bearing.
    pub cos: Binary32,
    /// Sine of the bearing.
    pub sin: Binary32,
}

/// What the geometry cache holds: the angular geometry of a sensor, and the direction
/// of each of its rays.
pub struct Sweep {
    /// Bearing of the first ray.
    pub angle_min: Binary32,
    /// Bearing step between consecutive rays.
    pub angle_increment: Binary32,
    /// The direction of each ray.
    pub directions: Seq<Direction>,
}

/// Cached per-ray direction cosines for one sensor geometry.
///
/// A fixed array, no allocation, ~8.6 KB. This lives inside the [`crate::Arbiter`]
/// and is the only sizeable state in the crate.
#[derive(Clone, Debug)]
pub struct ScanGeometry {
    angle_min: Binary32,
    angle_increment: Binary32,
    count: usize,
    directions: [Direction; MAX_RAYS],
}

impl View for ScanGeometry {
    type V = Sweep;

    closed spec fn view(&self) -> Sweep {
        Sweep {
            angle_min: self.angle_min,
            angle_increment: self.angle_increment,
            directions: self.directions@.take(self.count as int),
        }
    }
}

impl Sweep {
    /// The sweep has the angular geometry of a scan, bit for bit.
    pub open spec fn fits(self, scan: Scan) -> bool {
        &&& self.directions.len() == scan.ranges@.len()
        &&& self.angle_min.bits == scan.angle_min.bits
        &&& self.angle_increment.bits == scan.angle_increment.bits
    }

    /// The sweep is empty, or has the angular geometry of a usable scan.
    pub open spec fn usable(self) -> bool {
        &&& self.directions.len() <= MAX_RAYS
        &&& self.directions.len() > 0 ==> {
            &&& self.angle_min.finite()
            &&& self.angle_increment.finite()
            &&& !self.angle_increment.equals(binary32::zero())
        }
    }
}

/// The bearing of ray `i`.
pub open spec fn bearing(angle_min: Binary32, angle_increment: Binary32, i: int) -> Binary32 {
    angle_min.plus(
        angle_increment.times(binary32::rounded(false, i * binary32::units_in_one(), 1)),
    )
}

/// Why the geometry of a scan cannot be used, if it cannot.
pub open spec fn geometry_fault(scan: Scan) -> Option<ScanError> {
    if scan.ranges@.len() == 0 {
        Some(ScanError::Empty)
    } else if scan.ranges@.len() > MAX_RAYS {
        Some(ScanError::TooManyRays)
    } else if !scan.angle_min.finite() {
        Some(ScanError::BadAngleMin)
    } else if !scan.angle_increment.finite() || scan.angle_increment.equals(binary32::zero()) {
        Some(ScanError::BadIncrement)
    } else {
        None
    }
}

/// The sweep was built for a scan: `direction` gave the direction of every bearing.
pub open spec fn built_for<F: Fn(Binary32) -> Direction>(
    sweep: Sweep,
    scan: Scan,
    direction: &F,
) -> bool {
    &&& sweep.fits(scan)
    &&& forall|i: int|
        0 <= i < sweep.directions.len() ==> call_ensures(
            direction,
            (bearing(scan.angle_min, scan.angle_increment, i),),
            #[trigger] sweep.directions[i],
        )
}

impl Default for ScanGeometry {
    fn default() -> (r: ScanGeometry)
        ensures
            r.wf(),
            r@.usable(),
            r@.directions.len() == 0,
            r@.angle_min == binary32::zero(),
            r@.angle_increment == binary32::zero(),
    {
        let none: Direction = Direction { cos: Binary32::zero(), sin: Binary32::zero() };
        ScanGeometry {
            angle_min: Binary32::zero(),
            angle_increment: Binary32::zero(),
            count: 0,
            directions: [none; MAX_RAYS],
        }
    }
}

impl ScanGeometry {
    /// No more rays are cached than there is room for, and their geometry is that of a
    /// usable scan.
    pub closed spec fn wf(self) -> bool {
        self.count <= MAX_RAYS && self@.usable()
    }

    /// Number of rays currently cached.
    #[must_use]
    pub fn len(&self) -> (r: usize)
        requires
            self.wf(),
        ensures
            r == self@.directions.len(),
            r <= MAX_RAYS,
    {
        self.count
    }

    /// True when no geometry has been configured yet.
    #[must_use]
    pub fn is_empty(&self) -> (r: bool)
        requires
            self.wf(),
        ensures
            r == (self@.directions.len() == 0),
    {
        self.count == 0
    }

    /// True when the cache already matches this scan's angular geometry.
    ///
    /// Compared bitwise rather than with a tolerance: these values come from a device
    /// descriptor and are republished unchanged, so any difference at all is a genuine
    /// reconfiguration and worth paying for a rebuild.
    #[must_use]
    pub fn matches(&self, scan: &Scan<'_>) -> (r: bool)
        requires
            self.wf(),
        ensures
            r == self@.fits(*scan),
    {
        self.count == scan.ranges.len() && self.angle_min.to_bits() == scan.angle_min.to_bits()
            && self.angle_increment.to_bits() == scan.angle_increment.to_bits()
    }

    /// Rebuilds the cache in place for a new sensor geometry.
    ///
    /// Allocates nothing; cost is one call of `direction` per ray. Called at startup and
    /// on the rare reconfiguration, never on a steady-state cycle.
    ///
    /// # Errors
    ///
    /// Rejects empty, oversized, or non-finite geometries.
    pub fn configure<F: Fn(Binary32) -> Direction>(
        &mut self,
        scan: &Scan<'_>,
        direction: &F,
    ) -> (r: Result<(), ScanError>)
        requires
            old(self).wf(),
            forall|theta: Binary32| call_requires(direction, (theta,)),
        ensures
            final(self).wf(),
            final(self)@.usable(),
            match geometry_fault(*scan) {
                Some(e) => r == Err::<(), ScanError>(e) && final(self)@ == old(self)@,
                None => r is Ok && built_for(final(self)@, *scan, direction),
            },
    {
        let count: usize = scan.ranges.len();
        if count == 0 {
            return Err(ScanError::Empty);
        }
        if count > MAX_RAYS {
            return Err(ScanError::TooManyRays);
        }
        if !scan.angle_min.is_finite() {
            return Err(ScanError::BadAngleMin);
        }
        if !scan.angle_increment.is_finite() || scan.angle_increment == Binary32::zero() {
            return Err(ScanError::BadIncrement);
        }
        let mut i: usize = 0;
        while i < count
            invariant
                i <= count <= MAX_RAYS,
                forall|theta: Binary32| call_requires(direction, (theta,)),
                forall|j: int|
                    0 <= j < i ==> call_ensures(
                        direction,
                        (bearing(scan.angle_min, scan.angle_increment, j),),
                        #[trigger] self.directions@[j],
                    ),
            decreases count - i,
        {
            let theta: Binary32 = scan.angle_min + scan.angle_increment * Binary32::from_integer(
                i as u64,
            );
            self.directions[i] = direction(theta);
            i = i + 1;
        }
        self.angle_min = scan.angle_min;
        self.angle_increment = scan.angle_increment;
        self.count = count;
        Ok(())
    }

    /// Ensures the cache matches `scan`, rebuilding only if it does not.
    ///
    /// # Errors
    ///
    /// Propagates [`ScanGeometry::configure`] failures. A scan without rays is always
    /// one, also where it matches a cache that was never configured.
    pub fn ensure<F: Fn(Binary32) -> Direction>(
        &mut self,
        scan: &Scan<'_>,
        direction: &F,
    ) -> (r: Result<(), ScanError>)
        requires
            old(self).wf(),
            forall|theta: Binary32| call_requires(direction, (theta,)),
        ensures
            final(self).wf(),
            final(self)@.usable(),
            ensured(old(self)@, *scan, direction, r, final(self)@),
    {
        if !self.is_empty() && self.matches(scan) {
            Ok(())
        } else {
            self.configure(scan, direction)
        }
    }
}

/// Bringing the cache `before` in line with a scan gives `result` and the cache
/// `after`: a cache that fits is kept, a usable scan gets a new one, and any other scan
/// changes nothing.
pub open spec fn ensured<F: Fn(Binary32) -> Direction>(
    before: Sweep,
    scan: Scan,
    direction: &F,
    result: Result<(), ScanError>,
    after: Sweep,
) -> bool {
    if before.directions.len() > 0 && before.fits(scan) {
        result is Ok && after == before
    } else {
        match geometry_fault(scan) {
            Some(e) => result == Err::<(), ScanError>(e) && after == before,
            None => result is Ok && built_for(after, scan, direction),
        }
    }
}

/// What a scan says about the current fields.
#[derive(Clone, Copy, Debug, PartialEq)]
pub struct ScanVerdict {
    /// A return lies inside the protective field.
    pub protective_breach: bool,
    /// A return lies inside the warning field.
    pub warning_breach: bool,
    /// Returns inside the protective field. Saturates at [`u16::MAX`].
    pub protective_hits: u16,
    /// Returns inside the warning field, including protective ones.
    pub warning_hits: u16,
    /// Closest valid return anywhere in the scan, metres. Infinite if there were none.
    ///
    /// Diagnostic only — it is not used to make the stop decision, because "closest
    /// return" and "closest return *in the field*" are different questions and only the
    /// second one matters.
    pub closest_m: Binary32,
}

/// The verdict with every field at its default.
pub open spec fn default_verdict() -> ScanVerdict {
    ScanVerdict {
        protective_breach: false,
        warning_breach: false,
        protective_hits: 0,
        warning_hits: 0,
        closest_m: binary32::zero(),
    }
}

impl Default for ScanVerdict {
    fn default() -> (r: ScanVerdict)
        ensures
            r == default_verdict(),
    {
        ScanVerdict {
            protective_breach: false,
            warning_breach: false,
            protective_hits: 0,
            warning_hits: 0,
            closest_m: Binary32::zero(),
        }
    }
}

/// The verdict of a robot that cannot see.
pub open spec fn unseen() -> ScanVerdict {
    ScanVerdict {
        protective_breach: true,
        warning_breach: true,
        protective_hits: 0,
        warning_hits: 0,
        closest_m: binary32::infinity(),
    }
}

impl ScanVerdict {
    /// A verdict for a robot that cannot see: treated as a protective breach.
    ///
    /// Absence of evidence is not evidence of a clear floor. A blind robot stops.
    #[must_use]
    pub fn blind() -> (r: ScanVerdict)
        ensures
            r == unseen(),
    {
        ScanVerdict {
            protective_breach: true,
            warning_breach: true,
            protective_hits: 0,
            warning_hits: 0,
            closest_m: Binary32::infinity(),
        }
    }
}

/// A range that is finite and within the trustworthy band of the sensor.
pub open spec fn measured(scan: Scan, range: Binary32) -> bool {
    range.finite() && !range.less(scan.range_min) && !scan.range_max.less(range)
}

/// Ray `i` measured something that is not beyond the warning field.
pub open spec fn warning_hit(sweep: Sweep, scan: Scan, extent: FieldExtent, i: int) -> bool {
    let range = scan.ranges@[i];
    let d = sweep.directions[i];
    measured(scan, range) && match geometry::boundary(
        extent.warning_len,
        extent.half_width,
        d.cos,
        d.sin,
    ) {
        Some(b) => !b.at_most(range),
        None => false,
    }
}

/// Ray `i` measured something within the protective field, inside the warning field.
pub open spec fn protective_hit(sweep: Sweep, scan: Scan, extent: FieldExtent, i: int) -> bool {
    let d = sweep.directions[i];
    warning_hit(sweep, scan, extent, i) && geometry::inside(
        scan.ranges@[i],
        d.cos,
        d.sin,
        extent.protective_len,
        extent.half_width,
    )
}

/// How many of the first `n` rays have a property.
pub open spec fn tally(hit: spec_fn(int) -> bool, n: int) -> nat
    decreases n,
{
    if n <= 0 {
        0
    } else if hit(n - 1) {
        tally(hit, n - 1) + 1
    } else {
        tally(hit, n - 1)
    }
}

/// A count, as far as sixteen bits hold it.
pub open spec fn saturated(n: nat) -> u16 {
    if n > u16::MAX {
        u16::MAX
    } else {
        n as u16
    }
}

/// The closest measured range among the first `n` rays, infinite where there is none.
pub open spec fn closest(scan: Scan, n: int) -> Binary32
    decreases n,
{
    if n <= 0 {
        binary32::infinity()
    } else {
        let range = scan.ranges@[n - 1];
        let before = closest(scan, n - 1);
        if measured(scan, range) && range.less(before) {
            range
        } else {
            before
        }
    }
}

/// The number of rays that have both a range and a direction.
pub open spec fn usable_rays(sweep: Sweep, scan: Scan) -> int {
    if sweep.directions.len() < scan.ranges@.len() {
        sweep.directions.len() as int
    } else {
        scan.ranges@.len() as int
    }
}

/// What the first `n` rays of a scan say about the fields.
pub open spec fn survey(sweep: Sweep, scan: Scan, extent: FieldExtent, n: int) -> ScanVerdict {
    let warnings = tally(|i: int| warning_hit(sweep, scan, extent, i), n);
    let breaches = tally(|i: int| protective_hit(sweep, scan, extent, i), n);
    ScanVerdict {
        protective_breach: breaches > 0,
        warning_breach: warnings > 0,
        protective_hits: saturated(breaches),
        warning_hits: saturated(warnings),
        closest_m: closest(scan, n),
    }
}

/// Tests every ray against the protective and warning fields.
///
/// Runs in `O(n)` over the ray count with no branches on data beyond range validity,
/// which is what keeps the worst case close to the average case.
///
/// Returns that are non-finite or outside `[range_min, range_max]` are no-returns.
/// This matters: a NaN compared with `<` is quietly false, so an unfiltered NaN would
/// read as "nothing there" instead of "sensor fault". They are excluded explicitly.
#[must_use]
pub fn evaluate(geom: &ScanGeometry, scan: &Scan<'_>, extent: &FieldExtent) -> (r: ScanVerdict)
    requires
        geom.wf(),
    ensures
        r == survey(geom@, *scan, *extent, usable_rays(geom@, *scan)),
{
    let mut v: ScanVerdict = ScanVerdict {
        closest_m: Binary32::infinity(),
        ..ScanVerdict::default()
    };
    let n: usize = if geom.count < scan.ranges.len() {
        geom.count
    } else {
        scan.ranges.len()
    };
    let mut i: usize = 0;
    while i < n
        invariant
            i <= n,
            n <= geom.count <= MAX_RAYS,
            n <= scan.ranges@.len(),
            v == survey(geom@, *scan, *extent, i as int),
        decreases n - i,
    {
        let ghost warns = |j: int| warning_hit(geom@, *scan, *extent, j);
        let ghost stops = |j: int| protective_hit(geom@, *scan, *extent, j);
        assert(tally(warns, i + 1) == tally(warns, i as int) + if warns(i as int) {
            1int
        } else {
            0
        });
        assert(tally(stops, i + 1) == tally(stops, i as int) + if stops(i as int) {
            1int
        } else {
            0
        });
        let range: Binary32 = scan.ranges[i];
        let d: Direction = geom.directions[i];
        assert(d == geom@.directions[i as int]);
        i = i + 1;
        if !range.is_finite() || range < scan.range_min || range > scan.range_max {
            continue ;
        }
        if range < v.closest_m {
            v.closest_m = range;
        }
        // One boundary computation serves both fields: they share a half-width and
        // differ only in length, and the warning length is the larger of the two.

        let warning_boundary: Binary32 = match forward_rect_boundary(
            extent.warning_len,
            extent.half_width,
            d.cos,
            d.sin,
        ) {
            Some(boundary) => boundary,
            None => continue ,
        };
        if range >= warning_boundary {
            continue ;
        }
        v.warning_breach = true;
        v.warning_hits = v.warning_hits.saturating_add(1);

        if let Some(protective_boundary) = forward_rect_boundary(
            extent.protective_len,
            extent.half_width,
            d.cos,
            d.sin,
        ) {
            if range < protective_boundary {
                v.protective_breach = true;
                v.protective_hits = v.protective_hits.saturating_add(1);
            }
        }
    }
    v
}

} // verus!
