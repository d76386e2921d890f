//! Velocity arbitration: the single point where a command becomes motion.
//!
//! Everything upstream — the planner, the fleet service, a teleop joystick — produces a
//! *request*. [`Arbiter::step`] produces the command that actually reaches the motors.
//! Nothing bypasses it.

use crate::binary32;
use crate::binary32::Binary32;
use crate::config;
use crate::config::{ConfigError, SafetyConfig};
use crate::field;
use crate::numeric;
use crate::field::FieldExtent;
use crate::scan;
use crate::scan::{evaluate, Direction, ScanError, ScanGeometry, ScanVerdict, Sweep};
use crate::state;
use crate::state::{FieldState, FieldStateMachine, StopCause, StopLatch};
use crate::types;
use crate::types::{clamp_sym, Command, Micros, Mode, Scan, Twist, ZoneLimits};
use vstd::prelude::*;

verus! {

/// Why the arbitrated command differs from the requested one.
///
/// Ordered by authority: a later reason overrides an earlier one, and the reported
/// reason is always the highest-authority rule that bound on this cycle.
#[derive(Clone, Copy, Debug, PartialEq, Eq, PartialOrd, Ord, Structural)]
pub enum VetoReason {
    /// The request passed through unmodified.
    NoVeto,
    /// Clamped by externally supplied zone limits, typically human proximity.
    ZoneLimit,
    /// Clamped by the docking speed ceiling.
    DockingLimit,
    /// Clamped because an obstacle is in the warning field.
    WarningClamp,
    /// The request contained a non-finite value and was discarded.
    CommandInvalid,
    /// No command has arrived within the watchdog timeout; ramping to zero.
    Watchdog,
    /// An obstacle in the protective field latched the current stop.
    ProtectiveStop,
    /// The scan was missing, stale, or malformed when the current stop latched. The
    /// robot was blind, so it stopped.
    ScanStale,
    /// The e-stop is asserted or latched, or it latched the current stop.
    EStop,
}

impl Default for VetoReason {
    fn default() -> (r: VetoReason)
        ensures
            r == VetoReason::NoVeto,
    {
        VetoReason::NoVeto
    }
}

impl VetoReason {
    /// The rank of a reason among the others.
    pub open spec fn rank(self) -> int {
        match self {
            VetoReason::NoVeto => 0,
            VetoReason::ZoneLimit => 1,
            VetoReason::DockingLimit => 2,
            VetoReason::WarningClamp => 3,
            VetoReason::CommandInvalid => 4,
            VetoReason::Watchdog => 5,
            VetoReason::ProtectiveStop => 6,
            VetoReason::ScanStale => 7,
            VetoReason::EStop => 8,
        }
    }

    /// The authority of the reason; a larger one overrides a smaller one.
    #[must_use]
    pub fn authority(self) -> (r: u8)
        ensures
            r == self.rank(),
    {
        match self {
            VetoReason::NoVeto => 0,
            VetoReason::ZoneLimit => 1,
            VetoReason::DockingLimit => 2,
            VetoReason::WarningClamp => 3,
            VetoReason::CommandInvalid => 4,
            VetoReason::Watchdog => 5,
            VetoReason::ProtectiveStop => 6,
            VetoReason::ScanStale => 7,
            VetoReason::EStop => 8,
        }
    }

    /// The one of two reasons that has more authority.
    fn stronger(self, other: VetoReason) -> (r: VetoReason)
        ensures
            r == if self.rank() < other.rank() {
                other
            } else {
                self
            },
    {
        if self.authority() < other.authority() {
            other
        } else {
            self
        }
    }
}

/// One control cycle's worth of input.
///
/// Constructed fresh each cycle by the node binding. Note that everything is optional
/// or defaulted except the timestamp: a cycle where nothing arrived is a normal,
/// well-defined cycle, and the safe response to it is the point of the whole layer.
#[derive(Clone, Copy, Debug)]
pub struct Tick<'a> {
    /// Monotonic time of this cycle, microseconds.
    pub now_us: Micros,
    /// A velocity request, if one arrived since the last cycle.
    pub cmd: Option<Command>,
    /// A lidar scan, if one arrived since the last cycle.
    pub scan: Option<Scan<'a>>,
    /// Whether the e-stop line is asserted right now.
    pub estop: bool,
    /// An explicit operator acknowledgement, permitting a latched e-stop to clear.
    pub estop_reset: bool,
    /// Which field profile applies.
    pub mode: Mode,
    /// Externally imposed speed ceilings.
    pub zone: ZoneLimits,
}

impl<'a> Tick<'a> {
    /// An otherwise-empty cycle at `now_us`.
    #[must_use]
    pub fn new(now_us: Micros) -> (r: Tick<'a>)
        ensures
            r == (Tick {
                now_us,
                cmd: None,
                scan: None,
                estop: false,
                estop_reset: false,
                mode: Mode::Normal,
                zone: types::no_limits(),
            }),
    {
        Tick {
            now_us,
            cmd: None,
            scan: None,
            estop: false,
            estop_reset: false,
            mode: Mode::Normal,
            zone: ZoneLimits::unrestricted(),
        }
    }

    /// Attaches a velocity request.
    #[must_use]
    pub fn with_cmd(self, cmd: Command) -> (r: Tick<'a>)
        ensures
            r == (Tick { cmd: Some(cmd), ..self }),
    {
        Tick { cmd: Some(cmd), ..self }
    }

    /// Attaches a lidar scan.
    #[must_use]
    pub fn with_scan(self, scan: Scan<'a>) -> (r: Tick<'a>)
        ensures
            r == (Tick { scan: Some(scan), ..self }),
    {
        Tick { scan: Some(scan), ..self }
    }

    /// Sets the field profile.
    #[must_use]
    pub fn with_mode(self, mode: Mode) -> (r: Tick<'a>)
        ensures
            r == (Tick { mode, ..self }),
    {
        Tick { mode, ..self }
    }

    /// Sets externally imposed speed ceilings.
    #[must_use]
    pub fn with_zone(self, zone: ZoneLimits) -> (r: Tick<'a>)
        ensures
            r == (Tick { zone, ..self }),
    {
        Tick { zone, ..self }
    }
}

/// What the arbiter decided, and enough context to explain why.
///
/// The explanation is not decoration. When a robot stops in the middle of an aisle,
/// the operator needs to know whether it saw something, lost its scan, or lost its
/// planner, and those demand three different responses.
#[derive(Clone, Copy, Debug, PartialEq)]
pub struct Decision {
    /// The command to send to the motors.
    pub twist: Twist,
    /// The field state this cycle.
    pub state: FieldState,
    /// The highest-authority rule that modified the request.
    pub veto: VetoReason,
    /// The field dimensions used this cycle.
    pub extent: FieldExtent,
    /// Closest valid lidar return, metres; infinite when unknown.
    pub closest_m: Binary32,
    /// Whether the e-stop is currently latched.
    pub estop_latched: bool,
    /// Why the most recent scan was rejected, if one was.
    ///
    /// Cleared as soon as a usable scan arrives. A misconfigured lidar and a lidar that
    /// has simply gone quiet both surface as [`VetoReason::ScanStale`], and the operator
    /// needs to tell them apart: one is a wiring job and the other is a parameter file.
    pub scan_error: Option<ScanError>,
}

/// What the arbiter remembers between cycles.
pub struct Memory {
    /// The configuration in force.
    pub cfg: SafetyConfig,
    /// The cached sensor geometry.
    pub sweep: Sweep,
    /// The field state machine.
    pub latch: StopLatch,
    /// Last command accepted as valid.
    pub last_cmd: Twist,
    /// When that command was produced.
    pub last_cmd_us: Option<Micros>,
    /// Verdict from the most recent usable scan.
    pub last_verdict: ScanVerdict,
    /// When that scan was measured.
    pub last_scan_us: Option<Micros>,
    /// The time of the previous cycle.
    pub last_tick_us: Option<Micros>,
    /// The most recently emitted command.
    pub last_out: Twist,
    /// The e-stop is latched.
    pub estop_latched: bool,
    /// Why the most recent scan was rejected.
    pub last_scan_error: Option<ScanError>,
}

/// A command is finite and within the limits of the vehicle.
pub open spec fn within_limits(cfg: SafetyConfig, twist: Twist) -> bool {
    &&& twist.finite()
    &&& twist.linear.absolute().at_most(cfg.max_linear)
    &&& twist.angular.absolute().at_most(cfg.max_angular)
}

impl Memory {
    /// What holds of the memory between any two cycles.
    pub open spec fn sound(self) -> bool {
        &&& self.cfg.valid()
        &&& self.latch.consistent()
        &&& self.last_cmd.finite()
        &&& within_limits(self.cfg, self.last_out)
        &&& self.sweep.usable()
        &&& honest(self.last_verdict)
    }
}

/// A breach without a return in the field comes only from a robot that cannot see.
pub open spec fn honest(verdict: ScanVerdict) -> bool {
    verdict.protective_breach && verdict.protective_hits == 0 ==> verdict == scan::unseen()
}

/// What a breach is to be blamed on: a return in the protective field, or, where there
/// is none, the robot's blindness. A blind verdict that stands until the next scan stays
/// a blind one.
pub open spec fn breach_cause(verdict: ScanVerdict) -> StopCause {
    if verdict.protective_hits == 0 {
        StopCause::Blind
    } else {
        StopCause::Obstacle
    }
}

/// The memory of an arbiter that has not run yet.
pub open spec fn fresh(cfg: SafetyConfig, sweep: Sweep) -> Memory {
    Memory {
        cfg,
        sweep,
        latch: state::released(),
        last_cmd: types::stationary(),
        last_cmd_us: None,
        last_verdict: scan::unseen(),
        last_scan_us: None,
        last_tick_us: None,
        last_out: types::stationary(),
        estop_latched: false,
        last_scan_error: None,
    }
}

/// The earlier of two times.
pub open spec fn earlier(a: Micros, b: Micros) -> Micros {
    if a < b {
        a
    } else {
        b
    }
}

/// Seconds since the previous cycle, at most the longest step that the ramp honours.
pub open spec fn timestep(pre: Memory, now: Micros) -> Binary32 {
    let us = match pre.last_tick_us {
        Some(prev) => types::elapsed(prev, now),
        None => 0,
    };
    let dt = binary32::rounded(false, us * binary32::units_in_one(), 1).times(
        binary32::fraction(1, 1_000_000),
    );
    if dt.finite() {
        dt.lesser(binary32::fraction(5, 100))
    } else {
        binary32::zero()
    }
}

/// The e-stop latches when asserted and clears only on an acknowledgement.
pub open spec fn estop_after(pre: Memory, tick: Tick) -> bool {
    tick.estop || (pre.estop_latched && !tick.estop_reset)
}

/// The command of a cycle is not finite.
pub open spec fn garbled(tick: Tick) -> bool {
    tick.cmd matches Some(cmd) && !cmd.twist.finite()
}

/// The velocity asked for: the newest command, or nothing where that was garbled.
pub open spec fn request(pre: Memory, tick: Tick) -> Twist {
    match tick.cmd {
        Some(cmd) => if cmd.twist.finite() {
            cmd.twist
        } else {
            types::stationary()
        },
        None => pre.last_cmd,
    }
}

/// When the freshest valid command was produced; never in the future.
pub open spec fn command_time(pre: Memory, tick: Tick) -> Option<Micros> {
    match tick.cmd {
        Some(cmd) => if cmd.twist.finite() {
            Some(earlier(cmd.stamp_us, tick.now_us))
        } else {
            pre.last_cmd_us
        },
        None => pre.last_cmd_us,
    }
}

/// No valid command is recent enough.
pub open spec fn watchdog_expired(pre: Memory, tick: Tick) -> bool {
    match command_time(pre, tick) {
        Some(t) => types::elapsed(t, tick.now_us) > pre.cfg.watchdog_timeout_us,
        None => true,
    }
}

/// The fields of a cycle, sized for the faster of the present and the requested speed.
pub open spec fn fields(pre: Memory, tick: Tick) -> FieldExtent {
    let speed = pre.last_out.linear.absolute().greater(request(pre, tick).linear.absolute());
    field::extent(pre.cfg, speed, tick.mode)
}

/// Why the scan of a cycle cannot be used, if there is one that cannot.
pub open spec fn scan_fault(pre: Memory, tick: Tick) -> Option<ScanError> {
    match tick.scan {
        Some(s) => if pre.sweep.directions.len() > 0 && pre.sweep.fits(s) {
            None
        } else {
            scan::geometry_fault(s)
        },
        None => None,
    }
}

/// The cache after a cycle: kept without a usable scan or where it fits the scan, and
/// otherwise built for the scan.
pub open spec fn swept<F: Fn(Binary32) -> Direction>(
    before: Sweep,
    tick: Tick,
    direction: &F,
    after: Sweep,
) -> bool {
    match tick.scan {
        Some(s) => exists|result: Result<(), ScanError>| #[trigger]
            scan::ensured(before, s, direction, result, after),
        None => after == before,
    }
}

/// When the newest usable scan was measured; never in the future.
pub open spec fn scan_time(pre: Memory, tick: Tick) -> Option<Micros> {
    match tick.scan {
        Some(s) => if scan_fault(pre, tick) is None {
            Some(earlier(s.stamp_us, tick.now_us))
        } else {
            pre.last_scan_us
        },
        None => pre.last_scan_us,
    }
}

/// The robot cannot see: its scan is unusable, missing or stale.
pub open spec fn blind(pre: Memory, tick: Tick) -> bool {
    ||| scan_fault(pre, tick) is Some
    ||| match scan_time(pre, tick) {
        Some(t) => types::elapsed(t, tick.now_us) > pre.cfg.scan_timeout_us,
        None => true,
    }
}

/// What the robot knows of the floor, given the fields of the cycle. Between scans the
/// previous verdict stands.
pub open spec fn perceived(
    pre: Memory,
    tick: Tick,
    sweep: Sweep,
    extent: FieldExtent,
) -> ScanVerdict {
    if blind(pre, tick) {
        scan::unseen()
    } else {
        match tick.scan {
            Some(s) => scan::survey(sweep, s, extent, scan::usable_rays(sweep, s)),
            None => pre.last_verdict,
        }
    }
}

/// What the robot knows of the floor.
pub open spec fn verdict(pre: Memory, tick: Tick, sweep: Sweep) -> ScanVerdict {
    perceived(pre, tick, sweep, fields(pre, tick))
}

/// The field state machine after a cycle. A latched e-stop is a stop like any other, and
/// its hold begins only once it is acknowledged.
pub open spec fn latch_after(pre: Memory, tick: Tick, sweep: Sweep) -> StopLatch {
    let seen = verdict(pre, tick, sweep);
    if estop_after(pre, tick) {
        state::latched(StopCause::EStop)
    } else {
        state::advanced(
            pre.latch,
            seen,
            breach_cause(seen),
            tick.now_us,
            pre.cfg.clear_hold_us,
        )
    }
}

/// A target after a limit: itself where the limit does not bind.
pub open spec fn narrowed(target: Twist, limited: Twist) -> Twist {
    if limited.equals(target) {
        target
    } else {
        limited
    }
}

/// The request within the limits of the vehicle.
pub open spec fn vehicle_target(cfg: SafetyConfig, request: Twist) -> Twist {
    request.limited(cfg.max_linear, cfg.max_angular)
}

/// A target within the zone limits.
pub open spec fn zone_limited(cfg: SafetyConfig, tick: Tick, target: Twist) -> Twist {
    target.limited(
        cfg.max_linear.lesser(tick.zone.max_linear),
        cfg.max_angular.lesser(tick.zone.max_angular),
    )
}

/// The target after the zone limits.
pub open spec fn zone_target(cfg: SafetyConfig, tick: Tick, request: Twist) -> Twist {
    let target = vehicle_target(cfg, request);
    narrowed(target, zone_limited(cfg, tick, target))
}

/// A target within the docking speed ceiling.
pub open spec fn docking_limited(cfg: SafetyConfig, target: Twist) -> Twist {
    target.limited(cfg.docking.max_linear, cfg.max_angular)
}

/// The target after the docking speed ceiling.
pub open spec fn docking_target(cfg: SafetyConfig, tick: Tick, request: Twist) -> Twist {
    let target = zone_target(cfg, tick, request);
    if tick.mode == Mode::Docking {
        narrowed(target, docking_limited(cfg, target))
    } else {
        target
    }
}

/// The speed permitted while an obstacle is in the warning field.
pub open spec fn warning_speed(cfg: SafetyConfig) -> Binary32 {
    cfg.max_linear.times(cfg.warning_speed_frac)
}

/// A target within the warning speed.
pub open spec fn warning_limited(cfg: SafetyConfig, target: Twist) -> Twist {
    target.limited(warning_speed(cfg), cfg.max_angular)
}

/// The target after the warning speed.
pub open spec fn warning_target(
    cfg: SafetyConfig,
    tick: Tick,
    request: Twist,
    state: FieldState,
) -> Twist {
    let target = docking_target(cfg, tick, request);
    if state == FieldState::Warning {
        narrowed(target, warning_limited(cfg, target))
    } else {
        target
    }
}

/// The velocity to move towards: nothing where the watchdog has expired.
pub open spec fn final_target(pre: Memory, tick: Tick, state: FieldState) -> Twist {
    if watchdog_expired(pre, tick) {
        types::stationary()
    } else {
        warning_target(pre.cfg, tick, request(pre, tick), state)
    }
}

/// The highest-authority speed limit that bound.
pub open spec fn limit_veto(
    cfg: SafetyConfig,
    tick: Tick,
    request: Twist,
    state: FieldState,
) -> VetoReason {
    let vehicle = vehicle_target(cfg, request);
    let zone = zone_target(cfg, tick, request);
    let docking = docking_target(cfg, tick, request);
    if state == FieldState::Warning && !warning_limited(cfg, docking).equals(docking) {
        VetoReason::WarningClamp
    } else if tick.mode == Mode::Docking && !docking_limited(cfg, zone).equals(zone) {
        VetoReason::DockingLimit
    } else if !zone_limited(cfg, tick, vehicle).equals(vehicle) {
        VetoReason::ZoneLimit
    } else {
        VetoReason::NoVeto
    }
}

/// The reason to report for a stop that latched for some cause.
pub open spec fn stop_veto(cause: StopCause) -> VetoReason {
    match cause {
        StopCause::Obstacle => VetoReason::ProtectiveStop,
        StopCause::Blind => VetoReason::ScanStale,
        StopCause::EStop => VetoReason::EStop,
    }
}

/// The highest-authority rule that bound on a cycle.
pub open spec fn veto(pre: Memory, tick: Tick, latch: StopLatch) -> VetoReason {
    if let Some(cause) = latch.cause {
        stop_veto(cause)
    } else if watchdog_expired(pre, tick) {
        VetoReason::Watchdog
    } else if garbled(tick) {
        VetoReason::CommandInvalid
    } else {
        limit_veto(pre.cfg, tick, request(pre, tick), latch.state)
    }
}

/// `current` moved toward `target` by at most `max_delta`.
pub open spec fn ramped(current: Binary32, target: Binary32, max_delta: Binary32) -> Binary32 {
    current.plus(types::clamp(target.minus(current), max_delta))
}

/// The rate at which the forward velocity may change: gently up, hard down.
pub open spec fn linear_rate(cfg: SafetyConfig, current: Binary32, target: Binary32) -> Binary32 {
    if current.absolute().less(target.absolute()) {
        cfg.max_accel
    } else {
        cfg.max_decel
    }
}

/// The previous command moved toward a target within the acceleration limits.
pub open spec fn ramp_toward(pre: Memory, target: Twist, dt: Binary32) -> Twist {
    Twist {
        linear: ramped(
            pre.last_out.linear,
            target.linear,
            linear_rate(pre.cfg, pre.last_out.linear, target.linear).times(dt),
        ),
        angular: ramped(
            pre.last_out.angular,
            target.angular,
            pre.cfg.max_angular_accel.times(dt),
        ),
    }
}

/// One step of the ramp within the limits of the vehicle, or nothing where that is not
/// finite.
pub open spec fn driven(pre: Memory, target: Twist, dt: Binary32) -> Twist {
    let out = ramp_toward(pre, target, dt).limited(pre.cfg.max_linear, pre.cfg.max_angular);
    if out.finite() {
        out
    } else {
        types::stationary()
    }
}

/// The command of a cycle: zero during a stop, and otherwise one step of the ramp.
pub open spec fn output(pre: Memory, tick: Tick, latch: StopLatch) -> Twist {
    if latch.state == FieldState::ProtectiveStop {
        types::stationary()
    } else {
        driven(pre, final_target(pre, tick, latch.state), timestep(pre, tick.now_us))
    }
}

/// The memory after a cycle, `sweep` being the geometry cache after it.
pub open spec fn next_memory(pre: Memory, tick: Tick, sweep: Sweep) -> Memory {
    let latch = latch_after(pre, tick, sweep);
    Memory {
        cfg: pre.cfg,
        sweep,
        latch,
        last_cmd: request(pre, tick),
        last_cmd_us: command_time(pre, tick),
        last_verdict: verdict(pre, tick, sweep),
        last_scan_us: scan_time(pre, tick),
        last_tick_us: Some(tick.now_us),
        last_out: output(pre, tick, latch),
        estop_latched: estop_after(pre, tick),
        last_scan_error: if tick.scan is Some {
            scan_fault(pre, tick)
        } else {
            pre.last_scan_error
        },
    }
}

/// The decision of a cycle, `sweep` being the geometry cache after it.
pub open spec fn decision(pre: Memory, tick: Tick, sweep: Sweep) -> Decision {
    let post = next_memory(pre, tick, sweep);
    Decision {
        twist: post.last_out,
        state: post.latch.state,
        veto: veto(pre, tick, post.latch),
        extent: fields(pre, tick),
        closest_m: post.last_verdict.closest_m,
        estop_latched: post.estop_latched,
        scan_error: post.last_scan_error,
    }
}

/// The arbitration core.
///
/// Holds the scan-geometry cache, the field state machine, and the small amount of
/// history the watchdog and ramp limiter need. Roughly 8.7 KB, all inline: constructing
/// one allocates nothing and neither does using it.
#[derive(Clone, Debug)]
pub struct Arbiter {
    cfg: SafetyConfig,
    geom: ScanGeometry,
    field: FieldStateMachine,
    /// Last command accepted as valid, held until the watchdog expires.
    last_cmd: Twist,
    last_cmd_us: Option<Micros>,
    /// Verdict from the most recent usable scan, reused between scans.
    last_verdict: ScanVerdict,
    last_scan_us: Option<Micros>,
    last_tick_us: Option<Micros>,
    last_out: Twist,
    estop_latched: bool,
    /// Why the most recent scan was rejected, cleared by the next usable one.
    last_scan_error: Option<ScanError>,
}

impl View for Arbiter {
    type V = Memory;

    closed spec fn view(&self) -> Memory {
        Memory {
            cfg: self.cfg,
            sweep: self.geom@,
            latch: self.field@,
            last_cmd: self.last_cmd,
            last_cmd_us: self.last_cmd_us,
            last_verdict: self.last_verdict,
            last_scan_us: self.last_scan_us,
            last_tick_us: self.last_tick_us,
            last_out: self.last_out,
            estop_latched: self.estop_latched,
            last_scan_error: self.last_scan_error,
        }
    }
}

impl Arbiter {
    /// The memory is sound, and the geometry cache is within its capacity.
    pub closed spec fn wf(self) -> bool {
        self@.sound() && self.geom.wf()
    }

    /// The memory of a well-formed arbiter is sound.
    pub proof fn lemma_sound(&self)
        requires
            self.wf(),
        ensures
            self@.sound(),
    {
    }

    /// Builds an arbiter from a validated configuration.
    ///
    /// # Errors
    ///
    /// Returns the first configuration invariant violated. Validation happens here, once,
    /// so [`Arbiter::step`] never has to ask whether its own parameters make sense.
    pub fn new(cfg: SafetyConfig) -> (r: Result<Arbiter, ConfigError>)
        ensures
            r is Ok <==> cfg.valid(),
            r matches Ok(arbiter) ==> {
                &&& arbiter.wf()
                &&& arbiter@.sound()
                &&& arbiter@.sweep.directions.len() == 0
                &&& arbiter@ == fresh(cfg, arbiter@.sweep)
            },
            r matches Err(e) ==> config::first_fault(cfg.faults(), e),
    {
        if let Err(e) = cfg.validate() {
            return Err(e);
        }
        proof {
            numeric::lemma_signs(binary32::zero());
            numeric::lemma_signs(cfg.max_linear);
            numeric::lemma_signs(cfg.max_angular);
        }
        Ok(
            Arbiter {
                cfg,
                geom: ScanGeometry::default(),
                field: FieldStateMachine::new(),
                last_cmd: Twist::zero(),
                last_cmd_us: None,
                // Blind until proven otherwise: a freshly started robot has never seen the
                // floor and must not move on the strength of that.
                last_verdict: ScanVerdict::blind(),
                last_scan_us: None,
                last_tick_us: None,
                last_out: Twist::zero(),
                estop_latched: false,
                last_scan_error: None,
            },
        )
    }

    /// The configuration in force.
    #[must_use]
    pub fn config(&self) -> (r: &SafetyConfig)
        ensures
            *r == self@.cfg,
    {
        &self.cfg
    }

    /// The most recently emitted command.
    #[must_use]
    pub fn last_output(&self) -> (r: Twist)
        ensures
            r == self@.last_out,
    {
        self.last_out
    }

    /// Arbitrates one control cycle.
    ///
    /// Performs a single bounded pass over the scan and a fixed amount of arithmetic.
    /// No allocation, no clock read, no I/O, no recursion, no unbounded loop, and no
    /// panicking path — the same inputs against the same state always yield the same
    /// decision. `direction` gives the direction cosines of a bearing, and is called
    /// only where the sensor geometry has changed.
    #[verifier::spinoff_prover]
    #[verifier::rlimit(40)]
    pub fn step<F: Fn(Binary32) -> Direction>(
        &mut self,
        tick: &Tick<'_>,
        direction: &F,
    ) -> (r: Decision)
        requires
            old(self).wf(),
            forall|theta: Binary32| call_requires(direction, (theta,)),
        ensures
            final(self).wf(),
            final(self)@.sound(),
            swept(old(self)@.sweep, *tick, direction, final(self)@.sweep),
            final(self)@ == next_memory(old(self)@, *tick, final(self)@.sweep),
            r == decision(old(self)@, *tick, final(self)@.sweep),
    {
        let ghost pre = self@;
        let dt: Binary32 = self.timestep(tick.now_us);

        // ---- E-stop: latched, and only an explicit acknowledgement clears it -------
        if tick.estop {
            self.estop_latched = true;
        } else if tick.estop_reset {
            self.estop_latched = false;
        }

        // ---- Intake: the request ---------------------------------------------------
        let accepted: bool = self.take_command(tick);
        let request: Twist = self.last_cmd;

        // ---- Field sizing ----------------------------------------------------------
        // Sized for the faster of what we are doing and what we have been asked to do,
        // so the field has already grown by the cycle the robot accelerates into it.
        let speed: Binary32 = self.last_out.linear.abs().max(request.linear.abs());
        let extent: FieldExtent = FieldExtent::compute(&self.cfg, speed, tick.mode);

        // ---- Perception ------------------------------------------------------------
        self.perceive(tick, &extent, direction);

        // A latched e-stop is a stop like any other, and it goes through the same state
        // machine so the reported state can never contradict the output. Forcing
        // *after* the update discards any release timer the update may have started,
        // so the hold only begins on the cycle the operator acknowledges, and re-arming
        // is then governed by the ordinary `clear_hold_us` rather than resuming full
        // speed on the very next cycle.
        //
        // A breach without a hit is blindness, on the cycle that lost the scan and for as
        // long as the blind verdict stands. Blaming it on an obstacle would send someone
        // to look for a pallet instead of a lidar cable.
        let cause: StopCause = if self.last_verdict.protective_hits == 0 {
            StopCause::Blind
        } else {
            StopCause::Obstacle
        };
        let mut state: FieldState = self.field.update(
            &self.last_verdict,
            cause,
            tick.now_us,
            self.cfg.clear_hold_us,
        );
        if self.estop_latched {
            self.field.force_stop(StopCause::EStop);
            state = self.field.state();
        }
        assert(self@.latch == latch_after(pre, *tick, self@.sweep));

        // ---- Limits, weakest authority first ---------------------------------------
        let (mut target, mut veto) = limit_request(&self.cfg, tick, request, state);
        if !accepted {
            veto = veto.stronger(VetoReason::CommandInvalid);
        }
        // ---- Stops, strongest authority last ---------------------------------------
        // A watchdog expiry ramps down: the planner has gone quiet, but the floor is
        // still clear, and slamming to zero at speed is its own hazard. A protective
        // breach or an e-stop commands zero on this cycle with no ramp at all.

        let watchdog_expired: bool = match self.last_cmd_us {
            Some(t) => tick.now_us.saturating_sub(t) > self.cfg.watchdog_timeout_us,
            None => true,
        };
        if watchdog_expired {
            veto = veto.stronger(VetoReason::Watchdog);
            target = Twist::zero();
        }
        if let Some(cause) = self.field.cause() {
            veto = veto.stronger(veto_of_cause(cause));
        }
        let out: Twist = self.drive(target, dt, state.is_stopped() || self.estop_latched);
        self.last_out = out;
        self.last_tick_us = Some(tick.now_us);

        Decision {
            twist: out,
            state,
            veto,
            extent,
            closest_m: self.last_verdict.closest_m,
            estop_latched: self.estop_latched,
            scan_error: self.last_scan_error,
        }
    }

    /// Takes in the velocity request of a cycle; false where it had to be discarded.
    fn take_command(&mut self, tick: &Tick<'_>) -> (r: bool)
        ensures
            r == !garbled(*tick),
            final(self)@ == (Memory {
                last_cmd: request(old(self)@, *tick),
                last_cmd_us: command_time(old(self)@, *tick),
                ..old(self)@
            }),
            final(self).geom == old(self).geom,
    {
        if let Some(cmd) = tick.cmd {
            if cmd.twist.is_finite() {
                self.last_cmd = cmd.twist;
                // The watchdog measures the age of the freshest *valid* command, so a
                // stream of NaNs looks like silence rather than like health.
                self.last_cmd_us = Some(min_time(cmd.stamp_us, tick.now_us));
            } else {
                self.last_cmd = Twist::zero();
                return false;
            }
        }
        true
    }

    /// Takes in the scan of a cycle, and settles what the robot knows of the floor.
    fn perceive<F: Fn(Binary32) -> Direction>(
        &mut self,
        tick: &Tick<'_>,
        extent: &FieldExtent,
        direction: &F,
    )
        requires
            old(self).geom.wf(),
            forall|theta: Binary32| call_requires(direction, (theta,)),
        ensures
            final(self).geom.wf(),
            swept(old(self)@.sweep, *tick, direction, final(self)@.sweep),
            final(self)@ == (Memory {
                sweep: final(self)@.sweep,
                last_verdict: perceived(old(self)@, *tick, final(self)@.sweep, *extent),
                last_scan_us: scan_time(old(self)@, *tick),
                last_scan_error: if tick.scan is Some {
                    scan_fault(old(self)@, *tick)
                } else {
                    old(self)@.last_scan_error
                },
                ..old(self)@
            }),
    {
        let mut blind: bool = false;
        if let Some(scan) = &tick.scan {
            match self.geom.ensure(scan, direction) {
                Ok(()) => {
                    self.last_verdict = evaluate(&self.geom, scan, extent);
                    self.last_scan_us = Some(min_time(scan.stamp_us, tick.now_us));
                    self.last_scan_error = None;
                },
                // The *cause* is kept, not just the fact. Telling the operator why the
                // robot stopped is the point of this layer, and "the sensor published
                // 4096 rays" and "the sensor stopped publishing" are different repairs.
                Err(err) => {
                    self.last_scan_error = Some(err);
                    blind = true;
                },
            }
        }
        // Between scans the previous verdict stands. It was computed against a field
        // sized for the speed at that moment; sizing from the requested speed
        // keeps that conservative, and `scan_timeout_us` bounds how long a stale
        // verdict can be trusted at all.

        let stale: bool = match self.last_scan_us {
            Some(t) => tick.now_us.saturating_sub(t) > self.cfg.scan_timeout_us,
            None => true,
        };
        if stale {
            blind = true;
        }
        if blind {
            self.last_verdict = ScanVerdict::blind();
        }
    }

    /// The command that follows the previous one: zero during a stop, and otherwise one
    /// step of the ramp toward `target`.
    fn drive(&self, target: Twist, dt: Binary32, hard_stop: bool) -> (r: Twist)
        requires
            self@.cfg.valid(),
        ensures
            r == if hard_stop {
                types::stationary()
            } else {
                driven(self@, target, dt)
            },
            within_limits(self@.cfg, r),
    {
        let out: Twist = if hard_stop {
            Twist::zero()
        } else {
            Twist {
                linear: self.ramp_linear(self.last_out.linear, target.linear, dt),
                angular: ramp(
                    self.last_out.angular,
                    target.angular,
                    self.cfg.max_angular_accel * dt,
                ),
            }
        };
        proof {
            numeric::lemma_signs(binary32::zero());
            numeric::lemma_clamp(out.linear, self.cfg.max_linear);
            numeric::lemma_clamp(out.angular, self.cfg.max_angular);
            numeric::lemma_signs(types::clamp(out.linear, self.cfg.max_linear));
            numeric::lemma_signs(types::clamp(out.angular, self.cfg.max_angular));
        }

        // Belt and braces. Every path above already respects these bounds; this is the
        // one line that has to be true regardless of any mistake in the lines above it.
        let out: Twist = out.clamped(self.cfg.max_linear, self.cfg.max_angular);
        if out.is_finite() {
            out
        } else {
            Twist::zero()
        }
    }

    /// Elapsed time since the previous cycle, seconds, bounded and non-negative.
    ///
    /// If the loop stalls for longer than a twentieth of a second, the ramp behaves as
    /// if only this much time passed. A stalled loop must not earn the right to a large
    /// velocity step.
    fn timestep(&self, now_us: Micros) -> (r: Binary32)
        ensures
            r == timestep(self@, now_us),
    {
        let elapsed: u64 = match self.last_tick_us {
            Some(prev) => now_us.saturating_sub(prev),
            None => 0,
        };
        let dt: Binary32 = Binary32::from_integer(elapsed) * Binary32::ratio(1, 1_000_000);
        if dt.is_finite() {
            dt.min(Binary32::ratio(5, 100))
        } else {
            Binary32::zero()
        }
    }

    /// Rate-limits forward velocity, accelerating gently and braking hard.
    fn ramp_linear(&self, current: Binary32, target: Binary32, dt: Binary32) -> (r: Binary32)
        ensures
            r == ramped(current, target, linear_rate(self@.cfg, current, target).times(dt)),
    {
        let speeding_up: bool = target.abs() > current.abs();
        let rate: Binary32 = if speeding_up {
            self.cfg.max_accel
        } else {
            self.cfg.max_decel
        };
        ramp(current, target, rate * dt)
    }
}

/// Moves `current` toward `target` by at most `max_delta`.
fn ramp(current: Binary32, target: Binary32, max_delta: Binary32) -> (r: Binary32)
    ensures
        r == ramped(current, target, max_delta),
{
    current + clamp_sym(target - current, max_delta)
}

/// Applies the speed limits of a cycle to a request, and tells the strongest that bound.
fn limit_request(
    cfg: &SafetyConfig,
    tick: &Tick<'_>,
    request: Twist,
    state: FieldState,
) -> (r: (Twist, VetoReason))
    ensures
        r.0 == warning_target(*cfg, *tick, request, state),
        r.1 == limit_veto(*cfg, *tick, request, state),
{
    let mut veto: VetoReason = VetoReason::NoVeto;
    let mut target: Twist = request.clamped(cfg.max_linear, cfg.max_angular);

    let zoned: Twist = target.clamped(
        cfg.max_linear.min(tick.zone.max_linear),
        cfg.max_angular.min(tick.zone.max_angular),
    );
    if zoned != target {
        veto = veto.stronger(VetoReason::ZoneLimit);
        target = zoned;
    }
    if tick.mode == Mode::Docking {
        let docked: Twist = target.clamped(cfg.docking.max_linear, cfg.max_angular);
        if docked != target {
            veto = veto.stronger(VetoReason::DockingLimit);
            target = docked;
        }
    }
    if state == FieldState::Warning {
        let limit: Binary32 = cfg.max_linear * cfg.warning_speed_frac;
        let warned: Twist = target.clamped(limit, cfg.max_angular);
        if warned != target {
            veto = veto.stronger(VetoReason::WarningClamp);
            target = warned;
        }
    }
    (target, veto)
}

/// The reason to report for a stop that latched for `cause`.
fn veto_of_cause(cause: StopCause) -> (r: VetoReason)
    ensures
        r == stop_veto(cause),
{
    match cause {
        StopCause::Obstacle => VetoReason::ProtectiveStop,
        StopCause::Blind => VetoReason::ScanStale,
        StopCause::EStop => VetoReason::EStop,
    }
}

/// The earlier of two times.
fn min_time(a: Micros, b: Micros) -> (r: Micros)
    ensures
        r == earlier(a, b),
{
    if a < b {
        a
    } else {
        b
    }
}

} // verus!
