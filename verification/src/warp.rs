//! The warp-drive kinematic state machine.
//!
//! When a steering destination lies beyond the warp trigger range, ordinary
//! thrust is suppressed and the warp drive integrates the position directly.
//! Progress along the straight line from the start position to the target is
//! measured as a covered distance: the acceleration phase doubles the covered
//! distance once per ramp step up to one fixed ramp distance, the cruise
//! phase advances it linearly, and the deceleration phase mirrors the ramp
//! back down, ending exactly one metre short of the target. All phase
//! constants are derived once when the warp begins and never recomputed, so
//! the end position is exact for every timestep size.

use vstd::prelude::*;

use vstd::arithmetic::power2::pow2;

use crate::galaxy::{
    dist_sq, is_sqrt_floor, lemma_dist_bound, lemma_sqrt_floor_lower, sim_distance, within_range,
    SimPosition, POS_LIMIT,
};
use crate::route::{DestoType, MoveMode, Ship};

verus! {

/// Straight-line distance, in metres, beyond which a newly set destination
/// triggers a warp.
pub const WARP_TRIGGER_RANGE: i64 = 10_000;

/// The ramp exponent at full acceleration: the ramp distance is two to this
/// power.
pub const RAMP_EXP_MAX: u64 = 12;

/// The fixed ramp distance, in metres: what the acceleration phase covers
/// and the deceleration phase leaves for the final approach.
pub const RAMP_DISTANCE: u64 = 4096;

/// Largest accepted warp speed factor.
pub const MAX_WARP_SPEED: u64 = 1024;

/// Largest accepted timestep, in time units.
pub const MAX_TIMESTEP: u64 = 1_000_000_000;

/// The three kinematic phases of a warp.
#[derive(Clone, Copy, PartialEq, Eq, Structural, Debug)]
pub enum WarpPhase {
    Accelerating,
    Cruise,
    Decelerating,
}

/// Distance covered per time unit while cruising at speed factor `k`.
pub open spec fn warp_speed(k: int) -> int {
    k * RAMP_DISTANCE
}

/// Length of the cruise phase: the distance left between the two ramps,
/// divided by the cruise speed, rounded up.
pub open spec fn cruise_duration(d: int, k: int) -> int {
    (d - 2 * RAMP_DISTANCE + warp_speed(k) - 1) / warp_speed(k)
}

/// An in-progress warp. The start position, target, total distance and
/// cruise duration are fixed when the warp begins; only the two elapsed-time
/// accumulators and the phase change while it runs.
#[derive(Clone, Copy, PartialEq, Eq, Structural, Debug)]
pub struct Warping {
    pub speed: u64,
    pub from_pos: SimPosition,
    pub target: SimPosition,
    pub dist: u64,
    pub ramping: u64,
    pub ramping_max: u64,
    pub cruise_time: u64,
    pub cruise_max: u64,
    pub current_phase: WarpPhase,
}

impl Warping {
    /// Internal consistency of a warp state.
    pub open spec fn wf(self) -> bool {
        &&& 1 <= self.speed <= MAX_WARP_SPEED
        &&& self.from_pos.wf()
        &&& self.target.wf()
        &&& is_sqrt_floor(dist_sq(self.from_pos, self.target), self.dist as int)
        &&& (self.dist as int) > 2 * RAMP_DISTANCE
        &&& self.ramping_max == RAMP_EXP_MAX
        &&& self.ramping <= RAMP_EXP_MAX
        &&& self.cruise_max == cruise_duration(self.dist as int, self.speed as int)
        &&& self.cruise_time <= self.cruise_max
        &&& match self.current_phase {
            WarpPhase::Accelerating => self.cruise_time == 0,
            WarpPhase::Cruise => self.ramping == RAMP_EXP_MAX,
            WarpPhase::Decelerating => self.cruise_time == self.cruise_max && self.ramping
                <= RAMP_EXP_MAX,
        }
    }
}

/// Distance covered so far along the line from the warp's start position to
/// its target, as a function of the phase and its accumulators alone.
pub open spec fn warp_covered(w: Warping) -> int {
    match w.current_phase {
        WarpPhase::Accelerating => pow2(w.ramping as nat) as int,
        WarpPhase::Cruise => RAMP_DISTANCE + vstd::math::min(
            w.cruise_time * warp_speed(w.speed as int),
            w.dist - 2 * RAMP_DISTANCE,
        ),
        WarpPhase::Decelerating => w.dist - pow2(w.ramping as nat),
    }
}

/// The covered distance of a well-formed warp stays strictly inside the
/// travelled segment: at least one metre in, at most one metre short.
pub proof fn lemma_warp_covered_bounds(w: Warping)
    requires
        w.wf(),
    ensures
        1 <= warp_covered(w) <= w.dist - 1,
{
    vstd::arithmetic::power2::lemma2_to64();
    vstd::arithmetic::power2::lemma_pow2_strictly_increases(w.ramping as nat, 13nat);
    vstd::arithmetic::power2::lemma_pow2_pos(w.ramping as nat);
    match w.current_phase {
        WarpPhase::Accelerating => {
            if w.ramping < RAMP_EXP_MAX {
                vstd::arithmetic::power2::lemma_pow2_strictly_increases(
                    w.ramping as nat,
                    RAMP_EXP_MAX as nat,
                );
            }
            assert(pow2(w.ramping as nat) <= 4096);
        },
        WarpPhase::Cruise => {
            assert(w.cruise_time * warp_speed(w.speed as int) >= 0) by (nonlinear_arith)
                requires w.cruise_time >= 0 && warp_speed(w.speed as int) >= 0;
        },
        WarpPhase::Decelerating => {
            if w.ramping < RAMP_EXP_MAX {
                vstd::arithmetic::power2::lemma_pow2_strictly_increases(
                    w.ramping as nat,
                    RAMP_EXP_MAX as nat,
                );
            }
            assert(pow2(w.ramping as nat) <= 4096);
        },
    }
}

/// The fixed numbers of a well-formed warp leave room for every
/// intermediate product the integration computes.
pub proof fn lemma_warp_numeric_room(w: Warping)
    requires
        w.wf(),
    ensures
        w.dist <= 16_000_000_000_000,
        w.cruise_max <= 17_000_000_000_000,
{
    lemma_dist_bound(w.from_pos, w.target, w.dist as int);
    let v = warp_speed(w.speed as int);
    let num = w.dist - 2 * RAMP_DISTANCE + v - 1;
    assert(v >= 4096);
    assert(num <= 17_000_000_000_000);
    let q = num / v;
    vstd::arithmetic::div_mod::lemma_fundamental_div_mod(num, v);
    vstd::arithmetic::div_mod::lemma_mod_bound(num, v);
    assert(q * v == num - (num % v));
    assert(q <= q * v) by (nonlinear_arith)
        requires q >= 0 && v >= 1;
    assert(q >= 0) by {
        vstd::arithmetic::div_mod::lemma_div_pos_is_pos(num, v);
    }
}

/// The configuration constants fit together: the trigger range exceeds twice
/// the ramp distance (a warp always has room for both ramps), and the ramp
/// distance is exactly two to the full ramp exponent. A warp that is too
/// short to hold both ramps can therefore never be triggered.
pub proof fn lemma_warp_constants_sound()
    ensures
        (WARP_TRIGGER_RANGE as int) > 2 * RAMP_DISTANCE,
        pow2(RAMP_EXP_MAX as nat) == RAMP_DISTANCE,
{
    vstd::arithmetic::power2::lemma2_to64();
}

/// Warp phase continuity: at the instant acceleration hands over to cruise,
/// both phases compute the same covered distance; likewise at the instant
/// cruise hands over to deceleration.
pub proof fn lemma_warp_phase_continuity(w: Warping)
    requires
        w.wf(),
    ensures
        warp_covered(
            Warping {
                current_phase: WarpPhase::Accelerating,
                ramping: RAMP_EXP_MAX,
                cruise_time: 0,
                ..w
            },
        ) == warp_covered(
            Warping { current_phase: WarpPhase::Cruise, ramping: RAMP_EXP_MAX, cruise_time: 0, ..w },
        ),
        warp_covered(
            Warping {
                current_phase: WarpPhase::Cruise,
                ramping: RAMP_EXP_MAX,
                cruise_time: w.cruise_max,
                ..w
            },
        ) == warp_covered(
            Warping {
                current_phase: WarpPhase::Decelerating,
                ramping: RAMP_EXP_MAX,
                cruise_time: w.cruise_max,
                ..w
            },
        ),
{
    vstd::arithmetic::power2::lemma2_to64();
    let v = warp_speed(w.speed as int);
    let rest = w.dist - 2 * RAMP_DISTANCE;
    assert(v >= 4096);
    // at cruise end the whole cruise stretch is covered: the rounded-up
    // duration times the speed reaches the remaining distance
    let q = (rest + v - 1) / v;
    vstd::arithmetic::div_mod::lemma_fundamental_div_mod(rest + v - 1, v);
    assert(q * v == rest + v - 1 - ((rest + v - 1) % v));
    vstd::arithmetic::div_mod::lemma_mod_bound(rest + v - 1, v);
    assert(q * v >= rest);
    assert(w.cruise_max * v >= rest);
    assert(vstd::math::min(w.cruise_max * v, rest) == rest);
}

/// Linear interpolation of one coordinate: `a` moved toward `b` by the
/// fraction `c / d`, rounded toward `a`.
pub open spec fn lerp_axis(a: int, b: int, c: int, d: int) -> int {
    if b >= a {
        a + ((b - a) * c) / d
    } else {
        a - (((a - b) * c) / d)
    }
}

fn lerp_axis_exec(a: i64, b: i64, c: u64, d: u64) -> (r: i64)
    requires
        -POS_LIMIT <= a <= POS_LIMIT,
        -POS_LIMIT <= b <= POS_LIMIT,
        1 <= d,
        c <= d,
    ensures
        r as int == lerp_axis(a as int, b as int, c as int, d as int),
        if b >= a {
            a <= r <= b
        } else {
            b <= r <= a
        },
{
    let mag: u128 = if b >= a {
        (b - a) as u128
    } else {
        (a - b) as u128
    };
    proof {
        assert(mag <= 9_000_000_000_000u128);
        assert(mag * (c as u128) <= 170_000_000_000_000_000_000_000_000_000_000u128)
            by (nonlinear_arith)
            requires
                mag <= 9_000_000_000_000u128,
                (c as u128) <= 18_446_744_073_709_551_615u128,
        ;
    }
    let off128: u128 = mag * (c as u128) / (d as u128);
    proof {
        assert(mag * (c as u128) <= mag * (d as u128)) by (nonlinear_arith)
            requires c <= d;
        vstd::arithmetic::div_mod::lemma_div_is_ordered(
            (mag * (c as u128)) as int,
            (mag * (d as u128)) as int,
            d as int,
        );
        vstd::arithmetic::div_mod::lemma_div_by_multiple(mag as int, d as int);
        assert(off128 <= mag);
        vstd::arithmetic::div_mod::lemma_div_pos_is_pos((mag * (c as u128)) as int, d as int);
    }
    let off = off128 as i64;
    if b >= a {
        a + off
    } else {
        a - off
    }
}

/// The position a warp that has covered `covered` of its `d` metres stands
/// at: each axis interpolated between the start position and the target.
pub fn warp_position(from: &SimPosition, target: &SimPosition, covered: u64, d: u64) -> (r:
    SimPosition)
    requires
        from.wf(),
        target.wf(),
        1 <= d,
        covered <= d,
    ensures
        r.x as int == lerp_axis(from.x as int, target.x as int, covered as int, d as int),
        r.y as int == lerp_axis(from.y as int, target.y as int, covered as int, d as int),
        r.z as int == lerp_axis(from.z as int, target.z as int, covered as int, d as int),
        r.wf(),
{
    SimPosition {
        x: lerp_axis_exec(from.x, target.x, covered, d),
        y: lerp_axis_exec(from.y, target.y, covered, d),
        z: lerp_axis_exec(from.z, target.z, covered, d),
    }
}

fn pow2_exec(e: u64) -> (r: u64)
    requires
        e <= RAMP_EXP_MAX,
    ensures
        r as int == pow2(e as nat),
        1 <= r <= RAMP_DISTANCE,
{
    proof {
        vstd::arithmetic::power2::lemma2_to64();
    }
    let mut acc: u64 = 1;
    let mut i: u64 = 0;
    while i < e
        invariant
            0 <= i <= e <= RAMP_EXP_MAX,
            acc as int == pow2(i as nat),
            acc <= 4096,
        decreases e - i,
    {
        proof {
            vstd::arithmetic::power2::lemma2_to64();
            if i + 1 < 12 {
                vstd::arithmetic::power2::lemma_pow2_strictly_increases((i + 1) as nat, 12nat);
            }
            assert(pow2((i + 1) as nat) == 2 * pow2(i as nat));
        }
        acc = acc * 2;
        i += 1;
    }
    acc
}

/// No single axis of the gap between two positions exceeds their Euclidean
/// distance.
pub proof fn lemma_axis_le_dist(a: SimPosition, b: SimPosition, d: int)
    requires
        is_sqrt_floor(dist_sq(a, b), d),
    ensures
        -d <= b.x - a.x <= d,
        -d <= b.y - a.y <= d,
        -d <= b.z - a.z <= d,
{
    assert((a.x - b.x) * (a.x - b.x) >= 0) by (nonlinear_arith);
    assert((a.y - b.y) * (a.y - b.y) >= 0) by (nonlinear_arith);
    assert((a.z - b.z) * (a.z - b.z) >= 0) by (nonlinear_arith);
    assert((b.x - a.x) * (b.x - a.x) == (a.x - b.x) * (a.x - b.x)) by (nonlinear_arith);
    assert((b.y - a.y) * (b.y - a.y) == (a.y - b.y) * (a.y - b.y)) by (nonlinear_arith);
    assert((b.z - a.z) * (b.z - a.z) == (a.z - b.z) * (a.z - b.z)) by (nonlinear_arith);
    if b.x >= a.x {
        lemma_sqrt_floor_lower(dist_sq(a, b), d, b.x - a.x);
    } else {
        lemma_sqrt_floor_lower(dist_sq(a, b), d, a.x - b.x);
    }
    if b.y >= a.y {
        lemma_sqrt_floor_lower(dist_sq(a, b), d, b.y - a.y);
    } else {
        lemma_sqrt_floor_lower(dist_sq(a, b), d, a.y - b.y);
    }
    if b.z >= a.z {
        lemma_sqrt_floor_lower(dist_sq(a, b), d, b.z - a.z);
    } else {
        lemma_sqrt_floor_lower(dist_sq(a, b), d, a.z - b.z);
    }
}

/// Interpolating to one metre short of the full distance lands within one
/// metre of the far coordinate.
pub proof fn lemma_lerp_axis_near_target(a: int, b: int, d: int)
    requires
        d >= 1,
        -d <= b - a <= d,
    ensures
        -1 <= lerp_axis(a, b, d - 1, d) - b <= 1,
{
    let delta = if b >= a {
        b - a
    } else {
        a - b
    };
    if delta == 0 {
        assert(delta * (d - 1) == 0) by (nonlinear_arith)
            requires delta == 0;
        vstd::arithmetic::div_mod::lemma_div_by_multiple(0, d);
    } else {
        assert(delta * (d - 1) <= delta * d) by (nonlinear_arith)
            requires delta >= 0 && d >= 1;
        vstd::arithmetic::div_mod::lemma_div_is_ordered(delta * (d - 1), delta * d, d);
        vstd::arithmetic::div_mod::lemma_div_by_multiple(delta, d);
        assert(delta * (d - 1) >= (delta - 1) * d) by (nonlinear_arith)
            requires delta <= d;
        vstd::arithmetic::div_mod::lemma_div_is_ordered((delta - 1) * d, delta * (d - 1), d);
        vstd::arithmetic::div_mod::lemma_div_by_multiple(delta - 1, d);
    }
}

/// Warp endpoint exactness: wherever a warp started and whatever its
/// target, interpolating to the final covered distance — one metre short of
/// the whole span — puts every coordinate within one metre of the target.
/// Together with the integration step's contract this holds for every
/// sequence of timestep sizes.
pub proof fn lemma_warp_endpoint_exact(w: Warping)
    requires
        w.wf(),
    ensures
        -1 <= lerp_axis(w.from_pos.x as int, w.target.x as int, w.dist - 1, w.dist as int)
            - w.target.x <= 1,
        -1 <= lerp_axis(w.from_pos.y as int, w.target.y as int, w.dist - 1, w.dist as int)
            - w.target.y <= 1,
        -1 <= lerp_axis(w.from_pos.z as int, w.target.z as int, w.dist - 1, w.dist as int)
            - w.target.z <= 1,
{
    lemma_axis_le_dist(w.from_pos, w.target, w.dist as int);
    lemma_lerp_axis_near_target(w.from_pos.x as int, w.target.x as int, w.dist as int);
    lemma_lerp_axis_near_target(w.from_pos.y as int, w.target.y as int, w.dist as int);
    lemma_lerp_axis_near_target(w.from_pos.z as int, w.target.z as int, w.dist as int);
}

impl Warping {
    /// Creates the state of a warp that has just begun: all phase constants
    /// are derived here, once, from the speed factor, the start position and
    /// the target; the integration steps never recompute them.
    pub fn build(speed: u64, from: SimPosition, target: SimPosition) -> (w: Warping)
        requires
            from.wf(),
            target.wf(),
            dist_sq(from, target) > WARP_TRIGGER_RANGE * WARP_TRIGGER_RANGE,
            1 <= speed <= MAX_WARP_SPEED,
        ensures
            w.wf(),
            w.speed == speed,
            w.from_pos == from,
            w.target == target,
            w.ramping == 0,
            w.cruise_time == 0,
            w.current_phase is Accelerating,
            is_sqrt_floor(dist_sq(from, target), w.dist as int),
            w.dist >= WARP_TRIGGER_RANGE,
    {
        let dist = sim_distance(&from, &target);
        proof {
            assert(dist_sq(from, target) > 100_000_000);
            assert(dist as int >= 10_000) by (nonlinear_arith)
                requires
                    dist_sq(from, target) > 100_000_000,
                    dist_sq(from, target) < ((dist as int) + 1) * ((dist as int) + 1),
                    dist as int >= 0,
            ;
        }
        proof {
            lemma_dist_bound(from, target, dist as int);
        }
        let v = speed * RAMP_DISTANCE;
        let cruise_max = (dist - 2 * RAMP_DISTANCE + v - 1) / v;
        Warping {
            speed,
            from_pos: from,
            target,
            dist,
            ramping: 0,
            ramping_max: RAMP_EXP_MAX,
            cruise_time: 0,
            cruise_max,
            current_phase: WarpPhase::Accelerating,
        }
    }
}

/// The warp state a warping ship carries.
pub open spec fn warp_of(m: MoveMode) -> Warping {
    match m {
        MoveMode::Warp(w) => w,
        _ => Warping {
            speed: 1,
            from_pos: SimPosition { x: 0, y: 0, z: 0 },
            target: SimPosition { x: 0, y: 0, z: 0 },
            dist: 0,
            ramping: 0,
            ramping_max: 0,
            cruise_time: 0,
            cruise_max: 0,
            current_phase: WarpPhase::Accelerating,
        },
    }
}

/// Decides whether a newly set steering destination calls for a warp: a ship
/// under ordinary thrust whose fixed destination lies beyond the trigger
/// range warps; anything nearer is left to sub-light steering.
pub fn check_for_warp_system(ship: &Ship) -> (r: bool)
    requires
        ship.pos.wf(),
        ship.desto.wf(),
    ensures
        r == (ship.mode is Thrust && ship.desto is DPosition && dist_sq(
            ship.pos,
            ship.desto.position(),
        ) > WARP_TRIGGER_RANGE * WARP_TRIGGER_RANGE),
{
    let is_thrust = match &ship.mode {
        MoveMode::Thrust => true,
        MoveMode::Gate(_) => false,
        MoveMode::Warp(_) => false,
    };
    if !is_thrust {
        return false;
    }
    match &ship.desto {
        DestoType::DPosition(target) => {
            let target = *target;
            !within_range(&ship.pos, &target, WARP_TRIGGER_RANGE)
        },
        DestoType::TEntity(_) => false,
        DestoType::DNone => false,
    }
}

/// Engages the warp drive: records the start position, the target and the
/// derived phase constants, and switches the movement mode to warping, which
/// suppresses ordinary thrust until the warp completes.
pub fn init_warp_system(ship: &mut Ship, speed: u64)
    requires
        old(ship).pos.wf(),
        old(ship).desto.wf(),
        old(ship).mode is Thrust,
        old(ship).desto is DPosition,
        dist_sq(old(ship).pos, old(ship).desto.position()) > WARP_TRIGGER_RANGE
            * WARP_TRIGGER_RANGE,
        1 <= speed <= MAX_WARP_SPEED,
    ensures
        final(ship).coord == old(ship).coord,
        final(ship).pos == old(ship).pos,
        final(ship).desto == old(ship).desto,
        final(ship).route == old(ship).route,
        final(ship).mode is Warp,
        ({
            let w = warp_of(final(ship).mode);
            &&& w.wf()
            &&& w.speed == speed
            &&& w.from_pos == old(ship).pos
            &&& w.target == old(ship).desto.position()
            &&& w.ramping == 0
            &&& w.cruise_time == 0
            &&& w.current_phase is Accelerating
        }),
{
    let target = match &ship.desto {
        DestoType::DPosition(p) => *p,
        DestoType::TEntity(p) => *p,
        DestoType::DNone => ship.pos,
    };
    let w = Warping::build(speed, ship.pos, target);
    ship.mode = MoveMode::Warp(w);
}

/// The ramp accumulator after advancing by `k * dt`, capped at the full
/// ramp exponent.
pub open spec fn ramp_advanced(r: int, k: int, dt: int) -> int {
    vstd::math::min(r + k * dt, RAMP_EXP_MAX as int)
}

/// The ramp accumulator after receding by `k * dt`, stopping at zero.
pub open spec fn ramp_receded(r: int, k: int, dt: int) -> int {
    vstd::math::max(r - k * dt, 0)
}

/// The cruise accumulator after `dt` more time units, capped at the cruise
/// duration.
pub open spec fn cruise_advanced(c: int, dt: int, cmax: int) -> int {
    vstd::math::min(c + dt, cmax)
}

/// One integration step of an in-progress warp. The position is linearly
/// interpolated between the warp's start position and its target by the
/// covered distance the current phase accumulators give; then the phase
/// either hands over at its precomputed boundary or its accumulator
/// advances. When the deceleration ramp reaches zero the warp state is
/// removed: the ship then stands within one metre of the target on every
/// axis, whatever the timestep sizes were, and sub-light steering resumes.
pub fn warp_movement_system(ship: &mut Ship, dt: u64)
    requires
        old(ship).mode is Warp,
        warp_of(old(ship).mode).wf(),
        1 <= dt <= MAX_TIMESTEP,
    ensures
        final(ship).coord == old(ship).coord,
        final(ship).desto == old(ship).desto,
        final(ship).route == old(ship).route,
        final(ship).pos.wf(),
        ({
            let w = warp_of(old(ship).mode);
            let done = w.current_phase is Decelerating && ramp_receded(
                w.ramping as int,
                w.speed as int,
                dt as int,
            ) == 0;
            let cov = if w.current_phase is Decelerating {
                w.dist - pow2(
                    ramp_receded(w.ramping as int, w.speed as int, dt as int) as nat,
                )
            } else {
                warp_covered(w)
            };
            &&& final(ship).pos.x as int == lerp_axis(
                w.from_pos.x as int,
                w.target.x as int,
                cov,
                w.dist as int,
            )
            &&& final(ship).pos.y as int == lerp_axis(
                w.from_pos.y as int,
                w.target.y as int,
                cov,
                w.dist as int,
            )
            &&& final(ship).pos.z as int == lerp_axis(
                w.from_pos.z as int,
                w.target.z as int,
                cov,
                w.dist as int,
            )
            &&& (done <==> final(ship).mode is Thrust)
            &&& (done ==> {
                &&& -1 <= final(ship).pos.x - w.target.x <= 1
                &&& -1 <= final(ship).pos.y - w.target.y <= 1
                &&& -1 <= final(ship).pos.z - w.target.z <= 1
            })
            &&& (!done ==> {
                let w2 = warp_of(final(ship).mode);
                &&& final(ship).mode is Warp
                &&& w2.wf()
                &&& w2.speed == w.speed
                &&& w2.from_pos == w.from_pos
                &&& w2.target == w.target
                &&& w2.dist == w.dist
                &&& w2.ramping_max == w.ramping_max
                &&& w2.cruise_max == w.cruise_max
                &&& match w.current_phase {
                    WarpPhase::Accelerating => if w.ramping == RAMP_EXP_MAX {
                        &&& w2.current_phase is Cruise
                        &&& w2.ramping == w.ramping
                        &&& w2.cruise_time == 0
                    } else {
                        &&& w2.current_phase is Accelerating
                        &&& w2.ramping as int == ramp_advanced(
                            w.ramping as int,
                            w.speed as int,
                            dt as int,
                        )
                        &&& w2.cruise_time == 0
                    },
                    WarpPhase::Cruise => if w.cruise_time == w.cruise_max {
                        &&& w2.current_phase is Decelerating
                        &&& w2.ramping == w.ramping
                        &&& w2.cruise_time == w.cruise_time
                    } else {
                        &&& w2.current_phase is Cruise
                        &&& w2.ramping == w.ramping
                        &&& w2.cruise_time as int == cruise_advanced(
                            w.cruise_time as int,
                            dt as int,
                            w.cruise_max as int,
                        )
                    },
                    WarpPhase::Decelerating => {
                        &&& w2.current_phase is Decelerating
                        &&& w2.ramping as int == ramp_receded(
                            w.ramping as int,
                            w.speed as int,
                            dt as int,
                        )
                        &&& w2.cruise_time == w.cruise_time
                    },
                }
            })
        }),
{
    let w = match &ship.mode {
        MoveMode::Warp(w) => *w,
        _ => Warping::build(1, SimPosition { x: 0, y: 0, z: 0 }, SimPosition {
            x: 0,
            y: 0,
            z: 0,
        }),
    };
    proof {
        vstd::arithmetic::power2::lemma2_to64();
        lemma_warp_covered_bounds(w);
    }
    match w.current_phase {
        WarpPhase::Accelerating => {
            let cov = pow2_exec(w.ramping);
            ship.pos = warp_position(&w.from_pos, &w.target, cov, w.dist);
            if w.ramping == RAMP_EXP_MAX {
                ship.mode = MoveMode::Warp(
                    Warping { current_phase: WarpPhase::Cruise, ..w },
                );
            } else {
                proof {
                    assert((w.speed as int) * (dt as int) <= 1_024_000_000_000) by (nonlinear_arith)
                        requires w.speed <= 1024 && dt <= 1_000_000_000;
                }
                let adv = w.speed * dt;
                let new_r = if w.ramping + adv >= RAMP_EXP_MAX {
                    RAMP_EXP_MAX
                } else {
                    w.ramping + adv
                };
                ship.mode = MoveMode::Warp(Warping { ramping: new_r, ..w });
            }
        },
        WarpPhase::Cruise => {
            proof {
                lemma_warp_numeric_room(w);
            }
            let v = w.speed * RAMP_DISTANCE;
            proof {
                assert((w.cruise_time as u128) * (v as u128)
                    <= 100_000_000_000_000_000_000u128) by (nonlinear_arith)
                    requires
                        (w.cruise_time as u128) <= 17_000_000_000_000u128,
                        (v as u128) <= 4_194_304u128,
                ;
            }
            let travelled128: u128 = (w.cruise_time as u128) * (v as u128);
            let rest: u64 = w.dist - 2 * RAMP_DISTANCE;
            let part: u64 = if travelled128 >= rest as u128 {
                rest
            } else {
                travelled128 as u64
            };
            let cov = RAMP_DISTANCE + part;
            proof {
                assert(cov as int == warp_covered(w));
            }
            ship.pos = warp_position(&w.from_pos, &w.target, cov, w.dist);
            if w.cruise_time == w.cruise_max {
                ship.mode = MoveMode::Warp(
                    Warping { current_phase: WarpPhase::Decelerating, ..w },
                );
            } else {
                let new_c = if w.cruise_time + dt >= w.cruise_max {
                    w.cruise_max
                } else {
                    w.cruise_time + dt
                };
                ship.mode = MoveMode::Warp(Warping { cruise_time: new_c, ..w });
            }
        },
        WarpPhase::Decelerating => {
            proof {
                assert((w.speed as int) * (dt as int) <= 1_024_000_000_000) by (nonlinear_arith)
                    requires w.speed <= 1024 && dt <= 1_000_000_000;
            }
            let adv = w.speed * dt;
            let new_r = if adv >= w.ramping {
                0
            } else {
                w.ramping - adv
            };
            let pw = pow2_exec(new_r);
            let cov = w.dist - pw;
            ship.pos = warp_position(&w.from_pos, &w.target, cov, w.dist);
            if new_r == 0 {
                ship.mode = MoveMode::Thrust;
                proof {
                    lemma_axis_le_dist(w.from_pos, w.target, w.dist as int);
                    lemma_lerp_axis_near_target(
                        w.from_pos.x as int,
                        w.target.x as int,
                        w.dist as int,
                    );
                    lemma_lerp_axis_near_target(
                        w.from_pos.y as int,
                        w.target.y as int,
                        w.dist as int,
                    );
                    lemma_lerp_axis_near_target(
                        w.from_pos.z as int,
                        w.target.z as int,
                        w.dist as int,
                    );
                }
            } else {
                ship.mode = MoveMode::Warp(Warping { ramping: new_r, ..w });
            }
        },
    }
}

/// How far an in-progress warp still is from leaving its current phase:
/// ranks the phases so that every integration step moves strictly down the
/// lexicographic order (rank, remainder).
pub open spec fn warp_rank(m: MoveMode) -> int {
    match m {
        MoveMode::Warp(w) => match w.current_phase {
            WarpPhase::Accelerating => 3,
            WarpPhase::Cruise => 2,
            WarpPhase::Decelerating => 1,
        },
        _ => 0,
    }
}

/// The remaining accumulator headroom of the current phase.
pub open spec fn warp_rem(m: MoveMode) -> int {
    match m {
        MoveMode::Warp(w) => match w.current_phase {
            WarpPhase::Accelerating => RAMP_EXP_MAX - w.ramping,
            WarpPhase::Cruise => w.cruise_max - w.cruise_time,
            WarpPhase::Decelerating => w.ramping as int,
        },
        _ => 0,
    }
}

/// Integrates an in-progress warp all the way to its end with one fixed
/// timestep. The loop provably terminates for every timestep size, and the
/// ship comes out under ordinary thrust within one metre of the warp's
/// target on every axis: warp endpoint exactness, run to completion.
pub fn warp_run_to_completion(ship: &mut Ship, dt: u64)
    requires
        old(ship).mode is Warp,
        warp_of(old(ship).mode).wf(),
        1 <= dt <= MAX_TIMESTEP,
    ensures
        final(ship).coord == old(ship).coord,
        final(ship).desto == old(ship).desto,
        final(ship).route == old(ship).route,
        final(ship).mode is Thrust,
        final(ship).pos.wf(),
        -1 <= final(ship).pos.x - warp_of(old(ship).mode).target.x <= 1,
        -1 <= final(ship).pos.y - warp_of(old(ship).mode).target.y <= 1,
        -1 <= final(ship).pos.z - warp_of(old(ship).mode).target.z <= 1,
{
    let ghost target = warp_of(old(ship).mode).target;
    let mut warping = true;
    while warping
        invariant
            1 <= dt <= MAX_TIMESTEP,
            warping == (ship.mode is Warp),
            ship.coord == old(ship).coord,
            ship.desto == old(ship).desto,
            ship.route == old(ship).route,
            ship.mode is Warp ==> warp_of(ship.mode).wf() && warp_of(ship.mode).target == target,
            ship.mode is Warp || ship.mode is Thrust,
            !(ship.mode is Warp) ==> {
                &&& ship.pos.wf()
                &&& -1 <= ship.pos.x - target.x <= 1
                &&& -1 <= ship.pos.y - target.y <= 1
                &&& -1 <= ship.pos.z - target.z <= 1
            },
        decreases warp_rank(ship.mode), warp_rem(ship.mode),
    {
        proof {
            let w = warp_of(ship.mode);
            assert((w.speed as int) * (dt as int) >= 1) by (nonlinear_arith)
                requires w.speed >= 1 && dt >= 1;
        }
        warp_movement_system(ship, dt);
        warping = match &ship.mode {
            MoveMode::Warp(_) => true,
            _ => false,
        };
    }
}

} // verus!
