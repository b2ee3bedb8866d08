//! Creation and registration of gate pairs.
//!
//! For every undirected edge of the galaxy a pair of gates is instantiated:
//! each gate sits in its own system, offset from the system origin along the
//! normalized direction toward the connected system by a fixed standoff
//! distance. Creation only appends unregistered gate records; a separate
//! registration pass adopts them into their owning systems' gate maps, so
//! that structural world mutations never interleave with reads of the maps.

use vstd::prelude::*;

use crate::galaxy::{
    around_pos, dist_sq, is_sqrt_floor, lemma_gate_entry_lookup, lemma_sqrt_floor_lower,
    lemma_sqrt_floor_unique, within_range, Galaxy, Gate, GateEntry, SimPosition, SolarSystem,
    GATE_STANDOFF, POS_LIMIT,
};
use crate::route::{continue_route_system, DestoType, MoveMode, Ship};

verus! {

/// How close to the entry gate a transiting ship must stay for the spool-up
/// countdown to run, in metres.
pub const GATE_PROXIMITY: i64 = 50;

/// Radius of the corrective steering point chosen when a transit order is
/// attached while the ship is still outside gate proximity, in metres.
pub const GATE_APPROACH_SCATTER: i64 = 25;

/// Radius of the scattered arrival point near the exit gate, in metres.
pub const GATE_EXIT_SCATTER: i64 = 250;

/// Full spool-up delay of a gate transit, in time units.
pub const SPOOL_UP_TIME: u64 = 1000;

/// A gate transit order for the current hop: the entry gate the ship must
/// hold position at, the exit gate it will emerge from, and the remaining
/// spool-up countdown.
#[derive(Clone, Copy, PartialEq, Eq, Structural, Debug)]
pub struct TakeGate {
    pub from: usize,
    pub to: usize,
    pub spool_up: u64,
}

/// A configuration fault found while building the galaxy.
#[derive(Clone, Copy, PartialEq, Eq, Structural, Debug)]
pub enum GalaxyError {
    /// Two connected systems share one position, so the direction between
    /// them is undefined and no gate pair can be placed.
    CoincidentSystems,
}

/// One axis of a gate's standoff offset: `delta` scaled to length
/// `GATE_STANDOFF` when the whole direction vector has length `len`,
/// rounded toward zero.
pub open spec fn standoff_axis(delta: int, len: int) -> int {
    if delta >= 0 {
        (delta * GATE_STANDOFF) / len
    } else {
        -(((-delta) * GATE_STANDOFF) / len)
    }
}

fn standoff_axis_exec(delta: i64, len: u64) -> (r: i64)
    requires
        1 <= len,
        -2 * POS_LIMIT <= delta <= 2 * POS_LIMIT,
        -(len as int) <= delta <= len as int,
    ensures
        r as int == standoff_axis(delta as int, len as int),
        -GATE_STANDOFF <= r <= GATE_STANDOFF,
{
    let mag: u128 = if delta >= 0 {
        delta as u128
    } else {
        (-delta) as u128
    };
    let num: u128 = mag * (GATE_STANDOFF as u128);
    let off: u128 = num / (len as u128);
    proof {
        assert(mag * (GATE_STANDOFF as u128) <= (len as u128) * (GATE_STANDOFF as u128))
            by (nonlinear_arith)
            requires
                mag <= len as u128,
                0 < GATE_STANDOFF,
        ;
        vstd::arithmetic::div_mod::lemma_div_is_ordered(
            num as int,
            (len as int) * (GATE_STANDOFF as int),
            len as int,
        );
        vstd::arithmetic::div_mod::lemma_div_by_multiple(GATE_STANDOFF as int, len as int);
        assert(off <= GATE_STANDOFF as u128);
    }
    if delta >= 0 {
        off as i64
    } else {
        -(off as i64)
    }
}

/// Instantiates the paired gates for one undirected edge between systems `a`
/// and `b`. Gate A sits in system `a`, offset toward `b` by the standoff
/// distance; gate B sits in system `b` at the negated offset. Both gates are
/// appended unregistered, for the deferred registration pass to adopt.
/// Rejected when the two systems share one position, since the direction
/// would be undefined.
pub fn init_make_portal(galaxy: &mut Galaxy, a: usize, b: usize) -> (res: Result<
    (),
    GalaxyError,
>)
    requires
        old(galaxy).wf(),
        (a as int) < old(galaxy).n(),
        (b as int) < old(galaxy).n(),
        a != b,
        old(galaxy).gates@.len() + 2 <= usize::MAX,
        forall|g: int|
            0 <= g < old(galaxy).gates@.len() ==> !((#[trigger] old(galaxy).gates@[g]).system == a
                && old(galaxy).gates@[g].destination == b),
    ensures
        final(galaxy).wf(),
        final(galaxy).systems == old(galaxy).systems,
        final(galaxy).positions == old(galaxy).positions,
        match res {
            Result::Err(e) => {
                &&& e == GalaxyError::CoincidentSystems
                &&& old(galaxy).positions@[a as int] == old(galaxy).positions@[b as int]
                &&& final(galaxy).gates == old(galaxy).gates
            },
            Result::Ok(u) => {
                let pa = old(galaxy).positions@[a as int];
                let pb = old(galaxy).positions@[b as int];
                let ga = old(galaxy).gates@.len() as int;
                &&& pa != pb
                &&& final(galaxy).gates@.len() == ga + 2
                &&& forall|g: int|
                    0 <= g < ga ==> final(galaxy).gates@[g] == old(galaxy).gates@[g]
                &&& final(galaxy).gates@[ga].system == a
                &&& final(galaxy).gates@[ga].destination == b
                &&& final(galaxy).gates@[ga].paired as int == ga + 1
                &&& !final(galaxy).gates@[ga].registered
                &&& final(galaxy).gates@[ga + 1].system == b
                &&& final(galaxy).gates@[ga + 1].destination == a
                &&& final(galaxy).gates@[ga + 1].paired as int == ga
                &&& !final(galaxy).gates@[ga + 1].registered
                &&& forall|len: int|
                    #[trigger] is_sqrt_floor(dist_sq(pa, pb), len) ==> {
                        &&& final(galaxy).gates@[ga].pos.x as int == standoff_axis(
                            pb.x - pa.x,
                            len,
                        )
                        &&& final(galaxy).gates@[ga].pos.y as int == standoff_axis(
                            pb.y - pa.y,
                            len,
                        )
                        &&& final(galaxy).gates@[ga].pos.z as int == standoff_axis(
                            pb.z - pa.z,
                            len,
                        )
                        &&& final(galaxy).gates@[ga + 1].pos.x as int == standoff_axis(
                            pa.x - pb.x,
                            len,
                        )
                        &&& final(galaxy).gates@[ga + 1].pos.y as int == standoff_axis(
                            pa.y - pb.y,
                            len,
                        )
                        &&& final(galaxy).gates@[ga + 1].pos.z as int == standoff_axis(
                            pa.z - pb.z,
                            len,
                        )
                    }
            },
        },
{
    let pa = galaxy.positions[a];
    let pb = galaxy.positions[b];
    if pa.x == pb.x && pa.y == pb.y && pa.z == pb.z {
        return Result::Err(GalaxyError::CoincidentSystems);
    }
    let len = crate::galaxy::sim_distance(&pa, &pb);
    proof {
        assert((pa.x - pb.x) * (pa.x - pb.x) >= 0) by (nonlinear_arith);
        assert((pa.y - pb.y) * (pa.y - pb.y) >= 0) by (nonlinear_arith);
        assert((pa.z - pb.z) * (pa.z - pb.z) >= 0) by (nonlinear_arith);
        assert(pa.x != pb.x ==> (pa.x - pb.x) * (pa.x - pb.x) >= 1) by (nonlinear_arith);
        assert(pa.y != pb.y ==> (pa.y - pb.y) * (pa.y - pb.y) >= 1) by (nonlinear_arith);
        assert(pa.z != pb.z ==> (pa.z - pb.z) * (pa.z - pb.z) >= 1) by (nonlinear_arith);
        assert(dist_sq(pa, pb) >= 1);
        assert(len as int >= 1) by (nonlinear_arith)
            requires
                dist_sq(pa, pb) >= 1,
                dist_sq(pa, pb) < ((len as int) + 1) * ((len as int) + 1),
                len as int >= 0,
        ;
        assert((pb.x - pa.x) * (pb.x - pa.x) == (pa.x - pb.x) * (pa.x - pb.x)) by (nonlinear_arith);
        assert((pb.y - pa.y) * (pb.y - pa.y) == (pa.y - pb.y) * (pa.y - pb.y)) by (nonlinear_arith);
        assert((pb.z - pa.z) * (pb.z - pa.z) == (pa.z - pb.z) * (pa.z - pb.z)) by (nonlinear_arith);
        if pa.x >= pb.x {
            lemma_sqrt_floor_lower(dist_sq(pa, pb), len as int, pa.x - pb.x);
        } else {
            lemma_sqrt_floor_lower(dist_sq(pa, pb), len as int, pb.x - pa.x);
        }
        if pa.y >= pb.y {
            lemma_sqrt_floor_lower(dist_sq(pa, pb), len as int, pa.y - pb.y);
        } else {
            lemma_sqrt_floor_lower(dist_sq(pa, pb), len as int, pb.y - pa.y);
        }
        if pa.z >= pb.z {
            lemma_sqrt_floor_lower(dist_sq(pa, pb), len as int, pa.z - pb.z);
        } else {
            lemma_sqrt_floor_lower(dist_sq(pa, pb), len as int, pb.z - pa.z);
        }
    }
    let ga = galaxy.gates.len();
    let gb = ga + 1;
    let gate_a = Gate {
        system: a,
        destination: b,
        paired: gb,
        pos: SimPosition {
            x: standoff_axis_exec(pb.x - pa.x, len),
            y: standoff_axis_exec(pb.y - pa.y, len),
            z: standoff_axis_exec(pb.z - pa.z, len),
        },
        registered: false,
    };
    let gate_b = Gate {
        system: b,
        destination: a,
        paired: ga,
        pos: SimPosition {
            x: standoff_axis_exec(pa.x - pb.x, len),
            y: standoff_axis_exec(pa.y - pb.y, len),
            z: standoff_axis_exec(pa.z - pb.z, len),
        },
        registered: false,
    };
    galaxy.gates.push(gate_a);
    galaxy.gates.push(gate_b);
    proof {
        let g0 = old(galaxy);
        let g1 = galaxy;
        // the mirror edge b -> a is also new: an old gate with system b and
        // destination a would have a paired gate with system a, destination b
        assert forall|g: int| 0 <= g < g0.gates@.len() implies !((#[trigger] g0.gates@[g]).system
            == b && g0.gates@[g].destination == a) by {
            if g0.gates@[g].system == b && g0.gates@[g].destination == a {
                assert(g0.gate_ok(g));
                assert(g0.gates@[g0.gates@[g].paired as int].system == a);
                assert(g0.gates@[g0.gates@[g].paired as int].destination == b);
            }
        }
        assert forall|g: int| 0 <= g < g1.gates@.len() implies g1.gate_ok(g) by {
            if g < g0.gates@.len() {
                assert(g0.gate_ok(g));
            }
        }
        assert forall|len2: int| #[trigger]
            is_sqrt_floor(dist_sq(pa, pb), len2) implies g1.gates@[ga as int].pos.x as int
            == standoff_axis(pb.x - pa.x, len2) && g1.gates@[ga as int].pos.y as int
            == standoff_axis(pb.y - pa.y, len2) && g1.gates@[ga as int].pos.z as int
            == standoff_axis(pb.z - pa.z, len2) && g1.gates@[ga as int + 1].pos.x as int
            == standoff_axis(pa.x - pb.x, len2) && g1.gates@[ga as int + 1].pos.y as int
            == standoff_axis(pa.y - pb.y, len2) && g1.gates@[ga as int + 1].pos.z as int
            == standoff_axis(pa.z - pb.z, len2) by {
            lemma_sqrt_floor_unique(dist_sq(pa, pb), len2, len as int);
        }
    }
    Result::Ok(())
}

fn push_gate_entry(systems: &mut Vec<SolarSystem>, s: usize, e: GateEntry)
    requires
        (s as int) < old(systems)@.len(),
    ensures
        final(systems)@.len() == old(systems)@.len(),
        final(systems)@[s as int].gates@ == old(systems)@[s as int].gates@.push(e),
        final(systems)@[s as int].anomalies == old(systems)@[s as int].anomalies,
        forall|t: int|
            0 <= t < old(systems)@.len() && t != s as int ==> final(systems)@[t] == old(
                systems,
            )@[t],
{
    let sys = &mut systems[s];
    sys.gates.push(e);
}

fn set_registered(gates: &mut Vec<Gate>, g: usize)
    requires
        (g as int) < old(gates)@.len(),
    ensures
        final(gates)@ == old(gates)@.update(
            g as int,
            Gate { registered: true, ..old(gates)@[g as int] },
        ),
{
    let gate = &mut gates[g];
    gate.registered = true;
}

/// The registration pass: adopts every gate created since the last pass into
/// its owning system's gate map, both ends of each pair together, and marks
/// them registered. Decoupled from creation so that reading the maps and
/// spawning new gates never interleave within one pass.
pub fn register_gate_system(galaxy: &mut Galaxy)
    requires
        old(galaxy).wf(),
    ensures
        final(galaxy).wf(),
        final(galaxy).positions == old(galaxy).positions,
        final(galaxy).n() == old(galaxy).n(),
        final(galaxy).gates@.len() == old(galaxy).gates@.len(),
        forall|g: int|
            0 <= g < old(galaxy).gates@.len() ==> {
                &&& (#[trigger] final(galaxy).gates@[g]).system == old(galaxy).gates@[g].system
                &&& final(galaxy).gates@[g].destination == old(galaxy).gates@[g].destination
                &&& final(galaxy).gates@[g].paired == old(galaxy).gates@[g].paired
                &&& final(galaxy).gates@[g].pos == old(galaxy).gates@[g].pos
                &&& final(galaxy).gates@[g].registered
            },
        forall|s: int|
            0 <= s < old(galaxy).n() ==> (#[trigger] final(galaxy).systems@[s]).anomalies == old(
                galaxy,
            ).systems@[s].anomalies,
        forall|s: int|
            0 <= s < old(galaxy).n() ==> old(galaxy).systems@[s].gates@.len() <= (
            #[trigger] final(galaxy).systems@[s]).gates@.len(),
        forall|s: int, i: int|
            0 <= s < old(galaxy).n() && 0 <= i < old(galaxy).systems@[s].gates@.len() ==> (
            #[trigger] final(galaxy).systems@[s].gates@[i]) == old(galaxy).systems@[s].gates@[i],
{
    let n_gates = galaxy.gates.len();
    let ghost g0 = *galaxy;
    let mut g: usize = 0;
    while g < n_gates
        invariant
            galaxy.wf(),
            n_gates == galaxy.gates@.len(),
            0 <= g <= n_gates,
            galaxy.positions == g0.positions,
            galaxy.n() == g0.n(),
            galaxy.gates@.len() == g0.gates@.len(),
            forall|h: int|
                0 <= h < g0.gates@.len() ==> {
                    &&& (#[trigger] galaxy.gates@[h]).system == g0.gates@[h].system
                    &&& galaxy.gates@[h].destination == g0.gates@[h].destination
                    &&& galaxy.gates@[h].paired == g0.gates@[h].paired
                    &&& galaxy.gates@[h].pos == g0.gates@[h].pos
                    &&& (g0.gates@[h].registered ==> galaxy.gates@[h].registered)
                },
            forall|h: int| 0 <= h < g ==> (#[trigger] galaxy.gates@[h]).registered,
            forall|s: int|
                0 <= s < g0.n() ==> (#[trigger] galaxy.systems@[s]).anomalies
                    == g0.systems@[s].anomalies,
            forall|s: int|
                0 <= s < g0.n() ==> g0.systems@[s].gates@.len() <= (
                #[trigger] galaxy.systems@[s]).gates@.len(),
            forall|s: int, i: int|
                0 <= s < g0.n() && 0 <= i < g0.systems@[s].gates@.len() ==> (
                #[trigger] galaxy.systems@[s].gates@[i]) == g0.systems@[s].gates@[i],
        decreases n_gates - g,
    {
        let gate = galaxy.gates[g];
        if !gate.registered {
            let ghost pre = *galaxy;
            let p = gate.paired;
            proof {
                assert(pre.gate_ok(g as int));
            }
            let e1 = GateEntry { dest: gate.destination, gate_from: g, gate_to: p };
            let e2 = GateEntry { dest: gate.system, gate_from: p, gate_to: g };
            proof {
                // neither owning system's map can already serve the
                // destination: a map entry names a registered gate for the
                // same ordered pair, which pairwise distinctness would make
                // this very gate - yet it is unregistered
                assert forall|i: int|
                    0 <= i < pre.systems@[gate.system as int].gates@.len() implies (
                #[trigger] pre.systems@[gate.system as int].gates@[i]).dest
                    != gate.destination by {
                    if pre.systems@[gate.system as int].gates@[i].dest == gate.destination {
                        let e = pre.systems@[gate.system as int].gates@[i];
                        assert(pre.entry_ok(gate.system as int, e));
                        let f = e.gate_from as int;
                        assert(pre.gates@[f].registered);
                        assert(pre.gates@[f].system == gate.system);
                        assert(pre.gates@[f].destination == gate.destination);
                        assert(f == g as int);
                    }
                }
                assert forall|i: int|
                    0 <= i < pre.systems@[gate.destination as int].gates@.len() implies (
                #[trigger] pre.systems@[gate.destination as int].gates@[i]).dest
                    != gate.system by {
                    if pre.systems@[gate.destination as int].gates@[i].dest == gate.system {
                        let e = pre.systems@[gate.destination as int].gates@[i];
                        assert(pre.entry_ok(gate.destination as int, e));
                        let f = e.gate_from as int;
                        assert(pre.gates@[f].registered);
                        assert(pre.gates@[f].system == gate.destination);
                        assert(pre.gates@[f].destination == gate.system);
                        assert(f == p as int);
                    }
                }
            }
            push_gate_entry(&mut galaxy.systems, gate.system, e1);
            push_gate_entry(&mut galaxy.systems, gate.destination, e2);
            set_registered(&mut galaxy.gates, g);
            set_registered(&mut galaxy.gates, p);
            proof {
                let cur = *galaxy;
                let s_a = gate.system as int;
                let s_b = gate.destination as int;
                let la = pre.systems@[s_a].gates@.len() as int;
                let lb = cur.systems@[s_b].gates@.len() - 1;
                assert(cur.systems@[s_a].gates@ == pre.systems@[s_a].gates@.push(e1));
                assert(cur.systems@[s_b].gates@ == pre.systems@[s_b].gates@.push(e2));
                // the two new entries resolve to themselves
                assert(cur.systems@[s_a].gates_unique());
                assert(cur.systems@[s_b].gates_unique());
                lemma_gate_entry_lookup(cur.systems@[s_a], s_b, la);
                lemma_gate_entry_lookup(cur.systems@[s_b], s_a, lb);
                // old entries resolve as before
                assert forall|s: int, d: int|
                    0 <= s < cur.n() && pre.systems@[s].has_gate_to(d) implies
                    cur.systems@[s].has_gate_to(d) && cur.systems@[s].gate_entry_at(d)
                    == pre.systems@[s].gate_entry_at(d) by {
                    let i = choose|i: int|
                        0 <= i < pre.systems@[s].gates@.len() && (
                        #[trigger] pre.systems@[s].gates@[i]).dest as int == d;
                    assert(cur.systems@[s].gates@[i] == pre.systems@[s].gates@[i]);
                    lemma_gate_entry_lookup(cur.systems@[s], d, i);
                    lemma_gate_entry_lookup(pre.systems@[s], d, i);
                }
                assert forall|h: int| 0 <= h < cur.gates@.len() implies cur.gate_ok(h) by {
                    assert(pre.gate_ok(h));
                    if cur.gates@[h].registered && !pre.gates@[h].registered {
                        assert(h == g as int || h == p as int);
                    }
                }
                assert forall|s: int, i: int|
                    0 <= s < cur.n() && 0 <= i < cur.systems@[s].gates@.len() implies cur.entry_ok(
                    s,
                    #[trigger] cur.systems@[s].gates@[i],
                ) by {
                    if s == s_a && i == la {
                        assert(cur.entry_ok(s, e1));
                    } else if s == s_b && i == lb {
                        assert(cur.entry_ok(s, e2));
                    } else {
                        assert(cur.systems@[s].gates@[i] == pre.systems@[s].gates@[i]);
                        assert(pre.entry_ok(s, pre.systems@[s].gates@[i]));
                    }
                }
                assert forall|s: int|
                    0 <= s < g0.n() implies g0.systems@[s].gates@.len() <= (
                #[trigger] galaxy.systems@[s]).gates@.len() by {
                    assert(g0.systems@[s].gates@.len() <= pre.systems@[s].gates@.len());
                    if s != s_a && s != s_b {
                        assert(cur.systems@[s] == pre.systems@[s]);
                    }
                }
                assert forall|s: int, i: int|
                    0 <= s < g0.n() && 0 <= i < g0.systems@[s].gates@.len() implies (
                #[trigger] galaxy.systems@[s].gates@[i]) == g0.systems@[s].gates@[i] by {
                    assert(pre.systems@[s].gates@[i] == g0.systems@[s].gates@[i]);
                    if s == s_a {
                        assert(cur.systems@[s].gates@ == pre.systems@[s].gates@.push(e1));
                        assert(cur.systems@[s].gates@[i] == pre.systems@[s].gates@[i]);
                    } else if s == s_b {
                        assert(cur.systems@[s].gates@ == pre.systems@[s].gates@.push(e2));
                        assert(cur.systems@[s].gates@[i] == pre.systems@[s].gates@[i]);
                    } else {
                        assert(cur.systems@[s] == pre.systems@[s]);
                    }
                }
                assert(cur.wf());
            }
        }
        g += 1;
    }
}

/// Gate pairing is symmetric: whenever system `s` reaches system `d` through
/// a gate pair in its map, system `d`'s map holds the mirror entry using
/// the same two gates in the opposite roles, and each gate stands in the
/// system the entry claims.
pub proof fn lemma_gate_pairing_symmetric(galaxy: Galaxy, s: int, d: int)
    requires
        galaxy.wf(),
        0 <= s < galaxy.n(),
        galaxy.systems@[s].has_gate_to(d),
    ensures
        0 <= d < galaxy.n(),
        galaxy.systems@[d].has_gate_to(s),
        galaxy.systems@[d].gate_entry_at(s).gate_from == galaxy.systems@[s].gate_entry_at(
            d,
        ).gate_to,
        galaxy.systems@[d].gate_entry_at(s).gate_to == galaxy.systems@[s].gate_entry_at(
            d,
        ).gate_from,
        galaxy.gates@[galaxy.systems@[s].gate_entry_at(d).gate_from as int].system as int == s,
        galaxy.gates@[galaxy.systems@[s].gate_entry_at(d).gate_to as int].system as int == d,
{
    let i = choose|i: int|
        0 <= i < galaxy.systems@[s].gates@.len() && (
        #[trigger] galaxy.systems@[s].gates@[i]).dest as int == d;
    let e = galaxy.systems@[s].gates@[i];
    assert(galaxy.entry_ok(s, e));
    lemma_gate_entry_lookup(galaxy.systems@[s], d, i);
    assert(galaxy.gate_ok(e.gate_from as int));
}

/// The transit order a ship in gate-transit mode carries.
pub open spec fn gate_order(m: MoveMode) -> TakeGate {
    match m {
        MoveMode::Gate(t) => t,
        _ => TakeGate { from: 0, to: 0, spool_up: 0 },
    }
}

/// Runs once when a transit order has just been attached: a ship that locked
/// its gate from outside gate proximity is steered to a tight scatter point
/// at the entry gate, so the countdown can start running.
pub fn take_gate_added_system(ship: &mut Ship, galaxy: &Galaxy)
    requires
        galaxy.wf(),
        old(ship).wf(*galaxy),
        old(ship).mode is Gate,
    ensures
        final(ship).coord == old(ship).coord,
        final(ship).pos == old(ship).pos,
        final(ship).route == old(ship).route,
        final(ship).mode == old(ship).mode,
        final(ship).wf(*galaxy),
        ({
            let t = gate_order(old(ship).mode);
            if dist_sq(old(ship).pos, galaxy.gates@[t.from as int].pos) > GATE_PROXIMITY
                * GATE_PROXIMITY {
                &&& final(ship).desto is DPosition
                &&& dist_sq(final(ship).desto.position(), galaxy.gates@[t.from as int].pos)
                    <= GATE_APPROACH_SCATTER * GATE_APPROACH_SCATTER
            } else {
                final(ship).desto == old(ship).desto
            }
        }),
{
    let t = match &ship.mode {
        MoveMode::Gate(t) => *t,
        _ => TakeGate { from: 0, to: 0, spool_up: 0 },
    };
    proof {
        assert(old(ship).route.unwrap().wf(*galaxy));
        assert(galaxy.gate_ok(t.from as int));
    }
    let gate_pos = galaxy.gates[t.from].pos;
    if !within_range(&ship.pos, &gate_pos, GATE_PROXIMITY) {
        let scattered = around_pos(gate_pos, GATE_APPROACH_SCATTER);
        ship.desto = DestoType::DPosition(scattered);
    }
}

/// Drives a transit in progress. The spool-up countdown runs only while the
/// ship holds within gate proximity; outside it the countdown stalls, and is
/// never reset. When it elapses the ship emerges in the exit gate's system
/// at a scattered point near that gate, the used waypoint's order ends, and
/// either the next leg starts or — when no waypoints remain — the route is
/// removed and the journey is complete.
pub fn take_gate_system(ship: &mut Ship, galaxy: &Galaxy, dt: u64)
    requires
        galaxy.wf(),
        old(ship).wf(*galaxy),
        old(ship).mode is Gate,
        dt >= 1,
    ensures
        final(ship).wf(*galaxy),
        ({
            let t = gate_order(old(ship).mode);
            let r = old(ship).route.unwrap();
            if dist_sq(old(ship).pos, galaxy.gates@[t.from as int].pos) > GATE_PROXIMITY
                * GATE_PROXIMITY {
                // outside proximity: the countdown stalls, nothing moves
                *final(ship) == *old(ship)
            } else if t.spool_up > 0 {
                // within proximity: the countdown ticks, nothing else moves
                &&& final(ship).coord == old(ship).coord
                &&& final(ship).pos == old(ship).pos
                &&& final(ship).desto == old(ship).desto
                &&& final(ship).route == old(ship).route
                &&& final(ship).mode == MoveMode::Gate(
                    TakeGate {
                        from: t.from,
                        to: t.to,
                        spool_up: if t.spool_up <= dt {
                            0
                        } else {
                            (t.spool_up - dt) as u64
                        },
                    },
                )
            } else {
                // spool-up elapsed: the ship emerges in the exit system
                &&& final(ship).coord == galaxy.gates@[t.to as int].system
                &&& dist_sq(final(ship).pos, galaxy.gates@[t.to as int].pos) <= GATE_EXIT_SCATTER
                    * GATE_EXIT_SCATTER
                &&& final(ship).mode is Thrust
                &&& if r.route@.len() == 0 {
                    // the route is exhausted: travel is complete
                    &&& final(ship).route is None
                    &&& final(ship).desto == old(ship).desto
                } else {
                    // the next leg starts from the new system's gate map
                    let w = r.route@[0];
                    let e = galaxy.systems@[galaxy.gates@[t.to as int].system as int].gate_entry_at(
                        w as int,
                    );
                    &&& final(ship).route is Some
                    &&& final(ship).route.unwrap().route@ == r.route@.skip(1)
                    &&& final(ship).route.unwrap().gate_from == e.gate_from
                    &&& final(ship).route.unwrap().gate_to == e.gate_to
                    &&& final(ship).desto is DPosition
                    &&& dist_sq(
                        final(ship).desto.position(),
                        galaxy.gates@[e.gate_from as int].pos,
                    ) <= crate::route::GATE_DEST_SCATTER * crate::route::GATE_DEST_SCATTER
                }
            }
        }),
{
    let t = match &ship.mode {
        MoveMode::Gate(t) => *t,
        _ => TakeGate { from: 0, to: 0, spool_up: 0 },
    };
    proof {
        assert(old(ship).route.unwrap().wf(*galaxy));
        assert(galaxy.gate_ok(t.from as int));
        assert(galaxy.gate_ok(t.to as int));
    }
    let entry_pos = galaxy.gates[t.from].pos;
    if !within_range(&ship.pos, &entry_pos, GATE_PROXIMITY) {
        // the ship drifted away: the countdown stalls until it returns
        return ;
    }
    if t.spool_up > 0 {
        let remaining = if t.spool_up <= dt {
            0
        } else {
            t.spool_up - dt
        };
        ship.mode = MoveMode::Gate(TakeGate { from: t.from, to: t.to, spool_up: remaining });
        return ;
    }
    let exit_sys = galaxy.gates[t.to].system;
    let exit_pos = galaxy.gates[t.to].pos;
    ship.coord = exit_sys;
    ship.pos = around_pos(exit_pos, GATE_EXIT_SCATTER);
    ship.mode = MoveMode::Thrust;
    let remaining_legs = match &ship.route {
        Option::Some(tr) => tr.route.len(),
        Option::None => 0,
    };
    if remaining_legs > 0 {
        proof {
            assert(galaxy.gates@[gate_order(old(ship).mode).from as int].paired
                == gate_order(old(ship).mode).to);
        }
        continue_route_system(ship, galaxy);
    } else {
        ship.route = Option::None;
    }
}

} // verus!
