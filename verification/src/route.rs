//! The multi-hop travel state machine.
//!
//! A travel request resolves a cached route; the ship then steers toward a
//! scattered point near the first gate, locks onto that gate on arrival,
//! transits after a spool-up delay, and repeats with the next leg until the
//! remaining waypoint list empties. At most one of gate transit and warp is
//! ever active: the movement mode is one enum.

use vstd::prelude::*;

use crate::galaxy::{around_pos, dist_sq, lemma_entry_at_ok, within_range, Galaxy, SimPosition};
use crate::gates::TakeGate;
use crate::map::{
    adjacency_of, connects, is_path, lemma_adjacency_of_valid, lemma_adjacent_has_gate,
    lemma_path_tail, stored_entry_ok, GalaxyMap,
};
use crate::warp::Warping;

verus! {

/// How close to its steering destination a ship must come for the current
/// leg to count as arrived, in metres.
pub const ARRIVAL_RANGE: i64 = 10;

/// Radius of the scattered steering point chosen near a leg's entry gate,
/// in metres.
pub const GATE_DEST_SCATTER: i64 = 500;

/// A steering destination: a fixed position, a tracked object's position,
/// or none.
#[derive(Clone, Copy, PartialEq, Eq, Structural, Debug)]
pub enum DestoType {
    DPosition(SimPosition),
    TEntity(SimPosition),
    DNone,
}

impl DestoType {
    /// The held position of a well-formed destination stays in bounds.
    pub open spec fn wf(self) -> bool {
        match self {
            DestoType::DPosition(p) => p.wf(),
            DestoType::TEntity(p) => p.wf(),
            DestoType::DNone => true,
        }
    }

    /// The position a fixed destination names.
    pub open spec fn position(self) -> SimPosition {
        match self {
            DestoType::DPosition(p) => p,
            DestoType::TEntity(p) => p,
            DestoType::DNone => SimPosition { x: 0, y: 0, z: 0 },
        }
    }
}

/// The remaining legs of a journey: the current leg's gate pair and
/// the waypoint systems still ahead of it, ending at the final destination.
pub struct TravelRoute {
    pub route: Vec<usize>,
    pub gate_from: usize,
    pub gate_to: usize,
}

impl TravelRoute {
    /// The current gates exist and are a true pair, and from the system
    /// behind the current exit gate the remaining waypoints are joined gate
    /// to gate.
    pub open spec fn wf(self, galaxy: Galaxy) -> bool {
        &&& (self.gate_from as int) < galaxy.gates@.len()
        &&& (self.gate_to as int) < galaxy.gates@.len()
        &&& galaxy.gates@[self.gate_from as int].paired == self.gate_to
        &&& is_path(
            adjacency_of(galaxy),
            seq![galaxy.gates@[self.gate_to as int].system].add(self.route@),
        )
    }
}

/// The movement mode of a ship: ordinary thrust, a gate transit, or a warp.
/// One enum, so that transit and warp can never be active together.
#[derive(Clone, Copy, PartialEq, Eq, Structural, Debug)]
pub enum MoveMode {
    Thrust,
    Gate(TakeGate),
    Warp(Warping),
}

/// One travelling object: its current system, local position, steering
/// destination, remaining route, and movement mode.
pub struct Ship {
    pub coord: usize,
    pub pos: SimPosition,
    pub desto: DestoType,
    pub route: Option<TravelRoute>,
    pub mode: MoveMode,
}

impl Ship {
    /// Consistency of a ship against the galaxy it lives in.
    pub open spec fn wf(self, galaxy: Galaxy) -> bool {
        &&& (self.coord as int) < galaxy.n()
        &&& self.pos.wf()
        &&& self.desto.wf()
        &&& match self.route {
            Option::Some(r) => r.wf(galaxy),
            Option::None => true,
        }
        &&& match self.mode {
            MoveMode::Thrust => true,
            MoveMode::Gate(t) => {
                &&& self.route is Some
                &&& self.route.unwrap().gate_from == t.from
                &&& self.route.unwrap().gate_to == t.to
            },
            MoveMode::Warp(w) => w.wf(),
        }
    }
}

/// Handles a newly attached travel request toward system `to`: consults the
/// route table, and on a hit stores the remaining waypoints, locks the first
/// leg's gate pair, and steers toward a scattered point near the local gate.
/// When no route exists the request is dropped without any change; callers
/// learn of the failure by seeing no route attached.
pub fn on_travel_added(ship: &mut Ship, galaxy: &Galaxy, map: &GalaxyMap, to: usize)
    requires
        galaxy.wf(),
        old(ship).wf(*galaxy),
        old(ship).mode is Thrust,
        (to as int) < galaxy.n(),
        map.consistent_with(adjacency_of(*galaxy)),
    ensures
        final(ship).coord == old(ship).coord,
        final(ship).pos == old(ship).pos,
        final(ship).mode == old(ship).mode,
        final(ship).wf(*galaxy),
        match map.route_of(old(ship).coord as int, to as int) {
            Option::None => *final(ship) == *old(ship),
            Option::Some(r) => {
                let e = galaxy.systems@[old(ship).coord as int].gate_entry_at(r[0] as int);
                &&& final(ship).route is Some
                &&& final(ship).route.unwrap().route@ == r.skip(1)
                &&& final(ship).route.unwrap().gate_from == e.gate_from
                &&& final(ship).route.unwrap().gate_to == e.gate_to
                &&& final(ship).desto is DPosition
                &&& dist_sq(
                    final(ship).desto.position(),
                    galaxy.gates@[e.gate_from as int].pos,
                ) <= GATE_DEST_SCATTER * GATE_DEST_SCATTER
            },
        },
{
    let ghost adj = adjacency_of(*galaxy);
    let ghost coord = ship.coord as int;
    proof {
        lemma_adjacency_of_valid(*galaxy);
        assert(map.dims_ok(adj.len() as int));
    }
    match map.lookup(ship.coord, to) {
        Option::None => {
            // no route exists: the request is silently dropped
        },
        Option::Some(r) => {
            proof {
                assert(stored_entry_ok(adj, map.routes@[coord]@[to as int], coord, to as int));
            }
            let w = r[0];
            proof {
                let p = seq![(ship.coord)].add(r@);
                assert(connects(adj, p, coord, to as int));
                assert(p[0] == ship.coord);
                assert(p[1] == r@[0]);
                assert(adj[coord].contains(w));
                lemma_adjacent_has_gate(adj, *galaxy, coord, w);
            }
            match galaxy.systems[ship.coord].lookup_gate(w) {
                Option::None => {
                    // the route names a waypoint with no registered gate:
                    // degrade by dropping the request
                },
                Option::Some(pair) => {
                    let (gf, gt) = pair;
                    proof {
                        lemma_entry_at_ok(*galaxy, coord, w as int);
                    }
                    let mut rest: Vec<usize> = Vec::new();
                    let mut i: usize = 1;
                    while i < r.len()
                        invariant
                            1 <= i <= r@.len(),
                            rest@.len() == i - 1,
                            forall|j: int| 0 <= j < i - 1 ==> (#[trigger] rest@[j]) == r@[j + 1],
                        decreases r@.len() - i,
                    {
                        rest.push(r[i]);
                        i += 1;
                    }
                    proof {
                        assert(rest@ =~= r@.skip(1));
                    }
                    proof {
                        assert(galaxy.gate_ok(gf as int));
                    }
                    let gate_pos = galaxy.gates[gf].pos;
                    let scattered = around_pos(gate_pos, GATE_DEST_SCATTER);
                    ship.route = Option::Some(
                        TravelRoute { route: rest, gate_from: gf, gate_to: gt },
                    );
                    ship.desto = DestoType::DPosition(scattered);
                    proof {
                        let e = galaxy.systems@[coord].gate_entry_at(w as int);
                        assert(galaxy.gate_ok(e.gate_from as int));
                        assert(galaxy.gates@[gt as int].system == w);
                        let p = seq![(old(ship).coord)].add(r@);
                        assert(seq![galaxy.gates@[gt as int].system].add(rest@) =~= p.skip(1));
                        lemma_path_tail(adj, p);
                        assert(final(ship).route.unwrap().wf(*galaxy));
                    }
                },
            }
        },
    }
}

/// Starts the next leg after a completed transit: locks a gate pair from
/// the ship's (new) current system toward the next waypoint, pops that
/// waypoint, and steers toward a scattered point near the local gate.
pub fn continue_route_system(ship: &mut Ship, galaxy: &Galaxy)
    requires
        galaxy.wf(),
        old(ship).wf(*galaxy),
        old(ship).mode is Thrust,
        old(ship).route is Some,
        old(ship).route.unwrap().route@.len() >= 1,
        old(ship).coord == galaxy.gates@[old(ship).route.unwrap().gate_to as int].system,
    ensures
        final(ship).coord == old(ship).coord,
        final(ship).pos == old(ship).pos,
        final(ship).mode == old(ship).mode,
        final(ship).wf(*galaxy),
        ({
            let w = old(ship).route.unwrap().route@[0];
            let e = galaxy.systems@[old(ship).coord as int].gate_entry_at(w as int);
            &&& final(ship).route is Some
            &&& final(ship).route.unwrap().route@ == old(ship).route.unwrap().route@.skip(1)
            &&& final(ship).route.unwrap().gate_from == e.gate_from
            &&& final(ship).route.unwrap().gate_to == e.gate_to
            &&& final(ship).desto is DPosition
            &&& dist_sq(final(ship).desto.position(), galaxy.gates@[e.gate_from as int].pos)
                <= GATE_DEST_SCATTER * GATE_DEST_SCATTER
        }),
{
    let ghost adj = adjacency_of(*galaxy);
    let ghost coord = ship.coord as int;
    let ghost old_route = ship.route.unwrap();
    proof {
        lemma_adjacency_of_valid(*galaxy);
    }
    let (w, rest) = match &ship.route {
        Option::Some(tr) => {
            let w = tr.route[0];
            let mut rest: Vec<usize> = Vec::new();
            let mut i: usize = 1;
            while i < tr.route.len()
                invariant
                    1 <= i <= tr.route@.len(),
                    rest@.len() == i - 1,
                    forall|j: int| 0 <= j < i - 1 ==> (#[trigger] rest@[j]) == tr.route@[j + 1],
                decreases tr.route@.len() - i,
            {
                rest.push(tr.route[i]);
                i += 1;
            }
            (w, rest)
        },
        Option::None => {
            // ruled out by the caller: a route is present
            (0, Vec::new())
        },
    };
    proof {
        assert(rest@ =~= old_route.route@.skip(1));
        let p0 = seq![galaxy.gates@[old_route.gate_to as int].system].add(old_route.route@);
        assert(p0[0] as int == coord);
        assert(p0[1] == w);
        assert(adj[coord].contains(w));
        lemma_adjacent_has_gate(adj, *galaxy, coord, w);
    }
    match galaxy.systems[ship.coord].lookup_gate(w) {
        Option::None => {
            // unreachable under the invariants, and harmless if reached:
            // the leg is simply not advanced
            proof {
                assert(false);
            }
        },
        Option::Some(pair) => {
            let (gf, gt) = pair;
            proof {
                lemma_entry_at_ok(*galaxy, coord, w as int);
            }
            proof {
                assert(galaxy.gate_ok(gf as int));
            }
            let gate_pos = galaxy.gates[gf].pos;
            let scattered = around_pos(gate_pos, GATE_DEST_SCATTER);
            ship.route = Option::Some(TravelRoute { route: rest, gate_from: gf, gate_to: gt });
            ship.desto = DestoType::DPosition(scattered);
            proof {
                let e = galaxy.systems@[coord].gate_entry_at(w as int);
                assert(galaxy.gate_ok(e.gate_from as int));
                assert(galaxy.gates@[gt as int].system == w);
                let p0 = seq![galaxy.gates@[old_route.gate_to as int].system].add(
                    old_route.route@,
                );
                assert(seq![galaxy.gates@[gt as int].system].add(rest@) =~= p0.skip(1));
                lemma_path_tail(adj, p0);
                assert(final(ship).route.unwrap().wf(*galaxy));
            }
        },
    }
}

/// Watches a leg in progress: once the ship is within arrival range of its
/// steering destination, attaches a gate transit order for the current
/// leg's gate pair with a fresh spool-up countdown. Does nothing while the
/// ship is warping, transiting, routeless, or still under way.
pub fn travel_route_system(ship: &mut Ship, galaxy: &Galaxy)
    requires
        galaxy.wf(),
        old(ship).wf(*galaxy),
    ensures
        final(ship).coord == old(ship).coord,
        final(ship).pos == old(ship).pos,
        final(ship).desto == old(ship).desto,
        final(ship).route == old(ship).route,
        final(ship).wf(*galaxy),
        if old(ship).mode is Thrust && old(ship).route is Some && old(ship).desto is DPosition
            && dist_sq(old(ship).pos, old(ship).desto.position()) <= ARRIVAL_RANGE * ARRIVAL_RANGE {
            final(ship).mode == MoveMode::Gate(
                TakeGate {
                    from: old(ship).route.unwrap().gate_from,
                    to: old(ship).route.unwrap().gate_to,
                    spool_up: crate::gates::SPOOL_UP_TIME,
                },
            )
        } else {
            final(ship).mode == old(ship).mode
        },
{
    let is_thrust = match &ship.mode {
        MoveMode::Thrust => true,
        MoveMode::Gate(_) => false,
        MoveMode::Warp(_) => false,
    };
    if !is_thrust {
        return ;
    }
    let (gf, gt, has_route) = match &ship.route {
        Option::Some(tr) => (tr.gate_from, tr.gate_to, true),
        Option::None => (0, 0, false),
    };
    if !has_route {
        return ;
    }
    match &ship.desto {
        DestoType::DPosition(target) => {
            let target = *target;
            if within_range(&ship.pos, &target, ARRIVAL_RANGE) {
                ship.mode = MoveMode::Gate(
                    TakeGate { from: gf, to: gt, spool_up: crate::gates::SPOOL_UP_TIME },
                );
            }
        },
        DestoType::TEntity(_) => {},
        DestoType::DNone => {},
    }
}

} // verus!
