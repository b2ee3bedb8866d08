//! The multi-hop travel state machine, driven end to end.

use galaxy_transit::galaxy::{au_to_system, new_galaxy, Galaxy, SimPosition};
use galaxy_transit::gates::{
    init_make_portal, register_gate_system, take_gate_added_system, take_gate_system,
    SPOOL_UP_TIME,
};
use galaxy_transit::map::{galaxy_adjacency, generate_map_pathfinding_system, GalaxyMap};
use galaxy_transit::route::{
    on_travel_added, travel_route_system, DestoType, MoveMode, Ship,
};

fn pos(x: i64, y: i64, z: i64) -> SimPosition {
    SimPosition { x, y, z }
}

/// Four systems in a diamond: edges A-B, B-C, D-B, D-C.
fn demo_world() -> (Galaxy, GalaxyMap) {
    let au = au_to_system(10);
    let positions = vec![
        pos(-10 * au, 0, 0),
        pos(0, 0, 0),
        pos(10 * au, 0, 0),
        pos(0, 10 * au, 0),
    ];
    let mut galaxy = new_galaxy(positions);
    init_make_portal(&mut galaxy, 0, 1).unwrap();
    init_make_portal(&mut galaxy, 1, 2).unwrap();
    init_make_portal(&mut galaxy, 3, 1).unwrap();
    init_make_portal(&mut galaxy, 3, 2).unwrap();
    register_gate_system(&mut galaxy);
    let adj = galaxy_adjacency(&galaxy);
    let map = generate_map_pathfinding_system(&adj);
    (galaxy, map)
}

fn idle_ship(coord: usize) -> Ship {
    Ship {
        coord,
        pos: pos(0, 0, 0),
        desto: DestoType::DNone,
        route: None,
        mode: MoveMode::Thrust,
    }
}

/// Stands in for the steering collaborator: jump straight to the current
/// steering destination.
fn arrive_at_destination(ship: &mut Ship) {
    match ship.desto {
        DestoType::DPosition(p) => ship.pos = p,
        DestoType::TEntity(p) => ship.pos = p,
        DestoType::DNone => {}
    }
}

/// Runs one full gate transit: approach, spool up, emerge.
fn transit_current_gate(ship: &mut Ship, galaxy: &Galaxy) {
    arrive_at_destination(ship);
    travel_route_system(ship, galaxy);
    assert!(matches!(ship.mode, MoveMode::Gate(_)));
    // the ship may have stopped outside gate proximity; the corrective
    // steering point is within it
    take_gate_added_system(ship, galaxy);
    arrive_at_destination(ship);
    // the spool-up countdown runs down, then the transit completes
    take_gate_system(ship, galaxy, SPOOL_UP_TIME);
    assert!(matches!(ship.mode, MoveMode::Gate(_)));
    take_gate_system(ship, galaxy, 1);
    assert!(matches!(ship.mode, MoveMode::Thrust));
}

#[test]
fn unreachable_destination_drops_the_request() {
    let au = au_to_system(10);
    let positions = vec![pos(0, 0, 0), pos(10 * au, 0, 0), pos(0, 10 * au, 0)];
    let mut galaxy = new_galaxy(positions);
    init_make_portal(&mut galaxy, 0, 1).unwrap();
    register_gate_system(&mut galaxy);
    let adj = galaxy_adjacency(&galaxy);
    let map = generate_map_pathfinding_system(&adj);
    let mut ship = idle_ship(0);
    on_travel_added(&mut ship, &galaxy, &map, 2);
    assert!(ship.route.is_none());
    assert_eq!(ship.desto, DestoType::DNone);
}

#[test]
fn journey_across_two_hops_ends_in_the_destination_system() {
    let (galaxy, map) = demo_world();
    let mut ship = idle_ship(0);

    // request travel to the far corner of the diamond
    on_travel_added(&mut ship, &galaxy, &map, 3);
    // the first gate is chosen at once, so one waypoint remains
    let remaining: Vec<usize> = ship.route.as_ref().unwrap().route.clone();
    assert_eq!(remaining, vec![3]);
    assert!(matches!(ship.desto, DestoType::DPosition(_)));

    // first leg: transit into the hub system
    transit_current_gate(&mut ship, &galaxy);
    assert_eq!(ship.coord, 1);
    assert_eq!(ship.route.as_ref().unwrap().route.len(), 0);

    // second leg: transit into the destination system; the route empties
    // and is removed
    transit_current_gate(&mut ship, &galaxy);
    assert_eq!(ship.coord, 3);
    assert!(ship.route.is_none());
}

#[test]
fn spool_up_stalls_outside_gate_proximity() {
    let (galaxy, map) = demo_world();
    let mut ship = idle_ship(0);
    on_travel_added(&mut ship, &galaxy, &map, 1);
    arrive_at_destination(&mut ship);
    travel_route_system(&mut ship, &galaxy);
    let spool_at_start = match ship.mode {
        MoveMode::Gate(t) => t.spool_up,
        _ => panic!("expected a transit order"),
    };
    assert_eq!(spool_at_start, SPOOL_UP_TIME);
    // drift far away from its entry gate: the countdown must not move
    ship.pos = pos(au_to_system(100), au_to_system(100), 0);
    take_gate_system(&mut ship, &galaxy, SPOOL_UP_TIME);
    match ship.mode {
        MoveMode::Gate(t) => assert_eq!(t.spool_up, SPOOL_UP_TIME),
        _ => panic!("transit order must survive the stall"),
    }
    assert_eq!(ship.coord, 0);
}

#[test]
fn transit_ticks_only_within_proximity() {
    let (galaxy, map) = demo_world();
    let mut ship = idle_ship(0);
    on_travel_added(&mut ship, &galaxy, &map, 1);
    arrive_at_destination(&mut ship);
    travel_route_system(&mut ship, &galaxy);
    take_gate_added_system(&mut ship, &galaxy);
    arrive_at_destination(&mut ship);
    // three partial ticks, then the final one completes the transit
    take_gate_system(&mut ship, &galaxy, 400);
    take_gate_system(&mut ship, &galaxy, 400);
    take_gate_system(&mut ship, &galaxy, 400);
    match ship.mode {
        MoveMode::Gate(t) => assert_eq!(t.spool_up, 0),
        _ => panic!("still spooling"),
    }
    take_gate_system(&mut ship, &galaxy, 1);
    assert_eq!(ship.coord, 1);
    assert!(matches!(ship.mode, MoveMode::Thrust));
    assert!(ship.route.is_none());
}
