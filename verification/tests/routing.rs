//! Galaxy construction, gate registration and route table behaviour.

use galaxy_transit::galaxy::{around_pos, au_to_system, new_galaxy, sim_distance, SimPosition};
use galaxy_transit::gates::{init_make_portal, register_gate_system, GalaxyError};
use galaxy_transit::map::{galaxy_adjacency, generate_map_pathfinding_system, get_route};

fn pos(x: i64, y: i64, z: i64) -> SimPosition {
    SimPosition { x, y, z }
}

/// Four systems in a diamond: edges A-B, B-C, D-B, D-C.
fn demo_galaxy() -> galaxy_transit::galaxy::Galaxy {
    let au = au_to_system(10);
    let positions = vec![
        pos(-10 * au, 0, 0),
        pos(0, 0, 0),
        pos(10 * au, 0, 0),
        pos(0, 10 * au, 0),
    ];
    let mut galaxy = new_galaxy(positions);
    init_make_portal(&mut galaxy, 0, 1).unwrap();
    init_make_portal(&mut galaxy, 1, 2).unwrap();
    init_make_portal(&mut galaxy, 3, 1).unwrap();
    init_make_portal(&mut galaxy, 3, 2).unwrap();
    register_gate_system(&mut galaxy);
    galaxy
}

#[test]
fn au_conversion_exact() {
    assert_eq!(au_to_system(1), 1_500_000_000);
    assert_eq!(au_to_system(10), 15_000_000_000);
    assert_eq!(au_to_system(-2), -3_000_000_000);
}

#[test]
fn distance_of_pythagorean_triple() {
    assert_eq!(sim_distance(&pos(0, 0, 0), &pos(3, 4, 0)), 5);
    assert_eq!(sim_distance(&pos(1, 1, 1), &pos(1, 1, 1)), 0);
    assert_eq!(sim_distance(&pos(0, 0, 0), &pos(0, 0, 10)), 10);
    // rounded down
    assert_eq!(sim_distance(&pos(0, 0, 0), &pos(1, 1, 0)), 1);
}

#[test]
fn coincident_systems_are_rejected() {
    let positions = vec![pos(5, 5, 0), pos(5, 5, 0)];
    let mut galaxy = new_galaxy(positions);
    let res = init_make_portal(&mut galaxy, 0, 1);
    assert_eq!(res, Err(GalaxyError::CoincidentSystems));
    assert_eq!(galaxy.gates.len(), 0);
}

#[test]
fn gate_pair_positions_follow_the_standoff() {
    // two systems 20 au apart along the x axis: each gate stands 10 au from
    // its own system's origin, pointing at the other system
    let positions = vec![pos(0, 0, 0), pos(30_000_000_000, 0, 0)];
    let mut galaxy = new_galaxy(positions);
    init_make_portal(&mut galaxy, 0, 1).unwrap();
    assert_eq!(galaxy.gates.len(), 2);
    let ga = &galaxy.gates[0];
    let gb = &galaxy.gates[1];
    assert_eq!(ga.pos, pos(15_000_000_000, 0, 0));
    assert_eq!(gb.pos, pos(-15_000_000_000, 0, 0));
    assert_eq!(ga.system, 0);
    assert_eq!(ga.destination, 1);
    assert_eq!(gb.system, 1);
    assert_eq!(gb.destination, 0);
    assert_eq!(ga.paired, 1);
    assert_eq!(gb.paired, 0);
    assert!(!ga.registered);
    assert!(!gb.registered);
}

#[test]
fn gate_pairing_is_symmetric_in_the_maps() {
    let galaxy = demo_galaxy();
    for s in 0..galaxy.systems.len() {
        for entry in &galaxy.systems[s].gates {
            // the named gates belong where the entry says
            assert_eq!(galaxy.gates[entry.gate_from].system, s);
            assert_eq!(galaxy.gates[entry.gate_from].destination, entry.dest);
            assert!(galaxy.gates[entry.gate_from].registered);
            // and the destination system carries the mirror entry
            let mirror = galaxy.systems[entry.dest]
                .gates
                .iter()
                .find(|e| e.dest == s)
                .expect("mirror entry");
            assert_eq!(mirror.gate_from, entry.gate_to);
            assert_eq!(mirror.gate_to, entry.gate_from);
        }
    }
}

#[test]
fn route_lengths_match_shortest_hop_counts() {
    let galaxy = demo_galaxy();
    let adj = galaxy_adjacency(&galaxy);
    let map = generate_map_pathfinding_system(&adj);
    // directly connected pairs get one hop
    assert_eq!(map.lookup(0, 1).as_ref().unwrap().len(), 1);
    assert_eq!(map.lookup(1, 2).as_ref().unwrap().len(), 1);
    assert_eq!(map.lookup(3, 1).as_ref().unwrap().len(), 1);
    assert_eq!(map.lookup(3, 2).as_ref().unwrap().len(), 1);
    assert_eq!(map.lookup(1, 0).as_ref().unwrap().len(), 1);
    // two hops across the diamond
    assert_eq!(map.lookup(0, 2).as_ref().unwrap().len(), 2);
    assert_eq!(map.lookup(0, 3).as_ref().unwrap().len(), 2);
    assert_eq!(map.lookup(2, 0).as_ref().unwrap().len(), 2);
    // every route ends at its destination
    for o in 0..4 {
        for d in 0..4 {
            match map.lookup(o, d) {
                Some(route) => {
                    assert_ne!(o, d);
                    assert_eq!(*route.last().unwrap(), d);
                }
                None => assert_eq!(o, d),
            }
        }
    }
}

#[test]
fn route_from_origin_to_far_corner_goes_via_the_hub() {
    let galaxy = demo_galaxy();
    let adj = galaxy_adjacency(&galaxy);
    let map = generate_map_pathfinding_system(&adj);
    // system 0 reaches system 3 only through 1 or 2; gate registration
    // order makes 1 the stable choice
    assert_eq!(map.lookup(0, 3).as_ref().unwrap().as_slice(), &[1, 3]);
}

#[test]
fn rebuilding_the_route_table_changes_nothing() {
    let galaxy = demo_galaxy();
    let adj = galaxy_adjacency(&galaxy);
    let first = generate_map_pathfinding_system(&adj);
    let second = generate_map_pathfinding_system(&adj);
    assert_eq!(first.routes, second.routes);
}

#[test]
fn unreachable_pairs_have_no_entry() {
    let au = au_to_system(10);
    let positions = vec![pos(0, 0, 0), pos(10 * au, 0, 0), pos(0, 10 * au, 0)];
    let mut galaxy = new_galaxy(positions);
    init_make_portal(&mut galaxy, 0, 1).unwrap();
    register_gate_system(&mut galaxy);
    let adj = galaxy_adjacency(&galaxy);
    let map = generate_map_pathfinding_system(&adj);
    assert!(map.lookup(0, 1).is_some());
    assert!(map.lookup(0, 2).is_none());
    assert!(map.lookup(2, 0).is_none());
    assert!(map.lookup(2, 1).is_none());
}

#[test]
fn get_route_finds_the_direct_hop() {
    let galaxy = demo_galaxy();
    let adj = galaxy_adjacency(&galaxy);
    let route = get_route(&adj, 0, 1).unwrap();
    assert_eq!(route.as_slice(), &[1]);
    let two_hops = get_route(&adj, 0, 2).unwrap();
    assert_eq!(two_hops.as_slice(), &[1, 2]);
}

#[test]
fn scattered_points_stay_within_their_radius() {
    let center = pos(1000, 2000, 77);
    for _ in 0..20 {
        let p = around_pos(center, 500);
        let dx = (p.x - center.x) as i128;
        let dy = (p.y - center.y) as i128;
        assert!(dx * dx + dy * dy <= 500 * 500);
        assert_eq!(p.z, center.z);
    }
}

#[test]
fn zero_radius_scatter_is_the_point_itself() {
    let center = pos(-5, 9, 3);
    assert_eq!(around_pos(center, 0), center);
}
