//! Warp trigger decisions and the three-phase kinematics.

use galaxy_transit::galaxy::SimPosition;
use galaxy_transit::route::{DestoType, MoveMode, Ship};
use galaxy_transit::warp::{
    check_for_warp_system, init_warp_system, warp_movement_system, warp_run_to_completion,
    WarpPhase, Warping, RAMP_DISTANCE, WARP_TRIGGER_RANGE,
};

fn pos(x: i64, y: i64, z: i64) -> SimPosition {
    SimPosition { x, y, z }
}

fn ship_heading_for(target: SimPosition) -> Ship {
    Ship {
        coord: 0,
        pos: pos(0, 0, 0),
        desto: DestoType::DPosition(target),
        route: None,
        mode: MoveMode::Thrust,
    }
}

#[test]
fn nearby_destination_never_warps() {
    let ship = ship_heading_for(pos(50, 0, 0));
    assert!(!check_for_warp_system(&ship));
}

#[test]
fn distant_destination_warps() {
    let ship = ship_heading_for(pos(50_000, 0, 0));
    assert!(check_for_warp_system(&ship));
}

#[test]
fn trigger_range_is_a_strict_bound() {
    // exactly at the trigger range: no warp; one metre beyond: warp
    let at_range = ship_heading_for(pos(WARP_TRIGGER_RANGE, 0, 0));
    assert!(!check_for_warp_system(&at_range));
    let beyond = ship_heading_for(pos(WARP_TRIGGER_RANGE + 1, 0, 0));
    assert!(check_for_warp_system(&beyond));
}

#[test]
fn no_warp_while_already_warping_or_without_position_target() {
    let mut ship = ship_heading_for(pos(50_000, 0, 0));
    init_warp_system(&mut ship, 3);
    assert!(!check_for_warp_system(&ship));
    let no_target = Ship { desto: DestoType::DNone, ..ship_heading_for(pos(0, 0, 0)) };
    assert!(!check_for_warp_system(&no_target));
}

#[test]
fn warp_ends_one_metre_short_of_the_target_for_any_timestep() {
    let target = pos(50_000, 0, 0);
    for dt in [1u64, 7u64] {
        let mut ship = ship_heading_for(target);
        init_warp_system(&mut ship, 3);
        warp_run_to_completion(&mut ship, dt);
        // the deceleration ramp bottoms out at one metre of covered
        // distance left, exactly, for every timestep size
        assert!(matches!(ship.mode, MoveMode::Thrust));
        assert_eq!(ship.pos, pos(49_999, 0, 0));
    }
}

#[test]
fn warp_endpoint_is_exact_off_axis_too() {
    let target = pos(30_000, 40_000, 0);
    for dt in [1u64, 13u64] {
        let mut ship = ship_heading_for(target);
        init_warp_system(&mut ship, 2);
        warp_run_to_completion(&mut ship, dt);
        assert!((ship.pos.x - target.x).abs() <= 1);
        assert!((ship.pos.y - target.y).abs() <= 1);
        assert!((ship.pos.z - target.z).abs() <= 1);
    }
}

#[test]
fn warp_progress_is_monotone_and_continuous_at_phase_boundaries() {
    let target = pos(80_000, 0, 0);
    let mut ship = ship_heading_for(target);
    init_warp_system(&mut ship, 3);
    let mut last_x = ship.pos.x;
    let mut last_phase = WarpPhase::Accelerating;
    let mut steps = 0u64;
    while let MoveMode::Warp(w) = ship.mode {
        let phase_before: WarpPhase = w.current_phase;
        warp_movement_system(&mut ship, 1);
        // position never moves backward along the line of travel
        assert!(ship.pos.x >= last_x);
        if matches!(last_phase, WarpPhase::Accelerating) && matches!(
            phase_before,
            WarpPhase::Cruise
        ) {
            // the tick that entered cruise computed its position from a
            // fresh cruise accumulator, which covers exactly what the full
            // acceleration ramp covered: the position holds still
            assert_eq!(ship.pos.x, last_x);
        }
        last_phase = phase_before;
        last_x = ship.pos.x;
        steps += 1;
        assert!(steps < 1_000_000, "warp must terminate");
    }
    assert_eq!(ship.pos.x, 79_999);
}

#[test]
fn warp_state_records_its_start_and_derived_constants() {
    let target = pos(50_000, 0, 0);
    let mut ship = ship_heading_for(target);
    ship.pos = pos(1, 2, 3);
    init_warp_system(&mut ship, 3);
    match ship.mode {
        MoveMode::Warp(w) => {
            assert_eq!(w.from_pos, pos(1, 2, 3));
            assert_eq!(w.target, target);
            assert_eq!(w.speed, 3);
            assert_eq!(w.ramping, 0);
            assert_eq!(w.cruise_time, 0);
            assert!(matches!(w.current_phase, WarpPhase::Accelerating));
            // the cruise stretch is the distance minus both ramps, at
            // speed times ramp distance per time unit, rounded up
            let d = w.dist;
            let v = 3 * RAMP_DISTANCE;
            assert_eq!(w.cruise_max, (d - 2 * RAMP_DISTANCE + v - 1) / v);
        }
        _ => panic!("expected a warp"),
    }
}

#[test]
fn build_derives_the_straight_line_distance() {
    let w = Warping::build(1, pos(0, 0, 0), pos(30_000, 40_000, 0));
    assert_eq!(w.dist, 50_000);
}
