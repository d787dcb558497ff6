use traffic_sim::agent::car::{
    Car, CarError, INITIAL_SPEED, OPTIMAL_ACCELERATION, PLANNING_DISTANCE, SEEING_DISTANCE, SPEED,
};
use traffic_sim::road::path::PathError;
use traffic_sim::road::{RoadNodeIdx, RoadPoint, RoadSegmentIdx, Roads, Sign, SignType};

const KMH_30: u32 = 8_333_333;
const KMH_70: u32 = 19_444_444;
const METRE: u64 = 1_000_000;

fn on(segment: usize, position: u64) -> RoadPoint {
    RoadPoint::new(RoadSegmentIdx(segment), position)
}

fn limit(value: u32, segment: usize, position: u64) -> Sign {
    Sign { sign_type: SignType::SpeedLimit, value, position: on(segment, position) }
}

fn end_of_limit(segment: usize, position: u64) -> Sign {
    Sign { sign_type: SignType::EndSpeedLimit, value: 0, position: on(segment, position) }
}

/// A straight kilometre from node 0 to node 1 and back, with a limit of
/// 30 km/h from 200 m on that ends at 500 m.
fn signed_road() -> Roads {
    let mut roads = Roads::empty();
    let a = roads.add_node(0, 0).unwrap();
    let b = roads.add_node(1_000 * METRE as i64, 0).unwrap();
    roads.add_segment(a, b, vec![]).unwrap();
    roads.add_segment(b, a, vec![]).unwrap();
    roads.add_sign(limit(KMH_30, 0, 200 * METRE)).unwrap();
    roads.add_sign(end_of_limit(0, 500 * METRE)).unwrap();
    roads
}

/// A square ring of 200 m with a limit of 70 km/h from 40 m on that ends at
/// 94 m.
fn signed_ring() -> Roads {
    let side = 50 * METRE as i64;
    let mut roads = Roads::ring(0, 0, vec![(side, 0), (side, side), (0, side)]).unwrap();
    roads.add_sign(limit(KMH_70, 0, 40 * METRE)).unwrap();
    roads.add_sign(end_of_limit(0, 94 * METRE)).unwrap();
    roads
}

fn car_on(roads: &Roads, position: u64) -> Car {
    let car = Car::with_trip(on(0, position), on(0, 0), on(1, 0));
    assert!(car.fits(roads));
    car
}

#[test]
fn constants_are_in_micrometres_and_seconds() {
    assert_eq!(SPEED, 22_222_222);
    assert_eq!(INITIAL_SPEED, 13_888_889);
    assert_eq!(OPTIMAL_ACCELERATION, 1_373_400);
    assert_eq!(SEEING_DISTANCE, 100_000_000);
    assert_eq!(PLANNING_DISTANCE, 100_000_000);
}

#[test]
fn a_new_car_sets_out_at_its_initial_speed() {
    let car = Car::new(on(0, 0));
    assert_eq!(car.position(), on(0, 0));
    assert_eq!(car.speed(), INITIAL_SPEED);
    assert_eq!(car.target_speed(), INITIAL_SPEED);
    assert_eq!(car.current_speed_limit(), SPEED);
    assert!(car.incoming_speed_limits().is_empty());
    assert!(car.planned_trip().nodes().is_empty());
    assert!(!car.is_back());
}

#[test]
fn a_car_fits_the_network_it_is_on() {
    let mesh = Roads::new();
    assert!(Car::new(on(0, 0)).fits(&mesh));
    assert!(Car::new(on(47, 30 * METRE)).fits(&mesh));
    assert!(!Car::new(on(47, 30 * METRE + 1)).fits(&mesh));
    assert!(!Car::new(on(48, 0)).fits(&mesh));
    let ring = signed_ring();
    // the usual trip leads to segment 23, which a ring does not have
    assert!(!Car::new(on(0, 0)).fits(&ring));
    assert!(Car::with_trip(on(0, 0), on(0, 0), on(0, 0)).fits(&ring));
    assert!(!Car::with_trip(on(0, 0), on(0, 0), on(1, 0)).fits(&ring));
}

#[test]
fn a_step_at_the_target_speed_keeps_the_speed() {
    let roads = signed_road();
    let mut car = car_on(&roads, 0);
    assert_eq!(car.step(100_000, &roads), Ok(()));
    assert_eq!(car.speed(), INITIAL_SPEED);
    // 13.888889 m/s for 0.1 s
    assert_eq!(car.position(), on(0, 1_388_888));
}

#[test]
fn a_step_below_the_target_speed_gains_speed() {
    let roads = signed_road();
    let mut car = car_on(&roads, 0);
    car.retarget(&roads);
    assert_eq!(car.target_speed(), SPEED);
    assert_eq!(car.step(100_000, &roads), Ok(()));
    // 1.3734 m/s² for 0.1 s
    assert_eq!(car.speed(), INITIAL_SPEED + 137_340);
    assert_eq!(car.position(), on(0, 1_402_622));
}

#[test]
fn a_step_never_overshoots_the_target_speed() {
    let roads = signed_road();
    let mut car = car_on(&roads, 0);
    car.retarget(&roads);
    // 10 s would add 13.7 m/s; the target is 8.3 m/s away
    assert_eq!(car.step(10_000_000, &roads), Ok(()));
    assert_eq!(car.speed(), SPEED);
    assert_eq!(car.position(), on(0, 222_222_220));
}

#[test]
fn a_step_above_the_target_speed_loses_speed() {
    let roads = signed_road();
    let mut car = car_on(&roads, 160 * METRE);
    car.observe(&roads);
    car.retarget(&roads);
    assert_eq!(car.target_speed(), KMH_30);
    assert_eq!(car.step(100_000, &roads), Ok(()));
    assert_eq!(car.speed(), INITIAL_SPEED - 137_340);
    assert_eq!(car.position(), on(0, 160 * METRE + 1_375_154));
    // 5 s would take 6.9 m/s off; the target is 5.4 m/s below
    assert_eq!(car.step(5_000_000, &roads), Ok(()));
    assert_eq!(car.speed(), KMH_30);
}

#[test]
fn a_step_of_no_time_changes_nothing() {
    let roads = signed_road();
    let mut car = car_on(&roads, 7);
    car.retarget(&roads);
    assert_eq!(car.step(0, &roads), Ok(()));
    assert_eq!(car.speed(), INITIAL_SPEED);
    assert_eq!(car.position(), on(0, 7));
}

#[test]
fn a_step_off_the_planned_trip_fails() {
    let roads = Roads::new();
    let mut car = Car::new(on(0, 0));
    // 3 s at 50 km/h are more than the 30 m of the segment
    assert_eq!(car.step(3_000_000, &roads), Err(PathError::NodeNotInPath));
    assert_eq!(car.position(), on(0, 30 * METRE));
}

#[test]
fn signs_are_remembered_when_they_come_in_sight() {
    let roads = signed_road();
    let mut car = car_on(&roads, 100 * METRE);
    car.observe(&roads);
    assert!(car.incoming_speed_limits().is_empty());
    let mut car = car_on(&roads, 100 * METRE + 1);
    car.observe(&roads);
    assert_eq!(car.incoming_speed_limits(), &vec![(on(0, 200 * METRE), KMH_30)]);
}

#[test]
fn the_end_of_a_limit_is_remembered_as_the_usual_speed() {
    let roads = signed_road();
    let mut car = car_on(&roads, 450 * METRE);
    car.observe(&roads);
    assert_eq!(car.incoming_speed_limits(), &vec![(on(0, 500 * METRE), SPEED)]);
}

#[test]
fn seeing_a_sign_twice_remembers_it_once() {
    let roads = signed_road();
    let mut car = car_on(&roads, 150 * METRE);
    car.observe(&roads);
    let once = car.incoming_speed_limits().clone();
    assert_eq!(once, vec![(on(0, 200 * METRE), KMH_30)]);
    car.observe(&roads);
    assert_eq!(car.incoming_speed_limits(), &once);
    // a little farther the sign is still in sight
    assert_eq!(car.step(100_000, &roads), Ok(()));
    car.observe(&roads);
    assert_eq!(car.incoming_speed_limits(), &once);
}

#[test]
fn of_two_signs_at_one_point_the_first_is_remembered() {
    let mut roads = signed_road();
    roads.add_sign(limit(KMH_70, 0, 200 * METRE)).unwrap();
    roads.add_sign(limit(KMH_70, 0, 210 * METRE)).unwrap();
    let mut car = car_on(&roads, 150 * METRE);
    car.observe(&roads);
    assert_eq!(
        car.incoming_speed_limits(),
        &vec![(on(0, 200 * METRE), KMH_30), (on(0, 210 * METRE), KMH_70)]
    );
}

#[test]
fn the_target_speed_is_the_limit_in_force_while_no_sign_binds() {
    let roads = signed_road();
    let mut car = car_on(&roads, 0);
    car.retarget(&roads);
    assert_eq!(car.target_speed(), SPEED);
    assert_eq!(car.current_speed_limit(), SPEED);
}

#[test]
fn a_limit_binds_from_the_braking_distance_on() {
    let roads = signed_road();
    // (13 888 889² − 8 333 333²) / (2 · 1 373 400) = 44 945 681.8 µm
    let mut car = car_on(&roads, 200 * METRE - 44_945_682);
    car.observe(&roads);
    car.retarget(&roads);
    assert_eq!(car.target_speed(), SPEED);
    let mut car = car_on(&roads, 200 * METRE - 44_945_681);
    car.observe(&roads);
    car.retarget(&roads);
    assert_eq!(car.target_speed(), KMH_30);
    assert_eq!(car.current_speed_limit(), SPEED);
}

#[test]
fn a_limit_is_in_force_once_its_sign_is_passed() {
    let roads = signed_road();
    let mut car = car_on(&roads, 200 * METRE - 100_000);
    car.observe(&roads);
    car.retarget(&roads);
    assert_eq!(car.target_speed(), KMH_30);
    assert_eq!(car.step(100_000, &roads), Ok(()));
    assert_eq!(car.position(), on(0, 200 * METRE - 100_000 + 1_375_154));
    car.observe(&roads);
    car.retarget(&roads);
    assert_eq!(car.current_speed_limit(), KMH_30);
    assert_eq!(car.target_speed(), KMH_30);
    car.forget_passed(&roads);
    assert!(car.incoming_speed_limits().is_empty());
    // the limit stays in force when its sign is forgotten
    car.retarget(&roads);
    assert_eq!(car.current_speed_limit(), KMH_30);
    assert_eq!(car.target_speed(), KMH_30);
}

#[test]
fn a_sign_is_passed_when_the_car_is_at_it() {
    let roads = signed_road();
    let mut car = car_on(&roads, 200 * METRE - 1_375_154);
    car.observe(&roads);
    car.retarget(&roads);
    assert_eq!(car.step(100_000, &roads), Ok(()));
    assert_eq!(car.position(), on(0, 200 * METRE));
    car.retarget(&roads);
    assert_eq!(car.current_speed_limit(), KMH_30);
    car.forget_passed(&roads);
    assert!(car.incoming_speed_limits().is_empty());
}

#[test]
fn signs_ahead_are_not_forgotten() {
    let roads = signed_road();
    let mut car = car_on(&roads, 150 * METRE);
    car.observe(&roads);
    car.forget_passed(&roads);
    assert_eq!(car.incoming_speed_limits(), &vec![(on(0, 200 * METRE), KMH_30)]);
}

#[test]
fn signs_of_a_segment_that_was_left_are_passed() {
    let mut roads = signed_road();
    // a sign at the very end of the segment
    roads.add_sign(limit(KMH_70, 0, 1_000 * METRE)).unwrap();
    let mut car = car_on(&roads, 990 * METRE);
    car.extend_trip(vec![RoadNodeIdx(0), RoadNodeIdx(1), RoadNodeIdx(0)]);
    car.observe(&roads);
    assert_eq!(car.incoming_speed_limits(), &vec![(on(0, 1_000 * METRE), KMH_70)]);
    car.retarget(&roads);
    assert_eq!(car.current_speed_limit(), SPEED);
    assert_eq!(car.target_speed(), KMH_70);
    assert_eq!(car.step(1_000_000, &roads), Ok(()));
    // 15.262289 m in this second: 10 m to the end of the segment, the rest on the next
    assert_eq!(car.speed(), INITIAL_SPEED + 1_373_400);
    assert_eq!(car.position(), on(1, 5_262_289));
    car.retarget(&roads);
    assert_eq!(car.current_speed_limit(), KMH_70);
    assert_eq!(car.target_speed(), KMH_70);
    car.forget_passed(&roads);
    assert!(car.incoming_speed_limits().is_empty());
}

#[test]
fn forgetting_history_can_cut_a_trip_that_returns_to_its_start() {
    let roads = signed_road();
    // the trip leads from node 1 to node 1, and back from node 0 to node 0
    let mut car = car_on(&roads, 0);
    assert_eq!(car.update(1_000, &roads), Ok(()));
    assert_eq!(car.planned_trip().nodes(), &vec![RoadNodeIdx(1)]);
    // node 0, where the car's segment starts, is first met at the trip's
    // end, so all before it is forgotten
    assert_eq!(car.update(1_000, &roads), Ok(()));
    assert_eq!(car.planned_trip().nodes(), &vec![RoadNodeIdx(0)]);
}

#[test]
fn a_limit_on_a_ring_is_kept_and_lifted() {
    let roads = signed_ring();
    let sign = 40 * METRE;
    let end = 94 * METRE;
    let mut car = Car::with_trip(on(0, 0), on(0, 0), on(0, 0));
    assert!(car.fits(&roads));
    assert!(car.target_speed() < KMH_70);
    let mut lap = 0;
    let mut passed_sign = false;
    let mut passed_end = false;
    for _ in 0..400 {
        let before = car.position().position;
        assert_eq!(car.update(50_000, &roads), Ok(()));
        assert!(car.fits(&roads));
        let here = car.position().position;
        if here < before {
            lap += 1;
        }
        if lap > 0 {
            break;
        }
        if here <= end {
            // up to the end of the limit the car keeps to it
            assert!(car.speed() <= KMH_70);
            assert!(car.target_speed() <= KMH_70);
        }
        if here >= sign && !passed_sign {
            passed_sign = true;
            assert!(car.speed() <= KMH_70);
            assert_eq!(car.current_speed_limit(), KMH_70);
        }
        if here > sign && here < end {
            assert_eq!(car.target_speed(), KMH_70);
            assert_eq!(car.current_speed_limit(), KMH_70);
        }
        if here >= end {
            passed_end = true;
            assert_eq!(car.current_speed_limit(), SPEED);
            assert_eq!(car.target_speed(), SPEED);
            assert!(car.incoming_speed_limits().is_empty());
        }
    }
    assert!(passed_sign);
    assert!(passed_end);
    assert_eq!(lap, 1);
    assert_eq!(car.speed(), SPEED);
}

#[test]
fn a_car_plans_its_trip_across_the_mesh() {
    let roads = Roads::new();
    let mut car = Car::new(on(0, 0));
    assert_eq!(car.needs_path(&roads), Ok(true));
    assert_eq!(car.update(16_667, &roads), Ok(()));
    let trip = car.planned_trip().nodes().clone();
    assert_eq!(trip.first(), Some(&RoadNodeIdx(1)));
    assert_eq!(trip.last(), Some(&RoadNodeIdx(15)));
    assert_eq!(car.planned_trip().total_distance(&roads), Ok(150_000_000));
    assert!(car.is_back());
    assert_eq!(car.needs_path(&roads), Ok(false));
    // 13 888 889 µm/s for 16 667 µs
    assert_eq!(car.position(), on(0, 231_486));
    assert_eq!(car.target_speed(), SPEED);
}

#[test]
fn a_car_travels_to_and_fro_across_the_mesh() {
    let roads = Roads::new();
    let mut car = Car::new(on(0, 0));
    let mut at_far_corner = 0;
    let mut at_near_corner = 0;
    for _ in 0..6_000 {
        let before = car.position();
        assert_eq!(car.update(50_000, &roads), Ok(()));
        assert!(car.fits(&roads));
        assert!(car.planned_trip().nodes().len() <= 20);
        let here = car.position();
        if here.road_segment != before.road_segment {
            if roads.segment_from(here.road_segment) == RoadNodeIdx(15) {
                at_far_corner += 1;
            }
            if roads.segment_from(here.road_segment) == RoadNodeIdx(0) {
                at_near_corner += 1;
            }
        }
    }
    // 300 s at 80 km/h are 6.6 km, a round trip is 360 m
    assert!(at_far_corner >= 15);
    assert!(at_near_corner >= 15);
    assert_eq!(car.speed(), SPEED);
}

#[test]
fn extending_the_trip_turns_the_planning_round() {
    let mut car = Car::new(on(0, 0));
    car.extend_trip(vec![RoadNodeIdx(1), RoadNodeIdx(2)]);
    assert!(car.is_back());
    car.extend_trip(vec![RoadNodeIdx(3)]);
    assert!(!car.is_back());
    assert_eq!(
        car.planned_trip().nodes(),
        &vec![RoadNodeIdx(1), RoadNodeIdx(2), RoadNodeIdx(3)]
    );
}

#[test]
fn a_long_trip_is_tidied_and_a_short_one_is_not() {
    let roads = Roads::new();
    // segment 2 leads from node 1 to node 2
    let mut car = Car::new(on(2, 0));
    car.extend_trip((0..4).map(RoadNodeIdx).collect());
    // 90 m are not more than the planning distance
    assert_eq!(car.tidy_trip(&roads), Ok(()));
    assert_eq!(car.planned_trip().nodes().len(), 4);
    car.extend_trip(vec![RoadNodeIdx(7), RoadNodeIdx(11)]);
    assert_eq!(car.tidy_trip(&roads), Ok(()));
    let left: Vec<usize> = car.planned_trip().nodes().iter().map(|n| n.0).collect();
    assert_eq!(left, vec![1, 2, 3, 7, 11]);
}

#[test]
fn a_trip_with_a_gap_cannot_be_maintained() {
    let roads = Roads::new();
    let mut car = Car::new(on(0, 0));
    car.extend_trip(vec![RoadNodeIdx(1), RoadNodeIdx(6)]);
    assert_eq!(car.needs_path(&roads), Err(PathError::NoConnectingSegment));
    assert_eq!(car.tidy_trip(&roads), Err(CarError::Path(PathError::NoConnectingSegment)));
    assert_eq!(car.check_path(&roads), Err(CarError::Path(PathError::NoConnectingSegment)));
    assert_eq!(car.update(1_000, &roads), Err(CarError::Path(PathError::NoConnectingSegment)));
}

#[test]
fn a_car_that_has_left_its_trip_cannot_be_maintained() {
    let roads = Roads::new();
    // segment 24 leads from node 0 to node 4
    let mut car = Car::new(on(24, 0));
    car.extend_trip((0..4).map(RoadNodeIdx).collect());
    car.extend_trip(vec![RoadNodeIdx(7)]);
    assert_eq!(car.needs_path(&roads), Err(PathError::NodeNotInPath));
    assert_eq!(car.check_path(&roads), Err(CarError::Path(PathError::NodeNotInPath)));
}

#[test]
fn a_car_without_a_way_to_its_destination_fails() {
    let mut roads = Roads::empty();
    let a = roads.add_node(0, 0).unwrap();
    let b = roads.add_node(10 * METRE as i64, 0).unwrap();
    let c = roads.add_node(20 * METRE as i64, 0).unwrap();
    roads.add_segment(a, b, vec![]).unwrap();
    roads.add_segment(b, c, vec![]).unwrap();
    // from node 2, where segment 1 ends, nothing leads to node 0
    let mut car = Car::with_trip(on(0, 0), on(1, 0), on(0, 0));
    assert!(car.fits(&roads));
    assert_eq!(car.check_path(&roads), Err(CarError::NoPath));
    assert!(car.planned_trip().nodes().is_empty());
    assert!(!car.is_back());
    assert_eq!(car.update(1_000, &roads), Err(CarError::NoPath));
    assert_eq!(car.position(), on(0, 13_888));
}

#[test]
fn a_car_that_runs_off_its_trip_fails() {
    let roads = Roads::new();
    let mut car = Car::new(on(0, 0));
    assert_eq!(car.update(3_000_000, &roads), Err(CarError::Path(PathError::NodeNotInPath)));
    assert_eq!(car.position(), on(0, 30 * METRE));
    // nothing was planned in the failed step
    assert!(car.planned_trip().nodes().is_empty());
}
