use traffic_sim::road::path::{NodePathIdx, Path, PathError};
use traffic_sim::road::{RoadNodeIdx, RoadPoint, RoadSegmentIdx, Roads};

fn route(nodes: &[usize]) -> Path {
    let mut path = Path::new();
    path.append(nodes.iter().map(|n| RoadNodeIdx(*n)).collect());
    path
}

fn nodes_of(path: &Path) -> Vec<usize> {
    path.nodes().iter().map(|n| n.0).collect()
}

const STREET: u64 = 30_000_000;

#[test]
fn a_new_path_is_empty() {
    let path = Path::new();
    assert!(path.nodes().is_empty());
    assert_eq!(path.total_distance(&Roads::new()), Ok(0));
}

#[test]
fn append_extends_the_tail() {
    let mut path = route(&[0, 1]);
    path.append(vec![RoadNodeIdx(2), RoadNodeIdx(6)]);
    path.append(vec![]);
    path.append(vec![RoadNodeIdx(7)]);
    assert_eq!(nodes_of(&path), vec![0, 1, 2, 6, 7]);
}

#[test]
fn a_node_is_found_where_it_first_occurs() {
    let path = route(&[4, 5, 6, 5, 4]);
    assert_eq!(path.get_node_path_idx(RoadNodeIdx(4)), Some(NodePathIdx(0)));
    assert_eq!(path.get_node_path_idx(RoadNodeIdx(5)), Some(NodePathIdx(1)));
    assert_eq!(path.get_node_path_idx(RoadNodeIdx(6)), Some(NodePathIdx(2)));
    assert_eq!(path.get_node_path_idx(RoadNodeIdx(7)), None);
    assert_eq!(Path::new().get_node_path_idx(RoadNodeIdx(0)), None);
}

#[test]
fn the_segment_after_a_node_leads_to_the_next_node() {
    let roads = Roads::new();
    let path = route(&[0, 1, 5, 4, 0]);
    let after = |i: usize| path.get_segment_following_node_path(NodePathIdx(i), &roads);
    assert_eq!(after(0), Ok(RoadSegmentIdx(0)));
    assert_eq!(after(1), Ok(RoadSegmentIdx(30)));
    assert_eq!(after(2), Ok(RoadSegmentIdx(7)));
    assert_eq!(after(3), Ok(RoadSegmentIdx(25)));
    assert_eq!(after(4), Err(PathError::EndOfPath));
    assert_eq!(after(17), Err(PathError::EndOfPath));
}

#[test]
fn nodes_that_no_segment_joins_are_reported() {
    let roads = Roads::new();
    let path = route(&[0, 5, 99, 1]);
    let after = |i: usize| path.get_segment_following_node_path(NodePathIdx(i), &roads);
    assert_eq!(after(0), Err(PathError::NoConnectingSegment));
    assert_eq!(after(1), Err(PathError::NoConnectingSegment));
    assert_eq!(after(2), Err(PathError::NoConnectingSegment));
}

#[test]
fn the_first_of_two_segments_between_the_same_nodes_is_taken() {
    let mut roads = Roads::empty();
    let a = roads.add_node(0, 0).unwrap();
    let b = roads.add_node(10, 0).unwrap();
    roads.add_segment(a, b, vec![(5, 5)]).unwrap();
    roads.add_segment(a, b, vec![]).unwrap();
    let path = route(&[0, 1]);
    assert_eq!(path.get_segment_following_node_path(NodePathIdx(0), &roads), Ok(RoadSegmentIdx(0)));
    assert_eq!(path.total_distance(&roads), Ok(16));
}

#[test]
fn moving_within_a_segment_adds_to_the_position() {
    let roads = Roads::new();
    let mut path = Path::new();
    let mut position = RoadPoint::new(RoadSegmentIdx(0), 5);
    assert_eq!(path.move_by(&mut position, 0, &roads), Ok(()));
    assert_eq!(position, RoadPoint::new(RoadSegmentIdx(0), 5));
    assert_eq!(path.move_by(&mut position, 1_000, &roads), Ok(()));
    assert_eq!(position, RoadPoint::new(RoadSegmentIdx(0), 1_005));
    assert_eq!(path.move_by(&mut position, STREET - 1_005, &roads), Ok(()));
    assert_eq!(position, RoadPoint::new(RoadSegmentIdx(0), STREET));
}

#[test]
fn moving_across_segments_follows_the_route() {
    let roads = Roads::new();
    let mut path = route(&[0, 1, 2, 6]);
    let mut position = RoadPoint::new(RoadSegmentIdx(0), 10_000_000);
    assert_eq!(path.move_by(&mut position, 25_000_000, &roads), Ok(()));
    assert_eq!(position, RoadPoint::new(RoadSegmentIdx(2), 5_000_000));
    assert_eq!(path.move_by(&mut position, 25_000_001, &roads), Ok(()));
    assert_eq!(position, RoadPoint::new(RoadSegmentIdx(36), 1));
    assert_eq!(nodes_of(&path), vec![0, 1, 2, 6]);
}

#[test]
fn moving_from_the_end_of_a_segment_crosses_to_the_next() {
    let roads = Roads::new();
    let mut path = route(&[0, 1, 2]);
    let mut position = RoadPoint::new(RoadSegmentIdx(0), STREET);
    assert_eq!(path.move_by(&mut position, 1, &roads), Ok(()));
    assert_eq!(position, RoadPoint::new(RoadSegmentIdx(2), 1));
}

#[test]
fn moving_beyond_the_route_stops_at_its_last_node() {
    let roads = Roads::new();
    let mut path = route(&[0, 1, 2]);
    let mut position = RoadPoint::new(RoadSegmentIdx(0), 0);
    assert_eq!(path.move_by(&mut position, 2 * STREET + 1, &roads), Err(PathError::EndOfPath));
    assert_eq!(position, RoadPoint::new(RoadSegmentIdx(2), STREET));
}

#[test]
fn moving_off_a_route_that_lacks_the_current_node_fails() {
    let roads = Roads::new();
    let mut path = route(&[4, 5]);
    let mut position = RoadPoint::new(RoadSegmentIdx(0), 0);
    assert_eq!(path.move_by(&mut position, STREET + 1, &roads), Err(PathError::NodeNotInPath));
    assert_eq!(position, RoadPoint::new(RoadSegmentIdx(0), STREET));
    let mut empty = Path::new();
    let mut position = RoadPoint::new(RoadSegmentIdx(0), 0);
    assert_eq!(empty.move_by(&mut position, STREET + 1, &roads), Err(PathError::NodeNotInPath));
}

#[test]
fn moving_along_a_route_with_a_gap_fails_at_the_gap() {
    let roads = Roads::new();
    let mut path = route(&[0, 1, 6]);
    let mut position = RoadPoint::new(RoadSegmentIdx(0), 0);
    assert_eq!(
        path.move_by(&mut position, STREET + 1, &roads),
        Err(PathError::NoConnectingSegment)
    );
    assert_eq!(position, RoadPoint::new(RoadSegmentIdx(0), STREET));
}

#[test]
fn advancing_by_the_total_distance_lands_on_the_last_node() {
    let roads = Roads::new();
    let mut path = route(&[0, 1, 2, 3, 7, 11]);
    let total = path.total_distance(&roads).unwrap();
    assert_eq!(total, 5 * STREET as u128);
    let mut position = RoadPoint::new(RoadSegmentIdx(0), 0);
    assert_eq!(path.move_by(&mut position, total as u64, &roads), Ok(()));
    assert_eq!(position, RoadPoint::new(RoadSegmentIdx(44), STREET));
    assert_eq!(roads.segment_to(position.road_segment), RoadNodeIdx(11));
    assert_eq!(path.distance_left(&position, &roads), Ok(0));
}

#[test]
fn a_round_trip_over_a_closed_loop_returns_to_the_start() {
    let roads = Roads::new();
    let mut path = route(&[0, 1, 5, 4, 0]);
    let total = path.total_distance(&roads).unwrap();
    assert_eq!(total, 4 * STREET as u128);
    let mut position = RoadPoint::new(RoadSegmentIdx(0), 0);
    let start = roads.get_position_xy(&position);
    assert_eq!(path.move_by(&mut position, total as u64, &roads), Ok(()));
    assert_eq!(position, RoadPoint::new(RoadSegmentIdx(25), STREET));
    assert_eq!(roads.segment_to(position.road_segment), RoadNodeIdx(0));
    assert_eq!(roads.get_position_xy(&position), start);
}

#[test]
fn a_ring_is_travelled_round_and_round() {
    let roads = Roads::ring(0, 0, vec![(50, 0), (50, 50), (0, 50)]).unwrap();
    let mut path = route(&[0, 0]);
    assert_eq!(path.total_distance(&roads), Ok(200));
    let mut position = RoadPoint::new(RoadSegmentIdx(0), 0);
    assert_eq!(path.move_by(&mut position, 200, &roads), Ok(()));
    assert_eq!(position, RoadPoint::new(RoadSegmentIdx(0), 200));
    assert_eq!(path.move_by(&mut position, 1_030, &roads), Ok(()));
    assert_eq!(position, RoadPoint::new(RoadSegmentIdx(0), 30));
}

#[test]
fn total_distance_sums_the_segments() {
    let roads = Roads::new();
    assert_eq!(route(&[]).total_distance(&roads), Ok(0));
    assert_eq!(route(&[3]).total_distance(&roads), Ok(0));
    assert_eq!(route(&[3, 7]).total_distance(&roads), Ok(STREET as u128));
    assert_eq!(route(&[0, 4, 8, 12, 13, 14, 15]).total_distance(&roads), Ok(6 * STREET as u128));
    assert_eq!(route(&[0, 4, 9]).total_distance(&roads), Err(PathError::NoConnectingSegment));
    assert_eq!(route(&[0, 16]).total_distance(&roads), Err(PathError::NoConnectingSegment));
}

#[test]
fn distance_left_counts_from_the_position_to_the_end() {
    let roads = Roads::new();
    let path = route(&[0, 1, 2, 3]);
    let left = |segment: usize, position: u64| {
        path.distance_left(&RoadPoint::new(RoadSegmentIdx(segment), position), &roads)
    };
    assert_eq!(left(0, 0), Ok(3 * STREET as u128));
    assert_eq!(left(0, 10_000_000), Ok(80_000_000));
    assert_eq!(left(2, STREET), Ok(STREET as u128));
    assert_eq!(left(4, 7), Ok((STREET - 7) as u128));
    // segment 24 leads from node 0 to node 4, which is not on the route
    assert_eq!(left(24, 0), Err(PathError::NodeNotInPath));
    // segment 1 leads back to node 0, from which the whole route lies ahead
    assert_eq!(left(1, 0), Ok(4 * STREET as u128));
}

#[test]
fn distance_left_on_a_route_with_a_gap_fails() {
    let roads = Roads::new();
    let path = route(&[0, 1, 6]);
    let here = RoadPoint::new(RoadSegmentIdx(0), 0);
    assert_eq!(path.distance_left(&here, &roads), Err(PathError::NoConnectingSegment));
}

#[test]
fn forgetting_drops_the_nodes_before_the_current_segment() {
    let roads = Roads::new();
    let mut path = route(&[0, 1, 2, 3, 7]);
    // segment 2 leads from node 1 to node 2
    path.forget_before(&RoadPoint::new(RoadSegmentIdx(2), 5), &roads);
    assert_eq!(nodes_of(&path), vec![1, 2, 3, 7]);
    path.forget_before(&RoadPoint::new(RoadSegmentIdx(2), 9), &roads);
    assert_eq!(nodes_of(&path), vec![1, 2, 3, 7]);
    // segment 42 leads from node 3 to node 7
    path.forget_before(&RoadPoint::new(RoadSegmentIdx(42), 0), &roads);
    assert_eq!(nodes_of(&path), vec![3, 7]);
}

#[test]
fn forgetting_is_a_no_op_when_the_node_is_not_on_the_route() {
    let roads = Roads::new();
    let mut path = route(&[1, 2, 3]);
    // segment 0 leads from node 0, which is not on the route
    path.forget_before(&RoadPoint::new(RoadSegmentIdx(0), 5), &roads);
    assert_eq!(nodes_of(&path), vec![1, 2, 3]);
    let mut empty = Path::new();
    empty.forget_before(&RoadPoint::new(RoadSegmentIdx(0), 5), &roads);
    assert!(empty.nodes().is_empty());
}

#[test]
fn forgetting_stops_at_the_first_occurrence() {
    let roads = Roads::new();
    let mut path = route(&[0, 1, 2, 1, 0]);
    path.forget_before(&RoadPoint::new(RoadSegmentIdx(2), 0), &roads);
    assert_eq!(nodes_of(&path), vec![1, 2, 1, 0]);
}

#[test]
fn a_route_that_revisits_a_node_is_followed_from_the_first_visit() {
    let roads = Roads::new();
    // node 0 is visited twice before the route ends at node 4
    let mut path = route(&[0, 1, 0, 4]);
    let total = path.total_distance(&roads).unwrap();
    assert_eq!(total, 3 * STREET as u128);
    let mut position = RoadPoint::new(RoadSegmentIdx(0), 0);
    assert_eq!(path.move_by(&mut position, total as u64, &roads), Ok(()));
    // back at node 0 the vehicle sets out for node 1 again
    assert_eq!(position, RoadPoint::new(RoadSegmentIdx(0), STREET));
    assert_eq!(roads.segment_to(position.road_segment), RoadNodeIdx(1));
}
