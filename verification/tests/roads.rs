use traffic_sim::road::{
    RoadError, RoadNodeIdx, RoadPoint, RoadSegmentIdx, Roads, Sign, SignType, MESH_SPACING,
};
use traffic_sim::road::geometry::COORDINATE_LIMIT;

fn bent_road() -> Roads {
    // from (0, 0) over a bend at (30, 40) to (30, 100): 50 + 60 units
    let mut roads = Roads::empty();
    let a = roads.add_node(0, 0).unwrap();
    let b = roads.add_node(30, 100).unwrap();
    roads.add_segment(a, b, vec![(30, 40)]).unwrap();
    roads
}

#[test]
fn mesh_has_sixteen_nodes_and_forty_eight_segments() {
    let roads = Roads::new();
    assert_eq!(roads.node_count(), 16);
    assert_eq!(roads.segment_count(), 48);
}

#[test]
fn mesh_nodes_lie_on_a_grid() {
    let roads = Roads::new();
    for i in 0..16usize {
        let expected = ((i % 4) as i64 * MESH_SPACING, (i / 4) as i64 * MESH_SPACING);
        assert_eq!(roads.node_xy(RoadNodeIdx(i)), expected);
    }
    assert_eq!(roads.node_xy(RoadNodeIdx(5)), (30_000_000, 30_000_000));
    assert_eq!(roads.node_xy(RoadNodeIdx(15)), (90_000_000, 90_000_000));
}

#[test]
fn mesh_streets_run_both_ways() {
    let roads = Roads::new();
    let ends = |s: usize| {
        (roads.segment_from(RoadSegmentIdx(s)).0, roads.segment_to(RoadSegmentIdx(s)).0)
    };
    assert_eq!(ends(0), (0, 1));
    assert_eq!(ends(1), (1, 0));
    assert_eq!(ends(4), (2, 3));
    assert_eq!(ends(6), (4, 5));
    assert_eq!(ends(22), (14, 15));
    assert_eq!(ends(23), (15, 14));
    assert_eq!(ends(24), (0, 4));
    assert_eq!(ends(26), (4, 8));
    assert_eq!(ends(30), (1, 5));
    assert_eq!(ends(46), (11, 15));
    assert_eq!(ends(47), (15, 11));
    for s in 0..48usize {
        assert_eq!(roads.segment_length(RoadSegmentIdx(s)), 30_000_000);
        assert!(roads.segment_keypoints(RoadSegmentIdx(s)).is_empty());
        assert!(roads.segment_signs(RoadSegmentIdx(s)).is_empty());
    }
}

#[test]
fn mesh_nodes_list_the_segments_that_leave_them() {
    let roads = Roads::new();
    assert_eq!(roads.node_segments(RoadNodeIdx(0)), &vec![RoadSegmentIdx(0), RoadSegmentIdx(24)]);
    let at_five: Vec<usize> = roads.node_segments(RoadNodeIdx(5)).iter().map(|s| s.0).collect();
    assert_eq!(at_five, vec![7, 8, 31, 32]);
    for n in 0..16usize {
        for s in roads.node_segments(RoadNodeIdx(n)) {
            assert_eq!(roads.segment_from(*s), RoadNodeIdx(n));
        }
    }
}

#[test]
fn a_node_outside_the_plane_is_refused() {
    let mut roads = Roads::empty();
    assert_eq!(roads.add_node(COORDINATE_LIMIT + 1, 0), Err(RoadError::CoordinateOutOfRange));
    assert_eq!(roads.add_node(0, -COORDINATE_LIMIT - 1), Err(RoadError::CoordinateOutOfRange));
    assert_eq!(roads.node_count(), 0);
    assert_eq!(roads.add_node(COORDINATE_LIMIT, -COORDINATE_LIMIT), Ok(RoadNodeIdx(0)));
    assert_eq!(roads.node_count(), 1);
}

#[test]
fn a_segment_is_measured_along_its_polyline() {
    let roads = bent_road();
    let s = RoadSegmentIdx(0);
    assert_eq!(roads.segment_length(s), 110);
    let keypoints = roads.segment_keypoints(s);
    assert_eq!(keypoints.len(), 1);
    assert_eq!((keypoints[0].position, keypoints[0].x, keypoints[0].y), (50, 30, 40));
    assert_eq!(roads.segment_from(s), RoadNodeIdx(0));
    assert_eq!(roads.segment_to(s), RoadNodeIdx(1));
    assert_eq!(roads.node_segments(RoadNodeIdx(0)), &vec![s]);
    assert!(roads.node_segments(RoadNodeIdx(1)).is_empty());
}

#[test]
fn pieces_that_are_not_whole_are_rounded_up() {
    let mut roads = Roads::empty();
    let a = roads.add_node(0, 0).unwrap();
    let b = roads.add_node(2, 2).unwrap();
    roads.add_segment(a, b, vec![(1, 1)]).unwrap();
    // two pieces of length sqrt(2), each counted as 2
    assert_eq!(roads.segment_length(RoadSegmentIdx(0)), 4);
    assert_eq!(roads.segment_keypoints(RoadSegmentIdx(0))[0].position, 2);
}

#[test]
fn a_segment_between_unknown_nodes_is_refused() {
    let mut roads = Roads::empty();
    let a = roads.add_node(0, 0).unwrap();
    assert_eq!(roads.add_segment(a, RoadNodeIdx(1), vec![]), Err(RoadError::UnknownNode));
    assert_eq!(roads.add_segment(RoadNodeIdx(7), a, vec![]), Err(RoadError::UnknownNode));
    assert_eq!(roads.segment_count(), 0);
    assert!(roads.node_segments(a).is_empty());
}

#[test]
fn a_keypoint_outside_the_plane_is_refused() {
    let mut roads = Roads::empty();
    let a = roads.add_node(0, 0).unwrap();
    let b = roads.add_node(10, 0).unwrap();
    assert_eq!(
        roads.add_segment(a, b, vec![(5, COORDINATE_LIMIT + 1)]),
        Err(RoadError::CoordinateOutOfRange)
    );
    assert_eq!(roads.segment_count(), 0);
}

#[test]
fn coinciding_points_are_refused() {
    let mut roads = Roads::empty();
    let a = roads.add_node(0, 0).unwrap();
    let b = roads.add_node(10, 0).unwrap();
    assert_eq!(roads.add_segment(a, a, vec![]), Err(RoadError::CoincidentPoints));
    assert_eq!(roads.add_segment(a, b, vec![(0, 0)]), Err(RoadError::CoincidentPoints));
    assert_eq!(roads.add_segment(a, b, vec![(10, 0)]), Err(RoadError::CoincidentPoints));
    assert_eq!(roads.add_segment(a, b, vec![(5, 5), (5, 5)]), Err(RoadError::CoincidentPoints));
    assert_eq!(roads.segment_count(), 0);
    assert!(roads.add_segment(a, a, vec![(5, 5)]).is_ok());
}

#[test]
fn a_polyline_too_long_to_measure_is_refused() {
    let l = COORDINATE_LIMIT;
    let mut roads = Roads::empty();
    let a = roads.add_node(-l, -l).unwrap();
    let b = roads.add_node(l, l).unwrap();
    // seven diagonals of the plane are longer than 2^64 units, six are not
    let zigzag = vec![(l, l), (-l, -l), (l, l), (-l, -l), (l, l), (-l, -l)];
    assert_eq!(roads.add_segment(a, b, zigzag), Err(RoadError::LengthOverflow));
    let shorter = vec![(l, l), (-l, -l), (l, l), (-l, -l)];
    assert_eq!(roads.add_segment(a, b, shorter), Ok(RoadSegmentIdx(0)));
    assert_eq!(roads.segment_length(RoadSegmentIdx(0)), 5 * 2_828_427_124_746_190_098);
}

#[test]
fn a_ring_is_one_segment_from_a_node_to_itself() {
    let roads = Roads::ring(0, 0, vec![(50, 0), (50, 50), (0, 50)]).unwrap();
    assert_eq!(roads.node_count(), 1);
    assert_eq!(roads.segment_count(), 1);
    assert_eq!(roads.segment_from(RoadSegmentIdx(0)), RoadNodeIdx(0));
    assert_eq!(roads.segment_to(RoadSegmentIdx(0)), RoadNodeIdx(0));
    assert_eq!(roads.segment_length(RoadSegmentIdx(0)), 200);
    assert_eq!(roads.get_position_xy(&RoadPoint::new(RoadSegmentIdx(0), 200)), (0, 0));
}

#[test]
fn a_ring_that_cannot_be_built_is_refused() {
    assert_eq!(Roads::ring(0, 0, vec![]).err(), Some(RoadError::CoincidentPoints));
    assert_eq!(
        Roads::ring(COORDINATE_LIMIT + 1, 0, vec![(1, 1)]).err(),
        Some(RoadError::CoordinateOutOfRange)
    );
    assert_eq!(
        Roads::ring(0, 0, vec![(COORDINATE_LIMIT + 1, 0)]).err(),
        Some(RoadError::CoordinateOutOfRange)
    );
}

#[test]
fn signs_must_stand_on_a_segment() {
    let mut roads = bent_road();
    let sign = |segment: usize, position: u64| Sign {
        sign_type: SignType::SpeedLimit,
        value: 10,
        position: RoadPoint::new(RoadSegmentIdx(segment), position),
    };
    assert_eq!(roads.add_sign(sign(1, 0)), Err(RoadError::UnknownSegment));
    assert_eq!(roads.add_sign(sign(0, 111)), Err(RoadError::BeyondSegment));
    assert!(roads.segment_signs(RoadSegmentIdx(0)).is_empty());
    assert_eq!(roads.add_sign(sign(0, 110)), Ok(()));
    assert_eq!(roads.add_sign(sign(0, 0)), Ok(()));
    let standing = roads.segment_signs(RoadSegmentIdx(0));
    assert_eq!(standing.len(), 2);
    assert_eq!(standing[0].position.position, 110);
    assert_eq!(standing[1].position.position, 0);
}

#[test]
fn points_are_told_from_positions_beyond_a_segment() {
    let roads = bent_road();
    assert!(roads.contains_point(&RoadPoint::new(RoadSegmentIdx(0), 0)));
    assert!(roads.contains_point(&RoadPoint::new(RoadSegmentIdx(0), 110)));
    assert!(!roads.contains_point(&RoadPoint::new(RoadSegmentIdx(0), 111)));
    assert!(!roads.contains_point(&RoadPoint::new(RoadSegmentIdx(1), 0)));
}

#[test]
fn positions_are_interpolated_on_the_piece_that_holds_them() {
    let roads = bent_road();
    let at = |position: u64| roads.get_position_xy(&RoadPoint::new(RoadSegmentIdx(0), position));
    assert_eq!(at(0), (0, 0));
    assert_eq!(at(25), (15, 20));
    assert_eq!(at(49), (29, 39));
    assert_eq!(at(50), (30, 40));
    assert_eq!(at(51), (30, 41));
    assert_eq!(at(80), (30, 70));
    assert_eq!(at(110), (30, 100));
}

#[test]
fn position_before_the_first_keypoint_and_after_the_last() {
    let mut roads = Roads::empty();
    let a = roads.add_node(0, 0).unwrap();
    let b = roads.add_node(30, 0).unwrap();
    roads.add_segment(a, b, vec![(10, 0), (20, 0)]).unwrap();
    let at = |position: u64| roads.get_position_xy(&RoadPoint::new(RoadSegmentIdx(0), position));
    assert_eq!(at(5), (5, 0));
    assert_eq!(at(15), (15, 0));
    assert_eq!(at(25), (25, 0));
    assert_eq!(at(30), (30, 0));
}

#[test]
fn positions_are_rounded_towards_the_start_of_their_piece() {
    let mut roads = Roads::empty();
    let a = roads.add_node(0, 0).unwrap();
    let b = roads.add_node(-3, -4).unwrap();
    roads.add_segment(a, b, vec![]).unwrap();
    let at = |position: u64| roads.get_position_xy(&RoadPoint::new(RoadSegmentIdx(0), position));
    assert_eq!(at(0), (0, 0));
    assert_eq!(at(1), (0, 0));
    assert_eq!(at(2), (-1, -1));
    assert_eq!(at(3), (-1, -2));
    assert_eq!(at(4), (-2, -3));
    assert_eq!(at(5), (-3, -4));
}

#[test]
fn position_varies_continuously_along_a_segment() {
    let mut roads = Roads::empty();
    let a = roads.add_node(0, 0).unwrap();
    let b = roads.add_node(-40, 7).unwrap();
    roads.add_segment(a, b, vec![(13, 29), (14, 30), (-5, 100), (-5, 12)]).unwrap();
    let length = roads.segment_length(RoadSegmentIdx(0));
    let mut previous = roads.get_position_xy(&RoadPoint::new(RoadSegmentIdx(0), 0));
    assert_eq!(previous, (0, 0));
    for position in 1..=length {
        let here = roads.get_position_xy(&RoadPoint::new(RoadSegmentIdx(0), position));
        assert!((here.0 - previous.0).abs() <= 1);
        assert!((here.1 - previous.1).abs() <= 1);
        previous = here;
    }
    assert_eq!(previous, (-40, 7));
    for keypoint in roads.segment_keypoints(RoadSegmentIdx(0)) {
        let here = roads.get_position_xy(&RoadPoint::new(RoadSegmentIdx(0), keypoint.position));
        assert_eq!(here, (keypoint.x, keypoint.y));
    }
}

#[test]
fn signs_are_seen_ahead_and_within_sight() {
    let mut roads = Roads::empty();
    let a = roads.add_node(0, 0).unwrap();
    let b = roads.add_node(1000, 0).unwrap();
    roads.add_segment(a, b, vec![]).unwrap();
    roads.add_segment(b, a, vec![]).unwrap();
    let mut put = |segment: usize, position: u64, value: u32| {
        roads
            .add_sign(Sign {
                sign_type: SignType::SpeedLimit,
                value,
                position: RoadPoint::new(RoadSegmentIdx(segment), position),
            })
            .unwrap()
    };
    put(0, 100, 1);
    put(0, 400, 2);
    put(0, 200, 3);
    put(0, 300, 4);
    put(1, 250, 5);
    let seen = |position: u64, sight: u64| -> Vec<u32> {
        roads
            .get_signs(&RoadPoint::new(RoadSegmentIdx(0), position), sight)
            .iter()
            .map(|sign| sign.value)
            .collect()
    };
    assert_eq!(seen(0, 1000), vec![1, 2, 3, 4]);
    assert_eq!(seen(100, 1000), vec![2, 3, 4]);
    assert_eq!(seen(100, 300), vec![3, 4]);
    assert_eq!(seen(100, 301), vec![2, 3, 4]);
    assert_eq!(seen(99, 2), vec![1]);
    assert_eq!(seen(99, 1), Vec::<u32>::new());
    assert_eq!(seen(400, 1000), Vec::<u32>::new());
    assert_eq!(seen(0, 0), Vec::<u32>::new());
    assert_eq!(seen(150, u64::MAX), vec![2, 3, 4]);
}

#[test]
fn distance_is_the_difference_of_positions_ahead() {
    let roads = Roads::new();
    let point = |segment: usize, position: u64| RoadPoint::new(RoadSegmentIdx(segment), position);
    assert_eq!(roads.get_distance(&point(3, 10), &point(3, 25)), Some(15));
    assert_eq!(roads.get_distance(&point(3, 0), &point(3, 30_000_000)), Some(30_000_000));
    assert_eq!(roads.get_distance(&point(3, 10), &point(3, 10)), Some(0));
}

#[test]
fn distance_backwards_or_to_another_segment_is_out_of_reach() {
    let roads = Roads::new();
    let point = |segment: usize, position: u64| RoadPoint::new(RoadSegmentIdx(segment), position);
    assert_eq!(roads.get_distance(&point(3, 25), &point(3, 10)), None);
    assert_eq!(roads.get_distance(&point(3, 10), &point(4, 25)), None);
    assert_eq!(roads.get_distance(&point(0, 30_000_000), &point(2, 0)), None);
}

#[test]
fn a_circle_through_a_hundred_points_is_a_ring() {
    // a circle of radius 20 m round the origin, from (20, 0) and back
    let radius = 20_000_000.0f64;
    let mut keypoints = Vec::new();
    for i in 1..100 {
        let angle = i as f64 * 2.0 * std::f64::consts::PI / 100.0;
        let x = (angle.cos() * radius).round() as i64;
        let y = (angle.sin() * radius).round() as i64;
        keypoints.push((x, y));
    }
    let roads = Roads::ring(20_000_000, 0, keypoints).unwrap();
    let circle = RoadSegmentIdx(0);
    assert_eq!(roads.segment_keypoints(circle).len(), 99);
    // the hundred chords are a little shorter than the circumference of 125.66 m
    let length = roads.segment_length(circle);
    assert!(length > 125_600_000 && length < 125_663_707);
    let marks: Vec<u64> = roads.segment_keypoints(circle).iter().map(|k| k.position).collect();
    assert!(marks.windows(2).all(|pair| pair[0] < pair[1]));
    assert!(0 < marks[0] && marks[98] < length);
    // every point of the ring lies about 20 m from the origin
    for position in (0..=length).step_by(100_003) {
        let (x, y) = roads.get_position_xy(&RoadPoint::new(circle, position));
        let distance = ((x as f64).powi(2) + (y as f64).powi(2)).sqrt();
        assert!(distance <= radius + 2.0);
        // the middle of a chord lies nearer by r (1 - cos(pi / 100))
        assert!(distance >= radius * (std::f64::consts::PI / 100.0).cos() - 2.0);
    }
    assert_eq!(roads.get_position_xy(&RoadPoint::new(circle, length)), (20_000_000, 0));
}
