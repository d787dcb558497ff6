use traffic_sim::road::geometry::piece_length_of;
use traffic_sim::road::path::pathfinding::pathfind;
use traffic_sim::road::path::{NodePathIdx, Path};
use traffic_sim::road::{RoadNodeIdx, RoadPoint, RoadSegmentIdx, Roads};

fn on(segment: usize) -> RoadPoint {
    RoadPoint::new(RoadSegmentIdx(segment), 0)
}

fn found(route: Option<Vec<RoadNodeIdx>>) -> Option<Vec<usize>> {
    route.map(|nodes| nodes.iter().map(|n| n.0).collect())
}

fn length_of(nodes: &[RoadNodeIdx], roads: &Roads) -> u128 {
    let mut path = Path::new();
    path.append(nodes.to_vec());
    path.total_distance(roads).unwrap()
}

fn has_no_node_twice(nodes: &[RoadNodeIdx]) -> bool {
    (0..nodes.len()).all(|i| (i + 1..nodes.len()).all(|j| nodes[i] != nodes[j]))
}

/// A line of `count` nodes 10 apart, each joined to the next.
fn one_way_street(count: usize) -> Roads {
    let mut roads = Roads::empty();
    for i in 0..count {
        roads.add_node(10 * i as i64, 0).unwrap();
    }
    for i in 1..count {
        roads.add_segment(RoadNodeIdx(i - 1), RoadNodeIdx(i), vec![]).unwrap();
    }
    roads
}

#[test]
fn shortest_route_across_the_mesh() {
    let roads = Roads::new();
    // from the node after segment 0 to the node before segment 23
    let start = RoadPoint::new(RoadSegmentIdx(0), 1_000_000);
    let end = RoadPoint::new(RoadSegmentIdx(23), 1_000_000);
    let route = pathfind(&start, &end, &roads).unwrap();
    assert_eq!(route.first(), Some(&RoadNodeIdx(1)));
    assert_eq!(route.last(), Some(&RoadNodeIdx(15)));
    // two streets east and three streets north, 30 m each
    assert_eq!(route.len(), 6);
    assert_eq!(length_of(&route, &roads), 150_000_000);
    assert!(has_no_node_twice(&route));
}

#[test]
fn the_way_back_across_the_mesh_is_as_short() {
    let roads = Roads::new();
    let route = pathfind(&on(23), &on(0), &roads).unwrap();
    assert_eq!(route.first(), Some(&RoadNodeIdx(14)));
    assert_eq!(route.last(), Some(&RoadNodeIdx(0)));
    assert_eq!(length_of(&route, &roads), 150_000_000);
    assert!(has_no_node_twice(&route));
}

#[test]
fn every_pair_of_mesh_nodes_is_joined_by_a_shortest_route() {
    let roads = Roads::new();
    for from in 0..48usize {
        for to in 0..48usize {
            let a = roads.segment_to(RoadSegmentIdx(from)).0;
            let b = roads.segment_from(RoadSegmentIdx(to)).0;
            let route = pathfind(&on(from), &on(to), &roads).unwrap();
            let streets = (a % 4).abs_diff(b % 4) + (a / 4).abs_diff(b / 4);
            assert_eq!(route.len(), streets + 1);
            assert_eq!(length_of(&route, &roads), 30_000_000 * streets as u128);
            assert_eq!(route[0].0, a);
            assert_eq!(route[streets].0, b);
            assert!(has_no_node_twice(&route));
        }
    }
}

#[test]
fn a_route_to_the_node_one_stands_at_is_that_node() {
    let roads = Roads::new();
    // segment 0 ends at node 1, where segment 2 starts
    assert_eq!(found(pathfind(&on(0), &on(2), &roads)), Some(vec![1]));
}

#[test]
fn the_only_route_is_found() {
    let roads = one_way_street(6);
    // from node 1, where segment 0 ends, to node 4, where segment 4 starts
    assert_eq!(found(pathfind(&on(0), &on(4), &roads)), Some(vec![1, 2, 3, 4]));
}

#[test]
fn no_route_against_a_one_way_street() {
    let roads = one_way_street(6);
    // from node 5, where segment 4 ends, to node 0, where segment 0 starts
    assert_eq!(pathfind(&on(4), &on(0), &roads), None);
}

#[test]
fn no_route_to_a_node_in_another_part_of_the_network() {
    let mut roads = Roads::empty();
    for i in 0..4 {
        roads.add_node(10 * i, 0).unwrap();
    }
    let mut join = |a: usize, b: usize| {
        roads.add_segment(RoadNodeIdx(a), RoadNodeIdx(b), vec![]).unwrap();
        roads.add_segment(RoadNodeIdx(b), RoadNodeIdx(a), vec![]).unwrap();
    };
    join(0, 1);
    join(2, 3);
    // segments 0 and 1 join nodes 0 and 1, segments 2 and 3 join nodes 2 and 3
    assert_eq!(pathfind(&on(0), &on(2), &roads), None);
    assert_eq!(pathfind(&on(3), &on(1), &roads), None);
    assert_eq!(found(pathfind(&on(0), &on(0), &roads)), Some(vec![1, 0]));
    assert_eq!(found(pathfind(&on(2), &on(3), &roads)), Some(vec![3]));
}

#[test]
fn a_shorter_route_found_later_replaces_the_first() {
    // S at (0, 0), B at (10, 0), A at (20, 0), G at (30, 0)
    let mut roads = Roads::empty();
    let s = roads.add_node(0, 0).unwrap();
    let b = roads.add_node(10, 0).unwrap();
    let a = roads.add_node(20, 0).unwrap();
    let g = roads.add_node(30, 0).unwrap();
    let z = roads.add_node(-10, 0).unwrap();
    roads.add_segment(z, s, vec![]).unwrap();
    // the direct segment from S to A makes a long detour
    roads.add_segment(s, a, vec![(10, 50)]).unwrap();
    roads.add_segment(s, b, vec![]).unwrap();
    roads.add_segment(b, a, vec![]).unwrap();
    roads.add_segment(a, g, vec![]).unwrap();
    roads.add_segment(g, z, vec![(10, -50)]).unwrap();
    let route = pathfind(&on(0), &on(5), &roads).unwrap();
    assert_eq!(found(Some(route.clone())), Some(vec![0, 1, 2, 3]));
    assert_eq!(length_of(&route, &roads), 30);
}

#[test]
fn nodes_are_visited_in_order_of_priority() {
    // Two ways from S to G: over N, near the straight line, and over F, far
    // from it. Both are listed at S; the far one first.
    let mut roads = Roads::empty();
    let s = roads.add_node(0, 0).unwrap();
    let g = roads.add_node(100, 0).unwrap();
    let f = roads.add_node(50, 80).unwrap();
    let n = roads.add_node(50, 10).unwrap();
    let z = roads.add_node(0, -10).unwrap();
    roads.add_segment(z, s, vec![]).unwrap();
    roads.add_segment(s, f, vec![]).unwrap();
    roads.add_segment(s, n, vec![]).unwrap();
    roads.add_segment(f, g, vec![]).unwrap();
    roads.add_segment(n, g, vec![]).unwrap();
    roads.add_segment(g, z, vec![]).unwrap();
    let route = pathfind(&on(0), &on(5), &roads).unwrap();
    assert_eq!(found(Some(route.clone())), Some(vec![0, 3, 1]));
    assert_eq!(length_of(&route, &roads), 102);
}

#[test]
fn equal_priorities_are_broken_by_node_index() {
    // a square: two routes of equal length from corner 0 to corner 3
    let mut roads = Roads::empty();
    let a = roads.add_node(0, 0).unwrap();
    let b = roads.add_node(0, 10).unwrap();
    let c = roads.add_node(10, 0).unwrap();
    let d = roads.add_node(10, 10).unwrap();
    let z = roads.add_node(-10, 0).unwrap();
    roads.add_segment(z, a, vec![]).unwrap();
    roads.add_segment(a, c, vec![]).unwrap();
    roads.add_segment(a, b, vec![]).unwrap();
    roads.add_segment(b, d, vec![]).unwrap();
    roads.add_segment(c, d, vec![]).unwrap();
    roads.add_segment(d, z, vec![(0, 20)]).unwrap();
    let first = pathfind(&on(0), &on(5), &roads).unwrap();
    let again = pathfind(&on(0), &on(5), &roads).unwrap();
    assert_eq!(first, again);
    assert_eq!(found(Some(first)), Some(vec![0, 1, 3]));
}

#[test]
fn a_ring_leads_from_its_node_to_itself() {
    let roads = Roads::ring(0, 0, vec![(50, 0), (50, 50), (0, 50)]).unwrap();
    assert_eq!(found(pathfind(&on(0), &on(0), &roads)), Some(vec![0]));
}

#[test]
fn a_search_over_many_nodes_ends() {
    let roads = one_way_street(3_000);
    let route = pathfind(&on(0), &on(2_998), &roads).unwrap();
    assert_eq!(route.len(), 2_998);
    assert_eq!(length_of(&route, &roads), 29_970);
}

#[test]
fn a_found_route_can_be_driven_to_its_end() {
    let roads = Roads::new();
    let route = pathfind(&on(0), &on(23), &roads).unwrap();
    let mut path = Path::new();
    path.append(route);
    let total = path.total_distance(&roads).unwrap();
    let first = path.get_segment_following_node_path(NodePathIdx(0), &roads).unwrap();
    let mut position = RoadPoint::new(first, 0);
    assert_eq!(path.move_by(&mut position, total as u64, &roads), Ok(()));
    assert_eq!(roads.segment_to(position.road_segment), RoadNodeIdx(15));
    assert_eq!(position.position, roads.segment_length(position.road_segment));
    assert_eq!(path.distance_left(&position, &roads), Ok(0));
}

#[test]
fn the_shorter_of_two_segments_between_the_same_nodes_counts() {
    // Two segments lead from A to B, the first with a long detour. A route
    // over B is the shortest way to G, though the way round over C is shorter
    // than the detour.
    let mut roads = Roads::empty();
    let a = roads.add_node(0, 0).unwrap();
    let b = roads.add_node(10, 0).unwrap();
    let c = roads.add_node(10, 20).unwrap();
    let g = roads.add_node(20, 0).unwrap();
    let z = roads.add_node(-10, 0).unwrap();
    roads.add_segment(z, a, vec![]).unwrap();
    roads.add_segment(a, b, vec![(5, 100)]).unwrap();
    roads.add_segment(a, b, vec![]).unwrap();
    roads.add_segment(a, c, vec![]).unwrap();
    roads.add_segment(c, g, vec![]).unwrap();
    roads.add_segment(b, g, vec![]).unwrap();
    roads.add_segment(g, z, vec![(5, -100)]).unwrap();
    let route = pathfind(&on(0), &on(6), &roads).unwrap();
    assert_eq!(found(Some(route.clone())), Some(vec![0, 1, 3]));
    // a route is driven over the first segment listed between two nodes
    assert_eq!(length_of(&route, &roads), 202 + 10);
}

#[test]
fn a_wide_junction_is_searched_in_order_of_priority() {
    // 3000 nodes in a band between S and G, each joined to both
    let mut roads = Roads::empty();
    let s = roads.add_node(0, 0).unwrap();
    let g = roads.add_node(0, 4_000).unwrap();
    let z = roads.add_node(0, -10).unwrap();
    roads.add_segment(z, s, vec![]).unwrap();
    roads.add_segment(g, z, vec![(-5_000, 2_000)]).unwrap();
    let mut shortest = u64::MAX;
    let mut through = Vec::new();
    for i in 0..3_000i64 {
        let x = (i * 7_919) % 3_001 - 1_500;
        let y = 1_000 + (i * 104_729) % 2_003;
        let n = roads.add_node(x, y).unwrap();
        roads.add_segment(s, n, vec![]).unwrap();
        roads.add_segment(n, g, vec![]).unwrap();
        let length = piece_length_of(0, 0, x, y) + piece_length_of(x, y, 0, 4_000);
        if length < shortest {
            shortest = length;
            through.clear();
        }
        if length == shortest {
            through.push(n);
        }
    }
    let route = pathfind(&on(0), &on(1), &roads).unwrap();
    assert_eq!(route.len(), 3);
    assert_eq!(route[0], s);
    assert_eq!(route[2], g);
    assert!(through.contains(&route[1]));
    assert_eq!(length_of(&route, &roads), shortest as u128);
}

#[test]
fn a_long_chain_of_improvements_keeps_the_waiting_list_in_order() {
    // Nodes on a line, each joined to the next and, by a long detour, to
    // every fifth node after it. The detours are met first and improved on.
    let mut roads = Roads::empty();
    let count = 400usize;
    for i in 0..count {
        roads.add_node(10 * i as i64, 0).unwrap();
    }
    for i in 0..count {
        let mut j = i + 5;
        while j < count {
            let middle = 5 * (i + j) as i64;
            roads.add_segment(RoadNodeIdx(i), RoadNodeIdx(j), vec![(middle, 3_000)]).unwrap();
            j += 97;
        }
        if i + 1 < count {
            roads.add_segment(RoadNodeIdx(i), RoadNodeIdx(i + 1), vec![]).unwrap();
        }
    }
    // the first segment listed at node 0 ends at node 5
    let first = roads.node_segments(RoadNodeIdx(0))[0];
    assert_eq!(roads.segment_to(first), RoadNodeIdx(5));
    // from node 5 to the last node, where no segment starts: stop one short
    let last = *roads.node_segments(RoadNodeIdx(count - 2)).last().unwrap();
    assert_eq!(roads.segment_from(last), RoadNodeIdx(count - 2));
    let route = pathfind(&RoadPoint::new(first, 0), &RoadPoint::new(last, 0), &roads).unwrap();
    let expected: Vec<usize> = (5..count - 1).collect();
    assert_eq!(found(Some(route)), Some(expected));
}
