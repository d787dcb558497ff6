//! Best-first search for a route between two nodes of the network.

pub mod open_list;
mod search;
mod shortest;
mod steps;

use crate::road::path::pathfinding::open_list::{
    entries, list_binary_search, list_insert, list_len, list_remove, new_list,
};
use crate::road::path::pathfinding::search::{
    Node, Search, after_improve, after_meet, after_visit, fresh, get_distance, opened_entry,
};
use crate::road::path::pathfinding::steps::{
    lemma_improves, lemma_known, lemma_meets, lemma_none_left, lemma_passes, lemma_starts,
    lemma_trail_ends, lemma_trail_grows, lemma_trail_starts, lemma_visit_over, lemma_visiting,
    lemma_visits, listed, sound, trail_ok,
};
use crate::road::path::{
    PathError, can_be_followed, distance_from, lemma_first_leading_to, segment_following,
};
use crate::road::{RoadNodeIdx, RoadPoint, RoadSegmentIdx, Roads, RoadsView};
use sortedlist_rs::SortedList;
use std::collections::HashMap;
use vstd::prelude::*;

verus! {

/// Whether a segment of the network leads from `from` to `to`.
pub open spec fn connected(roads: RoadsView, from: RoadNodeIdx, to: RoadNodeIdx) -> bool {
    exists|s: int|
        0 <= s < roads.segments.len() && (#[trigger] roads.segments[s]).from == from
            && roads.segments[s].to == to
}

/// Whether each node of `nodes` is joined to the next by a segment.
pub open spec fn is_walk(roads: RoadsView, nodes: Seq<RoadNodeIdx>) -> bool {
    forall|i: int| 0 <= i < nodes.len() - 1 ==> connected(roads, #[trigger] nodes[i], nodes[i + 1])
}

/// Whether `nodes` leads from `from` to `to` through the network, node by
/// node along its segments.
pub open spec fn is_route(
    roads: RoadsView,
    from: RoadNodeIdx,
    to: RoadNodeIdx,
    nodes: Seq<RoadNodeIdx>,
) -> bool {
    &&& nodes.len() > 0
    &&& nodes[0] == from
    &&& nodes.last() == to
    &&& roads.has_node(from)
    &&& is_walk(roads, nodes)
}

/// Whether some route leads from `from` to `to`.
pub open spec fn reachable(roads: RoadsView, from: RoadNodeIdx, to: RoadNodeIdx) -> bool {
    exists|nodes: Seq<RoadNodeIdx>| is_route(roads, from, to, nodes)
}

/// Whether `only` is the one route from `from` to `to` that visits no node
/// twice.
pub open spec fn is_only_route(
    roads: RoadsView,
    from: RoadNodeIdx,
    to: RoadNodeIdx,
    only: Seq<RoadNodeIdx>,
) -> bool {
    &&& is_route(roads, from, to, only)
    &&& only.no_duplicates()
    &&& forall|other: Seq<RoadNodeIdx>|
        #[trigger] is_route(roads, from, to, other) && other.no_duplicates() ==> other == only
}

/// The `i`-th node of the walk that sets out from `from` along `walk`.
pub open spec fn walk_node(
    roads: RoadsView,
    from: RoadNodeIdx,
    walk: Seq<RoadSegmentIdx>,
    i: int,
) -> RoadNodeIdx {
    if i <= 0 {
        from
    } else {
        roads.segment(walk[i - 1]).to
    }
}

/// Whether `walk` is a walk from `from` to `to`: segments of the network, of
/// which the first starts at `from`, each other where the one before it
/// ends, and the last ends at `to`. The walk without segments leads from a
/// node to itself.
pub open spec fn is_segment_walk(
    roads: RoadsView,
    from: RoadNodeIdx,
    to: RoadNodeIdx,
    walk: Seq<RoadSegmentIdx>,
) -> bool {
    &&& roads.has_node(from)
    &&& forall|i: int|
        0 <= i < walk.len() ==> roads.has_segment(#[trigger] walk[i]) && roads.segment(walk[i]).from
            == walk_node(roads, from, walk, i)
    &&& walk_node(roads, from, walk, walk.len() as int) == to
}

/// The nodes that the walk from `from` along `walk` visits, in order.
pub open spec fn walk_nodes(roads: RoadsView, from: RoadNodeIdx, walk: Seq<RoadSegmentIdx>) -> Seq<
    RoadNodeIdx,
> {
    Seq::new(walk.len() + 1, |i: int| walk_node(roads, from, walk, i))
}

/// The length of a walk: the sum of the lengths of its segments.
pub open spec fn walk_length(roads: RoadsView, walk: Seq<RoadSegmentIdx>) -> int
    decreases walk.len(),
{
    if walk.len() == 0 {
        0
    } else {
        walk_length(roads, walk.drop_last()) + roads.segment(walk.last()).length
    }
}

/// Whether `nodes` is a shortest route from `from` to `to`: the nodes of a
/// walk from `from` to `to` than which no walk from `from` to `to` is
/// shorter.
pub open spec fn is_shortest_route(
    roads: RoadsView,
    from: RoadNodeIdx,
    to: RoadNodeIdx,
    nodes: Seq<RoadNodeIdx>,
) -> bool {
    exists|walk: Seq<RoadSegmentIdx>|
        {
            &&& #[trigger] is_segment_walk(roads, from, to, walk)
            &&& walk_nodes(roads, from, walk) == nodes
            &&& forall|other: Seq<RoadSegmentIdx>| #[trigger]
                is_segment_walk(roads, from, to, other) ==> walk_length(roads, walk)
                    <= walk_length(roads, other)
        }
}

/// A vehicle can follow every route of two nodes or more that visits no
/// node twice: a segment is found from each of its nodes to the next.
pub proof fn lemma_route_can_be_followed(
    roads: RoadsView,
    from: RoadNodeIdx,
    to: RoadNodeIdx,
    nodes: Seq<RoadNodeIdx>,
)
    requires
        roads.wf(),
        is_route(roads, from, to, nodes),
        nodes.no_duplicates(),
        2 <= nodes.len() <= usize::MAX,
    ensures
        can_be_followed(roads, nodes),
{
    assert forall|i: int| 0 <= i < nodes.len() - 1 implies segment_following(
        roads,
        nodes,
        i,
    ).is_ok() by {
        assert(connected(roads, nodes[i], nodes[i + 1]));
        let s = choose|s: int|
            0 <= s < roads.segments.len() && (#[trigger] roads.segments[s]).from == nodes[i]
                && roads.segments[s].to == nodes[i + 1];
        assert(roads.segment_wf(s));
        assert(roads.node_wf(nodes[i].0 as int));
        let listed = roads.node(nodes[i]).road_segments;
        assert(listed.contains(RoadSegmentIdx(s as usize)));
        let k = choose|k: int| 0 <= k < listed.len() && listed[k] == RoadSegmentIdx(s as usize);
        lemma_first_leading_to(roads, listed, nodes[i + 1], 0);
        assert(roads.has_segment(listed[k]) && roads.segment(listed[k]).to == nodes[i + 1]);
    }
    let inner = nodes.take(nodes.len() - 1);
    assert forall|i: int, j: int| 0 <= i < inner.len() && 0 <= j < inner.len() && i
        != j implies inner[i] != inner[j] by {
        assert(inner[i] == nodes[i]);
        assert(inner[j] == nodes[j]);
    }
}

/// Whether no two segments of the network lead from the same node to the
/// same node.
pub open spec fn has_no_parallel_segments(roads: RoadsView) -> bool {
    forall|s: int, t: int|
        0 <= s < roads.segments.len() && 0 <= t < roads.segments.len() && (
        #[trigger] roads.segments[s]).from == (#[trigger] roads.segments[t]).from
            && roads.segments[s].to == roads.segments[t].to ==> s == t
}

/// In a network without parallel segments, the route along the nodes of a
/// walk is measured, from its `i`-th node on, as long as the walk is from
/// there on.
proof fn lemma_route_length_from(
    roads: RoadsView,
    from: RoadNodeIdx,
    to: RoadNodeIdx,
    walk: Seq<RoadSegmentIdx>,
    i: int,
)
    requires
        roads.wf(),
        has_no_parallel_segments(roads),
        is_segment_walk(roads, from, to, walk),
        0 <= i <= walk.len(),
    ensures
        distance_from(roads, walk_nodes(roads, from, walk), i) == Ok::<int, PathError>(
            walk_length(roads, walk) - walk_length(roads, walk.take(i)),
        ),
    decreases walk.len() - i,
{
    let nodes = walk_nodes(roads, from, walk);
    if i < walk.len() {
        lemma_route_length_from(roads, from, to, walk, i + 1);
        assert(walk.take(i + 1).drop_last() == walk.take(i));
        assert(walk.take(i + 1).last() == walk[i]);
        let s = walk[i];
        assert(roads.has_segment(s));
        assert(roads.segment(s).from == nodes[i]);
        assert(roads.segment(s).to == nodes[i + 1]);
        assert(roads.segment_wf(s.0 as int));
        assert(roads.node_wf(nodes[i].0 as int));
        let listed = roads.node(nodes[i]).road_segments;
        assert(listed.contains(RoadSegmentIdx(s.0 as int as usize)));
        let k = choose|k: int| 0 <= k < listed.len() && listed[k] == s;
        lemma_first_leading_to(roads, listed, nodes[i + 1], 0);
        assert(roads.has_segment(listed[k]) && roads.segment(listed[k]).to == nodes[i + 1]);
        let found = segment_following(roads, nodes, i).unwrap();
        let f = choose|f: int| 0 <= f < listed.len() && listed[f] == found;
        assert(roads.has_segment(listed[f]));
        assert(roads.segments[found.0 as int].from == roads.segments[s.0 as int].from);
        assert(found.0 as int == s.0 as int);
    } else {
        assert(walk.take(i) == walk);
    }
}

/// In a network without parallel segments, the route along the nodes of a
/// walk is as long as the walk. So the length of a shortest route is the
/// least length of a walk between its ends.
pub proof fn lemma_route_length(
    roads: RoadsView,
    from: RoadNodeIdx,
    to: RoadNodeIdx,
    walk: Seq<RoadSegmentIdx>,
)
    requires
        roads.wf(),
        has_no_parallel_segments(roads),
        is_segment_walk(roads, from, to, walk),
    ensures
        distance_from(roads, walk_nodes(roads, from, walk), 0) == Ok::<int, PathError>(
            walk_length(roads, walk),
        ),
{
    lemma_route_length_from(roads, from, to, walk, 0);
    assert(walk.take(0) =~= Seq::<RoadSegmentIdx>::empty());
}

/// The nodes of `path` in the opposite order.
fn reversed(path: &Vec<RoadNodeIdx>) -> (turned: Vec<RoadNodeIdx>)
    ensures
        turned@ == path@.reverse(),
{
    let mut turned: Vec<RoadNodeIdx> = Vec::new();
    let mut i = path.len();
    while i > 0
        invariant
            0 <= i <= path.len(),
            turned@.len() == path.len() - i,
            forall|j: int| 0 <= j < turned@.len() ==> turned@[j] == path@[path.len() - 1 - j],
        decreases i,
    {
        i -= 1;
        turned.push(path[i]);
    }
    assert(turned@ =~= path@.reverse());
    turned
}

/// Finds a shortest route from the node at which the segment of `start` ends
/// to the node at which the segment of `end` starts, if a route leads there.
///
/// Nodes are visited in ascending order of the length of the best route
/// known to them plus their straight-line distance to the goal; among equal
/// sums the node with the smaller index goes first. A node once visited is
/// not visited again. The search ends when the goal is visited, or when no
/// node is left to visit.
pub fn pathfind(start: &RoadPoint, end: &RoadPoint, roads: &Roads) -> (route: Option<
    Vec<RoadNodeIdx>,
>)
    requires
        roads.wf(),
        roads@.has_segment(start.road_segment),
        roads@.has_segment(end.road_segment),
    ensures
        match route {
            Some(nodes) => {
                &&& is_route(
                    roads@,
                    roads@.segment(start.road_segment).to,
                    roads@.segment(end.road_segment).from,
                    nodes@,
                )
                &&& nodes@.no_duplicates()
                &&& is_shortest_route(
                    roads@,
                    roads@.segment(start.road_segment).to,
                    roads@.segment(end.road_segment).from,
                    nodes@,
                )
            },
            None => !reachable(
                roads@,
                roads@.segment(start.road_segment).to,
                roads@.segment(end.road_segment).from,
            ),
        },
        forall|only: Seq<RoadNodeIdx>| #[trigger]
            is_only_route(
                roads@,
                roads@.segment(start.road_segment).to,
                roads@.segment(end.road_segment).from,
                only,
            ) ==> (route matches Some(nodes) && nodes@ == only),
{
    let start_road_node_index = roads.segment_to(start.road_segment);
    let end_road_node_index = roads.segment_from(end.road_segment);
    let node_count = roads.node_count();
    let segment_count = roads.segment_count();
    let ghost net = roads@;
    let ghost origin = start_road_node_index.0;
    let ghost goal = end_road_node_index.0;
    proof {
        assert(net.segment_wf(start.road_segment.0 as int));
        assert(net.segment_wf(end.road_segment.0 as int));
    }
    let mut nodes: HashMap<usize, Node> = HashMap::new();
    let mut opened_nodes: SortedList<(u128, usize)> = new_list();

    // Insert start node
    let start_node = Node {
        road_node: start_road_node_index,
        distance_from_start: 0,
        distance_to_end: get_distance(roads, start_road_node_index, end_road_node_index),
        parent_road_node: RoadNodeIdx(0),
        opened: true,
    };
    list_insert(&mut opened_nodes, opened_entry(&start_node));
    nodes.insert(start_road_node_index.0, start_node);
    let ghost mut search = Search {
        records: Map::empty().insert(origin, start_node),
        open: Seq::empty().insert(0, start_node.entry()),
        closed: Set::empty(),
    };
    let ghost mut routes: Map<usize, Seq<RoadSegmentIdx>> = Map::empty().insert(
        origin,
        Seq::empty(),
    );
    proof {
        lemma_starts(net, origin, goal, start_node);
        assert(nodes@ =~= search.records);
    }

    let mut found = false;

    while !found && list_len(&opened_nodes) != 0
        invariant
            net == roads@,
            roads.wf(),
            origin == start_road_node_index.0,
            goal == end_road_node_index.0,
            sound(
                net,
                origin,
                goal,
                search,
                routes,
                if found {
                    Some((goal, 0int))
                } else {
                    None
                },
                found,
            ),
            nodes@ == search.records,
            entries(opened_nodes) == search.open,
            search.closed.len() <= net.nodes.len(),
        decreases net.nodes.len() - search.closed.len(),
    {
        // Get the best opened node
        let best = list_remove(&mut opened_nodes, 0);
        proof {
            lemma_visits(net, origin, goal, search, routes);
            search = after_visit(search);
        }
        let mut node = match nodes.get(&best.1) {
            Some(node) => *node,
            None => {
                assert(false);
                return None;
            },
        };
        node.opened = false;
        nodes.insert(node.road_node.0, node);
        assert(nodes@ =~= search.records);
        proof {
            lemma_visiting(net, origin, goal, search, routes, node.road_node.0, 0, best.1 == goal);
        }
        if node.road_node.0 == end_road_node_index.0 {
            found = true;
        } else {
            // List all the neighbours of that node
            let road_segments = roads.node_segments(node.road_node);
            let ghost visited = search.closed;
            let mut j: usize = 0;
            while j < road_segments.len()
                invariant
                    net == roads@,
                    roads.wf(),
                    goal == end_road_node_index.0,
                    search.closed == visited,
                    sound(
                        net,
                        origin,
                        goal,
                        search,
                        routes,
                        Some((node.road_node.0, j as int)),
                        false,
                    ),
                    nodes@ == search.records,
                    entries(opened_nodes) == search.open,
                    search.records[node.road_node.0] == node,
                    road_segments@ == net.nodes[node.road_node.0 as int].road_segments,
                    0 <= j <= road_segments.len(),
                decreases road_segments.len() - j,
            {
                let road_segment_idx = road_segments[j];
                let ghost u = node.road_node.0;
                proof {
                    lemma_visiting(net, origin, goal, search, routes, u, j as int, false);
                    assert(net.node_wf(u as int));
                    assert(net.has_segment(road_segments@[j as int]));
                    assert(net.segment_wf(road_segment_idx.0 as int));
                    assert(listed(net, u, j as int) == road_segment_idx.0);
                }
                let neighbour_road_node_index = roads.segment_to(road_segment_idx);
                let old_neighbour_node: Option<Node> = match nodes.get(
                    &neighbour_road_node_index.0,
                ) {
                    Some(old) => Some(*old),
                    None => None,
                };
                let new_neighbour_node = Node {
                    road_node: neighbour_road_node_index,
                    distance_from_start: node.distance_from_start + roads.segment_length(
                        road_segment_idx,
                    ) as u128,
                    distance_to_end: get_distance(
                        roads,
                        neighbour_road_node_index,
                        end_road_node_index,
                    ),
                    parent_road_node: node.road_node,
                    opened: true,
                };
                assert(new_neighbour_node == fresh(
                    net,
                    goal,
                    search,
                    u,
                    road_segment_idx.0 as int,
                ));
                match old_neighbour_node {
                    None => {
                        // Create a new value in opened_nodes and in nodes
                        let ghost before = search.open;
                        list_insert(&mut opened_nodes, opened_entry(&new_neighbour_node));
                        nodes.insert(neighbour_road_node_index.0, new_neighbour_node);
                        proof {
                            let place = choose|place: int|
                                0 <= place <= before.len() && entries(opened_nodes)
                                    == before.insert(place, new_neighbour_node.entry());
                            lemma_meets(net, origin, goal, search, routes, u, j as int, place);
                            routes = routes.insert(
                                neighbour_road_node_index.0,
                                routes[u].push(road_segment_idx),
                            );
                            search =
                            after_meet(net, goal, search, u, road_segment_idx.0 as int, place);
                            assert(nodes@ =~= search.records);
                        }
                    },
                    Some(old) => {
                        proof {
                            lemma_known(
                                net,
                                origin,
                                goal,
                                search,
                                routes,
                                Some((u, j as int)),
                                false,
                                neighbour_road_node_index.0,
                            );
                        }
                        // If the neighbour is already closed, skip it
                        if old.opened && old.cost() > new_neighbour_node.cost() {
                            // Remove the old value from opened_nodes, and create a
                            // new one. In nodes, update the value.
                            let ghost before = search.open;
                            match list_binary_search(&opened_nodes, &opened_entry(&old)) {
                                Ok(stale) => {
                                    list_remove(&mut opened_nodes, stale);
                                    list_insert(
                                        &mut opened_nodes,
                                        opened_entry(&new_neighbour_node),
                                    );
                                    nodes.insert(neighbour_road_node_index.0, new_neighbour_node);
                                    proof {
                                        let thinned = before.remove(stale as int);
                                        let place = choose|place: int|
                                            0 <= place <= thinned.len() && entries(opened_nodes)
                                                == thinned.insert(
                                                place,
                                                new_neighbour_node.entry(),
                                            );
                                        lemma_improves(
                                            net,
                                            origin,
                                            goal,
                                            search,
                                            routes,
                                            u,
                                            j as int,
                                            stale as int,
                                            place,
                                        );
                                        routes = routes.insert(
                                            neighbour_road_node_index.0,
                                            routes[u].push(road_segment_idx),
                                        );
                                        search =
                                        after_improve(
                                            net,
                                            goal,
                                            search,
                                            u,
                                            road_segment_idx.0 as int,
                                            stale as int,
                                            place,
                                        );
                                        assert(nodes@ =~= search.records);
                                    }
                                },
                                Err(_) => {
                                    assert(false);
                                },
                            }
                        } else {
                            proof {
                                lemma_passes(net, origin, goal, search, routes, u, j as int);
                            }
                        }
                    },
                }
                j += 1;
            }
            proof {
                lemma_visit_over(net, origin, goal, search, routes, node.road_node.0);
            }
        }
    }

    if !found {
        proof {
            lemma_none_left(net, origin, goal, search, routes);
        }
        return None;
    }
    // We build the path backwards, and then reverse it

    let mut reversed_path: Vec<RoadNodeIdx> = Vec::new();
    reversed_path.push(end_road_node_index);
    proof {
        lemma_trail_starts(net, origin, goal, search, routes);
        assert(reversed_path@ =~= seq![RoadNodeIdx(goal)]);
    }

    let mut current_node: Node = match nodes.get(&end_road_node_index.0) {
        Some(node) => *node,
        None => {
            assert(false);
            return None;
        },
    };
    while current_node.road_node.0 != start_road_node_index.0
        invariant
            origin == start_road_node_index.0,
            sound(net, origin, goal, search, routes, Some((goal, 0int)), true),
            nodes@ == search.records,
            search.records.contains_key(current_node.road_node.0),
            search.records[current_node.road_node.0] == current_node,
            reversed_path@.len() > 0,
            reversed_path@.last() == current_node.road_node,
            trail_ok(net, origin, goal, search, routes, reversed_path@),
        decreases current_node.distance_from_start,
    {
        proof {
            lemma_trail_grows(net, origin, goal, search, routes, reversed_path@);
        }
        current_node = match nodes.get(&current_node.parent_road_node.0) {
            Some(node) => *node,
            None => {
                assert(false);
                return None;
            },
        };
        reversed_path.push(current_node.road_node);
    }
    let path = reversed(&reversed_path);
    proof {
        lemma_trail_ends(net, origin, goal, search, routes, reversed_path@);
    }
    Some(path)
}

} // verus!
