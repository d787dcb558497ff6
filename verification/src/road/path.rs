//! Routes: the nodes a vehicle plans to visit, in order.

pub mod pathfinding;

use crate::road::{
    RoadNodeIdx, RoadPoint, RoadSegmentIdx, Roads, RoadsView, lemma_segment_length_positive,
};
use vstd::prelude::*;

verus! {

/// A position in a route.
#[derive(Clone, Copy, PartialEq, Eq, Structural, Debug, Hash)]
pub struct NodePathIdx(pub usize);

/// Why a route could not be followed.
#[derive(Clone, Copy, PartialEq, Eq, Structural, Debug)]
pub enum PathError {
    /// The node at which the current segment ends is not on the route.
    NodeNotInPath,
    /// The route ends at the node that was to be left.
    EndOfPath,
    /// No segment leads from a node of the route to the next.
    NoConnectingSegment,
}

/// A planned trip: the nodes to visit, in order.
#[derive(Debug)]
pub struct Path {
    road_nodes: Vec<RoadNodeIdx>,
}

impl View for Path {
    type V = Seq<RoadNodeIdx>;

    closed spec fn view(&self) -> Seq<RoadNodeIdx> {
        self.road_nodes@
    }
}

/// The index of the first of `candidates`, from the `k`-th on, that names a
/// segment of the network ending at `to`.
pub open spec fn first_leading_to(
    roads: RoadsView,
    candidates: Seq<RoadSegmentIdx>,
    to: RoadNodeIdx,
    k: int,
) -> Option<RoadSegmentIdx>
    decreases candidates.len() - k,
{
    if k < 0 || k >= candidates.len() {
        None
    } else if roads.has_segment(candidates[k]) && roads.segment(candidates[k]).to == to {
        Some(candidates[k])
    } else {
        first_leading_to(roads, candidates, to, k + 1)
    }
}

/// The segment to take from `from` to `to`: the first of those listed at
/// `from` that ends at `to`.
pub open spec fn segment_between(roads: RoadsView, from: RoadNodeIdx, to: RoadNodeIdx) -> Option<
    RoadSegmentIdx,
> {
    if roads.has_node(from) {
        first_leading_to(roads, roads.node(from).road_segments, to, 0)
    } else {
        None
    }
}

/// The position of the first occurrence of `node` in `nodes`.
pub open spec fn first_position(nodes: Seq<RoadNodeIdx>, node: RoadNodeIdx) -> Option<NodePathIdx> {
    match nodes.index_of_first(node) {
        Some(i) => Some(NodePathIdx(i as usize)),
        None => None,
    }
}

/// The first position of a node in a sequence is a position that holds the
/// node and comes before every other that does; there is none if, and only
/// if, the node does not occur.
pub proof fn lemma_first_position(nodes: Seq<RoadNodeIdx>, node: RoadNodeIdx)
    requires
        nodes.len() <= usize::MAX,
    ensures
        match first_position(nodes, node) {
            Some(i) => i.0 < nodes.len() && nodes[i.0 as int] == node && forall|k: int|
                0 <= k < i.0 ==> nodes[k] != node,
            None => !nodes.contains(node),
        },
{
    nodes.index_of_first_ensures(node);
}

/// The segment that leads from the `i`-th node of a route to the next.
pub open spec fn segment_following(roads: RoadsView, nodes: Seq<RoadNodeIdx>, i: int) -> Result<
    RoadSegmentIdx,
    PathError,
> {
    if i < 0 || i + 1 >= nodes.len() {
        Err(PathError::EndOfPath)
    } else {
        match segment_between(roads, nodes[i], nodes[i + 1]) {
            Some(segment) => Ok(segment),
            None => Err(PathError::NoConnectingSegment),
        }
    }
}

/// The segment on which a route continues after `current`: the one that
/// leads from the first occurrence of the end node of `current` in the route
/// to the node after it.
pub open spec fn next_segment(
    roads: RoadsView,
    nodes: Seq<RoadNodeIdx>,
    current: RoadSegmentIdx,
) -> Result<RoadSegmentIdx, PathError> {
    match first_position(nodes, roads.segment(current).to) {
        None => Err(PathError::NodeNotInPath),
        Some(i) => segment_following(roads, nodes, i.0 as int),
    }
}

/// Where a vehicle at `point` is after it has travelled `amount` along the
/// route, and whether it could travel that far. Within a segment the position
/// grows by the distance. At a segment's end the vehicle continues at the
/// start of the next segment of the route. Where no next segment is found
/// the vehicle stays at the end of its segment, and the reason is reported.
pub open spec fn advance(
    roads: RoadsView,
    nodes: Seq<RoadNodeIdx>,
    point: RoadPoint,
    amount: u64,
) -> (RoadPoint, Result<(), PathError>)
    decreases amount, (if roads.segment(point.road_segment).length == point.position {
        1int
    } else {
        0int
    }),
    when roads.wf() && roads.contains_point(point)
    via advance_decreases
{
    let length = roads.segment(point.road_segment).length;
    let room = (length - point.position) as u64;
    if amount <= room {
        (
            RoadPoint {
                road_segment: point.road_segment,
                position: (point.position + amount) as u64,
            },
            Ok(()),
        )
    } else {
        match next_segment(roads, nodes, point.road_segment) {
            Err(error) => (
                RoadPoint { road_segment: point.road_segment, position: length },
                Err(error),
            ),
            Ok(next) => advance(
                roads,
                nodes,
                RoadPoint { road_segment: next, position: 0 },
                (amount - room) as u64,
            ),
        }
    }
}

#[via_fn]
proof fn advance_decreases(
    roads: RoadsView,
    nodes: Seq<RoadNodeIdx>,
    point: RoadPoint,
    amount: u64,
) {
    let length = roads.segment(point.road_segment).length;
    let room = (length - point.position) as u64;
    if amount > room {
        if let Ok(next) = next_segment(roads, nodes, point.road_segment) {
            lemma_next_segment_exists(roads, nodes, point.road_segment);
            lemma_segment_length_positive(roads, next);
        }
    }
}

/// A segment found among candidates is one of them, belongs to the network
/// and ends at the node asked for.
pub proof fn lemma_first_leading_to(
    roads: RoadsView,
    candidates: Seq<RoadSegmentIdx>,
    to: RoadNodeIdx,
    k: int,
)
    requires
        0 <= k,
    ensures
        match first_leading_to(roads, candidates, to, k) {
            Some(segment) => {
                &&& roads.has_segment(segment)
                &&& roads.segment(segment).to == to
                &&& exists|i: int| k <= i < candidates.len() && candidates[i] == segment
            },
            None => forall|i: int|
                k <= i < candidates.len() ==> !(roads.has_segment(#[trigger] candidates[i])
                    && roads.segment(candidates[i]).to == to),
        },
    decreases candidates.len() - k,
{
    if k < candidates.len() {
        if roads.has_segment(candidates[k]) && roads.segment(candidates[k]).to == to {
        } else {
            lemma_first_leading_to(roads, candidates, to, k + 1);
        }
    }
}

/// The segment on which a route continues belongs to the network.
pub proof fn lemma_next_segment_exists(
    roads: RoadsView,
    nodes: Seq<RoadNodeIdx>,
    current: RoadSegmentIdx,
)
    ensures
        next_segment(roads, nodes, current) matches Ok(next) ==> roads.has_segment(next),
{
    if let Some(i) = first_position(nodes, roads.segment(current).to) {
        let i = i.0 as int;
        if 0 <= i && i + 1 < nodes.len() && roads.has_node(nodes[i]) {
            lemma_first_leading_to(roads, roads.node(nodes[i]).road_segments, nodes[i + 1], 0);
        }
    }
}

/// The segment that leads from a node of a route to the next belongs to the
/// network.
pub proof fn lemma_next_pair_exists(roads: RoadsView, nodes: Seq<RoadNodeIdx>, i: int)
    ensures
        segment_following(roads, nodes, i) matches Ok(segment) ==> roads.has_segment(segment),
{
    if 0 <= i && i + 1 < nodes.len() && roads.has_node(nodes[i]) {
        lemma_first_leading_to(roads, roads.node(nodes[i]).road_segments, nodes[i + 1], 0);
    }
}

/// The length of a route from its `i`-th node to its last: the sum of the
/// lengths of the segments that lead from each node to the next.
pub open spec fn distance_from(roads: RoadsView, nodes: Seq<RoadNodeIdx>, i: int) -> Result<
    int,
    PathError,
>
    decreases nodes.len() - i,
{
    if i < 0 || i + 1 >= nodes.len() {
        Ok(0)
    } else {
        match segment_following(roads, nodes, i) {
            Err(error) => Err(error),
            Ok(segment) => match distance_from(roads, nodes, i + 1) {
                Err(error) => Err(error),
                Ok(rest) => Ok(roads.segment(segment).length + rest),
            },
        }
    }
}

/// The distance still to travel on a route from `point`: what is left of the
/// point's segment, and the route from the end node of that segment on.
pub open spec fn distance_remaining(
    roads: RoadsView,
    nodes: Seq<RoadNodeIdx>,
    point: RoadPoint,
) -> Result<int, PathError> {
    let segment = roads.segment(point.road_segment);
    match first_position(nodes, segment.to) {
        None => Err(PathError::NodeNotInPath),
        Some(i) => match distance_from(roads, nodes, i.0 as int) {
            Err(error) => Err(error),
            Ok(rest) => Ok(segment.length - point.position + rest),
        },
    }
}

/// A route as it is after the history before `point` is forgotten: it starts
/// at the first occurrence of the start node of the point's segment, and is
/// unchanged if that node is not on it.
pub open spec fn forgotten_before(
    roads: RoadsView,
    nodes: Seq<RoadNodeIdx>,
    point: RoadPoint,
) -> Seq<RoadNodeIdx> {
    match first_position(nodes, roads.segment(point.road_segment).from) {
        None => nodes,
        Some(i) => nodes.skip(i.0 as int),
    }
}

/// Whether a vehicle can follow `nodes` from the first node to the last:
/// there are at least two nodes, and no more than a route can hold, a segment
/// leads from each to the next, and no node but the last is visited twice.
pub open spec fn can_be_followed(roads: RoadsView, nodes: Seq<RoadNodeIdx>) -> bool {
    &&& 2 <= nodes.len() <= usize::MAX
    &&& forall|i: int| 0 <= i < nodes.len() - 1 ==> segment_following(roads, nodes, i).is_ok()
    &&& nodes.take(nodes.len() - 1).no_duplicates()
}

/// On a route that can be followed, the segment after the one that leads to
/// an inner node is the one that leaves that node on the route.
proof fn lemma_route_continues(roads: RoadsView, nodes: Seq<RoadNodeIdx>, i: int)
    requires
        roads.wf(),
        can_be_followed(roads, nodes),
        0 <= i < nodes.len() - 2,
    ensures
        segment_following(roads, nodes, i) matches Ok(segment) && next_segment(
            roads,
            nodes,
            segment,
        ) == segment_following(roads, nodes, i + 1),
{
    let segment = segment_following(roads, nodes, i).unwrap();
    assert(roads.has_node(nodes[i])) by {
        if !roads.has_node(nodes[i]) {
            assert(segment_between(roads, nodes[i], nodes[i + 1]).is_none());
        }
    }
    lemma_first_leading_to(roads, roads.node(nodes[i]).road_segments, nodes[i + 1], 0);
    assert(roads.segment(segment).to == nodes[i + 1]);
    nodes.index_of_first_ensures(nodes[i + 1]);
    let inner = nodes.take(nodes.len() - 1);
    let first = nodes.index_of_first(nodes[i + 1]).unwrap();
    if first < i + 1 {
        assert(inner[first] == nodes[first]);
        assert(inner[i + 1] == nodes[i + 1]);
    }
}

/// From a point on the segment that leaves the `i`-th node of a route that
/// can be followed, advancing by what is left of the segment and by the
/// length of the route from the next node on leads to the end of the
/// route's last segment.
proof fn lemma_advance_to_end(roads: RoadsView, nodes: Seq<RoadNodeIdx>, i: int, position: u64)
    requires
        roads.wf(),
        can_be_followed(roads, nodes),
        0 <= i < nodes.len() - 1,
        position <= roads.segment(segment_following(roads, nodes, i).unwrap()).length,
        distance_from(roads, nodes, i) matches Ok(distance) && distance <= u64::MAX,
    ensures
        ({
            let here = segment_following(roads, nodes, i).unwrap();
            let last = segment_following(roads, nodes, nodes.len() - 2).unwrap();
            let rest = distance_from(roads, nodes, i + 1).unwrap();
            &&& roads.has_segment(here)
            &&& roads.has_segment(last)
            &&& distance_from(roads, nodes, i + 1).is_ok()
            &&& 0 <= rest
            &&& advance(
                roads,
                nodes,
                RoadPoint { road_segment: here, position },
                (roads.segment(here).length - position + rest) as u64,
            ) == (
                RoadPoint { road_segment: last, position: roads.segment(last).length },
                Ok::<(), PathError>(()),
            )
        }),
    decreases nodes.len() - i,
{
    let here = segment_following(roads, nodes, i).unwrap();
    lemma_next_pair_exists(roads, nodes, i);
    lemma_next_pair_exists(roads, nodes, nodes.len() - 2);
    let room = roads.segment(here).length - position;
    if i < nodes.len() - 2 {
        let next = segment_following(roads, nodes, i + 1).unwrap();
        lemma_next_pair_exists(roads, nodes, i + 1);
        lemma_segment_length_positive(roads, next);
        lemma_route_continues(roads, nodes, i);
        assert(distance_from(roads, nodes, i + 1) matches Ok(rest) && 0 <= rest) by {
            lemma_distance_from_sign(roads, nodes, i + 2);
        }
        lemma_advance_to_end(roads, nodes, i + 1, 0);
        lemma_next_segment_exists(roads, nodes, here);
    }
}

/// The length of a route from any of its nodes on, where it can be
/// measured, is not negative.
proof fn lemma_distance_from_sign(roads: RoadsView, nodes: Seq<RoadNodeIdx>, i: int)
    ensures
        distance_from(roads, nodes, i) matches Ok(distance) ==> distance >= 0,
    decreases nodes.len() - i,
{
    if 0 <= i && i + 1 < nodes.len() {
        lemma_distance_from_sign(roads, nodes, i + 1);
    }
}

/// Advancing is exact. On a route that can be followed, a vehicle at the
/// start of the route's first segment that advances by the length of the
/// whole route arrives at the end of the route's last segment, which is the
/// route's last node, with nothing left to travel. On a closed loop, whose
/// last node is its first, it is back at the node it set out from.
pub proof fn lemma_advance_whole_route(roads: RoadsView, nodes: Seq<RoadNodeIdx>)
    requires
        roads.wf(),
        can_be_followed(roads, nodes),
        distance_from(roads, nodes, 0) matches Ok(distance) && distance <= u64::MAX,
    ensures
        ({
            let first = segment_following(roads, nodes, 0).unwrap();
            let last = segment_following(roads, nodes, nodes.len() - 2).unwrap();
            let total = distance_from(roads, nodes, 0).unwrap();
            &&& roads.has_segment(first)
            &&& roads.has_segment(last)
            &&& roads.segment(first).from == nodes[0]
            &&& roads.segment(last).to == nodes.last()
            &&& advance(
                roads,
                nodes,
                RoadPoint { road_segment: first, position: 0 },
                total as u64,
            ) == (
                RoadPoint { road_segment: last, position: roads.segment(last).length },
                Ok::<(), PathError>(()),
            )
        }),
{
    lemma_advance_to_end(roads, nodes, 0, 0);
    let n = nodes.len() as int;
    assert(roads.has_node(nodes[0])) by {
        if !roads.has_node(nodes[0]) {
            assert(segment_between(roads, nodes[0], nodes[1]).is_none());
        }
    }
    assert(roads.has_node(nodes[n - 2])) by {
        if !roads.has_node(nodes[n - 2]) {
            assert(segment_between(roads, nodes[n - 2], nodes[n - 1]).is_none());
        }
    }
    lemma_first_leading_to(roads, roads.node(nodes[0]).road_segments, nodes[1], 0);
    lemma_first_leading_to(roads, roads.node(nodes[n - 2]).road_segments, nodes[n - 1], 0);
    assert(roads.node_wf(nodes[0].0 as int));
}

impl Path {
    /// A route without nodes.
    pub fn new() -> (path: Self)
        ensures
            path@ == Seq::<RoadNodeIdx>::empty(),
    {
        Self { road_nodes: Vec::new() }
    }

    /// The nodes of the route, in order.
    pub fn nodes(&self) -> (nodes: &Vec<RoadNodeIdx>)
        ensures
            nodes@ == self@,
    {
        &self.road_nodes
    }

    /// Extends the route by `path`.
    pub fn append(&mut self, path: Vec<RoadNodeIdx>)
        ensures
            final(self)@ == old(self)@ + path@,
    {
        let mut path = path;
        self.road_nodes.append(&mut path);
    }

    /// Moves `position` forward by `amount` along the route, crossing from
    /// each segment to the next one of the route. On failure `position` is
    /// left at the end of the segment that could not be left.
    pub fn move_by(&mut self, position: &mut RoadPoint, amount: u64, roads: &Roads) -> (result:
        Result<(), PathError>)
        requires
            roads.wf(),
            roads@.contains_point(*old(position)),
        ensures
            final(self)@ == old(self)@,
            (*final(position), result) == advance(roads@, old(self)@, *old(position), amount),
            roads@.contains_point(*final(position)),
    {
        let mut left = amount;
        while left > 0
            invariant
                roads.wf(),
                self@ == old(self)@,
                roads@.contains_point(*position),
                advance(roads@, self@, *position, left) == advance(
                    roads@,
                    old(self)@,
                    *old(position),
                    amount,
                ),
            decreases
                    left,
                    (if roads@.segment(position.road_segment).length == position.position {
                        1int
                    } else {
                        0int
                    }),
        {
            let ghost here = *position;
            let ghost before = left;
            let segment_length = roads.segment_length(position.road_segment);
            let room = segment_length - position.position;
            proof {
                lemma_next_segment_exists(roads@, self@, here.road_segment);
            }
            assert(advance(roads@, self@, here, before) == if before <= room {
                (
                    RoadPoint {
                        road_segment: here.road_segment,
                        position: (here.position + before) as u64,
                    },
                    Ok::<(), PathError>(()),
                )
            } else {
                match next_segment(roads@, self@, here.road_segment) {
                    Err(error) => (
                        RoadPoint { road_segment: here.road_segment, position: segment_length },
                        Err(error),
                    ),
                    Ok(next) => advance(
                        roads@,
                        self@,
                        RoadPoint { road_segment: next, position: 0 },
                        (before - room) as u64,
                    ),
                }
            });
            if left <= room {
                position.position = position.position + left;
                left = 0;
            } else {
                position.position = segment_length;
                left = left - room;
                let end_node = roads.segment_to(position.road_segment);
                let current_node_path_index = match self.get_node_path_idx(end_node) {
                    Some(index) => index,
                    None => {
                        return Err(PathError::NodeNotInPath);
                    },
                };
                let next = match self.get_segment_following_node_path(
                    current_node_path_index,
                    roads,
                ) {
                    Ok(segment) => segment,
                    Err(error) => {
                        return Err(error);
                    },
                };
                proof {
                    lemma_segment_length_positive(roads@, next);
                }
                position.road_segment = next;
                position.position = 0;
            }
        }
        Ok(())
    }

    /// The length of the route from the node at position `start` on.
    fn distance_from(&self, start: usize, roads: &Roads) -> (result: Result<u128, PathError>)
        ensures
            match result {
                Ok(distance) => distance_from(roads@, self@, start as int) == Ok::<int, PathError>(
                    distance as int,
                ) && distance <= self@.len() * u64::MAX,
                Err(error) => distance_from(roads@, self@, start as int) == Err::<int, PathError>(
                    error,
                ),
            },
    {
        let n = self.road_nodes.len();
        let mut distance: u128 = 0;
        let mut i: usize = start;
        while i < n && i + 1 < n
            invariant
                n == self@.len(),
                start <= i,
                i <= n || i == start,
                distance <= (if i <= n { i as int } else { 0 }) * u64::MAX,
                distance_from(roads@, self@, start as int) == match distance_from(
                    roads@,
                    self@,
                    i as int,
                ) {
                    Ok(rest) => Ok::<int, PathError>(distance + rest),
                    Err(error) => Err(error),
                },
            decreases n - i,
        {
            let segment = match self.get_segment_following_node_path(NodePathIdx(i), roads) {
                Ok(segment) => segment,
                Err(error) => {
                    return Err(error);
                },
            };
            proof {
                lemma_next_pair_exists(roads@, self@, i as int);
            }
            let length = roads.segment_length(segment);
            assert(distance + length <= (i + 1) * u64::MAX && (i + 1) * u64::MAX <= n * u64::MAX
                && n * u64::MAX <= u128::MAX) by (nonlinear_arith)
                requires
                    distance <= i * u64::MAX,
                    length <= u64::MAX,
                    i + 1 <= n,
                    n <= usize::MAX,
                    usize::MAX <= u64::MAX,
                    u64::MAX == 0xffff_ffff_ffff_ffff,
                    u128::MAX == 0xffff_ffff_ffff_ffff_ffff_ffff_ffff_ffff,
                    0 <= i,
            ;
            distance = distance + length as u128;
            i += 1;
        }
        assert(distance <= n * u64::MAX) by (nonlinear_arith)
            requires
                distance <= (if i <= n { i as int } else { 0 }) * u64::MAX,
                0 <= n,
                0 <= i,
        ;
        Ok(distance)
    }

    /// The length of the route: the sum of the lengths of the segments that
    /// lead from each of its nodes to the next. A route of fewer than two
    /// nodes has length zero.
    pub fn total_distance(&self, roads: &Roads) -> (result: Result<u128, PathError>)
        ensures
            match result {
                Ok(distance) => distance_from(roads@, self@, 0) == Ok::<int, PathError>(
                    distance as int,
                ),
                Err(error) => distance_from(roads@, self@, 0) == Err::<int, PathError>(error),
            },
    {
        self.distance_from(0, roads)
    }

    /// The distance still to travel from `node_point`: what is left of its
    /// segment, and the route from the end node of that segment on.
    pub fn distance_left(&self, node_point: &RoadPoint, roads: &Roads) -> (result: Result<
        u128,
        PathError,
    >)
        requires
            roads@.contains_point(*node_point),
        ensures
            match result {
                Ok(distance) => distance_remaining(roads@, self@, *node_point) == Ok::<
                    int,
                    PathError,
                >(distance as int),
                Err(error) => distance_remaining(roads@, self@, *node_point) == Err::<
                    int,
                    PathError,
                >(error),
            },
    {
        let on_segment = roads.segment_length(node_point.road_segment) - node_point.position;
        let end_node = roads.segment_to(node_point.road_segment);
        let start = match self.get_node_path_idx(end_node) {
            Some(index) => index,
            None => {
                return Err(PathError::NodeNotInPath);
            },
        };
        let n = self.road_nodes.len();
        match self.distance_from(start.0, roads) {
            Ok(rest) => {
                assert(on_segment + rest <= u128::MAX) by (nonlinear_arith)
                    requires
                        on_segment <= u64::MAX,
                        rest <= n * u64::MAX,
                        n <= usize::MAX,
                        usize::MAX <= u64::MAX,
                        u64::MAX == 0xffff_ffff_ffff_ffff,
                        u128::MAX == 0xffff_ffff_ffff_ffff_ffff_ffff_ffff_ffff,
                ;
                Ok(on_segment as u128 + rest)
            },
            Err(error) => Err(error),
        }
    }

    /// Forgets the nodes before the one at which the segment of `position`
    /// starts. Nothing is forgotten if that node is not on the route.
    pub fn forget_before(&mut self, position: &RoadPoint, roads: &Roads)
        requires
            roads@.has_segment(position.road_segment),
        ensures
            final(self)@ == forgotten_before(roads@, old(self)@, *position),
    {
        let start_node = roads.segment_from(position.road_segment);
        let delete_up_to_idx = match self.get_node_path_idx(start_node) {
            Some(index) => index,
            None => {
                return ;
            },
        };
        for k in 0..delete_up_to_idx.0
            invariant
                delete_up_to_idx.0 <= old(self)@.len(),
                self@ == old(self)@.skip(k as int),
        {
            self.road_nodes.remove(0);
            assert(self@ =~= old(self)@.skip(k + 1));
        }
    }

    /// Where `node` first occurs in the route.
    pub fn get_node_path_idx(&self, node: RoadNodeIdx) -> (found: Option<NodePathIdx>)
        ensures
            found == first_position(self@, node),
            found matches Some(i) ==> i.0 < self@.len() && self@[i.0 as int] == node && forall|
                k: int,
            | 0 <= k < i.0 ==> self@[k] != node,
            found.is_none() ==> !self@.contains(node),
    {
        let mut i: usize = 0;
        while i < self.road_nodes.len()
            invariant
                0 <= i <= self.road_nodes.len(),
                forall|k: int| 0 <= k < i ==> self@[k] != node,
            decreases self.road_nodes.len() - i,
        {
            if self.road_nodes[i].0 == node.0 {
                proof {
                    assert(self@[i as int] == node);
                    self@.index_of_first_ensures(node);
                }
                return Some(NodePathIdx(i));
            }
            i += 1;
        }
        proof {
            self@.index_of_first_ensures(node);
        }
        None
    }

    /// The segment that leads from the node at position `node` of the route
    /// to the next: the first of those listed at that node which ends at the
    /// next node.
    pub fn get_segment_following_node_path(&self, node: NodePathIdx, roads: &Roads) -> (result:
        Result<RoadSegmentIdx, PathError>)
        ensures
            result == segment_following(roads@, self@, node.0 as int),
    {
        if node.0 >= self.road_nodes.len() || node.0 + 1 >= self.road_nodes.len() {
            return Err(PathError::EndOfPath);
        }
        let from = self.road_nodes[node.0];
        let to = self.road_nodes[node.0 + 1];
        if from.0 >= roads.node_count() {
            return Err(PathError::NoConnectingSegment);
        }
        let candidates = roads.node_segments(from);
        let mut k: usize = 0;
        while k < candidates.len()
            invariant
                0 <= k <= candidates.len(),
                node.0 + 1 < self@.len(),
                from == self@[node.0 as int],
                to == self@[node.0 + 1],
                roads@.has_node(from),
                candidates@ == roads@.node(from).road_segments,
                first_leading_to(roads@, candidates@, to, 0) == first_leading_to(
                    roads@,
                    candidates@,
                    to,
                    k as int,
                ),
            decreases candidates.len() - k,
        {
            let candidate = candidates[k];
            if candidate.0 < roads.segment_count() && roads.segment_to(candidate).0 == to.0 {
                assert(first_leading_to(roads@, candidates@, to, k as int) == Some(candidate));
                return Ok(candidate);
            }
            assert(first_leading_to(roads@, candidates@, to, k as int) == first_leading_to(
                roads@,
                candidates@,
                to,
                k + 1,
            ));
            k += 1;
        }
        assert(first_leading_to(roads@, candidates@, to, k as int).is_none());
        Err(PathError::NoConnectingSegment)
    }
}

} // verus!
