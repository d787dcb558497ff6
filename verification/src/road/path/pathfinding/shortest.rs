//! Why the route that a search finds is a shortest one.
//!
//! The straight line from a node to the goal never exceeds the length of a
//! segment from that node plus the straight line from the segment's end to
//! the goal. So when a node is visited, no walk to it is shorter than the
//! route the search knows.

use crate::road::geometry::{lemma_polyline_detour, polyline_length};
use crate::road::path::pathfinding::open_list::in_order;
use crate::road::path::pathfinding::search::{
    Node, Search, after_visit, entry_ok, fresh, heuristic, lemma_bound_fits,
    lemma_heuristic_fits, record_ok, search_ok,
};
use crate::road::path::pathfinding::{is_segment_walk, walk_length, walk_node};
use crate::road::{RoadNodeIdx, RoadSegmentIdx, RoadsView};
use vstd::prelude::*;

verus! {

/// The straight line from the start of a segment to the goal is not longer
/// than the segment and the straight line from its end to the goal
/// together.
pub(crate) proof fn lemma_segment_detour(roads: RoadsView, segment: RoadSegmentIdx, goal: usize)
    requires
        roads.wf(),
        roads.has_segment(segment),
        goal < roads.nodes.len(),
    ensures
        roads.has_node(roads.segment(segment).from),
        roads.has_node(roads.segment(segment).to),
        heuristic(roads, roads.segment(segment).from.0, goal) <= roads.segment(segment).length
            + heuristic(roads, roads.segment(segment).to.0, goal),
{
    let s = segment.0 as int;
    assert(roads.segment_wf(s));
    let points = roads.polyline(s);
    let pieces = roads.segments[s].visual_keypoints.len() + 1;
    assert(roads.polyline_mark(s, pieces as int) == polyline_length(points, pieces as int));
    lemma_polyline_detour(
        points,
        pieces as int,
        roads.nodes[goal as int].x as int,
        roads.nodes[goal as int].y as int,
    );
}

/// The first `i` segments of a walk are a walk to its `i`-th node, and one
/// segment longer than the first `i - 1`.
pub(crate) proof fn lemma_walk_prefix(
    roads: RoadsView,
    from: RoadNodeIdx,
    to: RoadNodeIdx,
    walk: Seq<RoadSegmentIdx>,
    i: int,
)
    requires
        is_segment_walk(roads, from, to, walk),
        0 <= i <= walk.len(),
    ensures
        is_segment_walk(roads, from, walk_node(roads, from, walk, i), walk.take(i)),
        i > 0 ==> walk_length(roads, walk.take(i)) == walk_length(roads, walk.take(i - 1))
            + roads.segment(walk[i - 1]).length,
        i == walk.len() ==> walk.take(i) == walk,
{
    let part = walk.take(i);
    assert forall|k: int| 0 <= k < part.len() implies roads.has_segment(#[trigger] part[k])
        && roads.segment(part[k]).from == walk_node(roads, from, part, k) by {
        assert(part[k] == walk[k]);
        if k > 0 {
            assert(part[k - 1] == walk[k - 1]);
        }
    }
    if i > 0 {
        assert(part[i - 1] == walk[i - 1]);
        assert(part.drop_last() == walk.take(i - 1));
    }
    if i == walk.len() {
        assert(walk.take(i) == walk);
    }
}

/// No walk has a negative length.
pub(crate) proof fn lemma_walk_length_sign(roads: RoadsView, walk: Seq<RoadSegmentIdx>)
    ensures
        walk_length(roads, walk) >= 0,
    decreases walk.len(),
{
    if walk.len() > 0 {
        lemma_walk_length_sign(roads, walk.drop_last());
    }
}

/// From the `i`-th node of a walk, the straight line to the goal is not
/// longer than the rest of the walk and the straight line from the walk's
/// end to the goal together.
pub(crate) proof fn lemma_walk_detour(
    roads: RoadsView,
    from: RoadNodeIdx,
    to: RoadNodeIdx,
    walk: Seq<RoadSegmentIdx>,
    i: int,
    goal: usize,
)
    requires
        roads.wf(),
        goal < roads.nodes.len(),
        is_segment_walk(roads, from, to, walk),
        0 <= i <= walk.len(),
    ensures
        heuristic(roads, walk_node(roads, from, walk, i).0, goal) + walk_length(
            roads,
            walk.take(i),
        ) <= walk_length(roads, walk) + heuristic(roads, to.0, goal),
    decreases walk.len() - i,
{
    if i < walk.len() {
        lemma_walk_detour(roads, from, to, walk, i + 1, goal);
        lemma_walk_prefix(roads, from, to, walk, i + 1);
        assert(roads.has_segment(walk[i]));
        lemma_segment_detour(roads, walk[i], goal);
    } else {
        assert(walk.take(i) == walk);
    }
}

/// A walk that sets out from a visited node and ends at a node not visited
/// leaves the visited nodes somewhere: it has a segment from a visited
/// node to one not visited.
pub(crate) proof fn lemma_walk_leaves(
    roads: RoadsView,
    closed: Set<int>,
    from: RoadNodeIdx,
    to: RoadNodeIdx,
    walk: Seq<RoadSegmentIdx>,
) -> (i: int)
    requires
        is_segment_walk(roads, from, to, walk),
        closed.contains(from.0 as int),
        !closed.contains(to.0 as int),
    ensures
        0 <= i < walk.len(),
        closed.contains(walk_node(roads, from, walk, i).0 as int),
        !closed.contains(walk_node(roads, from, walk, i + 1).0 as int),
    decreases walk.len(),
{
    let last = walk.len() - 1;
    if closed.contains(walk_node(roads, from, walk, last).0 as int) {
        last
    } else {
        lemma_walk_prefix(roads, from, to, walk, last);
        let part = walk.take(last);
        let i = lemma_walk_leaves(roads, closed, from, walk_node(roads, from, walk, last), part);
        assert(part[i] == walk[i]);
        if i > 0 {
            assert(part[i - 1] == walk[i - 1]);
        }
        i
    }
}

/// The walk by which the search reached node `k` leads from the start to
/// `k`, is as long as the route known to `k`, and is its parent's walk
/// extended by one segment. The walk of the start is empty.
pub(crate) open spec fn route_ok(
    roads: RoadsView,
    start: usize,
    records: Map<usize, Node>,
    routes: Map<usize, Seq<RoadSegmentIdx>>,
    k: usize,
) -> bool {
    let route = routes[k];
    &&& routes.contains_key(k)
    &&& is_segment_walk(roads, RoadNodeIdx(start), RoadNodeIdx(k), route)
    &&& walk_length(roads, route) == records[k].distance_from_start
    &&& if k == start {
        route.len() == 0
    } else {
        &&& route.len() > 0
        &&& routes.contains_key(records[k].parent_road_node.0)
        &&& route.drop_last() == routes[records[k].parent_road_node.0]
    }
}

/// No walk from the start to node `k` is shorter than the route known to
/// `k`.
pub(crate) open spec fn best(
    roads: RoadsView,
    start: usize,
    records: Map<usize, Node>,
    k: usize,
) -> bool {
    forall|walk: Seq<RoadSegmentIdx>| #[trigger]
        is_segment_walk(roads, RoadNodeIdx(start), RoadNodeIdx(k), walk)
            ==> records[k].distance_from_start <= walk_length(roads, walk)
}

/// The node at the end of segment `s` has been met, and the route known to
/// it is not longer than the route known to the start of `s` extended by
/// `s`.
pub(crate) open spec fn relaxed_over(roads: RoadsView, records: Map<usize, Node>, s: int) -> bool {
    &&& records.contains_key(roads.segments[s].to.0)
    &&& records.contains_key(roads.segments[s].from.0)
    &&& records[roads.segments[s].to.0].distance_from_start
        <= records[roads.segments[s].from.0].distance_from_start + roads.segments[s].length
}

/// Every segment that leaves node `k` is relaxed.
pub(crate) open spec fn relaxed(roads: RoadsView, records: Map<usize, Node>, k: usize) -> bool {
    forall|s: int|
        0 <= s < roads.segments.len() && (#[trigger] roads.segments[s]).from.0 == k
            ==> relaxed_over(roads, records, s)
}

/// What holds of the routes known to the search between two steps: each is
/// witnessed by a walk, those of the visited nodes are shortest, and the
/// segments that leave visited nodes are relaxed. `expanding` is the visited
/// node whose segments are still being followed, if there is one.
pub(crate) open spec fn best_ok(
    roads: RoadsView,
    start: usize,
    search: Search,
    routes: Map<usize, Seq<RoadSegmentIdx>>,
    expanding: Option<usize>,
) -> bool {
    &&& forall|k: usize| #[trigger]
        search.records.contains_key(k) ==> route_ok(roads, start, search.records, routes, k)
    &&& forall|k: usize| #[trigger]
        search.records.contains_key(k) && !search.records[k].opened ==> best(
            roads,
            start,
            search.records,
            k,
        )
    &&& forall|k: usize| #[trigger]
        search.records.contains_key(k) && !search.records[k].opened && expanding != Some(k)
            ==> relaxed(roads, search.records, k)
    &&& search.records[start].opened ==> forall|k: usize| #[trigger]
        search.records.contains_key(k) ==> k == start
}

/// A walk extended by a segment that starts where the walk ends is a walk
/// to the end of that segment, longer by the segment's length.
pub(crate) proof fn lemma_walk_extended(
    roads: RoadsView,
    from: RoadNodeIdx,
    to: RoadNodeIdx,
    walk: Seq<RoadSegmentIdx>,
    segment: RoadSegmentIdx,
)
    requires
        is_segment_walk(roads, from, to, walk),
        roads.has_segment(segment),
        roads.segment(segment).from == to,
    ensures
        is_segment_walk(roads, from, roads.segment(segment).to, walk.push(segment)),
        walk_length(roads, walk.push(segment)) == walk_length(roads, walk) + roads.segment(
            segment,
        ).length,
{
    let longer = walk.push(segment);
    assert(longer.drop_last() == walk);
    assert(longer.last() == segment);
    assert forall|i: int| 0 <= i < longer.len() implies roads.has_segment(#[trigger] longer[i])
        && roads.segment(longer[i]).from == walk_node(roads, from, longer, i) by {
        if i < walk.len() {
            assert(longer[i] == walk[i]);
            if i > 0 {
                assert(longer[i - 1] == walk[i - 1]);
            }
        } else if i > 0 {
            assert(longer[i - 1] == walk[i - 1]);
        }
    }
}

/// The routes are in order when only the start has been met.
pub(crate) proof fn lemma_best_starts(roads: RoadsView, start: usize, search: Search)
    requires
        roads.has_node(RoadNodeIdx(start)),
        search.records.dom() == set![start],
        search.records[start].distance_from_start == 0,
        search.records[start].opened,
    ensures
        best_ok(roads, start, search, Map::empty().insert(start, Seq::empty()), None),
{
    let routes = Map::<usize, Seq<RoadSegmentIdx>>::empty().insert(start, Seq::empty());
    assert(is_segment_walk(roads, RoadNodeIdx(start), RoadNodeIdx(start), routes[start]));
}

/// When the first entry is visited, no walk to its node is shorter than the
/// route known to the node.
pub(crate) proof fn lemma_visited_is_best(
    roads: RoadsView,
    start: usize,
    goal: usize,
    search: Search,
    routes: Map<usize, Seq<RoadSegmentIdx>>,
    walk: Seq<RoadSegmentIdx>,
)
    requires
        search_ok(roads, start, goal, search, None, false),
        best_ok(roads, start, search, routes, None),
        search.open.len() > 0,
        is_segment_walk(roads, RoadNodeIdx(start), RoadNodeIdx(search.open[0].1), walk),
    ensures
        search.records[search.open[0].1].distance_from_start <= walk_length(roads, walk),
{
    let u = search.open[0].1;
    let records = search.records;
    assert(entry_ok(records, search.open[0]));
    assert(record_ok(roads, start, goal, search, u));
    lemma_walk_length_sign(roads, walk);
    if u != start {
        assert(record_ok(roads, start, goal, search, start));
        let i = lemma_walk_leaves(roads, search.closed, RoadNodeIdx(start), RoadNodeIdx(u), walk);
        let x = walk_node(roads, RoadNodeIdx(start), walk, i);
        let y = walk_node(roads, RoadNodeIdx(start), walk, i + 1);
        assert(records.contains_key(x.0));
        assert(record_ok(roads, start, goal, search, x.0));
        // the walk up to the visited node is no shorter than the node's route
        lemma_walk_prefix(roads, RoadNodeIdx(start), RoadNodeIdx(u), walk, i);
        assert(x == RoadNodeIdx(x.0));
        assert(best(roads, start, records, x.0));
        assert(records[x.0].distance_from_start <= walk_length(roads, walk.take(i)));
        // the segment that leaves the visited nodes is relaxed
        assert(roads.has_segment(walk[i]));
        assert(relaxed(roads, records, x.0));
        assert(roads.segments[walk[i].0 as int].from.0 == x.0);
        assert(relaxed_over(roads, records, walk[i].0 as int));
        assert(record_ok(roads, start, goal, search, y.0));
        lemma_walk_prefix(roads, RoadNodeIdx(start), RoadNodeIdx(u), walk, i + 1);
        // the node it leads to waits behind the first entry
        assert(records[y.0].opened);
        let entry = records[y.0].entry();
        let j = choose|j: int| 0 <= j < search.open.len() && search.open[j] == entry;
        if j > 0 {
            assert(in_order(search.open[0], search.open[j]));
        }
        lemma_heuristic_fits(roads, y.0, goal);
        lemma_heuristic_fits(roads, u, goal);
        lemma_bound_fits(search.closed.len() as int, roads.nodes.len() as int);
        assert(records[u].priority() <= records[y.0].priority());
        // the rest of the walk is no shorter than the straight line allows
        lemma_walk_detour(roads, RoadNodeIdx(start), RoadNodeIdx(u), walk, i + 1, goal);
    }
}

/// Visiting the first entry keeps the routes in order.
pub(crate) proof fn lemma_best_visit(
    roads: RoadsView,
    start: usize,
    goal: usize,
    search: Search,
    routes: Map<usize, Seq<RoadSegmentIdx>>,
)
    requires
        search_ok(roads, start, goal, search, None, false),
        best_ok(roads, start, search, routes, None),
        search.open.len() > 0,
    ensures
        best_ok(roads, start, after_visit(search), routes, Some(search.open[0].1)),
{
    let u = search.open[0].1;
    let after = after_visit(search);
    assert(entry_ok(search.records, search.open[0]));
    assert forall|k: usize| #[trigger] after.records.contains_key(k) implies route_ok(
        roads,
        start,
        after.records,
        routes,
        k,
    ) by {
        assert(search.records.contains_key(k));
        assert(route_ok(roads, start, search.records, routes, k));
    }
    assert forall|k: usize| #[trigger]
        after.records.contains_key(k) && !after.records[k].opened implies best(
        roads,
        start,
        after.records,
        k,
    ) by {
        assert(search.records.contains_key(k));
        if k == u {
            assert forall|walk: Seq<RoadSegmentIdx>| #[trigger]
                is_segment_walk(
                    roads,
                    RoadNodeIdx(start),
                    RoadNodeIdx(k),
                    walk,
                ) implies after.records[k].distance_from_start <= walk_length(roads, walk) by {
                lemma_visited_is_best(roads, start, goal, search, routes, walk);
            }
        } else {
            assert(best(roads, start, search.records, k));
        }
    }
    assert forall|k: usize| #[trigger]
        after.records.contains_key(k) && !after.records[k].opened && Some(u) != Some(
            k,
        ) implies relaxed(roads, after.records, k) by {
        assert(search.records.contains_key(k));
        assert(relaxed(roads, search.records, k));
        assert forall|s: int|
            0 <= s < roads.segments.len() && (#[trigger] roads.segments[s]).from.0
                == k implies relaxed_over(roads, after.records, s) by {
            assert(relaxed_over(roads, search.records, s));
        }
    }
    if after.records[start].opened {
        assert(search.records.contains_key(u));
    }
}

/// A relaxed segment that leaves a visited node stays relaxed when a node
/// is met or a shorter route to a waiting node is found.
pub(crate) proof fn lemma_relaxed_kept(
    roads: RoadsView,
    before: Map<usize, Node>,
    m: usize,
    record: Node,
    s: int,
)
    requires
        relaxed_over(roads, before, s),
        !before[roads.segments[s].from.0].opened,
        before.contains_key(m) ==> before[m].opened && record.distance_from_start
            <= before[m].distance_from_start,
    ensures
        relaxed_over(roads, before.insert(m, record), s),
{
}

/// Meeting a node, or finding a shorter route to a node that waits, over a
/// segment from the node being visited keeps the routes in order, and
/// relaxes that segment.
pub(crate) proof fn lemma_best_reached(
    roads: RoadsView,
    start: usize,
    goal: usize,
    search: Search,
    routes: Map<usize, Seq<RoadSegmentIdx>>,
    k: usize,
    s: int,
    after: Search,
)
    requires
        search_ok(roads, start, goal, search, Some(k), false),
        best_ok(roads, start, search, routes, Some(k)),
        search.records.contains_key(k),
        !search.records[k].opened,
        0 <= s < roads.segments.len(),
        roads.segments[s].from.0 == k,
        search.records[k].distance_from_start + roads.segments[s].length <= u128::MAX,
        search.records.contains_key(roads.segments[s].to.0) ==> {
            &&& search.records[roads.segments[s].to.0].opened
            &&& search.records[k].distance_from_start + roads.segments[s].length
                < search.records[roads.segments[s].to.0].distance_from_start
        },
        after.records == search.records.insert(
            roads.segments[s].to.0,
            fresh(roads, goal, search, k, s),
        ),
    ensures
        best_ok(
            roads,
            start,
            after,
            routes.insert(roads.segments[s].to.0, routes[k].push(RoadSegmentIdx(s as usize))),
            Some(k),
        ),
        relaxed_over(roads, after.records, s),
        forall|t: int|
            relaxed_over(roads, search.records, t) && roads.segments[t].from.0 == k
                ==> relaxed_over(roads, after.records, t),
{
    let m = roads.segments[s].to.0;
    let record = fresh(roads, goal, search, k, s);
    let segment = RoadSegmentIdx(s as usize);
    let longer = routes.insert(m, routes[k].push(segment));
    assert(record_ok(roads, start, goal, search, k));
    assert(route_ok(roads, start, search.records, routes, k));
    assert(search.records.contains_key(start));
    assert(record_ok(roads, start, goal, search, start));
    if search.records.contains_key(m) {
        assert(record_ok(roads, start, goal, search, m));
    }
    assert(m != start);
    assert(m != k);
    lemma_walk_extended(roads, RoadNodeIdx(start), RoadNodeIdx(k), routes[k], segment);
    assert(roads.segment(segment).to == RoadNodeIdx(m)) by {
        assert(roads.segment_wf(s));
    }
    assert forall|n: usize| #[trigger] after.records.contains_key(n) implies route_ok(
        roads,
        start,
        after.records,
        longer,
        n,
    ) by {
        if n == m {
            assert(longer[m].drop_last() == routes[k]);
        } else {
            assert(search.records.contains_key(n));
            assert(route_ok(roads, start, search.records, routes, n));
            if n != start {
                assert(record_ok(roads, start, goal, search, n));
            }
        }
    }
    assert forall|n: usize| #[trigger]
        after.records.contains_key(n) && !after.records[n].opened implies best(
        roads,
        start,
        after.records,
        n,
    ) by {
        assert(search.records.contains_key(n));
        assert(best(roads, start, search.records, n));
    }
    assert forall|t: int|
        relaxed_over(roads, search.records, t)
            && !search.records[roads.segments[t].from.0].opened implies relaxed_over(
        roads,
        after.records,
        t,
    ) by {
        lemma_relaxed_kept(roads, search.records, m, record, t);
    }
    assert forall|n: usize| #[trigger]
        after.records.contains_key(n) && !after.records[n].opened && Some(k) != Some(
            n,
        ) implies relaxed(roads, after.records, n) by {
        assert(search.records.contains_key(n));
        assert(relaxed(roads, search.records, n));
        assert forall|t: int|
            0 <= t < roads.segments.len() && (#[trigger] roads.segments[t]).from.0
                == n implies relaxed_over(roads, after.records, t) by {
            assert(relaxed_over(roads, search.records, t));
        }
    }
}

/// A segment from the node being visited to a node that has been visited
/// is relaxed.
pub(crate) proof fn lemma_best_visited_neighbour(
    roads: RoadsView,
    start: usize,
    goal: usize,
    search: Search,
    routes: Map<usize, Seq<RoadSegmentIdx>>,
    k: usize,
    s: int,
)
    requires
        search_ok(roads, start, goal, search, Some(k), false),
        best_ok(roads, start, search, routes, Some(k)),
        search.records.contains_key(k),
        0 <= s < roads.segments.len(),
        roads.segments[s].from.0 == k,
        search.records.contains_key(roads.segments[s].to.0),
        !search.records[roads.segments[s].to.0].opened,
    ensures
        relaxed_over(roads, search.records, s),
{
    let m = roads.segments[s].to.0;
    let segment = RoadSegmentIdx(s as usize);
    assert(route_ok(roads, start, search.records, routes, k));
    lemma_walk_extended(roads, RoadNodeIdx(start), RoadNodeIdx(k), routes[k], segment);
    assert(best(roads, start, search.records, m));
    assert(roads.segment(segment).to == RoadNodeIdx(m));
}

/// Once every segment listed at the node being visited is relaxed, the
/// routes are in order with no node being visited.
pub(crate) proof fn lemma_best_visit_ends(
    roads: RoadsView,
    start: usize,
    search: Search,
    routes: Map<usize, Seq<RoadSegmentIdx>>,
    k: usize,
)
    requires
        roads.wf(),
        k < roads.nodes.len(),
        best_ok(roads, start, search, routes, Some(k)),
        forall|j: int|
            0 <= j < roads.nodes[k as int].road_segments.len() ==> relaxed_over(
                roads,
                search.records,
                (#[trigger] roads.nodes[k as int].road_segments[j]).0 as int,
            ),
    ensures
        best_ok(roads, start, search, routes, None),
{
    assert(roads.node_wf(k as int));
    let listed = roads.nodes[k as int].road_segments;
    assert forall|s: int|
        0 <= s < roads.segments.len() && (#[trigger] roads.segments[s]).from.0
            == k implies relaxed_over(roads, search.records, s) by {
        assert(listed.contains(RoadSegmentIdx(s as usize)));
        let j = choose|j: int| 0 <= j < listed.len() && listed[j] == RoadSegmentIdx(s as usize);
        assert(listed[j].0 as int == s);
    }
    assert(relaxed(roads, search.records, k));
}

} // verus!
