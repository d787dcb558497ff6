//! The steps of a search, each with what it keeps true.
//!
//! Between two steps the search is sound: its records, its waiting entries
//! and the walks that witness its routes fit together, the routes of the
//! visited nodes are shortest, and all nodes met through visited nodes are
//! on record.

use crate::road::path::pathfinding::open_list::ascending;
use crate::road::path::pathfinding::search::{
    Node, Search, after_improve, after_meet, after_visit, heuristic, lemma_bound_fits,
    lemma_exhausted, lemma_improve, lemma_meet, lemma_search_starts, lemma_visit,
    lemma_visit_ends, linked, record_ok, search_ok,
};
use crate::road::path::pathfinding::shortest::{
    best, best_ok, lemma_best_reached, lemma_best_starts, lemma_best_visit,
    lemma_best_visit_ends, lemma_best_visited_neighbour, relaxed_over, route_ok,
};
use crate::road::path::pathfinding::{
    connected, is_route, is_segment_walk, is_shortest_route, reachable, walk_length, walk_node,
    walk_nodes,
};
use crate::road::{RoadNodeIdx, RoadSegmentIdx, RoadsView, lemma_segment_length_positive};
use vstd::prelude::*;

verus! {

/// The node being visited, if there is one.
pub(crate) open spec fn visiting(expanding: Option<(usize, int)>) -> Option<usize> {
    match expanding {
        Some((u, _)) => Some(u),
        None => None,
    }
}

/// The `j`-th segment listed at node `u`, as an index into the segments.
pub(crate) open spec fn listed(roads: RoadsView, u: usize, j: int) -> int {
    roads.nodes[u as int].road_segments[j].0 as int
}

/// Whether the search is sound. `expanding` names the node being visited,
/// if there is one, with the number of segments listed at it that have been
/// followed. When the goal is visited it has been found, and none of its
/// segments is followed.
#[verifier::opaque]
pub(crate) open spec fn sound(
    roads: RoadsView,
    start: usize,
    goal: usize,
    search: Search,
    routes: Map<usize, Seq<RoadSegmentIdx>>,
    expanding: Option<(usize, int)>,
    found: bool,
) -> bool {
    &&& search_ok(roads, start, goal, search, visiting(expanding), found)
    &&& best_ok(roads, start, search, routes, visiting(expanding))
    &&& match expanding {
        Some((u, j)) => {
            &&& search.records.contains_key(u)
            &&& !search.records[u].opened
            &&& search.records[u].distance_from_start + u64::MAX <= search.closed.len() * u64::MAX
            &&& 0 <= j <= roads.nodes[u as int].road_segments.len()
            &&& forall|i: int|
                0 <= i < j ==> relaxed_over(roads, search.records, #[trigger] listed(roads, u, i))
            &&& found == (u == goal)
        },
        None => !found,
    }
}

/// The search is sound when only its start has been met.
pub(crate) proof fn lemma_starts(roads: RoadsView, start: usize, goal: usize, first: Node)
    requires
        roads.wf(),
        start < roads.nodes.len(),
        goal < roads.nodes.len(),
        first.road_node.0 == start,
        first.distance_from_start == 0,
        first.distance_to_end == heuristic(roads, start, goal),
        first.opened,
    ensures
        sound(
            roads,
            start,
            goal,
            Search {
                records: Map::empty().insert(start, first),
                open: Seq::empty().insert(0, first.entry()),
                closed: Set::empty(),
            },
            Map::empty().insert(start, Seq::empty()),
            None,
            false,
        ),
{
    reveal(sound);
    let search = Search {
        records: Map::empty().insert(start, first),
        open: Seq::empty().insert(0, first.entry()),
        closed: Set::empty(),
    };
    lemma_search_starts(roads, start, goal, first);
    assert(search.records.dom() =~= set![start]);
    lemma_best_starts(roads, start, search);
}

/// Visiting the first entry keeps the search sound.
pub(crate) proof fn lemma_visits(
    roads: RoadsView,
    start: usize,
    goal: usize,
    search: Search,
    routes: Map<usize, Seq<RoadSegmentIdx>>,
)
    requires
        sound(roads, start, goal, search, routes, None, false),
        search.open.len() > 0,
    ensures
        search.records.contains_key(search.open[0].1),
        search.records[search.open[0].1].road_node.0 == search.open[0].1,
        sound(
            roads,
            start,
            goal,
            after_visit(search),
            routes,
            Some((search.open[0].1, 0int)),
            search.open[0].1 == goal,
        ),
        after_visit(search).closed.len() == search.closed.len() + 1,
        after_visit(search).closed.len() <= roads.nodes.len(),
{
    reveal(sound);
    let after = lemma_visit(roads, start, goal, search);
    lemma_best_visit(roads, start, goal, search, routes);
}

/// What is known of the node being visited.
pub(crate) proof fn lemma_visiting(
    roads: RoadsView,
    start: usize,
    goal: usize,
    search: Search,
    routes: Map<usize, Seq<RoadSegmentIdx>>,
    u: usize,
    j: int,
    found: bool,
)
    requires
        sound(roads, start, goal, search, routes, Some((u, j)), found),
    ensures
        roads.wf(),
        start < roads.nodes.len(),
        goal < roads.nodes.len(),
        u < roads.nodes.len(),
        found == (u == goal),
        search.records.contains_key(u),
        search.records[u].road_node.0 == u,
        !search.records[u].opened,
        0 <= j <= roads.nodes[u as int].road_segments.len(),
        search.records[u].distance_from_start + 2 * u64::MAX <= u128::MAX,
        search.closed.len() <= roads.nodes.len(),
{
    reveal(sound);
    assert(record_ok(roads, start, goal, search, u));
    lemma_bound_fits(search.closed.len() as int, roads.nodes.len() as int);
}

/// What is known of a node on record.
pub(crate) proof fn lemma_known(
    roads: RoadsView,
    start: usize,
    goal: usize,
    search: Search,
    routes: Map<usize, Seq<RoadSegmentIdx>>,
    expanding: Option<(usize, int)>,
    found: bool,
    m: usize,
)
    requires
        sound(roads, start, goal, search, routes, expanding, found),
        search.records.contains_key(m),
    ensures
        m < roads.nodes.len(),
        search.records[m].road_node.0 == m,
        search.records[m].distance_to_end == heuristic(roads, m, goal),
        search.records[m].priority() <= u128::MAX,
        search.records[m].opened ==> search.open.contains(search.records[m].entry()),
{
    reveal(sound);
    assert(record_ok(roads, start, goal, search, m));
    lemma_bound_fits(search.closed.len() as int, roads.nodes.len() as int);
}

/// Meeting a node for the first time, over the next segment listed at the
/// node being visited, keeps the search sound.
pub(crate) proof fn lemma_meets(
    roads: RoadsView,
    start: usize,
    goal: usize,
    search: Search,
    routes: Map<usize, Seq<RoadSegmentIdx>>,
    u: usize,
    j: int,
    place: int,
)
    requires
        sound(roads, start, goal, search, routes, Some((u, j)), false),
        j < roads.nodes[u as int].road_segments.len(),
        !search.records.contains_key(roads.segments[listed(roads, u, j)].to.0),
        0 <= place <= search.open.len(),
        ascending(after_meet(roads, goal, search, u, listed(roads, u, j), place).open),
    ensures
        sound(
            roads,
            start,
            goal,
            after_meet(roads, goal, search, u, listed(roads, u, j), place),
            routes.insert(
                roads.segments[listed(roads, u, j)].to.0,
                routes[u].push(roads.nodes[u as int].road_segments[j]),
            ),
            Some((u, j + 1)),
            false,
        ),
{
    reveal(sound);
    let s = listed(roads, u, j);
    assert(record_ok(roads, start, goal, search, u));
    assert(roads.node_wf(u as int));
    assert(roads.has_segment(roads.nodes[u as int].road_segments[j]));
    assert(roads.nodes[u as int].road_segments[j] == RoadSegmentIdx(s as usize));
    lemma_bound_fits(search.closed.len() as int, roads.nodes.len() as int);
    let after = lemma_meet(roads, start, goal, search, u, s, place);
    lemma_best_reached(roads, start, goal, search, routes, u, s, after);
    lemma_followed(roads, search.records, after.records, u, j);
}

/// Finding a shorter route to a node that waits, over the next segment
/// listed at the node being visited, keeps the search sound.
pub(crate) proof fn lemma_improves(
    roads: RoadsView,
    start: usize,
    goal: usize,
    search: Search,
    routes: Map<usize, Seq<RoadSegmentIdx>>,
    u: usize,
    j: int,
    stale: int,
    place: int,
)
    requires
        sound(roads, start, goal, search, routes, Some((u, j)), false),
        j < roads.nodes[u as int].road_segments.len(),
        search.records.contains_key(roads.segments[listed(roads, u, j)].to.0),
        search.records[roads.segments[listed(roads, u, j)].to.0].opened,
        search.records[u].distance_from_start + roads.segments[listed(roads, u, j)].length
            < search.records[roads.segments[listed(roads, u, j)].to.0].distance_from_start,
        0 <= stale < search.open.len(),
        search.open[stale] == search.records[roads.segments[listed(roads, u, j)].to.0].entry(),
        0 <= place <= search.open.len() - 1,
        ascending(after_improve(roads, goal, search, u, listed(roads, u, j), stale, place).open),
    ensures
        sound(
            roads,
            start,
            goal,
            after_improve(roads, goal, search, u, listed(roads, u, j), stale, place),
            routes.insert(
                roads.segments[listed(roads, u, j)].to.0,
                routes[u].push(roads.nodes[u as int].road_segments[j]),
            ),
            Some((u, j + 1)),
            false,
        ),
{
    reveal(sound);
    let s = listed(roads, u, j);
    assert(record_ok(roads, start, goal, search, u));
    assert(roads.node_wf(u as int));
    assert(roads.has_segment(roads.nodes[u as int].road_segments[j]));
    assert(roads.nodes[u as int].road_segments[j] == RoadSegmentIdx(s as usize));
    lemma_bound_fits(search.closed.len() as int, roads.nodes.len() as int);
    let after = lemma_improve(roads, start, goal, search, u, s, stale, place);
    lemma_best_reached(roads, start, goal, search, routes, u, s, after);
    lemma_followed(roads, search.records, after.records, u, j);
}

/// The segments that were relaxed before a step and the one relaxed by it
/// are the first `j + 1` segments listed at the node being visited.
proof fn lemma_followed(
    roads: RoadsView,
    before: Map<usize, Node>,
    after: Map<usize, Node>,
    u: usize,
    j: int,
)
    requires
        roads.wf(),
        u < roads.nodes.len(),
        0 <= j < roads.nodes[u as int].road_segments.len(),
        forall|i: int| 0 <= i < j ==> relaxed_over(roads, before, #[trigger] listed(roads, u, i)),
        relaxed_over(roads, after, listed(roads, u, j)),
        forall|t: int|
            relaxed_over(roads, before, t) && roads.segments[t].from.0 == u ==> relaxed_over(
                roads,
                after,
                t,
            ),
    ensures
        forall|i: int|
            0 <= i < j + 1 ==> relaxed_over(roads, after, #[trigger] listed(roads, u, i)),
{
    assert(roads.node_wf(u as int));
    assert forall|i: int| 0 <= i < j + 1 implies relaxed_over(
        roads,
        after,
        #[trigger] listed(roads, u, i),
    ) by {
        if i < j {
            assert(relaxed_over(roads, before, listed(roads, u, i)));
            assert(roads.has_segment(roads.nodes[u as int].road_segments[i]));
        }
    }
}

/// Following a segment to a node that has been visited, or to one that
/// waits with a route that is not longer, changes nothing and keeps the
/// search sound.
pub(crate) proof fn lemma_passes(
    roads: RoadsView,
    start: usize,
    goal: usize,
    search: Search,
    routes: Map<usize, Seq<RoadSegmentIdx>>,
    u: usize,
    j: int,
)
    requires
        sound(roads, start, goal, search, routes, Some((u, j)), false),
        j < roads.nodes[u as int].road_segments.len(),
        search.records.contains_key(roads.segments[listed(roads, u, j)].to.0),
        !search.records[roads.segments[listed(roads, u, j)].to.0].opened
            || search.records[roads.segments[listed(roads, u, j)].to.0].distance_from_start
            <= search.records[u].distance_from_start + roads.segments[listed(roads, u, j)].length,
    ensures
        sound(roads, start, goal, search, routes, Some((u, j + 1)), false),
{
    reveal(sound);
    let s = listed(roads, u, j);
    assert(record_ok(roads, start, goal, search, u));
    assert(roads.node_wf(u as int));
    assert(roads.has_segment(roads.nodes[u as int].road_segments[j]));
    if !search.records[roads.segments[s].to.0].opened {
        lemma_best_visited_neighbour(roads, start, goal, search, routes, u, s);
    }
    assert(relaxed_over(roads, search.records, s));
    assert forall|i: int| 0 <= i < j + 1 implies relaxed_over(
        roads,
        search.records,
        #[trigger] listed(roads, u, i),
    ) by {
    }
}

/// Once every segment listed at the node being visited has been followed,
/// the visit is over and the search is sound.
pub(crate) proof fn lemma_visit_over(
    roads: RoadsView,
    start: usize,
    goal: usize,
    search: Search,
    routes: Map<usize, Seq<RoadSegmentIdx>>,
    u: usize,
)
    requires
        sound(
            roads,
            start,
            goal,
            search,
            routes,
            Some((u, roads.nodes[u as int].road_segments.len() as int)),
            false,
        ),
    ensures
        sound(roads, start, goal, search, routes, None, false),
{
    reveal(sound);
    assert(record_ok(roads, start, goal, search, u));
    let segments = roads.nodes[u as int].road_segments;
    assert forall|j: int| 0 <= j < segments.len() implies search.records.contains_key(
        roads.segment(#[trigger] segments[j]).to.0,
    ) by {
        assert(relaxed_over(roads, search.records, listed(roads, u, j)));
        assert(roads.node_wf(u as int));
        assert(roads.has_segment(segments[j]));
    }
    lemma_visit_ends(roads, start, goal, search, u, false);
    assert forall|j: int| 0 <= j < segments.len() implies relaxed_over(
        roads,
        search.records,
        (#[trigger] segments[j]).0 as int,
    ) by {
        assert(relaxed_over(roads, search.records, listed(roads, u, j)));
    }
    lemma_best_visit_ends(roads, start, search, routes, u);
}

/// When no entry is left to visit and the goal has not been visited, no
/// route leads to it.
pub(crate) proof fn lemma_none_left(
    roads: RoadsView,
    start: usize,
    goal: usize,
    search: Search,
    routes: Map<usize, Seq<RoadSegmentIdx>>,
)
    requires
        sound(roads, start, goal, search, routes, None, false),
        search.open.len() == 0,
    ensures
        !reachable(roads, RoadNodeIdx(start), RoadNodeIdx(goal)),
{
    reveal(sound);
    lemma_exhausted(roads, start, goal, search);
}

/// What holds of the trail that is walked back from the goal towards the
/// start: its nodes are the last nodes of the walk that witnesses the goal's
/// route, backwards, the walk up to its last node witnesses that node's
/// route, and the routes known to its nodes get shorter along it.
#[verifier::opaque]
pub(crate) open spec fn trail_ok(
    roads: RoadsView,
    start: usize,
    goal: usize,
    search: Search,
    routes: Map<usize, Seq<RoadSegmentIdx>>,
    trail: Seq<RoadNodeIdx>,
) -> bool {
    let whole = routes[goal];
    let left = whole.len() - (trail.len() - 1);
    &&& trail.len() >= 1
    &&& left >= 0
    &&& routes[trail.last().0] == whole.take(left)
    &&& forall|t: int|
        0 <= t < trail.len() ==> #[trigger] trail[t] == walk_node(
            roads,
            RoadNodeIdx(start),
            whole,
            whole.len() - t,
        )
    &&& forall|t: int|
        0 <= t < trail.len() ==> search.records.contains_key((#[trigger] trail[t]).0)
    &&& forall|a: int, b: int|
        0 <= a < b < trail.len() ==> search.records[(#[trigger] trail[a]).0].distance_from_start
            > search.records[(#[trigger] trail[b]).0].distance_from_start
}

/// The trail begins at the goal once the goal has been found.
pub(crate) proof fn lemma_trail_starts(
    roads: RoadsView,
    start: usize,
    goal: usize,
    search: Search,
    routes: Map<usize, Seq<RoadSegmentIdx>>,
)
    requires
        sound(roads, start, goal, search, routes, Some((goal, 0int)), true),
    ensures
        search.records.contains_key(goal),
        search.records[goal].road_node.0 == goal,
        trail_ok(roads, start, goal, search, routes, seq![RoadNodeIdx(goal)]),
{
    reveal(sound);
    reveal(trail_ok);
    assert(record_ok(roads, start, goal, search, goal));
    assert(route_ok(roads, start, search.records, routes, goal));
    let whole = routes[goal];
    assert(whole.take(whole.len() as int) == whole);
}

/// What is known of the parent of a node on record that is not the start:
/// it is on record, a shorter route is known to it, and the walk that
/// witnesses the node's route is the parent's walk and one segment more.
pub(crate) proof fn lemma_parent(
    roads: RoadsView,
    start: usize,
    goal: usize,
    search: Search,
    routes: Map<usize, Seq<RoadSegmentIdx>>,
    expanding: Option<(usize, int)>,
    found: bool,
    c: usize,
)
    requires
        sound(roads, start, goal, search, routes, expanding, found),
        search.records.contains_key(c),
        c != start,
    ensures
        search.records.contains_key(search.records[c].parent_road_node.0),
        search.records[search.records[c].parent_road_node.0].road_node
            == search.records[c].parent_road_node,
        search.records[search.records[c].parent_road_node.0].distance_from_start
            < search.records[c].distance_from_start,
        routes[c].len() > 0,
        routes[c].drop_last() == routes[search.records[c].parent_road_node.0],
        walk_node(
            roads,
            RoadNodeIdx(start),
            routes[search.records[c].parent_road_node.0],
            routes[search.records[c].parent_road_node.0].len() as int,
        ) == search.records[c].parent_road_node,
{
    reveal(sound);
    let records = search.records;
    assert(record_ok(roads, start, goal, search, c));
    assert(linked(roads, records, c));
    assert(route_ok(roads, start, records, routes, c));
    let p = records[c].parent_road_node.0;
    assert(record_ok(roads, start, goal, search, p));
    assert(route_ok(roads, start, records, routes, p));
    let s = choose|s: int|
        0 <= s < roads.segments.len() && (#[trigger] roads.segments[s]).from.0 == p
            && roads.segments[s].to.0 == c && records[c].distance_from_start
            == records[p].distance_from_start + roads.segments[s].length;
    lemma_segment_length_positive(roads, RoadSegmentIdx(s as usize));
}

/// What is known of the two ends of the search once the goal has been
/// found: the walk that witnesses the goal's route leads from the start to
/// the goal, no walk between them is shorter, and the start's own walk is
/// empty.
pub(crate) proof fn lemma_ends(
    roads: RoadsView,
    start: usize,
    goal: usize,
    search: Search,
    routes: Map<usize, Seq<RoadSegmentIdx>>,
)
    requires
        sound(roads, start, goal, search, routes, Some((goal, 0int)), true),
    ensures
        roads.has_node(RoadNodeIdx(start)),
        routes[start].len() == 0,
        is_segment_walk(roads, RoadNodeIdx(start), RoadNodeIdx(goal), routes[goal]),
        forall|other: Seq<RoadSegmentIdx>| #[trigger]
            is_segment_walk(roads, RoadNodeIdx(start), RoadNodeIdx(goal), other) ==> walk_length(
                roads,
                routes[goal],
            ) <= walk_length(roads, other),
{
    reveal(sound);
    let records = search.records;
    assert(record_ok(roads, start, goal, search, goal));
    assert(route_ok(roads, start, records, routes, goal));
    assert(route_ok(roads, start, records, routes, start));
    assert(best(roads, start, records, goal));
}

/// A trail that has not arrived at the start goes on to the parent of its
/// last node, to which a shorter route is known.
pub(crate) proof fn lemma_trail_grows(
    roads: RoadsView,
    start: usize,
    goal: usize,
    search: Search,
    routes: Map<usize, Seq<RoadSegmentIdx>>,
    trail: Seq<RoadNodeIdx>,
)
    requires
        sound(roads, start, goal, search, routes, Some((goal, 0int)), true),
        trail.len() > 0,
        trail_ok(roads, start, goal, search, routes, trail),
        trail.last().0 != start,
    ensures
        search.records.contains_key(search.records[trail.last().0].parent_road_node.0),
        search.records[search.records[trail.last().0].parent_road_node.0].road_node
            == search.records[trail.last().0].parent_road_node,
        search.records[search.records[trail.last().0].parent_road_node.0].distance_from_start
            < search.records[trail.last().0].distance_from_start,
        trail_ok(
            roads,
            start,
            goal,
            search,
            routes,
            trail.push(search.records[trail.last().0].parent_road_node),
        ),
{
    reveal(trail_ok);
    let records = search.records;
    let c = trail.last().0;
    assert(records.contains_key(trail[trail.len() - 1].0));
    lemma_parent(roads, start, goal, search, routes, Some((goal, 0int)), true, c);
    let parent = records[c].parent_road_node;
    let whole = routes[goal];
    let left = whole.len() - (trail.len() - 1);
    let longer = trail.push(parent);
    assert(whole.take(left).drop_last() == whole.take(left - 1));
    assert(longer.last() == parent);
    if left - 1 > 0 {
        assert(whole.take(left - 1)[left - 2] == whole[left - 2]);
    }
    assert forall|t: int| 0 <= t < longer.len() implies #[trigger] longer[t] == walk_node(
        roads,
        RoadNodeIdx(start),
        whole,
        whole.len() - t,
    ) by {
        if t < trail.len() {
            assert(longer[t] == trail[t]);
        }
    }
    assert forall|t: int| 0 <= t < longer.len() implies records.contains_key(
        (#[trigger] longer[t]).0,
    ) by {
        if t < trail.len() {
            assert(longer[t] == trail[t]);
        }
    }
    assert forall|a: int, b: int| 0 <= a < b < longer.len() implies records[(
    #[trigger] longer[a]).0].distance_from_start > records[(
    #[trigger] longer[b]).0].distance_from_start by {
        assert(longer[a] == trail[a]);
        if b < trail.len() {
            assert(longer[b] == trail[b]);
        } else if a < trail.len() - 1 {
            assert(records[trail[a].0].distance_from_start > records[trail[trail.len()
                - 1].0].distance_from_start);
        }
    }
}

/// A trail that has arrived at the start is, turned round, a shortest route
/// from the start to the goal, and visits no node twice.
pub(crate) proof fn lemma_trail_ends(
    roads: RoadsView,
    start: usize,
    goal: usize,
    search: Search,
    routes: Map<usize, Seq<RoadSegmentIdx>>,
    trail: Seq<RoadNodeIdx>,
)
    requires
        sound(roads, start, goal, search, routes, Some((goal, 0int)), true),
        trail.len() > 0,
        trail_ok(roads, start, goal, search, routes, trail),
        trail.last().0 == start,
    ensures
        is_route(roads, RoadNodeIdx(start), RoadNodeIdx(goal), trail.reverse()),
        trail.reverse().no_duplicates(),
        is_shortest_route(roads, RoadNodeIdx(start), RoadNodeIdx(goal), trail.reverse()),
{
    reveal(trail_ok);
    lemma_ends(roads, start, goal, search, routes);
    let whole = routes[goal];
    let turned = trail.reverse();
    let n = turned.len();
    assert(trail.len() == whole.len() + 1);
    assert(turned =~= walk_nodes(roads, RoadNodeIdx(start), whole)) by {
        assert forall|i: int| 0 <= i < n implies turned[i] == walk_node(
            roads,
            RoadNodeIdx(start),
            whole,
            i,
        ) by {
            assert(turned[i] == trail[n - 1 - i]);
        }
    }
    assert forall|i: int| 0 <= i < n - 1 implies connected(
        roads,
        #[trigger] turned[i],
        turned[i + 1],
    ) by {
        assert(turned[i] == trail[n - 1 - i]);
        assert(turned[i + 1] == trail[n - 2 - i]);
        assert(roads.has_segment(whole[i]));
        assert(roads.segments[whole[i].0 as int].from == turned[i]);
        assert(roads.segments[whole[i].0 as int].to == turned[i + 1]);
    }
    assert forall|i: int, j: int| 0 <= i < n && 0 <= j < n && i != j implies turned[i]
        != turned[j] by {
        assert(turned[i] == trail[n - 1 - i]);
        assert(turned[j] == trail[n - 1 - j]);
    }
    assert(turned[0] == trail[n - 1]);
    assert(turned[n - 1] == trail[0]);
}

} // verus!
