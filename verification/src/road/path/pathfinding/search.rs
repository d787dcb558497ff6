//! The state of a search, what holds of it between two steps, and why each
//! step keeps it so.

use crate::road::geometry::{lemma_straight_line_bounds, straight_line, straight_line_distance};
use crate::road::path::pathfinding::open_list::{ascending, in_order};
use crate::road::path::pathfinding::{connected, is_route, is_walk, reachable};
use crate::road::{RoadNodeIdx, RoadSegmentIdx, Roads, RoadsView, lemma_segment_length_positive};
use vstd::prelude::*;
use vstd::set_lib::{lemma_int_range, lemma_len_subset, set_int_range};

verus! {

/// What the search knows of a node it has met.
#[derive(Clone, Copy, Debug)]
pub(crate) struct Node {
    pub(crate) road_node: RoadNodeIdx,
    pub(crate) distance_from_start: u128,
    pub(crate) distance_to_end: u64,
    pub(crate) parent_road_node: RoadNodeIdx,
    pub(crate) opened: bool,
}

impl Node {
    /// The length of the best route known to the node, plus the straight
    /// line from the node to the goal.
    pub(crate) open spec fn priority(self) -> int {
        self.distance_from_start + self.distance_to_end
    }

    /// The node's entry in the list of nodes waiting to be visited.
    pub(crate) open spec fn entry(self) -> (u128, usize) {
        (self.priority() as u128, self.road_node.0)
    }

    pub(crate) fn cost(&self) -> (cost: u128)
        requires
            self.priority() <= u128::MAX,
        ensures
            cost == self.priority(),
    {
        self.distance_from_start + self.distance_to_end as u128
    }
}

/// The entry under which `node` waits to be visited.
pub(crate) fn opened_entry(node: &Node) -> (entry: (u128, usize))
    requires
        node.priority() <= u128::MAX,
    ensures
        entry == node.entry(),
{
    (node.cost(), node.road_node.0)
}

/// The straight-line distance from node `a` to node `b`.
pub(crate) open spec fn heuristic(roads: RoadsView, a: usize, b: usize) -> int {
    straight_line(
        roads.nodes[a as int].x as int,
        roads.nodes[a as int].y as int,
        roads.nodes[b as int].x as int,
        roads.nodes[b as int].y as int,
    )
}

/// The straight-line distance between two nodes.
pub(crate) fn get_distance(roads: &Roads, point1: RoadNodeIdx, point2: RoadNodeIdx) -> (distance:
    u64)
    requires
        roads.wf(),
        roads@.has_node(point1),
        roads@.has_node(point2),
    ensures
        distance == heuristic(roads@, point1.0, point2.0),
{
    proof {
        assert(roads@.node_wf(point1.0 as int));
        assert(roads@.node_wf(point2.0 as int));
    }
    let a = roads.node_xy(point1);
    let b = roads.node_xy(point2);
    straight_line_distance(a.0, a.1, b.0, b.1)
}

/// The search at one moment: what is known of each node met so far, the
/// entries waiting to be visited, and the nodes already visited.
pub(crate) struct Search {
    pub(crate) records: Map<usize, Node>,
    pub(crate) open: Seq<(u128, usize)>,
    pub(crate) closed: Set<int>,
}

/// The record of the node at the end of segment `s` when it is reached
/// over `s` from node `k`, which is being visited.
pub(crate) open spec fn fresh(
    roads: RoadsView,
    goal: usize,
    search: Search,
    k: usize,
    s: int,
) -> Node {
    Node {
        road_node: roads.segments[s].to,
        distance_from_start: (search.records[k].distance_from_start
            + roads.segments[s].length) as u128,
        distance_to_end: heuristic(roads, roads.segments[s].to.0, goal) as u64,
        parent_road_node: RoadNodeIdx(k),
        opened: true,
    }
}

/// The search after its first entry has been visited.
pub(crate) open spec fn after_visit(search: Search) -> Search {
    Search {
        records: search.records.insert(
            search.open[0].1,
            Node { opened: false, ..search.records[search.open[0].1] },
        ),
        open: search.open.remove(0),
        closed: search.closed.insert(search.open[0].1 as int),
    }
}

/// The search after the node at the end of segment `s` has been met for the
/// first time, and entered at `place`.
pub(crate) open spec fn after_meet(
    roads: RoadsView,
    goal: usize,
    search: Search,
    k: usize,
    s: int,
    place: int,
) -> Search {
    Search {
        records: search.records.insert(roads.segments[s].to.0, fresh(roads, goal, search, k, s)),
        open: search.open.insert(place, fresh(roads, goal, search, k, s).entry()),
        closed: search.closed,
    }
}

/// The search after a shorter route to the node at the end of segment `s`
/// has been found: the node's entry at `stale` has been taken out, and the
/// new one entered at `place`.
pub(crate) open spec fn after_improve(
    roads: RoadsView,
    goal: usize,
    search: Search,
    k: usize,
    s: int,
    stale: int,
    place: int,
) -> Search {
    Search {
        records: search.records.insert(roads.segments[s].to.0, fresh(roads, goal, search, k, s)),
        open: search.open.remove(stale).insert(place, fresh(roads, goal, search, k, s).entry()),
        closed: search.closed,
    }
}

/// Node `k` was reached over a segment from its parent, which has been
/// visited, and its route is the parent's route extended by that segment.
pub(crate) open spec fn linked(roads: RoadsView, records: Map<usize, Node>, k: usize) -> bool {
    let record = records[k];
    let p = record.parent_road_node.0;
    &&& records.contains_key(p)
    &&& !records[p].opened
    &&& exists|s: int|
        0 <= s < roads.segments.len() && (#[trigger] roads.segments[s]).from.0 == p
            && roads.segments[s].to.0 == k && record.distance_from_start
            == records[p].distance_from_start + roads.segments[s].length
}

/// What holds of the record of every node met.
pub(crate) open spec fn record_ok(
    roads: RoadsView,
    start: usize,
    goal: usize,
    search: Search,
    k: usize,
) -> bool {
    let record = search.records[k];
    &&& k < roads.nodes.len()
    &&& record.road_node.0 == k
    &&& record.distance_to_end == heuristic(roads, k, goal)
    &&& record.distance_from_start <= search.closed.len() * u64::MAX
    &&& (record.opened <==> search.open.contains(record.entry()))
    &&& (record.opened <==> !search.closed.contains(k as int))
    &&& if k == start {
        record.distance_from_start == 0
    } else {
        record.distance_from_start > 0 && linked(roads, search.records, k)
    }
}

/// What holds of every entry waiting: it stands for a node met and not yet
/// visited, under that node's priority.
pub(crate) open spec fn entry_ok(records: Map<usize, Node>, entry: (u128, usize)) -> bool {
    &&& records.contains_key(entry.1)
    &&& records[entry.1].opened
    &&& records[entry.1].entry() == entry
}

/// Every node that a segment from node `k` leads to has been met.
pub(crate) open spec fn expanded(roads: RoadsView, records: Map<usize, Node>, k: usize) -> bool {
    forall|s: int|
        0 <= s < roads.segments.len() && (#[trigger] roads.segments[s]).from.0 == k
            ==> records.contains_key(roads.segments[s].to.0)
}

/// What holds of the search between two steps. `expanding` is the visited
/// node whose neighbours are still being met, if there is one.
pub(crate) open spec fn search_ok(
    roads: RoadsView,
    start: usize,
    goal: usize,
    search: Search,
    expanding: Option<usize>,
    found: bool,
) -> bool {
    &&& roads.wf()
    &&& start < roads.nodes.len()
    &&& goal < roads.nodes.len()
    &&& search.records.contains_key(start)
    &&& search.closed.finite()
    &&& search.closed.len() <= roads.nodes.len()
    &&& forall|k: usize| #[trigger]
        search.records.contains_key(k) ==> record_ok(roads, start, goal, search, k)
    &&& forall|k: int| #[trigger]
        search.closed.contains(k) ==> 0 <= k < roads.nodes.len() && search.records.contains_key(
            k as usize,
        )
    &&& forall|i: int|
        0 <= i < search.open.len() ==> entry_ok(search.records, #[trigger] search.open[i])
    &&& search.open.no_duplicates()
    &&& ascending(search.open)
    &&& forall|k: usize| #[trigger]
        search.records.contains_key(k) && !search.records[k].opened && expanding != Some(k)
            ==> expanded(roads, search.records, k)
    &&& (found <==> search.records.contains_key(goal) && !search.records[goal].opened)
}

/// What is in a sequence after an insertion.
pub(crate) proof fn lemma_insert_contains<A>(s: Seq<A>, i: int, x: A, y: A)
    requires
        0 <= i <= s.len(),
    ensures
        s.insert(i, x).contains(y) <==> (s.contains(y) || y == x),
{
    let t = s.insert(i, x);
    if t.contains(y) {
        let j = choose|j: int| 0 <= j < t.len() && t[j] == y;
        if j < i {
            assert(s[j] == y);
        } else if j > i {
            assert(s[j - 1] == y);
        }
    }
    if s.contains(y) {
        let j = choose|j: int| 0 <= j < s.len() && s[j] == y;
        if j < i {
            assert(t[j] == y);
        } else {
            assert(t[j + 1] == y);
        }
    }
    if y == x {
        assert(t[i] == y);
    }
}

/// An insertion of something new keeps a sequence free of duplicates.
pub(crate) proof fn lemma_insert_no_duplicates<A>(s: Seq<A>, i: int, x: A)
    requires
        0 <= i <= s.len(),
        s.no_duplicates(),
        !s.contains(x),
    ensures
        s.insert(i, x).no_duplicates(),
{
    let t = s.insert(i, x);
    assert forall|a: int, b: int| 0 <= a < t.len() && 0 <= b < t.len() && a != b implies t[a]
        != t[b] by {
        let sa = if a < i {
            a
        } else {
            a - 1
        };
        let sb = if b < i {
            b
        } else {
            b - 1
        };
        if a == i {
            assert(s[sb] == t[b]);
        } else if b == i {
            assert(s[sa] == t[a]);
        } else {
            assert(s[sa] == t[a]);
            assert(s[sb] == t[b]);
        }
    }
}

/// What is in a duplicate-free sequence after a removal, and that it stays
/// duplicate-free.
pub(crate) proof fn lemma_remove_contains<A>(s: Seq<A>, i: int, y: A)
    requires
        0 <= i < s.len(),
        s.no_duplicates(),
    ensures
        s.remove(i).contains(y) <==> (s.contains(y) && y != s[i]),
        s.remove(i).no_duplicates(),
{
    let t = s.remove(i);
    if t.contains(y) {
        let j = choose|j: int| 0 <= j < t.len() && t[j] == y;
        if j < i {
            assert(s[j] == y);
        } else {
            assert(s[j + 1] == y);
        }
    }
    if s.contains(y) && y != s[i] {
        let j = choose|j: int| 0 <= j < s.len() && s[j] == y;
        if j < i {
            assert(t[j] == y);
        } else {
            assert(t[j - 1] == y);
        }
    }
    assert forall|a: int, b: int| 0 <= a < t.len() && 0 <= b < t.len() && a != b implies t[a]
        != t[b] by {
        let sa = if a < i {
            a
        } else {
            a + 1
        };
        let sb = if b < i {
            b
        } else {
            b + 1
        };
        assert(s[sa] == t[a]);
        assert(s[sb] == t[b]);
    }
}

/// A removal keeps the entries in ascending order.
pub(crate) proof fn lemma_remove_ascending(s: Seq<(u128, usize)>, i: int)
    requires
        0 <= i < s.len(),
        ascending(s),
    ensures
        ascending(s.remove(i)),
{
    let t = s.remove(i);
    assert forall|a: int, b: int| 0 <= a < b < t.len() implies in_order(t[a], t[b]) by {
        let sa = if a < i {
            a
        } else {
            a + 1
        };
        let sb = if b < i {
            b
        } else {
            b + 1
        };
        assert(s[sa] == t[a]);
        assert(s[sb] == t[b]);
    }
}

/// The bound on route lengths grows with the number of nodes visited.
pub(crate) proof fn lemma_bound_grows(a: int, b: int)
    by (nonlinear_arith)
    requires
        0 <= a <= b,
    ensures
        a * u64::MAX <= b * u64::MAX,
        a * u64::MAX + u64::MAX == (a + 1) * u64::MAX,
{
}

/// The search is in order when only its start has been met.
pub(crate) proof fn lemma_search_starts(roads: RoadsView, start: usize, goal: usize, first: Node)
    requires
        roads.wf(),
        start < roads.nodes.len(),
        goal < roads.nodes.len(),
        first.road_node.0 == start,
        first.distance_from_start == 0,
        first.distance_to_end == heuristic(roads, start, goal),
        first.opened,
    ensures
        search_ok(
            roads,
            start,
            goal,
            Search {
                records: Map::empty().insert(start, first),
                open: Seq::empty().insert(0, first.entry()),
                closed: Set::empty(),
            },
            None,
            false,
        ),
{
    let search = Search {
        records: Map::empty().insert(start, first),
        open: Seq::empty().insert(0, first.entry()),
        closed: Set::empty(),
    };
    assert(search.open[0] == first.entry());
    assert(search.open.contains(first.entry()));
    assert(record_ok(roads, start, goal, search, start));
}

/// Visiting the first entry keeps the search in order.
pub(crate) proof fn lemma_visit(
    roads: RoadsView,
    start: usize,
    goal: usize,
    search: Search,
) -> (after: Search)
    requires
        search_ok(roads, start, goal, search, None, false),
        search.open.len() > 0,
    ensures
        search.records.contains_key(search.open[0].1),
        search.records[search.open[0].1].opened,
        search.records[search.open[0].1].road_node.0 == search.open[0].1,
        after == after_visit(search),
        search_ok(roads, start, goal, after, Some(search.open[0].1), search.open[0].1 == goal),
        after.closed.len() == search.closed.len() + 1,
        search.records[search.open[0].1].distance_from_start + u64::MAX <= after.closed.len()
            * u64::MAX,
{
    let k = search.open[0].1;
    let record = search.records[k];
    let visited = Node { opened: false, ..record };
    let after = Search {
        records: search.records.insert(k, visited),
        open: search.open.remove(0),
        closed: search.closed.insert(k as int),
    };
    assert(entry_ok(search.records, search.open[0]));
    assert(record_ok(roads, start, goal, search, k));
    lemma_int_range(0, roads.nodes.len() as int);
    assert(after.closed.subset_of(set_int_range(0, roads.nodes.len() as int)));
    lemma_len_subset(after.closed, set_int_range(0, roads.nodes.len() as int));
    lemma_bound_grows(search.closed.len() as int, after.closed.len() as int);
    assert forall|n: usize| #[trigger] after.records.contains_key(n) implies record_ok(
        roads,
        start,
        goal,
        after,
        n,
    ) by {
        assert(search.records.contains_key(n));
        assert(record_ok(roads, start, goal, search, n));
        lemma_remove_contains(search.open, 0, after.records[n].entry());
        if n != start {
            assert(linked(roads, search.records, n));
            let p = search.records[n].parent_road_node.0;
            assert(p != k);
            assert(linked(roads, after.records, n));
        }
    }
    assert forall|i: int| 0 <= i < after.open.len() implies entry_ok(
        after.records,
        #[trigger] after.open[i],
    ) by {
        assert(after.open[i] == search.open[i + 1]);
        assert(entry_ok(search.records, search.open[i + 1]));
        if after.open[i].1 == k {
            assert(search.open[i + 1] == search.open[0]);
        }
    }
    lemma_remove_contains(search.open, 0, search.open[0]);
    lemma_remove_ascending(search.open, 0);
    assert forall|n: usize| #[trigger]
        after.records.contains_key(n) && !after.records[n].opened && Some(k) != Some(
            n,
        ) implies expanded(roads, after.records, n) by {
        assert(search.records.contains_key(n));
        assert(expanded(roads, search.records, n));
    }
    after
}

/// Meeting a node for the first time, over a segment from the node being
/// visited, keeps the search in order.
pub(crate) proof fn lemma_meet(
    roads: RoadsView,
    start: usize,
    goal: usize,
    search: Search,
    k: usize,
    s: int,
    place: int,
) -> (after: Search)
    requires
        search_ok(roads, start, goal, search, Some(k), false),
        search.records.contains_key(k),
        !search.records[k].opened,
        search.records[k].distance_from_start + u64::MAX <= search.closed.len() * u64::MAX,
        0 <= s < roads.segments.len(),
        roads.segments[s].from.0 == k,
        !search.records.contains_key(roads.segments[s].to.0),
        0 <= place <= search.open.len(),
        ascending(
            search.open.insert(
                place,
                fresh(roads, goal, search, k, s).entry(),
            ),
        ),
    ensures
        after == after_meet(roads, goal, search, k, s, place),
        search_ok(roads, start, goal, after, Some(k), false),
{
    let m = roads.segments[s].to.0;
    let fresh = fresh(roads, goal, search, k, s);
    let after = Search {
        records: search.records.insert(m, fresh),
        open: search.open.insert(place, fresh.entry()),
        closed: search.closed,
    };
    assert(roads.segment_wf(s));
    assert(roads.node_wf(m as int));
    assert(roads.node_wf(goal as int));
    lemma_heuristic_fits(roads, m, goal);
    lemma_segment_length_positive(roads, RoadSegmentIdx(s as usize));
    assert(record_ok(roads, start, goal, search, k));
    lemma_bound_fits(search.closed.len() as int, roads.nodes.len() as int);
    assert forall|n: usize| #[trigger] after.records.contains_key(n) implies record_ok(
        roads,
        start,
        goal,
        after,
        n,
    ) by {
        lemma_insert_contains(search.open, place, fresh.entry(), after.records[n].entry());
        if n == m {
            assert(!search.closed.contains(m as int));
            assert(linked(roads, after.records, n));
        } else {
            assert(record_ok(roads, start, goal, search, n));
            if n != start {
                assert(linked(roads, search.records, n));
                assert(linked(roads, after.records, n));
            }
        }
    }
    assert forall|i: int| 0 <= i < after.open.len() implies entry_ok(
        after.records,
        #[trigger] after.open[i],
    ) by {
        if i < place {
            assert(after.open[i] == search.open[i]);
            assert(entry_ok(search.records, search.open[i]));
        } else if i > place {
            assert(after.open[i] == search.open[i - 1]);
            assert(entry_ok(search.records, search.open[i - 1]));
        }
    }
    assert(!search.open.contains(fresh.entry())) by {
        if search.open.contains(fresh.entry()) {
            let i = choose|i: int| 0 <= i < search.open.len() && search.open[i] == fresh.entry();
            assert(entry_ok(search.records, search.open[i]));
        }
    }
    lemma_insert_no_duplicates(search.open, place, fresh.entry());
    assert forall|n: usize| #[trigger]
        after.records.contains_key(n) && !after.records[n].opened && Some(k) != Some(
            n,
        ) implies expanded(roads, after.records, n) by {
        assert(search.records.contains_key(n));
        assert(expanded(roads, search.records, n));
    }
    after
}

/// Finding a shorter route to a node that waits to be visited, over a
/// segment from the node being visited, keeps the search in order.
pub(crate) proof fn lemma_improve(
    roads: RoadsView,
    start: usize,
    goal: usize,
    search: Search,
    k: usize,
    s: int,
    stale: int,
    place: int,
) -> (after: Search)
    requires
        search_ok(roads, start, goal, search, Some(k), false),
        search.records.contains_key(k),
        !search.records[k].opened,
        search.records[k].distance_from_start + u64::MAX <= search.closed.len() * u64::MAX,
        0 <= s < roads.segments.len(),
        roads.segments[s].from.0 == k,
        search.records.contains_key(roads.segments[s].to.0),
        search.records[roads.segments[s].to.0].opened,
        search.records[k].distance_from_start + roads.segments[s].length
            < search.records[roads.segments[s].to.0].distance_from_start,
        0 <= stale < search.open.len(),
        search.open[stale] == search.records[roads.segments[s].to.0].entry(),
        0 <= place <= search.open.len() - 1,
        ascending(
            search.open.remove(stale).insert(
                place,
                fresh(roads, goal, search, k, s).entry(),
            ),
        ),
    ensures
        after == after_improve(roads, goal, search, k, s, stale, place),
        search_ok(roads, start, goal, after, Some(k), false),
{
    let m = roads.segments[s].to.0;
    let fresh = fresh(roads, goal, search, k, s);
    let thinned = search.open.remove(stale);
    let after = Search {
        records: search.records.insert(m, fresh),
        open: thinned.insert(place, fresh.entry()),
        closed: search.closed,
    };
    assert(roads.segment_wf(s));
    lemma_heuristic_fits(roads, m, goal);
    lemma_segment_length_positive(roads, RoadSegmentIdx(s as usize));
    assert(record_ok(roads, start, goal, search, k));
    assert(record_ok(roads, start, goal, search, m));
    lemma_bound_fits(search.closed.len() as int, roads.nodes.len() as int);
    assert forall|n: usize| #[trigger] after.records.contains_key(n) implies record_ok(
        roads,
        start,
        goal,
        after,
        n,
    ) by {
        lemma_remove_contains(search.open, stale, after.records[n].entry());
        lemma_insert_contains(thinned, place, fresh.entry(), after.records[n].entry());
        assert(record_ok(roads, start, goal, search, n));
        if n == m {
            assert(linked(roads, after.records, n));
        } else {
            if n != start {
                assert(linked(roads, search.records, n));
                assert(linked(roads, after.records, n));
            }
        }
    }
    assert forall|i: int| 0 <= i < thinned.len() implies entry_ok(
        search.records,
        #[trigger] thinned[i],
    ) && thinned[i].1 != m by {
        let j = if i < stale {
            i
        } else {
            i + 1
        };
        assert(thinned[i] == search.open[j]);
        assert(entry_ok(search.records, search.open[j]));
        if thinned[i].1 == m {
            assert(search.open[j] == search.open[stale]);
        }
    }
    assert forall|i: int| 0 <= i < after.open.len() implies entry_ok(
        after.records,
        #[trigger] after.open[i],
    ) by {
        if i < place {
            assert(after.open[i] == thinned[i]);
        } else if i > place {
            assert(after.open[i] == thinned[i - 1]);
        }
    }
    lemma_remove_contains(search.open, stale, fresh.entry());
    assert(!thinned.contains(fresh.entry())) by {
        if thinned.contains(fresh.entry()) {
            let i = choose|i: int| 0 <= i < thinned.len() && thinned[i] == fresh.entry();
            assert(thinned[i].1 != m);
        }
    }
    lemma_insert_no_duplicates(thinned, place, fresh.entry());
    assert forall|n: usize| #[trigger]
        after.records.contains_key(n) && !after.records[n].opened && Some(k) != Some(
            n,
        ) implies expanded(roads, after.records, n) by {
        assert(search.records.contains_key(n));
        assert(expanded(roads, search.records, n));
    }
    after
}

/// The straight line between two nodes of a well-formed network fits in 64
/// bits.
pub(crate) proof fn lemma_heuristic_fits(roads: RoadsView, a: usize, b: usize)
    requires
        roads.wf(),
        a < roads.nodes.len(),
        b < roads.nodes.len(),
    ensures
        0 <= heuristic(roads, a, b) <= u64::MAX,
{
    assert(roads.node_wf(a as int));
    assert(roads.node_wf(b as int));
    let ax = roads.nodes[a as int].x as int;
    let ay = roads.nodes[a as int].y as int;
    let bx = roads.nodes[b as int].x as int;
    let by = roads.nodes[b as int].y as int;
    lemma_straight_line_bounds(ax, ay, bx, by);
}

/// A route over as many segments as there are nodes, plus a straight line,
/// fits in 128 bits.
pub(crate) proof fn lemma_bound_fits(steps: int, nodes: int)
    by (nonlinear_arith)
    requires
        0 <= steps <= nodes <= usize::MAX,
    ensures
        steps * u64::MAX + u64::MAX <= u128::MAX,
{
}

/// Once every segment listed at the node being visited has been followed,
/// all of the node's neighbours have been met.
pub(crate) proof fn lemma_visit_ends(
    roads: RoadsView,
    start: usize,
    goal: usize,
    search: Search,
    k: usize,
    found: bool,
)
    requires
        search_ok(roads, start, goal, search, Some(k), found),
        k < roads.nodes.len(),
        forall|j: int|
            0 <= j < roads.nodes[k as int].road_segments.len() ==> search.records.contains_key(
                roads.segment(#[trigger] roads.nodes[k as int].road_segments[j]).to.0,
            ),
    ensures
        search_ok(roads, start, goal, search, None, found),
{
    assert(roads.node_wf(k as int));
    let listed = roads.nodes[k as int].road_segments;
    assert forall|s: int|
        0 <= s < roads.segments.len() && (#[trigger] roads.segments[s]).from.0
            == k implies search.records.contains_key(roads.segments[s].to.0) by {
        assert(listed.contains(RoadSegmentIdx(s as usize)));
        let j = choose|j: int| 0 <= j < listed.len() && listed[j] == RoadSegmentIdx(s as usize);
        assert(roads.segment(listed[j]) == roads.segments[s]);
    }
    assert(expanded(roads, search.records, k));
}

/// Every node of a walk that begins at a node met has been met, once all
/// nodes met have had their neighbours met.
pub(crate) proof fn lemma_walk_met(
    roads: RoadsView,
    records: Map<usize, Node>,
    nodes: Seq<RoadNodeIdx>,
    i: int,
)
    requires
        is_walk(roads, nodes),
        0 <= i < nodes.len(),
        records.contains_key(nodes[0].0),
        forall|k: usize| #[trigger] records.contains_key(k) ==> expanded(roads, records, k),
    ensures
        records.contains_key(nodes[i].0),
    decreases i,
{
    if i > 0 {
        lemma_walk_met(roads, records, nodes, i - 1);
        assert(connected(roads, nodes[i - 1], nodes[i]));
        assert(expanded(roads, records, nodes[i - 1].0));
    }
}

/// When no entry is left to visit and the goal has not been visited, no
/// route leads to it.
pub(crate) proof fn lemma_exhausted(roads: RoadsView, start: usize, goal: usize, search: Search)
    requires
        search_ok(roads, start, goal, search, None, false),
        search.open.len() == 0,
    ensures
        !reachable(roads, RoadNodeIdx(start), RoadNodeIdx(goal)),
{
    assert forall|k: usize| #[trigger] search.records.contains_key(k) implies expanded(
        roads,
        search.records,
        k,
    ) by {
        assert(record_ok(roads, start, goal, search, k));
    }
    if reachable(roads, RoadNodeIdx(start), RoadNodeIdx(goal)) {
        let nodes = choose|nodes: Seq<RoadNodeIdx>|
            is_route(roads, RoadNodeIdx(start), RoadNodeIdx(goal), nodes);
        lemma_walk_met(roads, search.records, nodes, nodes.len() - 1);
        assert(record_ok(roads, start, goal, search, goal));
    }
}

} // verus!
