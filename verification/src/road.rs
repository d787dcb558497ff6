//! The road network: nodes, directed segments, their polylines and signs.

pub mod geometry;
pub mod path;

use crate::road::geometry::{
    COORDINATE_LIMIT, coordinate_in_range, interpolate, interpolate_axis, lemma_axis_aligned,
    lemma_interpolate_ends, lemma_interpolate_on_line, lemma_interpolate_step,
    lemma_piece_length_bounds, lemma_polyline_length_monotone, piece_length_of, polyline_length,
    polyline_piece, polyline_through,
};
use vstd::prelude::*;

verus! {

/// Identifies a node of the network by its slot.
#[derive(Clone, Copy, PartialEq, Eq, Structural, Debug, Hash)]
pub struct RoadNodeIdx(pub usize);

/// Identifies a directed segment of the network by its slot.
#[derive(Clone, Copy, PartialEq, Eq, Structural, Debug, Hash)]
pub struct RoadSegmentIdx(pub usize);

/// A location on the network: a segment and the distance travelled along it.
#[derive(Clone, Copy, PartialEq, Eq, Structural, Debug, Hash)]
pub struct RoadPoint {
    pub road_segment: RoadSegmentIdx,
    pub position: u64,
}

/// What a sign tells a driver.
#[derive(Clone, Copy, PartialEq, Eq, Structural, Debug)]
pub enum SignType {
    /// The speed is limited to the sign's value from here on.
    SpeedLimit,
    /// The limit in force ends here.
    EndSpeedLimit,
}

/// A sign standing at a point of a segment.
#[derive(Clone, Copy, PartialEq, Eq, Structural, Debug)]
pub struct Sign {
    pub sign_type: SignType,
    pub value: u32,
    pub position: RoadPoint,
}

/// A bend of a segment's polyline: where it lies, and how far along the
/// segment it is reached.
#[derive(Clone, Copy, PartialEq, Eq, Structural, Debug)]
pub struct RoadVisualKeypoint {
    pub position: u64,
    pub x: i64,
    pub y: i64,
}

/// Why the network refused an addition.
#[derive(Clone, Copy, PartialEq, Eq, Structural, Debug)]
pub enum RoadError {
    /// A coordinate lies farther from the origin than the network supports.
    CoordinateOutOfRange,
    /// A segment was to start or end at a node that does not exist.
    UnknownNode,
    /// Two consecutive points of a polyline coincide.
    CoincidentPoints,
    /// The polyline is too long for its length to be represented.
    LengthOverflow,
    /// A sign was to stand on a segment that does not exist.
    UnknownSegment,
    /// A sign was to stand beyond the end of its segment.
    BeyondSegment,
}

/// A node: a point of the plane and the segments that leave it.
pub struct RoadNode {
    x: i64,
    y: i64,
    road_segments: Vec<RoadSegmentIdx>,
}

/// A directed segment between two nodes.
pub struct RoadSegment {
    from: RoadNodeIdx,
    to: RoadNodeIdx,
    length: u64,
    signs: Vec<Sign>,
    visual_keypoints: Vec<RoadVisualKeypoint>,
}

/// The road network. It owns every node and segment; everything else refers
/// to them by index.
pub struct Roads {
    segments: Vec<RoadSegment>,
    nodes: Vec<RoadNode>,
}

/// The mathematical content of a [`RoadNode`].
pub struct RoadNodeView {
    pub x: i64,
    pub y: i64,
    pub road_segments: Seq<RoadSegmentIdx>,
}

/// The mathematical content of a [`RoadSegment`].
pub struct RoadSegmentView {
    pub from: RoadNodeIdx,
    pub to: RoadNodeIdx,
    pub length: u64,
    pub signs: Seq<Sign>,
    pub visual_keypoints: Seq<RoadVisualKeypoint>,
}

/// The mathematical content of a [`Roads`].
pub struct RoadsView {
    pub nodes: Seq<RoadNodeView>,
    pub segments: Seq<RoadSegmentView>,
}

impl View for RoadNode {
    type V = RoadNodeView;

    closed spec fn view(&self) -> RoadNodeView {
        RoadNodeView { x: self.x, y: self.y, road_segments: self.road_segments@ }
    }
}

impl View for RoadSegment {
    type V = RoadSegmentView;

    closed spec fn view(&self) -> RoadSegmentView {
        RoadSegmentView {
            from: self.from,
            to: self.to,
            length: self.length,
            signs: self.signs@,
            visual_keypoints: self.visual_keypoints@,
        }
    }
}

impl View for Roads {
    type V = RoadsView;

    closed spec fn view(&self) -> RoadsView {
        RoadsView {
            nodes: Seq::new(self.nodes@.len(), |i: int| self.nodes@[i]@),
            segments: Seq::new(self.segments@.len(), |i: int| self.segments@[i]@),
        }
    }
}

impl RoadNodeView {
    /// Where the node lies.
    pub open spec fn place(self) -> (int, int) {
        (self.x as int, self.y as int)
    }
}

impl RoadSegmentView {
    /// Where the keypoints lie, in order.
    pub open spec fn bends(self) -> Seq<(int, int)> {
        Seq::new(
            self.visual_keypoints.len(),
            |k: int| (self.visual_keypoints[k].x as int, self.visual_keypoints[k].y as int),
        )
    }
}

impl RoadsView {
    /// Whether `node` names a node of this network.
    pub open spec fn has_node(self, node: RoadNodeIdx) -> bool {
        node.0 < self.nodes.len()
    }

    /// Whether `segment` names a segment of this network.
    pub open spec fn has_segment(self, segment: RoadSegmentIdx) -> bool {
        segment.0 < self.segments.len()
    }

    /// The node that `node` names.
    pub open spec fn node(self, node: RoadNodeIdx) -> RoadNodeView {
        self.nodes[node.0 as int]
    }

    /// The segment that `segment` names.
    pub open spec fn segment(self, segment: RoadSegmentIdx) -> RoadSegmentView {
        self.segments[segment.0 as int]
    }

    /// Whether `point` lies on a segment of this network, between its ends.
    pub open spec fn contains_point(self, point: RoadPoint) -> bool {
        self.has_segment(point.road_segment) && point.position <= self.segment(
            point.road_segment,
        ).length
    }

    /// The polyline of segment `s`: its start node, then its keypoints in
    /// order, then its end node.
    pub open spec fn polyline(self, s: int) -> Seq<(int, int)> {
        let segment = self.segments[s];
        polyline_through(
            self.node(segment.from).place(),
            segment.bends(),
            self.node(segment.to).place(),
        )
    }

    /// How far along segment `s` the `j`-th point of its polyline is recorded
    /// to lie.
    pub open spec fn polyline_mark(self, s: int, j: int) -> int {
        let segment = self.segments[s];
        if j <= 0 {
            0
        } else if j <= segment.visual_keypoints.len() {
            segment.visual_keypoints[j - 1].position as int
        } else {
            segment.length as int
        }
    }

    /// Node `n` lies within the supported plane and lists exactly the
    /// segments that leave it, each once, in ascending order.
    pub open spec fn node_wf(self, n: int) -> bool {
        let node = self.nodes[n];
        &&& coordinate_in_range(node.x)
        &&& coordinate_in_range(node.y)
        &&& node.road_segments.no_duplicates()
        &&& forall|i: int, j: int|
            0 <= i < j < node.road_segments.len() ==> (#[trigger] node.road_segments[i]).0 < (
            #[trigger] node.road_segments[j]).0
        &&& forall|k: int|
            0 <= k < node.road_segments.len() ==> {
                &&& self.has_segment(#[trigger] node.road_segments[k])
                &&& self.segment(node.road_segments[k]).from.0 == n
            }
        &&& forall|s: int|
            0 <= s < self.segments.len() && (#[trigger] self.segments[s]).from.0 == n
                ==> node.road_segments.contains(RoadSegmentIdx(s as usize))
    }

    /// Segment `s` joins two nodes of the network, each keypoint is recorded
    /// at the length of the polyline up to it, the segment's length is that
    /// of the whole polyline, no piece is empty, and its signs stand on it.
    pub open spec fn segment_wf(self, s: int) -> bool {
        let segment = self.segments[s];
        let pieces = segment.visual_keypoints.len() + 1;
        &&& self.has_node(segment.from)
        &&& self.has_node(segment.to)
        &&& forall|k: int|
            0 <= k < segment.visual_keypoints.len() ==> {
                &&& coordinate_in_range((#[trigger] segment.visual_keypoints[k]).x)
                &&& coordinate_in_range(segment.visual_keypoints[k].y)
            }
        &&& forall|j: int|
            0 <= j <= pieces ==> #[trigger] self.polyline_mark(s, j) == polyline_length(
                self.polyline(s),
                j,
            )
        &&& forall|j: int| 0 <= j < pieces ==> #[trigger] polyline_piece(self.polyline(s), j) > 0
        &&& forall|k: int|
            0 <= k < segment.signs.len() ==> {
                &&& (#[trigger] segment.signs[k]).position.road_segment.0 == s
                &&& segment.signs[k].position.position <= segment.length
            }
    }

    /// This network with one more node, at `(x, y)`, which no segment leaves.
    pub open spec fn with_node(self, x: i64, y: i64) -> RoadsView {
        RoadsView {
            nodes: self.nodes.push(RoadNodeView { x, y, road_segments: Seq::empty() }),
            segments: self.segments,
        }
    }

    /// Why the segment from `from` through `keypoints` to `to` cannot be
    /// added, if it cannot.
    pub open spec fn segment_refusal(
        self,
        from: RoadNodeIdx,
        to: RoadNodeIdx,
        keypoints: Seq<(i64, i64)>,
    ) -> Option<RoadError> {
        if !(self.has_node(from) && self.has_node(to)) {
            Some(RoadError::UnknownNode)
        } else {
            polyline_refusal(
                (self.node(from).x, self.node(from).y),
                keypoints,
                (self.node(to).x, self.node(to).y),
            )
        }
    }

    /// This network with one more segment, from `from` through `keypoints`
    /// to `to`, listed last among those that leave `from`.
    pub open spec fn with_segment(
        self,
        from: RoadNodeIdx,
        to: RoadNodeIdx,
        keypoints: Seq<(i64, i64)>,
    ) -> RoadsView {
        let index = RoadSegmentIdx(self.segments.len() as usize);
        let start = self.node(from);
        RoadsView {
            nodes: self.nodes.update(
                from.0 as int,
                RoadNodeView { road_segments: start.road_segments.push(index), ..start },
            ),
            segments: self.segments.push(
                measured_segment(
                    from,
                    to,
                    (start.x, start.y),
                    keypoints,
                    (self.node(to).x, self.node(to).y),
                ),
            ),
        }
    }

    /// Why `sign` cannot be put up, if it cannot.
    pub open spec fn sign_refusal(self, sign: Sign) -> Option<RoadError> {
        if !self.has_segment(sign.position.road_segment) {
            Some(RoadError::UnknownSegment)
        } else if !self.contains_point(sign.position) {
            Some(RoadError::BeyondSegment)
        } else {
            None
        }
    }

    /// This network with `sign` put up last on its segment.
    pub open spec fn with_sign(self, sign: Sign) -> RoadsView {
        let segment = self.segment(sign.position.road_segment);
        RoadsView {
            nodes: self.nodes,
            segments: self.segments.update(
                sign.position.road_segment.0 as int,
                RoadSegmentView { signs: segment.signs.push(sign), ..segment },
            ),
        }
    }

    /// The index of the first keypoint, from the `k`-th on, that lies beyond
    /// `position`; the number of keypoints if there is none.
    pub open spec fn first_keypoint_beyond(
        keypoints: Seq<RoadVisualKeypoint>,
        position: u64,
        k: int,
    ) -> int
        decreases keypoints.len() - k,
    {
        if k < 0 || k >= keypoints.len() || keypoints[k].position > position {
            k
        } else {
            Self::first_keypoint_beyond(keypoints, position, k + 1)
        }
    }

    /// The piece of its segment's polyline on which `point` lies: the one
    /// that ends at the first keypoint beyond the point, or the last.
    pub open spec fn bracket(self, point: RoadPoint) -> int {
        Self::first_keypoint_beyond(
            self.segment(point.road_segment).visual_keypoints,
            point.position,
            0,
        )
    }

    /// Where `point` lies in the plane when it is taken to lie on piece `j`
    /// of its segment's polyline: as far along the piece as the point is
    /// beyond the piece's start, each coordinate rounded towards that start.
    pub open spec fn position_on_piece(self, point: RoadPoint, j: int) -> (int, int) {
        let s = point.road_segment.0 as int;
        let a = self.polyline(s)[j];
        let b = self.polyline(s)[j + 1];
        let t = point.position - self.polyline_mark(s, j);
        let width = self.polyline_mark(s, j + 1) - self.polyline_mark(s, j);
        (interpolate(a.0, b.0, t, width), interpolate(a.1, b.1, t, width))
    }

    /// Where `point` lies in the plane.
    pub open spec fn position_xy(self, point: RoadPoint) -> (int, int) {
        self.position_on_piece(point, self.bracket(point))
    }

    /// The signs that a driver at `point` sees within `seeing_distance`:
    /// those of the point's segment that stand strictly ahead of the point
    /// and less than `seeing_distance` away, in the segment's order.
    pub open spec fn signs_within(self, point: RoadPoint, seeing_distance: u64) -> Seq<Sign> {
        self.segment(point.road_segment).signs.filter(
            |sign: Sign| sign_in_sight(point, seeing_distance, sign),
        )
    }

    /// The network has no more nodes and segments than can be numbered, and
    /// every node and every segment is well formed.
    pub open spec fn wf(self) -> bool {
        &&& self.nodes.len() <= usize::MAX
        &&& self.segments.len() <= usize::MAX
        &&& forall|n: int| 0 <= n < self.nodes.len() ==> #[trigger] self.node_wf(n)
        &&& forall|s: int| 0 <= s < self.segments.len() ==> #[trigger] self.segment_wf(s)
    }
}

/// The places of a list of keypoint coordinates.
pub open spec fn bends_of(keypoints: Seq<(i64, i64)>) -> Seq<(int, int)> {
    Seq::new(keypoints.len(), |k: int| (keypoints[k].0 as int, keypoints[k].1 as int))
}

/// The polyline that a segment from `start` through `keypoints` to `end`
/// follows.
pub open spec fn planned_polyline(
    start: (i64, i64),
    keypoints: Seq<(i64, i64)>,
    end: (i64, i64),
) -> Seq<(int, int)> {
    polyline_through(
        (start.0 as int, start.1 as int),
        bends_of(keypoints),
        (end.0 as int, end.1 as int),
    )
}

/// Whether every keypoint lies within the supported plane.
pub open spec fn keypoints_in_range(keypoints: Seq<(i64, i64)>) -> bool {
    forall|k: int|
        0 <= k < keypoints.len() ==> coordinate_in_range((#[trigger] keypoints[k]).0)
            && coordinate_in_range(keypoints[k].1)
}

/// Whether two consecutive points of a polyline coincide.
pub open spec fn has_empty_piece(points: Seq<(int, int)>) -> bool {
    exists|j: int| 0 <= j < points.len() - 1 && #[trigger] points[j] == points[j + 1]
}

/// Why a segment from `start` through `keypoints` to `end` cannot be built,
/// if it cannot.
pub open spec fn polyline_refusal(
    start: (i64, i64),
    keypoints: Seq<(i64, i64)>,
    end: (i64, i64),
) -> Option<RoadError> {
    let points = planned_polyline(start, keypoints, end);
    if !keypoints_in_range(keypoints) {
        Some(RoadError::CoordinateOutOfRange)
    } else if has_empty_piece(points) {
        Some(RoadError::CoincidentPoints)
    } else if polyline_length(points, points.len() - 1) > u64::MAX {
        Some(RoadError::LengthOverflow)
    } else {
        None
    }
}

/// The segment from node `from` at `start` through `keypoints` to node `to`
/// at `end`: every keypoint is marked with the length of the polyline up to
/// it, and the segment is as long as the whole polyline. It carries no sign.
pub open spec fn measured_segment(
    from: RoadNodeIdx,
    to: RoadNodeIdx,
    start: (i64, i64),
    keypoints: Seq<(i64, i64)>,
    end: (i64, i64),
) -> RoadSegmentView {
    let points = planned_polyline(start, keypoints, end);
    RoadSegmentView {
        from,
        to,
        length: polyline_length(points, points.len() - 1) as u64,
        signs: Seq::empty(),
        visual_keypoints: Seq::new(
            keypoints.len(),
            |k: int|
                RoadVisualKeypoint {
                    position: polyline_length(points, k + 1) as u64,
                    x: keypoints[k].0,
                    y: keypoints[k].1,
                },
        ),
    }
}

impl RoadSegment {
    /// Builds the segment from node `from` at `start` through `keypoints` to
    /// node `to` at `end`, measuring its polyline piece by piece.
    pub(crate) fn new(
        from: RoadNodeIdx,
        to: RoadNodeIdx,
        start: (i64, i64),
        end: (i64, i64),
        keypoints: Vec<(i64, i64)>,
    ) -> (result: Result<RoadSegment, RoadError>)
        requires
            coordinate_in_range(start.0),
            coordinate_in_range(start.1),
            coordinate_in_range(end.0),
            coordinate_in_range(end.1),
        ensures
            match result {
                Ok(segment) => polyline_refusal(start, keypoints@, end).is_none() && segment@
                    == measured_segment(from, to, start, keypoints@, end),
                Err(error) => polyline_refusal(start, keypoints@, end) == Some(error),
            },
    {
        let ghost points = planned_polyline(start, keypoints@, end);
        let n = keypoints.len();
        for k in 0..n
            invariant
                n == keypoints.len(),
                forall|i: int|
                    0 <= i < k ==> coordinate_in_range((#[trigger] keypoints@[i]).0)
                        && coordinate_in_range(keypoints@[i].1),
        {
            let (x, y) = keypoints[k];
            if x < -COORDINATE_LIMIT || x > COORDINATE_LIMIT || y < -COORDINATE_LIMIT || y
                > COORDINATE_LIMIT {
                return Err(RoadError::CoordinateOutOfRange);
            }
        }
        let mut previous = start;
        for k in 0..n
            invariant
                n == keypoints.len(),
                points == planned_polyline(start, keypoints@, end),
                keypoints_in_range(keypoints@),
                points[k as int] == (previous.0 as int, previous.1 as int),
                forall|j: int| 0 <= j < k ==> #[trigger] points[j] != points[j + 1],
        {
            let here = keypoints[k];
            assert(points[k + 1] == (here.0 as int, here.1 as int));
            if here.0 == previous.0 && here.1 == previous.1 {
                assert(points[k as int] == points[k + 1]);
                return Err(RoadError::CoincidentPoints);
            }
            previous = here;
        }
        assert(points[n + 1] == (end.0 as int, end.1 as int));
        if end.0 == previous.0 && end.1 == previous.1 {
            return Err(RoadError::CoincidentPoints);
        }
        assert(!has_empty_piece(points));
        let mut visual_keypoints: Vec<RoadVisualKeypoint> = Vec::new();
        let mut length: u64 = 0;
        previous = start;
        for k in 0..n
            invariant
                n == keypoints.len(),
                points == planned_polyline(start, keypoints@, end),
                keypoints_in_range(keypoints@),
                !has_empty_piece(points),
                coordinate_in_range(previous.0),
                coordinate_in_range(previous.1),
                points[k as int] == (previous.0 as int, previous.1 as int),
                length == polyline_length(points, k as int),
                visual_keypoints.len() == k,
                forall|i: int|
                    0 <= i < k ==> #[trigger] visual_keypoints@[i] == measured_segment(
                        from,
                        to,
                        start,
                        keypoints@,
                        end,
                    ).visual_keypoints[i],
        {
            let here = keypoints[k];
            assert(points[k + 1] == (here.0 as int, here.1 as int));
            let piece = piece_length_of(previous.0, previous.1, here.0, here.1);
            assert(piece == polyline_piece(points, k as int));
            match length.checked_add(piece) {
                None => {
                    proof {
                        lemma_polyline_length_monotone(points, k + 1, n + 1);
                    }
                    return Err(RoadError::LengthOverflow);
                },
                Some(sum) => {
                    length = sum;
                },
            }
            visual_keypoints.push(RoadVisualKeypoint { position: length, x: here.0, y: here.1 });
            previous = here;
        }
        assert(points[n + 1] == (end.0 as int, end.1 as int));
        let piece = piece_length_of(previous.0, previous.1, end.0, end.1);
        assert(piece == polyline_piece(points, n as int));
        match length.checked_add(piece) {
            None => {
                return Err(RoadError::LengthOverflow);
            },
            Some(sum) => {
                length = sum;
            },
        }
        let segment = RoadSegment { from, to, length, signs: Vec::new(), visual_keypoints };
        assert(segment@.visual_keypoints =~= measured_segment(
            from,
            to,
            start,
            keypoints@,
            end,
        ).visual_keypoints);
        Ok(segment)
    }
}

/// The distance between neighbouring nodes of the mesh.
pub const MESH_SPACING: i64 = 30_000_000;

/// The two nodes that the `k`-th street of the mesh joins. The mesh has four
/// rows of four nodes, numbered row by row. Its first twelve streets run
/// along the rows, row by row; the other twelve run along the columns,
/// column by column.
pub open spec fn mesh_street(k: int) -> (int, int) {
    if k < 12 {
        ((k / 3) * 4 + k % 3, (k / 3) * 4 + k % 3 + 1)
    } else {
        (((k - 12) % 3) * 4 + (k - 12) / 3, ((k - 12) % 3) * 4 + (k - 12) / 3 + 4)
    }
}

/// The nodes at which the `s`-th segment of the mesh starts and ends. Each
/// street has two segments, one after the other: the first leads from the
/// street's first node to its second, the other back.
pub open spec fn mesh_segment(s: int) -> (int, int) {
    if s % 2 == 0 {
        mesh_street(s / 2)
    } else {
        (mesh_street(s / 2).1, mesh_street(s / 2).0)
    }
}

/// Whether `roads` is the mesh: sixteen nodes [`MESH_SPACING`] apart in four
/// rows of four, and for each of its twenty-four streets a straight segment
/// in either direction, without signs.
pub open spec fn is_mesh(roads: RoadsView) -> bool {
    &&& roads.nodes.len() == 16
    &&& roads.segments.len() == 48
    &&& forall|i: int|
        0 <= i < 16 ==> (#[trigger] roads.nodes[i]).x == (i % 4) * MESH_SPACING
            && roads.nodes[i].y == (i / 4) * MESH_SPACING
    &&& forall|s: int| 0 <= s < 48 ==> is_mesh_segment(#[trigger] roads.segments[s], s)
}

/// Whether `segment` is the `s`-th segment of the mesh.
pub open spec fn is_mesh_segment(segment: RoadSegmentView, s: int) -> bool {
    &&& segment.from.0 == mesh_segment(s).0
    &&& segment.to.0 == mesh_segment(s).1
    &&& segment.length == MESH_SPACING
    &&& segment.visual_keypoints.len() == 0
    &&& segment.signs.len() == 0
}

/// The network that holds nothing but a node at `(x, y)`.
pub open spec fn ring_node(x: i64, y: i64) -> RoadsView {
    RoadsView {
        nodes: seq![RoadNodeView { x, y, road_segments: Seq::empty() }],
        segments: Seq::empty(),
    }
}

/// Whether `sign` stands strictly ahead of `point` and less than
/// `seeing_distance` away along the same line of positions.
pub open spec fn sign_in_sight(point: RoadPoint, seeing_distance: u64, sign: Sign) -> bool {
    point.position < sign.position.position < point.position + seeing_distance
}

/// The distance to travel forward from `from` to `to`: the difference of
/// their positions when both lie on one segment and `to` is not behind
/// `from`. Any other pair is out of reach.
pub open spec fn forward_distance(from: RoadPoint, to: RoadPoint) -> Option<u64> {
    if from.road_segment == to.road_segment && from.position <= to.position {
        Some((to.position - from.position) as u64)
    } else {
        None
    }
}

/// A segment without keypoints between two points that are `d` apart along
/// one axis can be built and is `d` long.
pub proof fn lemma_straight_segment(ax: i64, ay: i64, bx: i64, by: i64, d: int)
    requires
        0 < d <= u64::MAX,
        (ay == by && (ax - bx == d || bx - ax == d)) || (ax == bx && (ay - by == d || by - ay
            == d)),
    ensures
        polyline_refusal((ax, ay), Seq::empty(), (bx, by)).is_none(),
        polyline_length(planned_polyline((ax, ay), Seq::empty(), (bx, by)), 1) == d,
{
    let points = planned_polyline((ax, ay), Seq::<(i64, i64)>::empty(), (bx, by));
    assert(bends_of(Seq::<(i64, i64)>::empty()) =~= Seq::empty());
    assert(points =~= seq![(ax as int, ay as int), (bx as int, by as int)]);
    lemma_axis_aligned(ax as int, ay as int, bx as int, by as int, d);
    assert(polyline_length(points, 1) == polyline_length(points, 0) + polyline_piece(points, 0));
    assert(polyline_length(points, 0) == 0);
}

/// A well-formed network stays well formed when a node within the supported
/// plane is added.
pub proof fn lemma_with_node_wf(before: RoadsView, x: i64, y: i64)
    requires
        before.wf(),
        before.nodes.len() < usize::MAX,
        coordinate_in_range(x),
        coordinate_in_range(y),
    ensures
        before.with_node(x, y).wf(),
{
    let after = before.with_node(x, y);
    assert forall|n: int| 0 <= n < after.nodes.len() implies #[trigger] after.node_wf(n) by {
        if n < before.nodes.len() {
            assert(before.node_wf(n));
        } else {
            assert forall|s: int| 0 <= s < after.segments.len() implies (
            #[trigger] after.segments[s]).from.0 != n by {
                assert(before.segment_wf(s));
            }
        }
    }
    assert forall|s: int| 0 <= s < after.segments.len() implies #[trigger] after.segment_wf(
        s,
    ) by {
        assert(before.segment_wf(s));
        lemma_segment_wf_kept(before, after, s);
    }
}

/// A segment stays well formed when the network changes around it: when the
/// segment keeps its ends, its length and its keypoints, the nodes at its
/// ends keep their places, and its signs stand on it.
proof fn lemma_segment_wf_kept(before: RoadsView, after: RoadsView, s: int)
    requires
        0 <= s < before.segments.len(),
        s < after.segments.len(),
        before.segment_wf(s),
        before.nodes.len() <= after.nodes.len(),
        after.segments[s].from == before.segments[s].from,
        after.segments[s].to == before.segments[s].to,
        after.segments[s].length == before.segments[s].length,
        after.segments[s].visual_keypoints == before.segments[s].visual_keypoints,
        after.node(after.segments[s].from).place() == before.node(before.segments[s].from).place(),
        after.node(after.segments[s].to).place() == before.node(before.segments[s].to).place(),
        forall|k: int|
            0 <= k < after.segments[s].signs.len() ==> {
                &&& (#[trigger] after.segments[s].signs[k]).position.road_segment.0 == s
                &&& after.segments[s].signs[k].position.position <= after.segments[s].length
            },
    ensures
        after.segment_wf(s),
{
    assert(after.segments[s].bends() =~= before.segments[s].bends());
    assert(after.polyline(s) == before.polyline(s));
    assert forall|j: int|
        0 <= j <= after.segments[s].visual_keypoints.len()
            + 1 implies #[trigger] after.polyline_mark(s, j) == polyline_length(
        after.polyline(s),
        j,
    ) by {
        assert(before.polyline_mark(s, j) == after.polyline_mark(s, j));
    }
}

/// A node stays well formed when a segment that the network does not refuse
/// is added.
proof fn lemma_with_segment_node_wf(
    before: RoadsView,
    from: RoadNodeIdx,
    to: RoadNodeIdx,
    keypoints: Seq<(i64, i64)>,
    n: int,
)
    requires
        before.wf(),
        before.has_node(from),
        before.has_node(to),
        0 <= n < before.nodes.len(),
    ensures
        before.with_segment(from, to, keypoints).node_wf(n),
{
    let after = before.with_segment(from, to, keypoints);
    let s = before.segments.len() as int;
    assert(before.node_wf(n));
    let listed = after.nodes[n].road_segments;
    let earlier = before.nodes[n].road_segments;
    if n == from.0 {
        assert(listed == earlier.push(RoadSegmentIdx(s as usize)));
        assert forall|k: int| 0 <= k < listed.len() implies {
            &&& after.has_segment(#[trigger] listed[k])
            &&& after.segment(listed[k]).from.0 == n
        } by {
            if k < earlier.len() {
                assert(listed[k] == earlier[k]);
                assert(before.has_segment(earlier[k]));
            }
        }
        assert forall|i: int, j: int| 0 <= i < listed.len() && 0 <= j < listed.len() && i
            != j implies listed[i] != listed[j] by {
            if i < earlier.len() {
                assert(before.has_segment(earlier[i]));
            }
            if j < earlier.len() {
                assert(before.has_segment(earlier[j]));
            }
        }
        assert forall|i: int, j: int| 0 <= i < j < listed.len() implies (#[trigger] listed[i]).0 < (
        #[trigger] listed[j]).0 by {
            assert(before.has_segment(earlier[i]));
            if j < earlier.len() {
                assert(listed[i] == earlier[i] && listed[j] == earlier[j]);
            }
        }
        assert forall|t: int|
            0 <= t < after.segments.len() && (#[trigger] after.segments[t]).from.0
                == n implies listed.contains(RoadSegmentIdx(t as usize)) by {
            if t < s {
                assert(before.segments[t].from.0 == n);
                let k = choose|k: int|
                    0 <= k < earlier.len() && earlier[k] == RoadSegmentIdx(t as usize);
                assert(listed[k] == RoadSegmentIdx(t as usize));
            } else {
                assert(listed[listed.len() - 1] == RoadSegmentIdx(t as usize));
            }
        }
    } else {
        assert(listed == earlier);
        assert forall|k: int| 0 <= k < listed.len() implies {
            &&& after.has_segment(#[trigger] listed[k])
            &&& after.segment(listed[k]).from.0 == n
        } by {
            assert(before.has_segment(earlier[k]));
        }
        assert forall|t: int|
            0 <= t < after.segments.len() && (#[trigger] after.segments[t]).from.0
                == n implies listed.contains(RoadSegmentIdx(t as usize)) by {
            assert(before.segments[t].from.0 == n);
        }
    }
}

/// The segment that is added to a network which does not refuse it is well
/// formed.
proof fn lemma_with_segment_new_wf(
    before: RoadsView,
    from: RoadNodeIdx,
    to: RoadNodeIdx,
    keypoints: Seq<(i64, i64)>,
)
    requires
        before.wf(),
        before.segment_refusal(from, to, keypoints).is_none(),
    ensures
        before.with_segment(from, to, keypoints).segment_wf(before.segments.len() as int),
{
    let after = before.with_segment(from, to, keypoints);
    let t = before.segments.len() as int;
    let start = (before.node(from).x, before.node(from).y);
    let end = (before.node(to).x, before.node(to).y);
    let points = planned_polyline(start, keypoints, end);
    assert(before.node_wf(from.0 as int));
    assert(before.node_wf(to.0 as int));
    assert(after.segments[t] == measured_segment(from, to, start, keypoints, end));
    assert(after.segments[t].bends() =~= bends_of(keypoints));
    assert(after.node(from).place() == before.node(from).place());
    assert(after.node(to).place() == before.node(to).place());
    assert(after.polyline(t) == points);
    let pieces = keypoints.len() + 1;
    assert forall|j: int| 0 <= j <= pieces implies #[trigger] after.polyline_mark(t, j)
        == polyline_length(points, j) by {
        lemma_polyline_length_monotone(points, j, pieces as int);
    }
    assert forall|j: int| 0 <= j < pieces implies #[trigger] polyline_piece(points, j) > 0 by {
        lemma_piece_length_bounds(points[j].0, points[j].1, points[j + 1].0, points[j + 1].1);
        assert(points[j] != points[j + 1]);
    }
}

/// A well-formed network stays well formed when a segment that it does not
/// refuse is added.
pub proof fn lemma_with_segment_wf(
    before: RoadsView,
    from: RoadNodeIdx,
    to: RoadNodeIdx,
    keypoints: Seq<(i64, i64)>,
)
    requires
        before.wf(),
        before.segments.len() < usize::MAX,
        before.segment_refusal(from, to, keypoints).is_none(),
    ensures
        before.with_segment(from, to, keypoints).wf(),
{
    let after = before.with_segment(from, to, keypoints);
    let s = before.segments.len() as int;
    assert forall|n: int| 0 <= n < after.nodes.len() implies #[trigger] after.node_wf(n) by {
        lemma_with_segment_node_wf(before, from, to, keypoints, n);
    }
    assert forall|t: int| 0 <= t < after.segments.len() implies #[trigger] after.segment_wf(
        t,
    ) by {
        if t < s {
            assert(before.segment_wf(t));
            lemma_segment_wf_kept(before, after, t);
        } else {
            lemma_with_segment_new_wf(before, from, to, keypoints);
        }
    }
}

/// A well-formed network stays well formed when a sign that it does not
/// refuse is put up.
pub proof fn lemma_with_sign_wf(before: RoadsView, sign: Sign)
    requires
        before.wf(),
        before.sign_refusal(sign).is_none(),
    ensures
        before.with_sign(sign).wf(),
{
    let after = before.with_sign(sign);
    let s = sign.position.road_segment.0 as int;
    assert forall|n: int| 0 <= n < after.nodes.len() implies #[trigger] after.node_wf(n) by {
        assert(before.node_wf(n));
        assert forall|t: int|
            0 <= t < after.segments.len() && (#[trigger] after.segments[t]).from.0
                == n implies after.nodes[n].road_segments.contains(
            RoadSegmentIdx(t as usize),
        ) by {
            assert(before.segments[t].from.0 == n);
        }
    }
    assert forall|t: int| 0 <= t < after.segments.len() implies #[trigger] after.segment_wf(
        t,
    ) by {
        assert(before.segment_wf(t));
        assert forall|k: int| 0 <= k < after.segments[t].signs.len() implies {
            &&& (#[trigger] after.segments[t].signs[k]).position.road_segment.0 == t
            &&& after.segments[t].signs[k].position.position <= after.segments[t].length
        } by {
            if t != s || k < before.segments[t].signs.len() {
                assert(after.segments[t].signs[k] == before.segments[t].signs[k]);
            }
        }
        lemma_segment_wf_kept(before, after, t);
    }
}

/// In a well-formed network every segment has a length of at least one unit.
pub proof fn lemma_segment_length_positive(roads: RoadsView, segment: RoadSegmentIdx)
    requires
        roads.wf(),
        roads.has_segment(segment),
    ensures
        roads.segment(segment).length > 0,
{
    let s = segment.0 as int;
    assert(roads.segment_wf(s));
    let points = roads.polyline(s);
    let pieces = roads.segments[s].visual_keypoints.len() + 1;
    assert(roads.polyline_mark(s, pieces as int) == polyline_length(points, pieces as int));
    assert(polyline_piece(points, 0) > 0);
    lemma_polyline_length_monotone(points, 1, pieces as int);
    assert(polyline_length(points, 1) == polyline_length(points, 0) + polyline_piece(points, 0));
}

/// Along a segment of a well-formed network the marks of the polyline's
/// points grow from point to point.
pub proof fn lemma_marks_increase(roads: RoadsView, segment: RoadSegmentIdx, i: int, j: int)
    requires
        roads.wf(),
        roads.has_segment(segment),
        0 <= i < j <= roads.segment(segment).visual_keypoints.len() + 1,
    ensures
        roads.polyline_mark(segment.0 as int, i) < roads.polyline_mark(segment.0 as int, j),
    decreases j - i,
{
    let s = segment.0 as int;
    let points = roads.polyline(s);
    assert(roads.segment_wf(s));
    assert(roads.polyline_mark(s, j) == polyline_length(points, j));
    assert(roads.polyline_mark(s, j - 1) == polyline_length(points, j - 1));
    assert(polyline_piece(points, j - 1) > 0);
    if i < j - 1 {
        lemma_marks_increase(roads, segment, i, j - 1);
    }
}

/// The first keypoint beyond a position, searched from the `k`-th on: all
/// keypoints between are not beyond it.
pub proof fn lemma_first_keypoint_beyond(
    keypoints: Seq<RoadVisualKeypoint>,
    position: u64,
    k: int,
)
    requires
        0 <= k <= keypoints.len(),
    ensures
        k <= RoadsView::first_keypoint_beyond(keypoints, position, k) <= keypoints.len(),
        forall|i: int|
            k <= i < RoadsView::first_keypoint_beyond(keypoints, position, k) ==> (
            #[trigger] keypoints[i]).position <= position,
        RoadsView::first_keypoint_beyond(keypoints, position, k) < keypoints.len()
            ==> keypoints[RoadsView::first_keypoint_beyond(keypoints, position, k)].position
            > position,
    decreases keypoints.len() - k,
{
    if k < keypoints.len() && keypoints[k].position <= position {
        lemma_first_keypoint_beyond(keypoints, position, k + 1);
    }
}

/// The piece on which a point lies holds it: the point is not before the
/// piece's start and not beyond its end, and the piece is not empty.
pub proof fn lemma_bracket_holds(roads: RoadsView, point: RoadPoint)
    requires
        roads.wf(),
        roads.contains_point(point),
    ensures
        0 <= roads.bracket(point) <= roads.segment(point.road_segment).visual_keypoints.len(),
        roads.polyline_mark(point.road_segment.0 as int, roads.bracket(point)) <= point.position
            <= roads.polyline_mark(point.road_segment.0 as int, roads.bracket(point) + 1),
        roads.polyline_mark(point.road_segment.0 as int, roads.bracket(point))
            < roads.polyline_mark(point.road_segment.0 as int, roads.bracket(point) + 1),
        roads.bracket(point) < roads.segment(point.road_segment).visual_keypoints.len()
            ==> point.position < roads.polyline_mark(
            point.road_segment.0 as int,
            roads.bracket(point) + 1,
        ),
{
    let keypoints = roads.segment(point.road_segment).visual_keypoints;
    lemma_first_keypoint_beyond(keypoints, point.position, 0);
    let j = roads.bracket(point);
    lemma_marks_increase(roads, point.road_segment, j, j + 1);
    if j > 0 {
        assert(keypoints[j - 1].position <= point.position);
    }
}

/// A point that lies where piece `j` of its segment's polyline begins lies
/// on that piece.
pub proof fn lemma_bracket_at_mark(roads: RoadsView, segment: RoadSegmentIdx, j: int)
    requires
        roads.wf(),
        roads.has_segment(segment),
        0 <= j <= roads.segment(segment).visual_keypoints.len(),
    ensures
        roads.polyline_mark(segment.0 as int, j) <= roads.segment(segment).length,
        roads.bracket(
            RoadPoint {
                road_segment: segment,
                position: roads.polyline_mark(segment.0 as int, j) as u64,
            },
        ) == j,
{
    let s = segment.0 as int;
    let keypoints = roads.segment(segment).visual_keypoints;
    let n = keypoints.len() as int;
    lemma_marks_increase(roads, segment, j, n + 1);
    let position = roads.polyline_mark(s, j) as u64;
    lemma_first_keypoint_beyond(keypoints, position, 0);
    let found = RoadsView::first_keypoint_beyond(keypoints, position, 0);
    if found < j {
        assert(roads.polyline_mark(s, found + 1) == keypoints[found].position);
        if found + 1 < j {
            lemma_marks_increase(roads, segment, found + 1, j);
        }
    } else if found > j {
        assert(keypoints[j].position <= position);
        assert(roads.polyline_mark(s, j + 1) == keypoints[j].position);
        lemma_marks_increase(roads, segment, j, j + 1);
    }
}

/// The positions of a segment are mapped onto its polyline, vertex to
/// vertex: a point that lies as far along its segment as the `j`-th point of
/// the polyline is marked lies at that point of the plane. So the segment's
/// start lies at its start node, its end at its end node, and each keypoint
/// where it was put. Taken as the end of the piece before it, the vertex
/// lies at the same place, so that there is no jump from one piece to the
/// next.
pub proof fn lemma_position_at_vertex(roads: RoadsView, segment: RoadSegmentIdx, j: int)
    requires
        roads.wf(),
        roads.has_segment(segment),
        0 <= j <= roads.segment(segment).visual_keypoints.len() + 1,
    ensures
        roads.polyline_mark(segment.0 as int, j) <= roads.segment(segment).length,
        roads.position_xy(
            RoadPoint {
                road_segment: segment,
                position: roads.polyline_mark(segment.0 as int, j) as u64,
            },
        ) == roads.polyline(segment.0 as int)[j],
        j > 0 ==> roads.position_on_piece(
            RoadPoint {
                road_segment: segment,
                position: roads.polyline_mark(segment.0 as int, j) as u64,
            },
            j - 1,
        ) == roads.polyline(segment.0 as int)[j],
{
    let s = segment.0 as int;
    let n = roads.segment(segment).visual_keypoints.len() as int;
    let points = roads.polyline(s);
    let point = RoadPoint {
        road_segment: segment,
        position: roads.polyline_mark(s, j) as u64,
    };
    if j <= n {
        lemma_bracket_at_mark(roads, segment, j);
        lemma_marks_increase(roads, segment, j, j + 1);
        let width = roads.polyline_mark(s, j + 1) - roads.polyline_mark(s, j);
        lemma_interpolate_ends(points[j].0, points[j + 1].0, width);
        lemma_interpolate_ends(points[j].1, points[j + 1].1, width);
    }
    if j > 0 {
        lemma_marks_increase(roads, segment, j - 1, j);
        let width = roads.polyline_mark(s, j) - roads.polyline_mark(s, j - 1);
        lemma_interpolate_ends(points[j - 1].0, points[j].0, width);
        lemma_interpolate_ends(points[j - 1].1, points[j].1, width);
        if j == n + 1 {
            lemma_bracket_holds(roads, point);
            lemma_first_keypoint_beyond(
                roads.segment(segment).visual_keypoints,
                point.position,
                0,
            );
            let found = roads.bracket(point);
            if found < n {
                assert(roads.polyline_mark(s, found + 1) > point.position);
                lemma_marks_increase(roads, segment, found + 1, n + 1);
            }
        }
    }
}

/// A point of a segment lies on the straight piece that holds it: between
/// the piece's two ends along either axis, and less than one unit from the
/// exact point of the line through them.
pub proof fn lemma_position_on_polyline(roads: RoadsView, point: RoadPoint)
    requires
        roads.wf(),
        roads.contains_point(point),
    ensures
        ({
            let s = point.road_segment.0 as int;
            let j = roads.bracket(point);
            let a = roads.polyline(s)[j];
            let b = roads.polyline(s)[j + 1];
            let t = point.position - roads.polyline_mark(s, j);
            let width = roads.polyline_mark(s, j + 1) - roads.polyline_mark(s, j);
            let place = roads.position_xy(point);
            &&& 0 <= t <= width
            &&& 0 < width
            &&& a.0 <= b.0 ==> a.0 <= place.0 <= b.0 && 0 <= (b.0 - a.0) * t - (place.0 - a.0)
                * width < width
            &&& b.0 <= a.0 ==> b.0 <= place.0 <= a.0 && 0 <= (a.0 - b.0) * t - (a.0 - place.0)
                * width < width
            &&& a.1 <= b.1 ==> a.1 <= place.1 <= b.1 && 0 <= (b.1 - a.1) * t - (place.1 - a.1)
                * width < width
            &&& b.1 <= a.1 ==> b.1 <= place.1 <= a.1 && 0 <= (a.1 - b.1) * t - (a.1 - place.1)
                * width < width
        }),
{
    let s = point.road_segment.0 as int;
    let j = roads.bracket(point);
    let a = roads.polyline(s)[j];
    let b = roads.polyline(s)[j + 1];
    let t = point.position - roads.polyline_mark(s, j);
    let width = roads.polyline_mark(s, j + 1) - roads.polyline_mark(s, j);
    lemma_bracket_holds(roads, point);
    lemma_interpolate_on_line(a.0, b.0, t, width);
    lemma_interpolate_on_line(a.1, b.1, t, width);
}

/// The place of a point varies continuously with its position: one unit
/// farther along the segment, the point lies at most one unit away along
/// either axis, also where it passes from one piece of the polyline to the
/// next.
pub proof fn lemma_position_continuous(roads: RoadsView, point: RoadPoint)
    requires
        roads.wf(),
        roads.contains_point(point),
        point.position < roads.segment(point.road_segment).length,
    ensures
        ({
            let here = roads.position_xy(point);
            let next = roads.position_xy(
                RoadPoint {
                    road_segment: point.road_segment,
                    position: (point.position + 1) as u64,
                },
            );
            -1 <= next.0 - here.0 <= 1 && -1 <= next.1 - here.1 <= 1
        }),
{
    let s = point.road_segment.0 as int;
    let n = roads.segment(point.road_segment).visual_keypoints.len() as int;
    let keypoints = roads.segment(point.road_segment).visual_keypoints;
    let points = roads.polyline(s);
    let further = RoadPoint {
        road_segment: point.road_segment,
        position: (point.position + 1) as u64,
    };
    let j = roads.bracket(point);
    lemma_bracket_holds(roads, point);
    let start = roads.polyline_mark(s, j);
    let end = roads.polyline_mark(s, j + 1);
    let width = end - start;
    let t = point.position - start;
    if j == n {
        lemma_first_keypoint_beyond(keypoints, point.position, 0);
    }
    assert(point.position < end);
    // one unit further, the point lies on the same piece or at its end
    assert(roads.position_xy(further) == roads.position_on_piece(further, j)) by {
        if point.position + 1 < end {
            lemma_first_keypoint_beyond(keypoints, point.position, 0);
            lemma_first_keypoint_beyond(keypoints, further.position, 0);
            let found = roads.bracket(further);
            if found < j {
                assert(keypoints[found].position <= point.position);
            } else if found > j {
                assert(keypoints[j].position <= further.position);
            }
        } else {
            lemma_position_at_vertex(roads, point.road_segment, j + 1);
            assert(further.position == roads.polyline_mark(s, j + 1));
        }
    }
    assert(roads.segment_wf(s));
    assert(roads.polyline_mark(s, j) == polyline_length(points, j));
    assert(roads.polyline_mark(s, j + 1) == polyline_length(points, j + 1));
    assert(width == polyline_piece(points, j));
    lemma_piece_length_bounds(points[j].0, points[j].1, points[j + 1].0, points[j + 1].1);
    lemma_interpolate_step(points[j].0, points[j + 1].0, t, width);
    lemma_interpolate_step(points[j].1, points[j + 1].1, t, width);
}

impl RoadPoint {
    /// The point `position` along `road_segment`.
    pub fn new(road_segment: RoadSegmentIdx, position: u64) -> (point: Self)
        ensures
            point.road_segment == road_segment,
            point.position == position,
    {
        Self { road_segment, position }
    }
}

impl Roads {
    /// Whether the network is well formed.
    pub open spec fn wf(&self) -> bool {
        self@.wf()
    }

    /// A network without nodes or segments.
    pub fn empty() -> (roads: Self)
        ensures
            roads.wf(),
            roads@.nodes.len() == 0,
            roads@.segments.len() == 0,
    {
        Self { segments: Vec::new(), nodes: Vec::new() }
    }

    /// The mesh network: see [`is_mesh`].
    pub fn new() -> (roads: Self)
        ensures
            roads.wf(),
            is_mesh(roads@),
    {
        let mut instance = Self::empty();
        instance.init_roads_mesh();
        instance
    }

    /// Fills an empty network with the nodes and segments of the mesh.
    fn init_roads_mesh(&mut self)
        requires
            old(self).wf(),
            old(self)@.nodes.len() == 0,
            old(self)@.segments.len() == 0,
        ensures
            final(self).wf(),
            is_mesh(final(self)@),
    {
        // Nodes, from left to right and bottom to top
        for i in 0..16usize
            invariant
                self.wf(),
                self@.nodes.len() == i,
                self@.segments.len() == 0,
                forall|n: int|
                    0 <= n < i ==> (#[trigger] self@.nodes[n]).x == (n % 4) * MESH_SPACING
                        && self@.nodes[n].y == (n / 4) * MESH_SPACING,
        {
            let x: i64 = (i % 4) as i64 * MESH_SPACING;
            let y: i64 = (i / 4) as i64 * MESH_SPACING;
            match self.add_node(x, y) {
                Ok(_) => {},
                Err(_) => {
                    assert(false);
                },
            }
        }
        // Streets along the rows first, then along the columns
        for k in 0..24usize
            invariant
                self.wf(),
                self@.nodes.len() == 16,
                self@.segments.len() == 2 * k,
                forall|n: int|
                    0 <= n < 16 ==> (#[trigger] self@.nodes[n]).x == (n % 4) * MESH_SPACING
                        && self@.nodes[n].y == (n / 4) * MESH_SPACING,
                forall|s: int| 0 <= s < 2 * k ==> is_mesh_segment(#[trigger] self@.segments[s], s),
        {
            let from: usize = if k < 12 {
                (k / 3) * 4 + k % 3
            } else {
                ((k - 12) % 3) * 4 + (k - 12) / 3
            };
            let to: usize = if k < 12 {
                from + 1
            } else {
                from + 4
            };
            let ghost before = self@;
            self.create_road_segment(from, to);
            proof {
                let after = self@;
                assert forall|s: int| 0 <= s < 2 * (k + 1) implies is_mesh_segment(
                    #[trigger] after.segments[s],
                    s,
                ) by {
                    if s < 2 * k {
                        assert(after.segments[s] == before.segments[s]);
                        assert(is_mesh_segment(before.segments[s], s));
                    } else {
                        assert(s / 2 == k);
                    }
                }
            }
        }
    }

    /// Joins two neighbouring nodes of the mesh by a straight segment in
    /// either direction.
    fn create_road_segment(&mut self, from: usize, to: usize)
        requires
            old(self).wf(),
            from < old(self)@.nodes.len(),
            to < old(self)@.nodes.len(),
            ({
                let a = old(self)@.nodes[from as int];
                let b = old(self)@.nodes[to as int];
                (a.y == b.y && b.x - a.x == MESH_SPACING) || (a.x == b.x && b.y - a.y
                    == MESH_SPACING)
            }),
        ensures
            final(self).wf(),
            final(self)@.nodes.len() == old(self)@.nodes.len(),
            forall|n: int|
                0 <= n < final(self)@.nodes.len() ==> (#[trigger] final(self)@.nodes[n]).x == old(
                    self,
                )@.nodes[n].x && final(self)@.nodes[n].y == old(self)@.nodes[n].y,
            final(self)@.segments.len() == old(self)@.segments.len() + 2,
            forall|s: int|
                0 <= s < old(self)@.segments.len() ==> #[trigger] final(self)@.segments[s] == old(
                    self,
                )@.segments[s],
            ({
                let there = final(self)@.segments[old(self)@.segments.len() as int];
                let back = final(self)@.segments[old(self)@.segments.len() as int + 1];
                &&& there.from.0 == from && there.to.0 == to && back.from.0 == to && back.to.0
                    == from
                &&& there.length == MESH_SPACING && back.length == MESH_SPACING
                &&& there.visual_keypoints.len() == 0 && back.visual_keypoints.len() == 0
                &&& there.signs.len() == 0 && back.signs.len() == 0
            }),
    {
        let ghost before = self@;
        let ghost a = before.nodes[from as int];
        let ghost b = before.nodes[to as int];
        proof {
            assert(before.node_wf(from as int));
            assert(before.node_wf(to as int));
            lemma_straight_segment(a.x, a.y, b.x, b.y, MESH_SPACING as int);
        }
        match self.add_segment(RoadNodeIdx(from), RoadNodeIdx(to), Vec::new()) {
            Ok(_) => {},
            Err(_) => {
                assert(false);
            },
        }
        let ghost between = self@;
        proof {
            lemma_straight_segment(b.x, b.y, a.x, a.y, MESH_SPACING as int);
            assert(between.nodes[from as int].x == a.x && between.nodes[from as int].y == a.y);
            assert(between.nodes[to as int].x == b.x && between.nodes[to as int].y == b.y);
        }
        match self.add_segment(RoadNodeIdx(to), RoadNodeIdx(from), Vec::new()) {
            Ok(_) => {},
            Err(_) => {
                assert(false);
            },
        }
    }

    /// The ring network: one node at `(x, y)` and one segment that leaves the
    /// node, runs through `keypoints` and returns to it.
    pub fn ring(x: i64, y: i64, keypoints: Vec<(i64, i64)>) -> (result: Result<Self, RoadError>)
        ensures
            match result {
                Ok(roads) => {
                    &&& roads.wf()
                    &&& coordinate_in_range(x) && coordinate_in_range(y)
                    &&& ring_node(x, y).segment_refusal(
                        RoadNodeIdx(0),
                        RoadNodeIdx(0),
                        keypoints@,
                    ).is_none()
                    &&& roads@ == ring_node(x, y).with_segment(
                        RoadNodeIdx(0),
                        RoadNodeIdx(0),
                        keypoints@,
                    )
                },
                Err(error) => if coordinate_in_range(x) && coordinate_in_range(y) {
                    ring_node(x, y).segment_refusal(RoadNodeIdx(0), RoadNodeIdx(0), keypoints@)
                        == Some(error)
                } else {
                    error == RoadError::CoordinateOutOfRange
                },
            },
    {
        let mut instance = Self::empty();
        let node = match instance.add_node(x, y) {
            Ok(node) => node,
            Err(error) => {
                return Err(error);
            },
        };
        assert(instance@ =~= ring_node(x, y)) by {
            assert(instance@.nodes =~= ring_node(x, y).nodes);
            assert(instance@.segments =~= ring_node(x, y).segments);
        }
        match instance.add_segment(node, node, keypoints) {
            Ok(_) => Ok(instance),
            Err(error) => Err(error),
        }
    }

    /// Adds a node at `(x, y)` and returns its index, unless a coordinate lies
    /// outside the supported plane.
    pub fn add_node(&mut self, x: i64, y: i64) -> (result: Result<RoadNodeIdx, RoadError>)
        requires
            old(self).wf(),
        ensures
            final(self).wf(),
            match result {
                Ok(node) => {
                    &&& coordinate_in_range(x) && coordinate_in_range(y)
                    &&& node.0 == old(self)@.nodes.len()
                    &&& final(self)@ == old(self)@.with_node(x, y)
                },
                Err(error) => {
                    &&& !(coordinate_in_range(x) && coordinate_in_range(y))
                    &&& error == RoadError::CoordinateOutOfRange
                    &&& final(self)@ == old(self)@
                },
            },
    {
        if x < -COORDINATE_LIMIT || x > COORDINATE_LIMIT || y < -COORDINATE_LIMIT || y
            > COORDINATE_LIMIT {
            return Err(RoadError::CoordinateOutOfRange);
        }
        let ghost before = self@;
        let node = RoadNodeIdx(self.nodes.len());
        self.nodes.push(RoadNode { x, y, road_segments: Vec::new() });
        let count = self.nodes.len();
        proof {
            let after = self@;
            assert(after.segments =~= before.segments);
            assert(after.nodes =~= before.with_node(x, y).nodes);
            lemma_with_node_wf(before, x, y);
        }
        Ok(node)
    }

    /// Adds the directed segment from `from` through `keypoints` to `to`,
    /// registers it with its start node and returns its index. The network is
    /// left as it was when the segment is refused.
    pub fn add_segment(
        &mut self,
        from: RoadNodeIdx,
        to: RoadNodeIdx,
        keypoints: Vec<(i64, i64)>,
    ) -> (result: Result<RoadSegmentIdx, RoadError>)
        requires
            old(self).wf(),
        ensures
            final(self).wf(),
            match result {
                Ok(segment) => {
                    &&& old(self)@.segment_refusal(from, to, keypoints@).is_none()
                    &&& segment.0 == old(self)@.segments.len()
                    &&& final(self)@ == old(self)@.with_segment(from, to, keypoints@)
                },
                Err(error) => {
                    &&& old(self)@.segment_refusal(from, to, keypoints@) == Some(error)
                    &&& final(self)@ == old(self)@
                },
            },
    {
        if from.0 >= self.nodes.len() || to.0 >= self.nodes.len() {
            return Err(RoadError::UnknownNode);
        }
        let ghost before = self@;
        proof {
            assert(before.node_wf(from.0 as int));
            assert(before.node_wf(to.0 as int));
        }
        let start = (self.nodes[from.0].x, self.nodes[from.0].y);
        let end = (self.nodes[to.0].x, self.nodes[to.0].y);
        let segment = match RoadSegment::new(from, to, start, end, keypoints) {
            Ok(segment) => segment,
            Err(error) => {
                return Err(error);
            },
        };
        let index = RoadSegmentIdx(self.segments.len());
        self.nodes[from.0].road_segments.push(index);
        self.segments.push(segment);
        let count = self.segments.len();
        proof {
            let after = self@;
            assert(after.segments =~= before.with_segment(from, to, keypoints@).segments);
            assert(after.nodes =~= before.with_segment(from, to, keypoints@).nodes);
            lemma_with_segment_wf(before, from, to, keypoints@);
        }
        Ok(index)
    }

    /// Puts `sign` up on its segment, after the signs already there. The
    /// network is left as it was when the sign is refused.
    pub fn add_sign(&mut self, sign: Sign) -> (result: Result<(), RoadError>)
        requires
            old(self).wf(),
        ensures
            final(self).wf(),
            match result {
                Ok(_) => old(self)@.sign_refusal(sign).is_none() && final(self)@ == old(
                    self,
                )@.with_sign(sign),
                Err(error) => old(self)@.sign_refusal(sign) == Some(error) && final(self)@ == old(
                    self,
                )@,
            },
    {
        let s = sign.position.road_segment.0;
        if s >= self.segments.len() {
            return Err(RoadError::UnknownSegment);
        }
        if sign.position.position > self.segments[s].length {
            return Err(RoadError::BeyondSegment);
        }
        let ghost before = self@;
        self.segments[s].signs.push(sign);
        proof {
            let after = self@;
            assert(after.nodes =~= before.nodes);
            assert(after.segments =~= before.with_sign(sign).segments);
            lemma_with_sign_wf(before, sign);
        }
        Ok(())
    }

    /// Whether `point` lies on a segment of this network, between its ends.
    pub fn contains_point(&self, point: &RoadPoint) -> (held: bool)
        ensures
            held == self@.contains_point(*point),
    {
        point.road_segment.0 < self.segments.len() && point.position
            <= self.segments[point.road_segment.0].length
    }

    /// Where `position` lies in the plane: on the piece of its segment's
    /// polyline that holds it, as far along as the position is beyond the
    /// piece's start.
    pub fn get_position_xy(&self, position: &RoadPoint) -> (place: (i64, i64))
        requires
            self.wf(),
            self@.contains_point(*position),
        ensures
            (place.0 as int, place.1 as int) == self@.position_xy(*position),
    {
        let s = position.road_segment.0;
        let segment = &self.segments[s];
        let n = segment.visual_keypoints.len();
        let ghost net = self@;
        let ghost marks = net.segments[s as int].visual_keypoints;
        let mut j: usize = 0;
        while j < n && segment.visual_keypoints[j].position <= position.position
            invariant
                n == marks.len(),
                marks == segment.visual_keypoints@,
                0 <= j <= n,
                RoadsView::first_keypoint_beyond(marks, position.position, 0)
                    == RoadsView::first_keypoint_beyond(marks, position.position, j as int),
                j > 0 ==> marks[j - 1].position <= position.position,
            decreases n - j,
        {
            j += 1;
        }
        assert(net.bracket(*position) == j);
        proof {
            assert(net.segment_wf(s as int));
            assert(net.node_wf(segment.from.0 as int));
            assert(net.node_wf(segment.to.0 as int));
            let points = net.polyline(s as int);
            assert(net.polyline_mark(s as int, j as int) == polyline_length(points, j as int));
            assert(net.polyline_mark(s as int, j + 1) == polyline_length(points, j + 1));
            assert(polyline_piece(points, j as int) > 0);
        }
        let (ax, ay, start) = if j == 0 {
            (self.nodes[segment.from.0].x, self.nodes[segment.from.0].y, 0)
        } else {
            let keypoint = &segment.visual_keypoints[j - 1];
            (keypoint.x, keypoint.y, keypoint.position)
        };
        let (bx, by, end) = if j == n {
            (self.nodes[segment.to.0].x, self.nodes[segment.to.0].y, segment.length)
        } else {
            let keypoint = &segment.visual_keypoints[j];
            (keypoint.x, keypoint.y, keypoint.position)
        };
        assert(net.polyline(s as int)[j as int] == (ax as int, ay as int));
        assert(net.polyline(s as int)[j + 1] == (bx as int, by as int));
        let t = position.position - start;
        let width = end - start;
        (interpolate_axis(ax, bx, t, width), interpolate_axis(ay, by, t, width))
    }

    /// The signs that a driver at `position` sees within `seeing_distance`.
    pub fn get_signs(&self, position: &RoadPoint, seeing_distance: u64) -> (signs: Vec<Sign>)
        requires
            self@.has_segment(position.road_segment),
        ensures
            signs@ == self@.signs_within(*position, seeing_distance),
    {
        let standing = &self.segments[position.road_segment.0].signs;
        let ghost in_sight = |sign: Sign| sign_in_sight(*position, seeing_distance, sign);
        let mut signs: Vec<Sign> = Vec::new();
        for k in 0..standing.len()
            invariant
                standing@ == self@.segment(position.road_segment).signs,
                in_sight == |sign: Sign| sign_in_sight(*position, seeing_distance, sign),
                signs@ == standing@.take(k as int).filter(in_sight),
        {
            let sign = standing[k];
            proof {
                reveal(Seq::filter);
                assert(standing@.take(k + 1).drop_last() == standing@.take(k as int));
            }
            if position.position < sign.position.position && sign.position.position
                - position.position < seeing_distance {
                signs.push(sign);
            }
        }
        assert(standing@.take(standing.len() as int) == standing@);
        signs
    }

    /// The distance to travel forward from `point_1` to `point_2`, if the
    /// second can be reached from the first along one segment.
    pub fn get_distance(&self, point_1: &RoadPoint, point_2: &RoadPoint) -> (distance: Option<u64>)
        ensures
            distance == forward_distance(*point_1, *point_2),
    {
        if point_1.road_segment.0 != point_2.road_segment.0 {
            return None;
        }
        if point_1.position <= point_2.position {
            return Some(point_2.position - point_1.position);
        }
        None
    }

    /// The number of nodes.
    pub fn node_count(&self) -> (count: usize)
        ensures
            count == self@.nodes.len(),
    {
        self.nodes.len()
    }

    /// The number of segments.
    pub fn segment_count(&self) -> (count: usize)
        ensures
            count == self@.segments.len(),
    {
        self.segments.len()
    }

    /// Where `node` lies.
    pub fn node_xy(&self, node: RoadNodeIdx) -> (place: (i64, i64))
        requires
            self@.has_node(node),
        ensures
            place == (self@.node(node).x, self@.node(node).y),
    {
        (self.nodes[node.0].x, self.nodes[node.0].y)
    }

    /// The segments that leave `node`, in the order in which they were added.
    pub fn node_segments(&self, node: RoadNodeIdx) -> (segments: &Vec<RoadSegmentIdx>)
        requires
            self@.has_node(node),
        ensures
            segments@ == self@.node(node).road_segments,
    {
        &self.nodes[node.0].road_segments
    }

    /// The node at which `segment` starts.
    pub fn segment_from(&self, segment: RoadSegmentIdx) -> (node: RoadNodeIdx)
        requires
            self@.has_segment(segment),
        ensures
            node == self@.segment(segment).from,
    {
        self.segments[segment.0].from
    }

    /// The node at which `segment` ends.
    pub fn segment_to(&self, segment: RoadSegmentIdx) -> (node: RoadNodeIdx)
        requires
            self@.has_segment(segment),
        ensures
            node == self@.segment(segment).to,
    {
        self.segments[segment.0].to
    }

    /// The length of `segment`.
    pub fn segment_length(&self, segment: RoadSegmentIdx) -> (length: u64)
        requires
            self@.has_segment(segment),
        ensures
            length == self@.segment(segment).length,
    {
        self.segments[segment.0].length
    }

    /// The keypoints of `segment`, from its start to its end.
    pub fn segment_keypoints(&self, segment: RoadSegmentIdx) -> (keypoints: &Vec<
        RoadVisualKeypoint,
    >)
        requires
            self@.has_segment(segment),
        ensures
            keypoints@ == self@.segment(segment).visual_keypoints,
    {
        &self.segments[segment.0].visual_keypoints
    }

    /// The signs that stand on `segment`, in the order in which they were put up.
    pub fn segment_signs(&self, segment: RoadSegmentIdx) -> (signs: &Vec<Sign>)
        requires
            self@.has_segment(segment),
        ensures
            signs@ == self@.segment(segment).signs,
    {
        &self.segments[segment.0].signs
    }
}

} // verus!
