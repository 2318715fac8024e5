//! Control points and the splitting of a control-point list into typed
//! segments.
use vstd::prelude::*;
use crate::arc::{approximate_circular_arc, circular_arc};
use crate::bezier::{approximate_bezier, approximated};
use crate::catmull::{approximate_catmull, catmull_path};
use crate::point::Pos2;

verus! {

/// The kind of curve that a run of control points describes.
#[derive(Clone, Copy, Debug, PartialEq, Eq, Structural)]
pub enum PathType {
    Catmull,
    Bezier,
    Linear,
    PerfectCurve,
}

/// A control point. `kind` is set where a new segment of that kind starts.
#[derive(Clone, Copy, Debug, PartialEq, Eq, Structural)]
pub struct PathControlPoint {
    pub pos: Pos2,
    pub kind: Option<PathType>,
}

/// The positions of a list of control points.
pub open spec fn positions(points: Seq<PathControlPoint>) -> Seq<Pos2> {
    Seq::new(points.len(), |i: int| points[i].pos)
}

/// Whether the list ends in two control points at the same position.
pub open spec fn ends_coincide(points: Seq<PathControlPoint>) -> bool {
    points.len() >= 2 && points[points.len() - 2].pos == points[points.len() - 1].pos
}

/// The polyline of one segment: of the control points `points` read as a
/// curve of the kind `kind`. A perfect curve needs exactly three points and
/// is read as a Bezier curve otherwise.
pub open spec fn subpath(points: Seq<Pos2>, kind: PathType) -> Seq<Pos2> {
    match kind {
        PathType::Bezier => approximated(points),
        PathType::Catmull => catmull_path(points),
        PathType::Linear => points,
        PathType::PerfectCurve => if points.len() == 3 {
            circular_arc(points[0], points[1], points[2])
        } else {
            approximated(points)
        },
    }
}

/// The kind of the segment that starts at control point `start`: the kind
/// marked there, or linear if none is marked.
pub open spec fn segment_kind(points: Seq<PathControlPoint>, start: int) -> PathType {
    match points[start].kind {
        Some(kind) => kind,
        None => PathType::Linear,
    }
}

/// Whether a segment ends at control point `i`: a kind is marked there, or
/// it is the last control point.
pub open spec fn ends_segment(points: Seq<PathControlPoint>, i: int) -> bool {
    points[i].kind is Some || i == points.len() - 1
}

/// The polylines of the segments that end at control point `i` or later,
/// in a row, where the segment in progress started at control point
/// `start`. Each segment starts at the control point that ended the one
/// before.
pub open spec fn path_from(points: Seq<PathControlPoint>, start: int, i: int) -> Seq<Pos2>
    decreases points.len() - i,
{
    if start < 0 || i < start || i >= points.len() {
        Seq::empty()
    } else if ends_segment(points, i) {
        subpath(positions(points).subrange(start, i + 1), segment_kind(points, start)) + path_from(
            points,
            i,
            i + 1,
        )
    } else {
        path_from(points, start, i + 1)
    }
}

/// The polyline without the vertices that repeat the vertex before them.
pub open spec fn without_repeats(path: Seq<Pos2>) -> Seq<Pos2>
    decreases path.len(),
{
    if path.len() <= 1 {
        path
    } else {
        let front = without_repeats(path.drop_last());
        if path.last() == path[path.len() - 2] {
            front
        } else {
            front.push(path.last())
        }
    }
}

/// The polyline of a list of control points: the polylines of its segments
/// in a row, without repeated vertices.
pub open spec fn calculated_path(points: Seq<PathControlPoint>) -> Seq<Pos2> {
    without_repeats(path_from(points, 0, 0))
}

/// Removing repeats keeps the first and the last vertex, and leaves no two
/// neighbours equal.
pub proof fn lemma_without_repeats(path: Seq<Pos2>)
    ensures
        without_repeats(path).len() <= path.len(),
        path.len() > 0 ==> without_repeats(path).len() > 0 && without_repeats(path).last()
            == path.last() && without_repeats(path)[0] == path[0],
        forall|i: int|
            0 <= i < without_repeats(path).len() - 1 ==> #[trigger] without_repeats(path)[i]
                != without_repeats(path)[i + 1],
    decreases path.len(),
{
    if path.len() > 1 {
        lemma_without_repeats(path.drop_last());
        let front = without_repeats(path.drop_last());
        assert(path.drop_last().last() == path[path.len() - 2]);
        assert(path.drop_last()[0] == path[0]);
    }
}

/// The polyline of one segment starts at the first control point of the
/// segment, where the segment is a single point or linear.
pub proof fn lemma_subpath_start(points: Seq<Pos2>, kind: PathType)
    requires
        points.len() == 1 || (points.len() > 1 && kind == PathType::Linear),
    ensures
        subpath(points, kind).len() > 0,
        subpath(points, kind)[0] == points[0],
{
    if points.len() == 1 && kind != PathType::Linear && kind != PathType::Catmull {
        crate::bezier::lemma_flattened_start(points, crate::bezier::MAX_DEPTH as nat);
    }
}

/// The polylines of the segments in a row start at the first control
/// point, where the segment in progress started at the first control point
/// and no control point before `i` ended it.
pub proof fn lemma_path_from_start(points: Seq<PathControlPoint>, i: int)
    requires
        0 <= i < points.len(),
        i > 0 ==> points[0].kind is None,
    ensures
        path_from(points, 0, i).len() > 0,
        path_from(points, 0, i)[0] == points[0].pos,
    decreases points.len() - i,
{
    if ends_segment(points, i) {
        let segment = positions(points).subrange(0, i + 1);
        assert(segment[0] == points[0].pos);
        lemma_subpath_start(segment, segment_kind(points, 0));
    } else {
        lemma_path_from_start(points, i + 1);
    }
}

/// The polyline of a list of control points starts at the first control
/// point.
pub proof fn lemma_calculated_path_start(points: Seq<PathControlPoint>)
    requires
        points.len() > 0,
    ensures
        calculated_path(points).len() > 0,
        calculated_path(points)[0] == points[0].pos,
{
    lemma_path_from_start(points, 0);
    lemma_without_repeats(path_from(points, 0, 0));
}

/// No vertex of the polyline of a list of control points repeats the vertex
/// before it.
pub proof fn lemma_calculated_path_distinct(points: Seq<PathControlPoint>)
    ensures
        forall|i: int|
            0 <= i < calculated_path(points).len() - 1 ==> #[trigger] calculated_path(points)[i]
                != calculated_path(points)[i + 1],
{
    lemma_without_repeats(path_from(points, 0, 0));
}

/// Appends to `path` the polyline of the segment with the control points
/// `sub_points` and the kind `kind`.
pub fn calculate_subpath(path: &mut Vec<Pos2>, sub_points: &Vec<Pos2>, kind: PathType)
    ensures
        final(path)@ == old(path)@ + subpath(sub_points@, kind),
{
    match kind {
        PathType::Bezier => approximate_bezier(path, sub_points),
        PathType::Catmull => approximate_catmull(path, sub_points),
        PathType::Linear => approximate_linear(path, sub_points),
        PathType::PerfectCurve => {
            if sub_points.len() == 3 {
                approximate_circular_arc(path, sub_points[0], sub_points[1], sub_points[2])
            } else {
                approximate_bezier(path, sub_points)
            }
        },
    }
}

/// Appends the control points themselves to `path`.
pub fn approximate_linear(path: &mut Vec<Pos2>, points: &Vec<Pos2>)
    ensures
        final(path)@ == old(path)@ + points@,
{
    let ghost start = path@;
    let mut i: usize = 0;
    while i < points.len()
        invariant
            i <= points@.len(),
            path@ == start + points@.take(i as int),
        decreases points@.len() - i,
    {
        path.push(points[i]);
        assert(points@.take(i + 1) == points@.take(i as int).push(points@[i as int]));
        i = i + 1;
    }
    assert(points@.take(i as int) == points@);
}

/// The positions of the control points from index `start` up to, but not
/// including, index `end`.
fn segment_positions(points: &Vec<PathControlPoint>, start: usize, end: usize) -> (r: Vec<Pos2>)
    requires
        start <= end <= points@.len(),
    ensures
        r@ == positions(points@).subrange(start as int, end as int),
{
    let mut r: Vec<Pos2> = Vec::new();
    let mut i: usize = start;
    while i < end
        invariant
            start <= i <= end <= points@.len(),
            r@ == positions(points@).subrange(start as int, i as int),
        decreases end - i,
    {
        r.push(points[i].pos);
        assert(positions(points@).subrange(start as int, i + 1) == positions(points@).subrange(
            start as int,
            i as int,
        ).push(positions(points@)[i as int]));
        i = i + 1;
    }
    r
}

/// Removes from `path` the vertices that repeat the vertex before them.
pub fn dedup(path: &Vec<Pos2>) -> (r: Vec<Pos2>)
    ensures
        r@ == without_repeats(path@),
{
    let mut r: Vec<Pos2> = Vec::new();
    if path.len() == 0 {
        return r;
    }
    r.push(path[0]);
    let mut i: usize = 1;
    assert(path@.take(1) == seq![path@[0]]);
    while i < path.len()
        invariant
            1 <= i <= path@.len(),
            r@ == without_repeats(path@.take(i as int)),
        decreases path@.len() - i,
    {
        proof {
            let longer = path@.take(i + 1);
            assert(longer.drop_last() == path@.take(i as int));
            assert(longer.last() == path@[i as int]);
            assert(longer[longer.len() - 2] == path@[i - 1]);
        }
        if !(path[i] == path[i - 1]) {
            r.push(path[i]);
        }
        i = i + 1;
    }
    assert(path@.take(i as int) == path@);
    r
}

/// The polyline of the control points: each segment is approximated
/// according to its kind, and repeated vertices are removed.
pub fn calculate_path(points: &Vec<PathControlPoint>) -> (path: Vec<Pos2>)
    ensures
        path@ == calculated_path(points@),
{
    let mut path: Vec<Pos2> = Vec::new();
    let n: usize = points.len();
    let mut start: usize = 0;
    let mut i: usize = 0;
    while i < n
        invariant
            n == points@.len(),
            start <= i <= n,
            i == 0 || start < i,
            path@ + path_from(points@, start as int, i as int) == path_from(points@, 0, 0),
        decreases n - i,
    {
        if points[i].kind.is_none() && i < n - 1 {
            i = i + 1;
        } else {
            let segment_vertices: Vec<Pos2> = segment_positions(points, start, i + 1);
            let segment_kind: PathType = match points[start].kind {
                Some(kind) => kind,
                None => PathType::Linear,
            };
            let ghost before = path@;
            calculate_subpath(&mut path, &segment_vertices, segment_kind);
            proof {
                assert(ends_segment(points@, i as int));
                assert(path@ + path_from(points@, i as int, i + 1) =~= before + path_from(
                    points@,
                    start as int,
                    i as int,
                ));
            }
            start = i;
            i = i + 1;
        }
    }
    assert(path@ =~= path_from(points@, 0, 0));
    dedup(&path)
}

} // verus!
