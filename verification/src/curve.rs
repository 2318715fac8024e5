//! A curve: a polyline with its table of cumulative lengths, and the queries
//! that find the point at a given distance along it.
use vstd::prelude::*;
use crate::arc::{arc_point, arc_properties, circular_arc_properties, CircularArcProperties};
use crate::bezier::{bezier_subpath, flattened, BezierBuffers, MAX_DEPTH};
use crate::catmull::{approximate_catmull, catmull_path};
use crate::fixed::Fixed;
use crate::length::{
    calculate_length, correct_length, corrected, cumulative, cumulative_lengths,
    lemma_corrected_shape, lemma_cumulative_non_decreasing, non_decreasing,
};
use crate::path::{calculate_path, calculated_path, ends_coincide, PathControlPoint, PathType};
use crate::point::Pos2;

verus! {

/// How many entries are left of `lengths` when the entries that are not
/// less than `d` are dropped from its end one by one: in a table that never
/// decreases, the index of the first entry that is not less than `d`.
pub open spec fn index_of_distance(lengths: Seq<Fixed>, d: Fixed) -> nat
    decreases lengths.len(),
{
    if lengths.len() == 0 {
        0
    } else if lengths.last().raw >= d.raw {
        index_of_distance(lengths.drop_last(), d)
    } else {
        lengths.len()
    }
}

/// The point between vertices `i - 1` and `i` whose distance along the
/// polyline is `d`: vertex `i - 1` plus the vector of the span, stretched by
/// the ratio of the distance into the span to the length of the span. It is
/// the first vertex for `i <= 0`, the last for an `i` past the end, and the
/// zero point of an empty polyline. A span no longer than the tolerance
/// gives its first vertex.
pub open spec fn interpolated(path: Seq<Pos2>, lengths: Seq<Fixed>, i: int, d: Fixed) -> Pos2 {
    if path.len() == 0 {
        Pos2::zero()
    } else if i <= 0 {
        path[0]
    } else if i >= path.len() {
        path.last()
    } else {
        let p0 = path[i - 1];
        let p1 = path[i];
        let d0 = lengths[i - 1];
        let d1 = lengths[i];
        if d0.near(d1) {
            p0
        } else {
            p0.add(p1.sub(p0).scale_ratio(d.sub(d0), d1.sub(d0)))
        }
    }
}

/// The point at distance `d` along the polyline.
pub open spec fn point_at(path: Seq<Pos2>, lengths: Seq<Fixed>, d: Fixed) -> Pos2 {
    interpolated(path, lengths, index_of_distance(lengths, d) as int, d)
}

/// The last entry of the table; zero for an empty table.
pub open spec fn total(lengths: Seq<Fixed>) -> Fixed {
    if lengths.len() == 0 {
        Fixed::zero()
    } else {
        lengths.last()
    }
}

/// The distance that stands for the share `progress` of the whole length;
/// `progress` is limited to the interval from zero to one.
pub open spec fn distance_of_progress(lengths: Seq<Fixed>, progress: Fixed) -> Fixed {
    progress.clamp(Fixed::zero(), Fixed::one()).mul(total(lengths))
}

/// An index that parts a table into the entries less than `d` and those
/// not less than `d` is the index of `d`.
pub proof fn lemma_index_of_distance(lengths: Seq<Fixed>, d: Fixed, i: int)
    requires
        0 <= i <= lengths.len(),
        forall|j: int| 0 <= j < i ==> (#[trigger] lengths[j]).raw < d.raw,
        forall|j: int| i <= j < lengths.len() ==> (#[trigger] lengths[j]).raw >= d.raw,
    ensures
        index_of_distance(lengths, d) == i,
    decreases lengths.len(),
{
    if lengths.len() > 0 {
        if lengths.last().raw >= d.raw {
            assert(i < lengths.len());
            let shorter = lengths.drop_last();
            assert forall|j: int| 0 <= j < i implies (#[trigger] shorter[j]).raw < d.raw by {
                assert(shorter[j] == lengths[j]);
            }
            assert forall|j: int| i <= j < shorter.len() implies (#[trigger] shorter[j]).raw
                >= d.raw by {
                assert(shorter[j] == lengths[j]);
            }
            lemma_index_of_distance(shorter, d, i);
        } else {
            assert(i == lengths.len());
        }
    }
}

/// In a table that never decreases, the entry before the index of `d` is
/// less than `d`, and the entry at the index is not.
pub proof fn lemma_index_brackets(lengths: Seq<Fixed>, d: Fixed)
    requires
        non_decreasing(lengths),
    ensures
        index_of_distance(lengths, d) <= lengths.len(),
        index_of_distance(lengths, d) > 0 ==> lengths[index_of_distance(lengths, d) - 1].raw
            < d.raw,
        index_of_distance(lengths, d) < lengths.len() ==> lengths[index_of_distance(
            lengths,
            d,
        ) as int].raw >= d.raw,
    decreases lengths.len(),
{
    if lengths.len() > 0 && lengths.last().raw >= d.raw {
        let shorter = lengths.drop_last();
        assert(non_decreasing(shorter)) by {
            assert forall|i: int, j: int| 0 <= i <= j < shorter.len() implies shorter[i].raw
                <= shorter[j].raw by {
                assert(lengths[i].raw <= lengths[j].raw);
            }
        }
        lemma_index_brackets(shorter, d);
        let i = index_of_distance(shorter, d) as int;
        if i < shorter.len() {
            assert(shorter[i] == lengths[i]);
        }
        if i > 0 {
            assert(shorter[i - 1] == lengths[i - 1]);
        }
    }
}

/// What a curve holds: the vertices of the polyline, and the arc length
/// from the first vertex to each of them.
pub ghost struct CurveView {
    pub path: Seq<Pos2>,
    pub lengths: Seq<Fixed>,
}

impl CurveView {
    /// The table never decreases, and it has an entry for each vertex and at
    /// most one more.
    pub open spec fn well_formed(self) -> bool {
        &&& non_decreasing(self.lengths)
        &&& self.path.len() <= self.lengths.len() <= self.path.len() + 1
    }
}

/// The curve of a list of control points with the declared length
/// `expected_len`: the polyline of the control points, corrected to that
/// length, and its table.
pub open spec fn built(points: Seq<PathControlPoint>, expected_len: Fixed) -> CurveView {
    let pair = corrected(ends_coincide(points), calculated_path(points), expected_len);
    CurveView { path: pair.0, lengths: pair.1 }
}

/// A piecewise-linear curve with its table of cumulative lengths.
pub struct Curve {
    path: Vec<Pos2>,
    lengths: Vec<Fixed>,
}

impl View for Curve {
    type V = CurveView;

    closed spec fn view(&self) -> CurveView {
        CurveView { path: self.path@, lengths: self.lengths@ }
    }
}

impl Curve {
    #[verifier::type_invariant]
    spec fn valid(self) -> bool {
        self@.well_formed()
    }

    /// Builds the curve of the control points `points` with the declared
    /// length `expected_len`.
    pub fn new(points: &Vec<PathControlPoint>, expected_len: Fixed) -> (curve: Curve)
        ensures
            curve@ == built(points@, expected_len),
            curve@.well_formed(),
    {
        let mut path: Vec<Pos2> = calculate_path(points);
        let lengths: Vec<Fixed> = calculate_length(points, &mut path, expected_len);
        proof {
            lemma_corrected_shape(ends_coincide(points@), calculated_path(points@), expected_len);
        }
        Curve { path, lengths }
    }

    /// The vertices of the polyline.
    pub fn path(&self) -> (r: &Vec<Pos2>)
        ensures
            r@ == self@.path,
            self@.well_formed(),
    {
        proof {
            use_type_invariant(self);
        }
        &self.path
    }

    /// The cumulative length at each vertex.
    pub fn lengths(&self) -> (r: &Vec<Fixed>)
        ensures
            r@ == self@.lengths,
            self@.well_formed(),
    {
        proof {
            use_type_invariant(self);
        }
        &self.lengths
    }

    /// The total length of the curve.
    pub fn dist(&self) -> (r: Fixed)
        ensures
            r == total(self@.lengths),
    {
        if self.lengths.len() == 0 {
            Fixed::zero()
        } else {
            self.lengths[self.lengths.len() - 1]
        }
    }

    /// The point at the share `progress` of the curve's length.
    pub fn position_at(&self, progress: Fixed) -> (r: Pos2)
        ensures
            r == point_at(
                self@.path,
                self@.lengths,
                distance_of_progress(self@.lengths, progress),
            ),
    {
        let d: Fixed = self.progress_to_dist(progress);
        self.point_at_distance(d)
    }

    /// The point at distance `d` from the start of the curve.
    pub fn point_at_distance(&self, d: Fixed) -> (r: Pos2)
        ensures
            r == point_at(self@.path, self@.lengths, d),
    {
        let i: usize = self.idx_of_dist(d);
        self.interpolate_vertices(i, d)
    }

    /// The distance at the share `progress` of the curve's length.
    pub fn progress_to_dist(&self, progress: Fixed) -> (r: Fixed)
        ensures
            r == distance_of_progress(self@.lengths, progress),
    {
        progress.clamp(Fixed::zero(), Fixed::one()).mul(self.dist())
    }

    /// The index of the first entry of the table that is not less than `d`.
    pub fn idx_of_dist(&self, d: Fixed) -> (i: usize)
        ensures
            i == index_of_distance(self@.lengths, d),
            i <= self@.lengths.len(),
            forall|j: int| 0 <= j < i ==> (#[trigger] self@.lengths[j]).raw < d.raw,
            forall|j: int|
                i <= j < self@.lengths.len() ==> (#[trigger] self@.lengths[j]).raw >= d.raw,
    {
        proof {
            use_type_invariant(self);
        }
        search_lengths(&self.lengths, d)
    }

    /// The point at distance `d` between the vertices `i - 1` and `i`.
    pub fn interpolate_vertices(&self, i: usize, d: Fixed) -> (r: Pos2)
        ensures
            r == interpolated(self@.path, self@.lengths, i as int, d),
    {
        proof {
            use_type_invariant(self);
        }
        Curve_::interpolate_vertices(&self.path, &self.lengths, i, d)
    }
}

/// Binary search in a table that never decreases: the index of the first
/// entry that is not less than `d`.
pub fn search_lengths(lengths: &Vec<Fixed>, d: Fixed) -> (i: usize)
    requires
        non_decreasing(lengths@),
    ensures
        i == index_of_distance(lengths@, d),
        i <= lengths@.len(),
        forall|j: int| 0 <= j < i ==> (#[trigger] lengths@[j]).raw < d.raw,
        forall|j: int| i <= j < lengths@.len() ==> (#[trigger] lengths@[j]).raw >= d.raw,
{
    let mut lo: usize = 0;
    let mut hi: usize = lengths.len();
    while lo < hi
        invariant
            0 <= lo <= hi <= lengths@.len(),
            non_decreasing(lengths@),
            forall|j: int| 0 <= j < lo ==> (#[trigger] lengths@[j]).raw < d.raw,
            forall|j: int| hi <= j < lengths@.len() ==> (#[trigger] lengths@[j]).raw >= d.raw,
        decreases hi - lo,
    {
        let mid: usize = lo + (hi - lo) / 2;
        if lengths[mid].raw < d.raw {
            assert forall|j: int| 0 <= j < mid + 1 implies (#[trigger] lengths@[j]).raw
                < d.raw by {
                assert(lengths@[j].raw <= lengths@[mid as int].raw);
            }
            lo = mid + 1;
        } else {
            assert forall|j: int| mid <= j < lengths@.len() implies (#[trigger] lengths@[j]).raw
                >= d.raw by {
                assert(lengths@[mid as int].raw <= lengths@[j].raw);
            }
            hi = mid;
        }
    }
    proof {
        lemma_index_of_distance(lengths@, d, lo as int);
    }
    lo
}

/// The point at distance `d` along a polyline that holds no table: the
/// point found in the table of its cumulative lengths.
pub open spec fn polyline_point_at(points: Seq<Pos2>, d: Fixed) -> Pos2 {
    point_at(points, cumulative_lengths(points), d)
}

/// The point at distance `dist` along the polyline `points`.
pub fn point_at_distance(points: &Vec<Pos2>, dist: Fixed) -> (r: Pos2)
    ensures
        r == polyline_point_at(points@, dist),
{
    let lengths: Vec<Fixed> = cumulative(points);
    proof {
        lemma_cumulative_non_decreasing(points@);
    }
    let i: usize = search_lengths(&lengths, dist);
    Curve_::interpolate_vertices(points, &lengths, i, dist)
}

/// The samples of a spline, or the one point that stands for it.
pub enum Points {
    Single(Pos2),
    Multi(Vec<Pos2>),
}

impl Points {
    /// The point at distance `dist`: the single point, or the point on the
    /// polyline of the samples.
    pub open spec fn spec_point_at_distance(&self, dist: Fixed) -> Pos2 {
        match self {
            Points::Multi(points) => polyline_point_at(points@, dist),
            Points::Single(point) => *point,
        }
    }

    #[verifier::when_used_as_spec(spec_point_at_distance)]
    pub fn point_at_distance(&self, dist: Fixed) -> (r: Pos2)
        ensures
            r == self.spec_point_at_distance(dist),
    {
        match self {
            Points::Multi(points) => point_at_distance(points, dist),
            Points::Single(point) => *point,
        }
    }
}

/// The polylines of the runs of a control polygon in a row, where the run
/// in progress started at index `start` and the points before index `end`
/// have been seen. A run of two or more points ends before a point that
/// repeats the point before it; the last run ends with the polygon. Each
/// polyline stops short of the last point of its run.
pub open spec fn runs_from(points: Seq<Pos2>, start: int, end: int) -> Seq<Pos2>
    decreases points.len() - end,
{
    if start < 0 || end <= start || end > points.len() {
        Seq::empty()
    } else if end == points.len() {
        flattened(points.subrange(start, end), MAX_DEPTH as nat)
    } else if end - start > 1 && points[end - 1] == points[end] {
        flattened(points.subrange(start, end), MAX_DEPTH as nat) + runs_from(points, end, end + 1)
    } else {
        runs_from(points, start, end + 1)
    }
}

/// The polylines of the runs of a control polygon start at the first point
/// of the run in progress.
pub proof fn lemma_runs_from_start(points: Seq<Pos2>, start: int, end: int)
    requires
        0 <= start < end <= points.len(),
    ensures
        runs_from(points, start, end).len() > 0,
        runs_from(points, start, end)[0] == points[start],
    decreases points.len() - end,
{
    if end == points.len() || (end - start > 1 && points[end - 1] == points[end]) {
        let run = points.subrange(start, end);
        assert(run[0] == points[start]);
        crate::bezier::lemma_flattened_start(run, MAX_DEPTH as nat);
    } else {
        lemma_runs_from_start(points, start, end + 1);
    }
}

/// The polyline of a Bezier control polygon with repeated points: the
/// polylines of its runs, then its last point. A single point stands for
/// itself.
pub open spec fn bezier_polyline(points: Seq<Pos2>) -> Seq<Pos2> {
    if points.len() <= 1 {
        points
    } else {
        runs_from(points, 0, 1).push(points.last())
    }
}

/// Whether the control polygon ends in two equal points.
pub open spec fn ends_repeat(points: Seq<Pos2>) -> bool {
    points.len() >= 2 && points[points.len() - 2] == points[points.len() - 1]
}

/// The curve of a Bezier control polygon with the declared length
/// `expected_len`.
pub open spec fn bezier_curve(points: Seq<Pos2>, expected_len: Fixed) -> CurveView {
    let pair = corrected(ends_repeat(points), bezier_polyline(points), expected_len);
    CurveView { path: pair.0, lengths: pair.1 }
}

/// What a curve of a single kind holds.
pub ghost enum SegmentView {
    /// A polyline with its table of cumulative lengths.
    Table(CurveView),
    /// A polyline without a table.
    Polyline(Seq<Pos2>),
    /// A single point.
    Point(Pos2),
    /// A circular arc.
    Arc(CircularArcProperties),
}

/// The curve of the control points `points` read as one segment of the kind
/// `kind`. A perfect curve needs three points that are not degenerate and
/// is read as a Bezier curve otherwise.
pub open spec fn segment_curve(points: Seq<Pos2>, kind: PathType, expected_len: Fixed) -> SegmentView {
    match kind {
        PathType::Bezier => SegmentView::Table(bezier_curve(points, expected_len)),
        PathType::Catmull => if points.len() == 1 {
            SegmentView::Point(points[0])
        } else {
            SegmentView::Polyline(catmull_path(points))
        },
        PathType::Linear => SegmentView::Polyline(points),
        PathType::PerfectCurve => if points.len() == 3 {
            match arc_properties(points[0], points[1], points[2]) {
                Some(pr) => SegmentView::Arc(pr),
                None => SegmentView::Table(bezier_curve(points, expected_len)),
            }
        } else {
            SegmentView::Table(bezier_curve(points, expected_len))
        },
    }
}

/// The point at distance `d` along a curve of a single kind.
pub open spec fn segment_point_at(curve: SegmentView, d: Fixed) -> Pos2 {
    match curve {
        SegmentView::Table(table) => point_at(table.path, table.lengths, d),
        SegmentView::Polyline(points) => polyline_point_at(points, d),
        SegmentView::Point(point) => point,
        SegmentView::Arc(pr) => arc_point(pr, d),
    }
}

/// The curve of a single segment, held in the form that suits its kind: a
/// Bezier curve as a polyline with its table, a spline as its samples, a
/// linear path as its control points, a perfect curve as its arc.
pub enum Curve_<'p> {
    Bezier(Curve),
    Catmull(Points),
    Linear(&'p Vec<Pos2>),
    Perfect(CircularArcProperties),
}

impl<'p> View for Curve_<'p> {
    type V = SegmentView;

    open spec fn view(&self) -> SegmentView {
        match self {
            Curve_::Bezier(curve) => SegmentView::Table(curve@),
            Curve_::Catmull(Points::Single(point)) => SegmentView::Point(*point),
            Curve_::Catmull(Points::Multi(points)) => SegmentView::Polyline(points@),
            Curve_::Linear(points) => SegmentView::Polyline(points@),
            Curve_::Perfect(pr) => SegmentView::Arc(*pr),
        }
    }
}

impl<'p> Curve_<'p> {
    /// The curve of the control points `points` read as one segment of the
    /// kind `kind`, with the declared length `expected_len`.
    pub fn new(points: &'p Vec<Pos2>, kind: PathType, expected_len: Fixed) -> (curve: Self)
        ensures
            curve@ == segment_curve(points@, kind, expected_len),
            kind == PathType::Bezier ==> curve is Bezier,
            kind == PathType::Catmull ==> curve is Catmull,
            kind == PathType::Linear ==> curve is Linear,
            kind == PathType::PerfectCurve ==> curve is Perfect || curve is Bezier,
    {
        match kind {
            PathType::Bezier => Self::bezier(points, expected_len),
            PathType::Catmull => Self::catmull(points),
            PathType::Linear => Curve_::Linear(points),
            PathType::PerfectCurve => Self::perfect(points, expected_len),
        }
    }

    /// The curve of a Bezier control polygon. The polygon is cut into runs
    /// at its repeated points, each run is flattened, and the polyline is
    /// corrected to the declared length.
    pub fn bezier(points: &Vec<Pos2>, expected_len: Fixed) -> (curve: Self)
        ensures
            curve is Bezier,
            curve@ == SegmentView::Table(bezier_curve(points@, expected_len)),
    {
        let len: usize = points.len();
        let mut path: Vec<Pos2> = Vec::new();
        if len == 1 {
            path.push(points[0]);
            assert(path@ == bezier_polyline(points@));
        } else if len >= 2 {
            // First the polyline of each run.
            let mut start: usize = 0;
            let mut bufs: BezierBuffers = BezierBuffers::new(len);
            let mut end: usize = 1;
            while end < len
                invariant
                    len == points@.len(),
                    len >= 2,
                    start < end <= len,
                    bufs.fits(len as nat),
                    path@ + runs_from(points@, start as int, end as int) == runs_from(
                        points@,
                        0,
                        1,
                    ),
                decreases len - end,
            {
                if end - start > 1 && points[end - 1] == points[end] {
                    let run: Vec<Pos2> = copy_range(points, start, end);
                    let ghost before = path@;
                    bezier_subpath(&mut path, &run, &mut bufs);
                    assert(path@ + runs_from(points@, end as int, end + 1) =~= before + runs_from(
                        points@,
                        start as int,
                        end as int,
                    ));
                    start = end;
                }
                end = end + 1;
            }
            let run: Vec<Pos2> = copy_range(points, start, len);
            let ghost before = path@;
            bezier_subpath(&mut path, &run, &mut bufs);
            assert(path@ =~= before + runs_from(points@, start as int, len as int));
            path.push(points[len - 1]);
            assert(path@ == bezier_polyline(points@));
        } else {
            assert(path@ == bezier_polyline(points@));
        }
        // Then the table of cumulative lengths.
        let coincide: bool = len >= 2 && points[len - 2] == points[len - 1];
        let ghost polyline = path@;
        let lengths: Vec<Fixed> = correct_length(coincide, &mut path, expected_len);
        proof {
            lemma_corrected_shape(coincide, polyline, expected_len);
        }
        Curve_::Bezier(Curve { path, lengths })
    }

    /// The samples of the Catmull-Rom spline through `points`; a single
    /// point stands for itself.
    pub fn catmull(points: &Vec<Pos2>) -> (curve: Self)
        ensures
            curve is Catmull,
            curve@ == if points@.len() == 1 {
                SegmentView::Point(points@[0])
            } else {
                SegmentView::Polyline(catmull_path(points@))
            },
    {
        if points.len() == 1 {
            return Curve_::Catmull(Points::Single(points[0]));
        }
        let mut result: Vec<Pos2> = Vec::new();
        approximate_catmull(&mut result, points);
        assert(result@ =~= catmull_path(points@));
        Curve_::Catmull(Points::Multi(result))
    }

    /// The arc through three points. Points that are degenerate, or that
    /// are not three, are read as a Bezier control polygon.
    pub fn perfect(points: &Vec<Pos2>, expected_len: Fixed) -> (curve: Self)
        ensures
            curve@ == segment_curve(points@, PathType::PerfectCurve, expected_len),
            curve is Perfect || curve is Bezier,
    {
        if points.len() == 3 {
            match circular_arc_properties(points[0], points[1], points[2]) {
                Some(pr) => Curve_::Perfect(pr),
                None => Self::bezier(points, expected_len),
            }
        } else {
            Self::bezier(points, expected_len)
        }
    }

    /// The point at distance `d` between the vertices `i - 1` and `i` of
    /// the polyline `path` with the table `lengths`.
    pub fn interpolate_vertices(path: &Vec<Pos2>, lengths: &Vec<Fixed>, i: usize, d: Fixed) -> (r:
        Pos2)
        requires
            path@.len() <= lengths@.len(),
        ensures
            r == interpolated(path@, lengths@, i as int, d),
    {
        if path.len() == 0 {
            return Pos2::zero();
        }
        if i == 0 {
            return path[0];
        } else if i >= path.len() {
            return path[path.len() - 1];
        }
        let p0: Pos2 = path[i - 1];
        let p1: Pos2 = path[i];
        let d0: Fixed = lengths[i - 1];
        let d1: Fixed = lengths[i];
        // A span of next to no length gives its first vertex.
        if d0.near(d1) {
            return p0;
        }
        p0.add(p1.sub(p0).scale_ratio(d.sub(d0), d1.sub(d0)))
    }

    /// The point at distance `dist` from the start of the curve.
    pub fn point_at_distance(&self, dist: Fixed) -> (r: Pos2)
        ensures
            r == segment_point_at(self@, dist),
    {
        match self {
            Curve_::Bezier(curve) => curve.point_at_distance(dist),
            Curve_::Catmull(points) => points.point_at_distance(dist),
            Curve_::Linear(points) => point_at_distance(points, dist),
            Curve_::Perfect(pr) => pr.point_at_distance(dist),
        }
    }
}

/// A copy of the points from index `start` up to, but not including, index
/// `end`.
pub fn copy_range(points: &Vec<Pos2>, start: usize, end: usize) -> (r: Vec<Pos2>)
    requires
        start <= end <= points@.len(),
    ensures
        r@ == points@.subrange(start as int, end as int),
{
    let mut r: Vec<Pos2> = Vec::new();
    let mut i: usize = start;
    while i < end
        invariant
            start <= i <= end <= points@.len(),
            r@ == points@.subrange(start as int, i as int),
        decreases end - i,
    {
        r.push(points[i]);
        assert(points@.subrange(start as int, i + 1) == points@.subrange(
            start as int,
            i as int,
        ).push(points@[i as int]));
        i = i + 1;
    }
    r
}

} // verus!
