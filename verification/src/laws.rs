//! Laws that hold of the polylines of segments and of every curve, stated
//! over the spec functions of the other modules.
use vstd::prelude::*;
use crate::arc::{
    arc_path, arc_point, arc_point_count, arc_properties, arc_sample, centre_numerator_x,
    centre_numerator_y, centre_offset, circular_arc, circumcentre, cross, is_degenerate,
    lemma_arc_properties_well_formed, lemma_centre_identity, lemma_nearly_equidistant,
    point_at_angle, CircularArcProperties,
};
use crate::bezier::{
    all_within, approximated, flattened, lemma_flattened_start, lemma_flattened_within,
    MAX_DEPTH,
};
use crate::catmull::{
    lemma_coordinate_ends, moderate, parameter, span_samples, spline_point,
};
use crate::curve::{
    bezier_curve, bezier_polyline, built, distance_of_progress, ends_repeat,
    lemma_runs_from_start, index_of_distance, lemma_index_brackets,
    lemma_index_of_distance, point_at, total, CurveView,
};
use crate::fixed::{
    lemma_div_self, lemma_div_within, lemma_mul_commutes, lemma_mul_div_self, lemma_mul_div_within,
    lemma_mul_one, lemma_mul_signed_within, lemma_mul_zero, lemma_quot_remainder,
    lemma_roots_close, lemma_squares_of_quotients, lemma_stretched_length, magnitude, quot,
    Fixed, EPSILON_RAW, ONE_RAW,
};
use crate::length::{
    cumulative_lengths, end_index, keeps_unextended, lemma_corrected_shape,
    lemma_corrected_total, lemma_cumulative_non_decreasing, lemma_retained_bounds,
    non_decreasing, relocated_end, retained,
};
use crate::path::{
    calculated_path, ends_coincide, lemma_calculated_path_distinct, lemma_calculated_path_start,
    subpath, PathControlPoint, PathType,
};
use crate::point::Pos2;
use crate::trig::{
    arc_sine, arc_tangent2, cosine, lemma_atan_unit_range, lemma_quarter_turns,
    lemma_series_length, lemma_reduced_range, lemma_sine_cosine_bounds,
    lemma_unit_at_zero, lemma_unit_bounds, lemma_unit_squares, reduced, sine,
    unit_cosine, unit_sine, HALF_PI_RAW, PI_RAW, QUARTER_PI_RAW,
};

verus! {

/// Whether both coordinates of the point are so small that the difference
/// of two such points does not saturate.
pub open spec fn in_range(p: Pos2) -> bool {
    &&& -0x3fff_ffff_ffff_ffff <= p.x.raw <= 0x3fff_ffff_ffff_ffff
    &&& -0x3fff_ffff_ffff_ffff <= p.y.raw <= 0x3fff_ffff_ffff_ffff
}

/// The table of a built curve never decreases and starts at zero. It has
/// one entry for each vertex, and one more exactly when the last two
/// control points coincide and the polyline is shorter than the declared
/// length by more than the tolerance.
pub proof fn law_table_shape(points: Seq<PathControlPoint>, expected_len: Fixed)
    ensures
        built(points, expected_len).well_formed(),
        non_decreasing(built(points, expected_len).lengths),
        built(points, expected_len).lengths.len() == built(points, expected_len).path.len()
            + if keeps_unextended(ends_coincide(points), calculated_path(points), expected_len) {
            1int
        } else {
            0int
        },
        built(points, expected_len).lengths.len() > 0 ==> built(points, expected_len).lengths[0]
            == Fixed::zero(),
        points.len() == 0 ==> built(points, expected_len).path.len() == 0 && built(
            points,
            expected_len,
        ).lengths.len() == 0,
{
    lemma_corrected_shape(ends_coincide(points), calculated_path(points), expected_len);
    if points.len() == 0 {
        assert(calculated_path(points).len() == 0);
    }
}

/// A built curve of two or more vertices ends within the tolerance of a
/// declared length that is not negative, unless its last two control points
/// coincide and the polyline is shorter than the declared length.
pub proof fn law_total_length(points: Seq<PathControlPoint>, expected_len: Fixed)
    requires
        expected_len.raw >= 0,
        calculated_path(points).len() >= 2,
        !keeps_unextended(ends_coincide(points), calculated_path(points), expected_len),
    ensures
        expected_len.near(total(built(points, expected_len).lengths)),
        -EPSILON_RAW <= total(built(points, expected_len).lengths).raw - expected_len.raw
            <= EPSILON_RAW,
{
    lemma_corrected_total(ends_coincide(points), calculated_path(points), expected_len);
    lemma_corrected_shape(ends_coincide(points), calculated_path(points), expected_len);
}

/// A curve starts at its first control point, whatever the kinds of its
/// segments and its declared length, and the point at distance zero is that
/// control point.
pub proof fn law_curve_starts_at_the_first_control_point(
    points: Seq<PathControlPoint>,
    expected_len: Fixed,
)
    requires
        points.len() > 0,
    ensures
        built(points, expected_len).path.len() > 0,
        built(points, expected_len).path[0] == points[0].pos,
        point_at(
            built(points, expected_len).path,
            built(points, expected_len).lengths,
            Fixed::zero(),
        ) == points[0].pos,
{
    lemma_calculated_path_start(points);
    lemma_corrected_shape(ends_coincide(points), calculated_path(points), expected_len);
    law_start_point(points, expected_len);
}

/// The curve of a Bezier control polygon starts at the first point of the
/// polygon; a polygon of one point gives that point with the table of one
/// zero.
pub proof fn law_bezier_segment_start(points: Seq<Pos2>, expected_len: Fixed)
    requires
        points.len() > 0,
    ensures
        bezier_curve(points, expected_len).path.len() > 0,
        bezier_curve(points, expected_len).path[0] == points[0],
        points.len() == 1 ==> bezier_curve(points, expected_len).path == points && bezier_curve(
            points,
            expected_len,
        ).lengths == seq![Fixed::zero()],
{
    if points.len() > 1 {
        lemma_runs_from_start(points, 0, 1);
    } else {
        assert(points.take(1) == points);
        assert(!ends_repeat(points));
    }
    lemma_corrected_shape(ends_repeat(points), bezier_polyline(points), expected_len);
}

/// The point at distance zero of a built curve is its first vertex.
pub proof fn law_start_point(points: Seq<PathControlPoint>, expected_len: Fixed)
    requires
        built(points, expected_len).path.len() > 0,
    ensures
        point_at(
            built(points, expected_len).path,
            built(points, expected_len).lengths,
            Fixed::zero(),
        ) == built(points, expected_len).path[0],
{
    law_table_shape(points, expected_len);
    let lengths = built(points, expected_len).lengths;
    assert forall|j: int| 0 <= j < lengths.len() implies (#[trigger] lengths[j]).raw >= 0 by {
        assert(lengths[0].raw <= lengths[j].raw);
    }
    lemma_index_of_distance(lengths, Fixed::zero(), 0);
}

/// The point at the cumulative length of a vertex is that vertex, if the
/// span before the vertex is longer than the tolerance and its two vertices
/// are in range.
pub proof fn law_point_at_vertex(curve: CurveView, j: int)
    requires
        curve.well_formed(),
        0 <= j < curve.path.len(),
        j > 0 ==> curve.lengths[j].raw - curve.lengths[j - 1].raw > EPSILON_RAW,
        j > 0 ==> in_range(curve.path[j - 1]) && in_range(curve.path[j]),
    ensures
        point_at(curve.path, curve.lengths, curve.lengths[j]) == curve.path[j],
{
    let path = curve.path;
    let lengths = curve.lengths;
    let d = lengths[j];
    assert forall|k: int| 0 <= k < j implies (#[trigger] lengths[k]).raw < d.raw by {
        assert(lengths[k].raw <= lengths[j - 1].raw);
    }
    assert forall|k: int| j <= k < lengths.len() implies (#[trigger] lengths[k]).raw >= d.raw by {
        assert(lengths[j].raw <= lengths[k].raw);
    }
    lemma_index_of_distance(lengths, d, j);
    if j > 0 {
        let p0 = path[j - 1];
        let p1 = path[j];
        let d0 = lengths[j - 1];
        assert(!d0.near(d));
        let span = d.sub(d0);
        assert(span.raw != 0);
        lemma_mul_div_self(p1.sub(p0).x, span);
        lemma_mul_div_self(p1.sub(p0).y, span);
        assert(p1.sub(p0).scale_ratio(span, span) == p1.sub(p0));
        assert(p0.add(p1.sub(p0)) == p1);
    }
}

/// The point at the total length of a curve is its last vertex, if the last
/// span of the curve is longer than the tolerance and its two vertices are
/// in range.
pub proof fn law_end_point(curve: CurveView)
    requires
        curve.well_formed(),
        curve.path.len() > 0,
        curve.path.len() >= 2 ==> curve.lengths[curve.path.len() - 1].raw
            - curve.lengths[curve.path.len() - 2].raw > EPSILON_RAW,
        curve.path.len() >= 2 ==> in_range(curve.path[curve.path.len() - 2]) && in_range(
            curve.path.last(),
        ),
    ensures
        point_at(curve.path, curve.lengths, total(curve.lengths)) == curve.path.last(),
{
    let lengths = curve.lengths;
    let n = curve.path.len() as int;
    let d = total(lengths);
    if lengths[n - 1].raw >= d.raw {
        assert(lengths[n - 1].raw <= lengths.last().raw);
        assert(lengths[n - 1] == d);
        law_point_at_vertex(curve, n - 1);
    } else {
        // The table has one entry more, and it is the largest.
        assert forall|j: int| 0 <= j < n implies (#[trigger] lengths[j]).raw < d.raw by {
            assert(lengths[j].raw <= lengths[n - 1].raw);
        }
        lemma_index_of_distance(lengths, d, n);
    }
}

/// The point at a distance lies on the curve: it is the first vertex, the
/// last vertex, or a point whose coordinates lie between those of the two
/// vertices that bracket the distance, if the vertices are in range.
pub proof fn law_point_within_span(curve: CurveView, d: Fixed)
    requires
        curve.well_formed(),
        curve.path.len() > 0,
        forall|j: int| 0 <= j < curve.path.len() ==> in_range(#[trigger] curve.path[j]),
    ensures
        ({
            let i = index_of_distance(curve.lengths, d) as int;
            let point = point_at(curve.path, curve.lengths, d);
            &&& i == 0 ==> point == curve.path[0]
            &&& i >= curve.path.len() ==> point == curve.path.last()
            &&& 0 < i < curve.path.len() ==> {
                &&& curve.lengths[i - 1].raw < d.raw <= curve.lengths[i].raw
                &&& point.between(curve.path[i - 1], curve.path[i])
            }
        }),
{
    let path = curve.path;
    let lengths = curve.lengths;
    let i = index_of_distance(lengths, d) as int;
    lemma_index_brackets(lengths, d);
    if 0 < i < path.len() {
        let p0 = path[i - 1];
        let p1 = path[i];
        let d0 = lengths[i - 1];
        let d1 = lengths[i];
        assert(in_range(p0) && in_range(p1));
        if !d0.near(d1) {
            let along = d.sub(d0);
            let span = d1.sub(d0);
            assert(d0.raw <= d1.raw);
            assert(0 <= along.raw <= span.raw);
            assert(span.raw > 0);
            let delta = p1.sub(p0);
            lemma_mul_div_within(delta.x, along, span);
            lemma_mul_div_within(delta.y, along, span);
        }
    }
}

/// For a share between zero and one, the point at that share of a curve is
/// the point at the distance of the share times the total length.
pub proof fn law_position_at(curve: CurveView, progress: Fixed)
    requires
        0 <= progress.raw <= Fixed::one().raw,
    ensures
        point_at(curve.path, curve.lengths, distance_of_progress(curve.lengths, progress))
            == point_at(curve.path, curve.lengths, progress.mul(total(curve.lengths))),
{
}

/// Three points whose cross product is zero give no arc: as a perfect
/// curve they are read as a Bezier curve.
pub proof fn law_collinear_fallback(a: Pos2, b: Pos2, c: Pos2)
    requires
        cross(a, b, c) == 0,
    ensures
        arc_properties(a, b, c) is None,
        circular_arc(a, b, c) == approximated(seq![a, b, c]),
        subpath(seq![a, b, c], PathType::PerfectCurve) == approximated(seq![a, b, c]),
{
}

/// No vertex of the polyline of a list of control points repeats the vertex
/// before it, and in a built curve only the last vertex may do so.
pub proof fn law_no_repeated_vertex(points: Seq<PathControlPoint>, expected_len: Fixed)
    ensures
        forall|i: int|
            0 <= i < calculated_path(points).len() - 1 ==> #[trigger] calculated_path(points)[i]
                != calculated_path(points)[i + 1],
        forall|i: int|
            0 <= i < built(points, expected_len).path.len() - 2 ==> #[trigger] built(
                points,
                expected_len,
            ).path[i] != built(points, expected_len).path[i + 1],
{
    lemma_calculated_path_distinct(points);
    lemma_corrected_shape(ends_coincide(points), calculated_path(points), expected_len);
    let path = calculated_path(points);
    let fixed = built(points, expected_len).path;
    assert forall|i: int| 0 <= i < fixed.len() - 2 implies #[trigger] fixed[i] != fixed[i
        + 1] by {
        let kept = fixed.len() - 1;
        assert(fixed.take(kept)[i] == path.take(kept)[i]);
        assert(fixed.take(kept)[i + 1] == path.take(kept)[i + 1]);
        assert(path[i] != path[i + 1]);
    }
}

/// The point at a distance depends on the curve and the distance alone.
pub proof fn law_same_query_same_point(curve: CurveView, first: Fixed, second: Fixed)
    requires
        first == second,
    ensures
        point_at(curve.path, curve.lengths, first) == point_at(
            curve.path,
            curve.lengths,
            second,
        ),
{
}

/// A declared length that is not negative and is less than the length of
/// the polyline by more than the tolerance shortens the curve: vertices are
/// only dropped, those before the last stay where they were, the last
/// vertex lies on the ray of the first span that reaches beyond the
/// declared length, and the table ends in the declared length.
pub proof fn law_truncation(points: Seq<PathControlPoint>, expected_len: Fixed)
    requires
        calculated_path(points).len() > 0,
        expected_len.raw >= 0,
        expected_len.raw < cumulative_lengths(calculated_path(points)).last().raw,
        !expected_len.near(cumulative_lengths(calculated_path(points)).last()),
    ensures
        ({
            let path = calculated_path(points);
            let curve = built(points, expected_len);
            let end = end_index(path, expected_len) as int;
            &&& 1 <= end < path.len()
            &&& curve.path.len() == end + 1
            &&& curve.path.len() <= path.len()
            &&& curve.lengths.len() == curve.path.len()
            &&& curve.path.take(end) == path.take(end)
            &&& curve.path.last() == relocated_end(path, end, expected_len)
            &&& curve.lengths.last() == expected_len
            &&& cumulative_lengths(path)[end - 1].raw <= expected_len.raw
            &&& cumulative_lengths(path)[end].raw > expected_len.raw
        }),
{
    let path = calculated_path(points);
    let table = cumulative_lengths(path);
    lemma_cumulative_non_decreasing(path);
    lemma_retained_bounds(table.drop_last(), expected_len);
    let end = end_index(path, expected_len) as int;
    assert(end == retained(table.drop_last(), expected_len));
    if end == 0 {
        assert(table.drop_last()[0].raw > expected_len.raw);
    }
    assert(table.drop_last()[end - 1] == table[end - 1]);
    if end < table.len() - 1 {
        assert(table.drop_last()[end] == table[end]);
    }
    let curve = built(points, expected_len);
    assert(curve.path.take(end) == path.take(end));
}

/// The approximation of a Bezier curve starts at the first and ends at the
/// last point of its control polygon.
pub proof fn law_bezier_ends(points: Seq<Pos2>)
    requires
        points.len() > 0,
    ensures
        approximated(points).len() >= 2,
        approximated(points)[0] == points[0],
        approximated(points).last() == points.last(),
{
    lemma_flattened_start(points, MAX_DEPTH as nat);
}

/// The approximation of a Bezier curve stays in every box that holds its
/// control polygon.
pub proof fn law_bezier_within_box(points: Seq<Pos2>, lo: Pos2, hi: Pos2)
    requires
        all_within(points, lo, hi),
    ensures
        all_within(approximated(points), lo, hi),
{
    if points.len() > 0 {
        lemma_flattened_within(points, MAX_DEPTH as nat, lo, hi);
        let inner = flattened(points, MAX_DEPTH as nat);
        let whole = approximated(points);
        assert forall|i: int| 0 <= i < whole.len() implies (#[trigger] whole[i]).within(lo, hi) by {
            if i < inner.len() {
                assert(inner[i].within(lo, hi));
            } else {
                assert(points[points.len() - 1].within(lo, hi));
            }
        }
    }
}

/// The spline through moderate points is at `v2` at parameter zero and at
/// `v3` at parameter one: the polyline of a spline passes through its
/// control points.
pub proof fn law_spline_through_control_points(v1: Pos2, v2: Pos2, v3: Pos2, v4: Pos2)
    requires
        moderate(v1.x) && moderate(v1.y),
        moderate(v2.x) && moderate(v2.y),
        moderate(v3.x) && moderate(v3.y),
        moderate(v4.x) && moderate(v4.y),
    ensures
        spline_point(v1, v2, v3, v4, parameter(0)) == v2,
        spline_point(v1, v2, v3, v4, parameter(50)) == v3,
        span_samples(v1, v2, v3, v4)[0] == v2,
        span_samples(v1, v2, v3, v4)[99] == v3,
{
    lemma_coordinate_ends(v1.x, v2.x, v3.x, v4.x);
    lemma_coordinate_ends(v1.y, v2.y, v3.y, v4.y);
}

/// The point `p` is as far from the centre `a + o` as `a` is, up to five
/// raw units, where the numerators of the centre weighted with `p - a` sum
/// to the cross product times the squared length of `p - a`.
proof fn lemma_corner_at_radius(a: Pos2, p: Pos2, o: Pos2, nx: int, ny: int, s: int)
    requires
        in_range(a),
        in_range(p),
        in_range(a.add(o)),
        s != 0,
        o.x.raw == quot(nx, 2 * s),
        o.y.raw == quot(ny, 2 * s),
        nx * p.sub(a).x.raw + ny * p.sub(a).y.raw == s * p.sub(a).spec_norm_sq(),
    ensures
        -5 <= a.add(o).distance(p).raw - o.length().raw <= 5,
{
    let centre = a.add(o);
    let x = p.sub(a).x.raw as int;
    let y = p.sub(a).y.raw as int;
    let ox = o.x.raw as int;
    let oy = o.y.raw as int;
    let d = 2 * s;
    assert(centre.x.raw == a.x.raw + ox && centre.y.raw == a.y.raw + oy);
    assert(x == p.x.raw - a.x.raw && y == p.y.raw - a.y.raw);
    let to_p = p.sub(centre);
    assert(to_p.x.raw == x - ox && to_p.y.raw == y - oy);
    lemma_quot_remainder(nx, d);
    lemma_quot_remainder(ny, d);
    assert(p.sub(a).spec_norm_sq() == x * x + y * y) by (nonlinear_arith)
        requires
            p.sub(a).spec_norm_sq() == (x * x + y * y) as nat,
    ;
    assert(2 * (nx * x + ny * y) == d * (x * x + y * y)) by (nonlinear_arith)
        requires
            nx * x + ny * y == s * (x * x + y * y),
            d == 2 * s,
    ;
    lemma_nearly_equidistant(nx, ny, ox, oy, x, y, d);
    let far = (x - ox) * (x - ox) + (y - oy) * (y - oy);
    let near = ox * ox + oy * oy;
    assert(to_p.spec_norm_sq() == far);
    assert(o.spec_norm_sq() == near);
    if far >= near {
        lemma_roots_close(far as nat, near as nat);
    } else {
        assert((near - far) * (near - far) == (far - near) * (far - near)) by (nonlinear_arith);
        lemma_roots_close(near as nat, far as nat);
    }
}

/// The corners of a triangle lie at the radius from the centre of the arc
/// through them, up to five raw units, where the corners and the centre
/// are in range; the first corner lies at the radius itself.
pub proof fn law_arc_through_corners(a: Pos2, b: Pos2, c: Pos2)
    requires
        !is_degenerate(a, b, c),
        in_range(a),
        in_range(b),
        in_range(c),
        in_range(circumcentre(a, b, c)),
    ensures
        arc_properties(a, b, c) matches Some(pr) && {
            &&& pr.centre == circumcentre(a, b, c)
            &&& pr.radius.raw > 0
            &&& pr.centre.distance(a) == pr.radius
            &&& -5 <= pr.centre.distance(b).raw - pr.radius.raw <= 5
            &&& -5 <= pr.centre.distance(c).raw - pr.radius.raw <= 5
        },
{
    lemma_arc_properties_well_formed(a, b, c);
    let o = centre_offset(a, b, c);
    let centre = circumcentre(a, b, c);
    let u = b.sub(a);
    let v = c.sub(a);
    let s = cross(a, b, c);
    let nx = centre_numerator_x(u, v);
    let ny = centre_numerator_y(u, v);
    assert(s != 0) by {
        if s == 0 {
            assert(quot(0, 0x80_0000) == 0);
        }
    }
    // Neither the offset nor the centre is clamped.
    assert(centre.x.raw == a.x.raw + o.x.raw && centre.y.raw == a.y.raw + o.y.raw);
    assert(o.x.raw == quot(nx, 2 * s) && o.y.raw == quot(ny, 2 * s));
    let ux = u.x.raw as int;
    let uy = u.y.raw as int;
    let vx = v.x.raw as int;
    let vy = v.y.raw as int;
    let uu = ux * ux + uy * uy;
    let vv = vx * vx + vy * vy;
    assert(uu >= 0 && vv >= 0) by (nonlinear_arith)
        requires
            uu == ux * ux + uy * uy,
            vv == vx * vx + vy * vy,
    ;
    assert(u.spec_norm_sq() == uu && v.spec_norm_sq() == vv);
    lemma_centre_identity(ux, uy, vx, vy);
    lemma_corner_at_radius(a, b, o, nx, ny, s);
    lemma_corner_at_radius(a, c, o, nx, ny, s);
    // The first corner.
    let back = a.sub(centre);
    assert(back.x.raw == -o.x.raw && back.y.raw == -o.y.raw);
    assert(back.spec_norm_sq() == o.spec_norm_sq()) by (nonlinear_arith)
        requires
            back.x.raw == -o.x.raw,
            back.y.raw == -o.y.raw,
            back.spec_norm_sq() == (back.x.raw * back.x.raw + back.y.raw * back.y.raw) as nat,
            o.spec_norm_sq() == (o.x.raw * o.x.raw + o.y.raw * o.y.raw) as nat,
    ;
}

/// Every point of the circle lies in the square round the centre whose
/// sides are twice the radius long.
pub proof fn law_arc_within_square(pr: CircularArcProperties, theta: Fixed)
    requires
        pr.radius.raw >= 0,
    ensures
        point_at_angle(pr, theta).within(
            Pos2 { x: pr.centre.x.sub(pr.radius), y: pr.centre.y.sub(pr.radius) },
            Pos2 { x: pr.centre.x.add(pr.radius), y: pr.centre.y.add(pr.radius) },
        ),
{
    lemma_sine_cosine_bounds(theta);
    lemma_mul_signed_within(pr.radius, cosine(theta));
    lemma_mul_signed_within(pr.radius, sine(theta));
    lemma_mul_commutes(pr.radius, cosine(theta));
    lemma_mul_commutes(pr.radius, sine(theta));
}

/// The samples of an arc start at its start angle and end at the start
/// angle plus the sweep in the sense of the arc.
pub proof fn law_arc_ends(pr: CircularArcProperties)
    ensures
        arc_path(pr).len() >= 2,
        arc_path(pr)[0] == point_at_angle(pr, pr.theta_start),
        arc_path(pr).last() == point_at_angle(
            pr,
            pr.theta_start.add(pr.direction.mul(pr.theta_range)),
        ),
{
    let n = arc_point_count(pr);
    assert(n >= 2);
    let steps = Fixed::one().mul_int((n - 1) as i64);
    assert(Fixed::one().mul_int(0) == Fixed::zero());
    assert(steps.raw > 0);
    lemma_div_self(steps);
    let directed = pr.direction.mul(pr.theta_range);
    assert(Fixed::zero().div(steps) == Fixed::zero()) by {
        assert(0 * 0x100_0000 == 0);
    }
    assert(Fixed::zero().mul(directed) == Fixed::zero()) by {
        lemma_mul_zero(directed);
        lemma_mul_commutes(directed, Fixed::zero());
    }
    assert(Fixed::one().mul(directed) == directed) by {
        lemma_mul_one(directed);
        lemma_mul_commutes(directed, Fixed::one());
    }
    assert(arc_path(pr)[0] == arc_sample(pr, n, 0));
    assert(arc_path(pr).last() == arc_sample(pr, n, (n - 1) as i64));
}

/// The squares of the sine and the cosine of every angle sum to one up to
/// rounding: the sum of the squares of their raw values lies between
/// `ONE^2 - 4 ONE` and `ONE^2 + 8 ONE + 2`, which is one up to half a
/// millionth.
pub proof fn law_sine_cosine_on_the_unit_circle(angle: Fixed)
    ensures
        ONE_RAW * ONE_RAW - 4 * ONE_RAW <= sine(angle).raw * sine(angle).raw + cosine(angle).raw
            * cosine(angle).raw <= ONE_RAW * ONE_RAW + 8 * ONE_RAW + 2,
{
    let r = reduced(angle);
    lemma_reduced_range(angle);
    lemma_unit_squares(r);
    lemma_unit_bounds(r);
    let x = unit_sine(r).raw as int;
    let y = unit_cosine(r).raw as int;
    assert((-x) * (-x) == x * x && (-y) * (-y) == y * y) by (nonlinear_arith);
    assert(unit_sine(r).neg().raw == -x && unit_cosine(r).neg().raw == -y);
}

/// Every point of the circle of an arc lies at the radius from the centre,
/// up to a few raw units for each whole unit of the radius, where the
/// centre is in range and the radius is at most `2^61` raw units. This
/// holds of the samples of the arc and of the points at its arc lengths.
pub proof fn law_arc_point_at_radius(pr: CircularArcProperties, theta: Fixed)
    requires
        0 <= pr.radius.raw <= 0x1fff_ffff_ffff_ffff,
        in_range(pr.centre),
    ensures
        pr.radius.raw - (3 * (pr.radius.raw / ONE_RAW) + 8) <= pr.centre.distance(
            point_at_angle(pr, theta),
        ).raw <= pr.radius.raw + 5 * (pr.radius.raw / ONE_RAW) + 7,
{
    let x = cosine(theta).raw as int;
    let y = sine(theta).raw as int;
    let r = pr.radius.raw as int;
    let t = x * x + y * y;
    law_sine_cosine_on_the_unit_circle(theta);
    lemma_sine_cosine_bounds(theta);
    lemma_mul_signed_within(pr.radius, cosine(theta));
    lemma_mul_signed_within(pr.radius, sine(theta));
    lemma_mul_commutes(pr.radius, cosine(theta));
    lemma_mul_commutes(pr.radius, sine(theta));
    let offset = Pos2 { x: cosine(theta), y: sine(theta) }.scale(pr.radius);
    let a = x * r;
    let b = y * r;
    assert(offset.x.raw == quot(a, 0x100_0000) && offset.y.raw == quot(b, 0x100_0000));
    lemma_squares_of_quotients(a, b, 0x100_0000);
    let w = offset.spec_norm_sq();
    assert(w == offset.x.raw * offset.x.raw + offset.y.raw * offset.y.raw) by (nonlinear_arith)
        requires
            w == (offset.x.raw * offset.x.raw + offset.y.raw * offset.y.raw) as nat,
    ;
    assert(a * a + b * b == (r * r) * t) by (nonlinear_arith)
        requires
            a == x * r,
            b == y * r,
            t == x * x + y * y,
    ;
    assert(magnitude(a) <= 0x100_0000 * r && magnitude(b) <= 0x100_0000 * r) by (nonlinear_arith)
        requires
            a == x * r,
            b == y * r,
            r >= 0,
            -0x100_0000 <= x <= 0x100_0000,
            -0x100_0000 <= y <= 0x100_0000,
    ;
    assert(0x100_0000int * 0x100_0000 == 0x1_0000_0000_0000);
    lemma_stretched_length(t, r, w);
    // Neither the point nor its distance is clamped.
    let p = point_at_angle(pr, theta);
    assert(p == pr.centre.add(offset));
    assert(p.sub(pr.centre) == offset);
}

/// Every sample of an arc, and the point at every arc length, lies at the
/// radius from the centre, up to a few raw units for each whole unit of
/// the radius, where the centre is in range and the radius is at most
/// `2^61` raw units.
pub proof fn law_arc_samples_at_radius(pr: CircularArcProperties)
    requires
        0 <= pr.radius.raw <= 0x1fff_ffff_ffff_ffff,
        in_range(pr.centre),
    ensures
        forall|i: int|
            0 <= i < arc_path(pr).len() ==> pr.radius.raw - (3 * (pr.radius.raw / ONE_RAW) + 8)
                <= pr.centre.distance(#[trigger] arc_path(pr)[i]).raw <= pr.radius.raw + 5 * (
            pr.radius.raw / ONE_RAW) + 7,
        forall|d: Fixed|
            pr.radius.raw - (3 * (pr.radius.raw / ONE_RAW) + 8) <= pr.centre.distance(
                #[trigger] arc_point(pr, d),
            ).raw <= pr.radius.raw + 5 * (pr.radius.raw / ONE_RAW) + 7,
{
    assert forall|i: int| 0 <= i < arc_path(pr).len() implies pr.radius.raw - (3 * (
    pr.radius.raw / ONE_RAW) + 8) <= pr.centre.distance(#[trigger] arc_path(pr)[i]).raw
        <= pr.radius.raw + 5 * (pr.radius.raw / ONE_RAW) + 7 by {
        let count = arc_point_count(pr);
        let fract = Fixed::one().mul_int(i as i64).div(Fixed::one().mul_int((count - 1) as i64));
        let theta = pr.theta_start.add(fract.mul(pr.direction.mul(pr.theta_range)));
        assert(arc_path(pr)[i] == point_at_angle(pr, theta));
        law_arc_point_at_radius(pr, theta);
    }
    assert forall|d: Fixed|
        pr.radius.raw - (3 * (pr.radius.raw / ONE_RAW) + 8) <= pr.centre.distance(
            #[trigger] arc_point(pr, d),
        ).raw <= pr.radius.raw + 5 * (pr.radius.raw / ONE_RAW) + 7 by {
        law_arc_point_at_radius(pr, pr.theta_start.add(pr.direction.mul(d.div(pr.radius))));
    }
}

/// Sine and cosine at the right angles: the sine of zero and of half a
/// turn is zero, the sine of a quarter turn is one and of a quarter turn
/// back minus one, and the cosine is one at zero, zero at the quarter turns
/// and minus one at half a turn.
pub proof fn law_sine_cosine_at_right_angles()
    ensures
        sine(Fixed::zero()) == Fixed::zero(),
        cosine(Fixed::zero()) == Fixed::one(),
        sine(Fixed { raw: HALF_PI_RAW }) == Fixed::one(),
        cosine(Fixed { raw: HALF_PI_RAW }) == Fixed::zero(),
        sine(Fixed { raw: PI_RAW }) == Fixed::zero(),
        cosine(Fixed { raw: PI_RAW }) == Fixed::one().neg(),
        sine(Fixed { raw: HALF_PI_RAW }.neg()) == Fixed::one().neg(),
        cosine(Fixed { raw: HALF_PI_RAW }.neg()) == Fixed::zero(),
{
    lemma_unit_at_zero();
    lemma_quarter_turns(0);
    lemma_quarter_turns(1);
    lemma_quarter_turns(2);
    lemma_quarter_turns(-1);
    assert(Fixed { raw: (0 * HALF_PI_RAW) as i64 } == Fixed::zero());
    assert(Fixed { raw: (1 * HALF_PI_RAW) as i64 } == Fixed { raw: HALF_PI_RAW });
    assert(Fixed { raw: (2 * HALF_PI_RAW) as i64 } == Fixed { raw: PI_RAW });
    assert(Fixed { raw: (-1 * HALF_PI_RAW) as i64 } == Fixed { raw: HALF_PI_RAW }.neg());
}

/// The angle of a vector lies in the octant of the vector: it has the sign
/// of the second coordinate; it is within an eighth of a turn of zero where
/// the first coordinate is positive and not smaller in magnitude than the
/// second, within an eighth of a turn of a quarter turn, forth or back,
/// where the second coordinate is the greater in magnitude, and within an
/// eighth of a turn of half a turn where the first coordinate is negative
/// and not smaller in magnitude than the second.
pub proof fn law_angle_lies_in_its_octant(y: Fixed, x: Fixed)
    ensures
        y.raw >= 0 ==> arc_tangent2(y, x).raw >= 0,
        y.raw < 0 ==> arc_tangent2(y, x).raw <= 0,
        x.raw > 0 && y.abs().raw <= x.abs().raw ==> -QUARTER_PI_RAW <= arc_tangent2(y, x).raw
            <= QUARTER_PI_RAW,
        y.abs().raw > x.abs().raw ==> HALF_PI_RAW - QUARTER_PI_RAW <= magnitude(
            arc_tangent2(y, x).raw as int,
        ) <= HALF_PI_RAW + QUARTER_PI_RAW,
        x.raw < 0 && y.abs().raw <= x.abs().raw ==> PI_RAW - QUARTER_PI_RAW <= magnitude(
            arc_tangent2(y, x).raw as int,
        ) <= PI_RAW,
{
    let ax = x.abs();
    let ay = y.abs();
    assert(ax.raw >= 0 && ay.raw >= 0);
    if ax.raw == 0 && ay.raw == 0 {
    } else if ay.raw <= ax.raw {
        lemma_div_within(ay, ax);
        lemma_atan_unit_range(ay.div(ax));
    } else {
        lemma_div_within(ax, ay);
        lemma_atan_unit_range(ax.div(ay));
    }
}

/// For an angle within an eighth of a turn of zero, the cosine is at least
/// a quarter, and the sine has the sign of the angle.
pub proof fn law_sine_cosine_of_small_angles(angle: Fixed)
    requires
        -QUARTER_PI_RAW <= angle.raw <= QUARTER_PI_RAW - 2,
    ensures
        cosine(angle).raw >= ONE_RAW / 4,
        angle.raw >= 0 ==> sine(angle).raw >= 0,
        angle.raw <= 0 ==> sine(angle).raw <= 0,
{
    let n = angle.raw + crate::trig::TURN_OFFSET;
    let shifted = angle.raw + QUARTER_PI_RAW;
    assert(n == 0x80_0000_0000 * 26353589 + shifted) by (nonlinear_arith)
        requires
            n == angle.raw + 14488038769578020827,
            shifted == angle.raw + 13176795,
    ;
    vstd::arithmetic::div_mod::lemma_fundamental_div_mod_converse(
        n,
        26353589,
        0x80_0000_0000,
        shifted as int,
    );
    assert(reduced(angle) == angle);
    assert(crate::trig::quadrant(angle) == 0);
    lemma_series_length(angle);
    crate::trig::lemma_series_bounds(angle);
    let s = crate::trig::sin_series(angle);
    let c = crate::trig::cos_series(angle);
    let len = crate::trig::series_length(angle);
    // The cosine.
    let p = c.raw * ONE_RAW;
    assert(p >= 0x80_0000 * 0x100_0000 && p / (len.raw as int) >= 0x40_0000) by (nonlinear_arith)
        requires
            p == c.raw * 0x100_0000,
            c.raw >= 0x80_0000,
            0 < len.raw <= 0x200_0000,
    ;
    assert(magnitude(p) == p);
    assert(magnitude(len.raw as int) == len.raw);
    // The sine.
    let t = s.raw * ONE_RAW;
    assert((s.raw >= 0 ==> t >= 0) && (s.raw <= 0 ==> t <= 0));
    assert(magnitude(t) / (len.raw as int) >= 0) by (nonlinear_arith)
        requires
            magnitude(t) >= 0,
            len.raw > 0,
    ;
}

/// The arc sine of zero is zero, and the arc sine of one is a quarter
/// turn.
pub proof fn law_arc_sine_at_the_ends()
    ensures
        arc_sine(Fixed::zero()) == Fixed::zero(),
        arc_sine(Fixed::one()) == (Fixed { raw: HALF_PI_RAW }),
{
    let zero = Fixed::zero();
    let one = Fixed::one();
    lemma_mul_one(one);
    lemma_mul_zero(zero);
    assert(one.sub(zero).sqrt() == one) by {
        assert(0x100_0000nat * 0x100_0000nat == 0x1_0000_0000_0000nat) by (nonlinear_arith);
        assert(0x1_0000_0000_0000nat < (0x100_0000nat + 1) * (0x100_0000nat + 1))
            by (nonlinear_arith);
        crate::fixed::lemma_isqrt_unique(0x1_0000_0000_0000nat, 0x100_0000nat);
        assert(one.sub(zero) == one);
        assert(one.raw * ONE_RAW == 0x1_0000_0000_0000);
    }
    assert(one.sub(one) == zero);
    assert(zero.sqrt() == zero);
    law_angles_of_the_axes(one);
}

/// The angles of the axes and of the first diagonal: a vector along the
/// positive first axis has the angle zero, along the positive second axis a
/// quarter turn, along the negative first axis half a turn, along the
/// negative second axis a quarter turn back, and a vector with two equal
/// positive coordinates an eighth of a turn.
pub proof fn law_angles_of_the_axes(v: Fixed)
    requires
        v.raw > 0,
    ensures
        arc_tangent2(Fixed::zero(), v) == Fixed::zero(),
        arc_tangent2(v, Fixed::zero()) == (Fixed { raw: HALF_PI_RAW }),
        arc_tangent2(Fixed::zero(), v.neg()) == (Fixed { raw: PI_RAW }),
        arc_tangent2(v.neg(), Fixed::zero()) == (Fixed { raw: HALF_PI_RAW }.neg()),
        arc_tangent2(v, v) == (Fixed { raw: QUARTER_PI_RAW }),
{
    let zero = Fixed::zero();
    let one = Fixed::one();
    assert(forall|w: Fixed| #[trigger] zero.mul(w) == zero) by {
        assert forall|w: Fixed| #[trigger] zero.mul(w) == zero by {
            assert(0 * w.raw == 0);
        }
    }
    assert(crate::trig::atan_series(zero) == zero);
    assert(v.abs() == v);
    assert(v.neg().abs() == v);
    assert(zero.abs() == zero);
    assert(zero.div(v) == zero) by {
        assert(0 * 0x100_0000 == 0);
    }
    lemma_div_self(v);
    assert(one.sub(one) == zero);
    assert(zero.div(one.add(one)) == zero) by {
        assert(0 * 0x100_0000 == 0);
    }
}

} // verus!
