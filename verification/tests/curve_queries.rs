use slider_path::curve::{point_at_distance, search_lengths, Curve, Curve_, Points};
use slider_path::fixed::Fixed;
use slider_path::path::{PathControlPoint, PathType};
use slider_path::point::Pos2;

fn fx(v: f64) -> Fixed {
    Fixed::from_raw((v * 16777216.0).round() as i64)
}

fn pf(x: f64, y: f64) -> Pos2 {
    Pos2::new(fx(x), fx(y))
}

fn pt(x: i32, y: i32) -> Pos2 {
    Pos2::new(Fixed::from_int(x), Fixed::from_int(y))
}

fn cp(x: i32, y: i32, kind: Option<PathType>) -> PathControlPoint {
    PathControlPoint { pos: pt(x, y), kind }
}

fn to_f64(v: Fixed) -> f64 {
    v.raw as f64 / 16777216.0
}

fn ints(values: &[i32]) -> Vec<Fixed> {
    values.iter().map(|v| Fixed::from_int(*v)).collect()
}

fn corner() -> Curve {
    let points = vec![cp(0, 0, Some(PathType::Linear)), cp(10, 0, None), cp(10, 10, None)];
    Curve::new(&points, Fixed::from_int(20))
}

#[test]
fn linear_segment_midpoint() {
    let points = vec![cp(0, 0, Some(PathType::Linear)), cp(10, 0, None)];
    let curve = Curve::new(&points, Fixed::from_int(10));
    assert_eq!(curve.path(), &vec![pt(0, 0), pt(10, 0)]);
    assert_eq!(curve.lengths(), &vec![Fixed::from_int(0), Fixed::from_int(10)]);
    assert_eq!(curve.point_at_distance(Fixed::from_int(5)), pt(5, 0));
    assert_eq!(curve.dist(), Fixed::from_int(10));
}

#[test]
fn arc_samples_lie_on_the_circle() {
    let points = vec![cp(0, 0, Some(PathType::PerfectCurve)), cp(5, 5, None), cp(10, 0, None)];
    // The declared length is the length of the half circle; the polyline
    // of chords is a little shorter, so its last vertex is moved outward.
    let curve = Curve::new(&points, Fixed::from_raw(263535893));
    let n = curve.path().len();
    assert_eq!(n, 8);
    for p in curve.path().iter().take(n - 1) {
        let dx = to_f64(p.x) - 5.0;
        let dy = to_f64(p.y);
        let r = (dx * dx + dy * dy).sqrt();
        assert!((r - 5.0).abs() < 1e-5, "radius {}", r);
        assert!(dy >= 0.0);
    }
    let last = curve.path()[n - 1];
    assert!((to_f64(last.x) - 10.0).abs() < 0.2);
    assert!(to_f64(last.y).abs() < 0.2);
    assert_eq!(curve.dist(), Fixed::from_raw(263535893));
}

#[test]
fn collinear_perfect_curve_is_built_as_a_straight_segment() {
    let points = vec![cp(0, 0, Some(PathType::PerfectCurve)), cp(5, 0, None), cp(10, 0, None)];
    let curve = Curve::new(&points, Fixed::from_int(10));
    assert_eq!(curve.path(), &vec![pt(0, 0), pt(5, 0), pt(10, 0)]);
    assert_eq!(curve.lengths(), &ints(&[0, 5, 10]));
    assert_eq!(curve.point_at_distance(fx(7.5)), pf(7.5, 0.0));
}

#[test]
fn index_of_a_distance() {
    let curve = corner();
    assert_eq!(curve.lengths(), &ints(&[0, 10, 20]));
    assert_eq!(curve.idx_of_dist(Fixed::from_int(-1)), 0);
    assert_eq!(curve.idx_of_dist(Fixed::zero()), 0);
    assert_eq!(curve.idx_of_dist(Fixed::from_raw(1)), 1);
    assert_eq!(curve.idx_of_dist(Fixed::from_int(10)), 1);
    assert_eq!(curve.idx_of_dist(Fixed::from_raw((10 << 24) + 1)), 2);
    assert_eq!(curve.idx_of_dist(Fixed::from_int(20)), 2);
    assert_eq!(curve.idx_of_dist(Fixed::from_int(21)), 3);
}

#[test]
fn search_takes_the_first_of_equal_entries() {
    let table = ints(&[0, 5, 5, 5, 9]);
    assert_eq!(search_lengths(&table, Fixed::from_int(5)), 1);
    assert_eq!(search_lengths(&table, Fixed::from_int(6)), 4);
    assert_eq!(search_lengths(&table, Fixed::from_int(9)), 4);
    assert_eq!(search_lengths(&table, Fixed::from_int(10)), 5);
    assert_eq!(search_lengths(&Vec::new(), Fixed::from_int(10)), 0);
}

#[test]
fn interpolation_between_vertices() {
    let curve = corner();
    assert_eq!(curve.interpolate_vertices(0, Fixed::from_int(3)), pt(0, 0));
    assert_eq!(curve.interpolate_vertices(1, Fixed::from_int(3)), pt(3, 0));
    assert_eq!(curve.interpolate_vertices(2, Fixed::from_int(13)), pt(10, 3));
    assert_eq!(curve.interpolate_vertices(3, Fixed::from_int(13)), pt(10, 10));
    assert_eq!(curve.interpolate_vertices(99, Fixed::from_int(13)), pt(10, 10));
    assert_eq!(curve.interpolate_vertices(2, fx(12.5)), pf(10.0, 2.5));
}

#[test]
fn spans_within_the_tolerance_give_their_first_vertex() {
    let far = Pos2::new(Fixed::from_int(10), Fixed::from_raw(2));
    let path = vec![pt(0, 0), pt(10, 0), far];
    let lengths = vec![Fixed::zero(), Fixed::from_int(10), Fixed::from_raw((10 << 24) + 2)];
    let d = Fixed::from_raw((10 << 24) + 1);
    assert_eq!(Curve_::interpolate_vertices(&path, &lengths, 2, d), pt(10, 0));
    let lengths = vec![Fixed::zero(), Fixed::from_int(10), Fixed::from_raw((10 << 24) + 3)];
    let far = Pos2::new(Fixed::from_int(10), Fixed::from_raw(3));
    let path = vec![pt(0, 0), pt(10, 0), far];
    let d = Fixed::from_raw((10 << 24) + 3);
    assert_eq!(Curve_::interpolate_vertices(&path, &lengths, 2, d), far);
}

#[test]
fn points_at_the_ends() {
    let shapes: Vec<Vec<PathControlPoint>> = vec![
        vec![cp(0, 0, Some(PathType::Linear)), cp(10, 0, None), cp(10, 10, None)],
        vec![cp(0, 0, Some(PathType::Bezier)), cp(50, 100, None), cp(100, 0, None)],
        vec![cp(0, 0, Some(PathType::Catmull)), cp(50, 100, None), cp(100, 0, None)],
        vec![cp(0, 0, Some(PathType::PerfectCurve)), cp(50, 50, None), cp(100, 0, None)],
    ];
    for points in shapes.iter() {
        for expected in [1, 20, 150, 400] {
            let curve = Curve::new(points, Fixed::from_int(expected));
            let path = curve.path();
            assert_eq!(curve.point_at_distance(Fixed::zero()), path[0]);
            assert_eq!(curve.point_at_distance(curve.dist()), path[path.len() - 1]);
            assert_eq!(curve.point_at_distance(Fixed::from_int(-3)), path[0]);
            assert_eq!(curve.point_at_distance(Fixed::from_int(1000)), path[path.len() - 1]);
            assert_eq!(curve.position_at(Fixed::zero()), path[0]);
            assert_eq!(curve.position_at(Fixed::one()), path[path.len() - 1]);
        }
    }
}

#[test]
fn end_point_of_a_curve_with_a_short_last_span() {
    // The last span is one raw unit long, which is within the tolerance:
    // the query at the total length gives the vertex before the last.
    let points = vec![cp(0, 0, Some(PathType::Linear)), cp(10, 0, None), cp(10, 10, None)];
    let curve = Curve::new(&points, Fixed::from_raw((10 << 24) + 1));
    assert_eq!(curve.path().len(), 3);
    assert_eq!(curve.path()[2], Pos2::new(Fixed::from_int(10), Fixed::from_raw(1)));
    assert_eq!(curve.point_at_distance(curve.dist()), pt(10, 0));
}

#[test]
fn position_is_the_point_at_the_scaled_distance() {
    let points = vec![cp(0, 0, Some(PathType::Bezier)), cp(50, 100, None), cp(100, 0, None)];
    let curve = Curve::new(&points, Fixed::from_int(140));
    for step in 0..=20 {
        let progress = fx(step as f64 / 20.0);
        let d = progress.mul(curve.dist());
        assert_eq!(curve.progress_to_dist(progress), d);
        assert_eq!(curve.position_at(progress), curve.point_at_distance(d));
    }
    assert_eq!(corner().position_at(fx(0.25)), pt(5, 0));
    assert_eq!(corner().position_at(fx(0.75)), pt(10, 5));
}

#[test]
fn progress_is_limited_to_the_curve() {
    let curve = corner();
    assert_eq!(curve.progress_to_dist(Fixed::from_int(2)), Fixed::from_int(20));
    assert_eq!(curve.progress_to_dist(Fixed::from_int(-2)), Fixed::zero());
    assert_eq!(curve.position_at(Fixed::from_int(2)), pt(10, 10));
    assert_eq!(curve.position_at(Fixed::from_int(-2)), pt(0, 0));
}

#[test]
fn same_distance_gives_the_same_point() {
    let points = vec![cp(0, 0, Some(PathType::Catmull)), cp(50, 100, None), cp(100, 0, None)];
    let curve = Curve::new(&points, Fixed::from_int(200));
    for step in 0..50 {
        let d = fx(step as f64 * 4.1);
        let first = curve.point_at_distance(d);
        let second = curve.point_at_distance(d);
        assert_eq!(first, second);
    }
}

#[test]
fn queries_follow_the_curve_in_order() {
    let curve = corner();
    let mut last = -1.0;
    for step in 0..=40 {
        let p = curve.point_at_distance(fx(step as f64 * 0.5));
        let along = to_f64(p.x) + to_f64(p.y);
        assert!(along >= last);
        last = along;
    }
}

#[test]
fn empty_curve_gives_the_zero_point() {
    let curve = Curve::new(&Vec::new(), Fixed::from_int(10));
    assert!(curve.path().is_empty());
    assert!(curve.lengths().is_empty());
    assert_eq!(curve.dist(), Fixed::zero());
    assert_eq!(curve.point_at_distance(Fixed::from_int(5)), Pos2::zero());
    assert_eq!(curve.position_at(fx(0.5)), Pos2::zero());
    assert_eq!(curve.idx_of_dist(Fixed::from_int(5)), 0);
    assert_eq!(curve.interpolate_vertices(0, Fixed::from_int(5)), Pos2::zero());
}

#[test]
fn point_on_a_polyline_without_a_table() {
    let polyline = vec![pt(0, 0), pt(10, 0), pt(10, 10)];
    assert_eq!(point_at_distance(&polyline, Fixed::from_int(5)), pt(5, 0));
    assert_eq!(point_at_distance(&polyline, Fixed::from_int(15)), pt(10, 5));
    assert_eq!(point_at_distance(&polyline, Fixed::from_int(25)), pt(10, 10));
    assert_eq!(point_at_distance(&polyline, Fixed::from_int(-5)), pt(0, 0));
    assert_eq!(point_at_distance(&Vec::new(), Fixed::from_int(5)), Pos2::zero());
    assert_eq!(Points::Multi(polyline).point_at_distance(Fixed::from_int(15)), pt(10, 5));
    assert_eq!(Points::Single(pt(3, 4)).point_at_distance(Fixed::from_int(15)), pt(3, 4));
}

#[test]
fn linear_segment_curve() {
    let positions = vec![pt(0, 0), pt(10, 0), pt(10, 10)];
    let curve = Curve_::new(&positions, PathType::Linear, Fixed::from_int(5));
    assert!(matches!(curve, Curve_::Linear(_)));
    // The declared length plays no part for a linear segment.
    assert_eq!(curve.point_at_distance(Fixed::from_int(15)), pt(10, 5));
}

#[test]
fn catmull_segment_curve() {
    let single = vec![pt(3, 4)];
    let curve = Curve_::new(&single, PathType::Catmull, Fixed::from_int(5));
    assert!(matches!(curve, Curve_::Catmull(Points::Single(_))));
    assert_eq!(curve.point_at_distance(Fixed::from_int(2)), pt(3, 4));
    let positions = vec![pt(0, 0), pt(10, 0)];
    let curve = Curve_::catmull(&positions);
    match &curve {
        Curve_::Catmull(Points::Multi(samples)) => assert_eq!(samples.len(), 100),
        _ => panic!("a spline of two points holds its samples"),
    }
    assert_eq!(curve.point_at_distance(Fixed::zero()), pt(0, 0));
    assert_eq!(curve.point_at_distance(Fixed::from_int(10)), pt(10, 0));
    let p = curve.point_at_distance(Fixed::from_int(4));
    assert!((to_f64(p.x) - 4.0).abs() < 1e-4);
    assert_eq!(p.y, Fixed::zero());
}

#[test]
fn bezier_segment_curve_starts_at_its_first_point() {
    let positions = vec![pt(10, 10), pt(20, 10)];
    let curve = Curve_::new(&positions, PathType::Bezier, Fixed::from_int(10));
    match &curve {
        Curve_::Bezier(table) => {
            assert_eq!(table.path(), &vec![pt(10, 10), pt(20, 10)]);
            assert_eq!(table.lengths(), &ints(&[0, 10]));
        },
        _ => panic!("a Bezier segment holds a table"),
    }
    assert_eq!(curve.point_at_distance(Fixed::from_int(4)), pt(14, 10));
}

#[test]
fn bezier_segment_curve_agrees_with_the_curve_of_one_segment() {
    let positions = vec![pt(64, 192), pt(128, 64), pt(256, 320), pt(384, 192)];
    let mut points = Vec::new();
    for (i, p) in positions.iter().enumerate() {
        let kind = if i == 0 { Some(PathType::Bezier) } else { None };
        points.push(PathControlPoint { pos: *p, kind });
    }
    let whole = Curve::new(&points, Fixed::from_int(300));
    let segment = Curve_::new(&positions, PathType::Bezier, Fixed::from_int(300));
    for step in 0..=30 {
        let d = Fixed::from_int(10 * step);
        assert_eq!(segment.point_at_distance(d), whole.point_at_distance(d));
    }
}

#[test]
fn bezier_segment_curve_is_cut_at_repeated_points() {
    // Two straight runs that meet in the repeated point (10, 0).
    let positions = vec![pt(0, 0), pt(10, 0), pt(10, 0), pt(10, 10)];
    let curve = Curve_::bezier(&positions, Fixed::from_int(20));
    match &curve {
        Curve_::Bezier(table) => {
            assert_eq!(table.path(), &vec![pt(0, 0), pt(10, 0), pt(10, 10)]);
            assert_eq!(table.lengths(), &ints(&[0, 10, 20]));
        },
        _ => panic!("a Bezier segment holds a table"),
    }
    assert_eq!(curve.point_at_distance(Fixed::from_int(15)), pt(10, 5));
    // Without the repeated point the corner is rounded.
    let smooth = vec![pt(0, 0), pt(10, 0), pt(10, 10)];
    let curve = Curve_::bezier(&smooth, Fixed::from_int(20));
    match &curve {
        Curve_::Bezier(table) => assert!(!table.path().contains(&pt(10, 0))),
        _ => panic!("a Bezier segment holds a table"),
    }
}

#[test]
fn bezier_segment_curve_of_few_points() {
    match Curve_::bezier(&vec![pt(7, 7)], Fixed::from_int(20)) {
        Curve_::Bezier(table) => {
            assert_eq!(table.path(), &vec![pt(7, 7)]);
            assert_eq!(table.lengths(), &ints(&[0]));
        },
        _ => panic!("a Bezier segment holds a table"),
    }
    match Curve_::bezier(&Vec::new(), Fixed::from_int(20)) {
        Curve_::Bezier(table) => {
            assert!(table.path().is_empty());
            assert!(table.lengths().is_empty());
        },
        _ => panic!("a Bezier segment holds a table"),
    }
    // Coinciding last points stop the extension.
    match Curve_::bezier(&vec![pt(0, 0), pt(10, 0), pt(10, 0)], Fixed::from_int(20)) {
        Curve_::Bezier(table) => {
            assert_eq!(table.path(), &vec![pt(0, 0), pt(10, 0), pt(10, 0)]);
            assert_eq!(table.lengths(), &ints(&[0, 10, 10, 10]));
        },
        _ => panic!("a Bezier segment holds a table"),
    }
}

#[test]
fn perfect_segment_curve() {
    let positions = vec![pt(0, 0), pt(5, 5), pt(10, 0)];
    let curve = Curve_::new(&positions, PathType::PerfectCurve, Fixed::from_int(15));
    assert!(matches!(curve, Curve_::Perfect(_)));
    let top = curve.point_at_distance(fx(2.5 * std::f64::consts::PI));
    assert!((to_f64(top.x) - 5.0).abs() < 1e-5 && (to_f64(top.y) - 5.0).abs() < 1e-5);
    // Collinear points and other numbers of points give a Bezier curve.
    let flat = vec![pt(1, 0), pt(2, 0), pt(3, 0)];
    let curve = Curve_::perfect(&flat, Fixed::from_int(2));
    match &curve {
        Curve_::Bezier(table) => assert_eq!(table.path(), &vec![pt(1, 0), pt(2, 0), pt(3, 0)]),
        _ => panic!("collinear points give a Bezier curve"),
    }
    assert_eq!(curve.point_at_distance(Fixed::zero()), pt(1, 0));
    assert_eq!(curve.point_at_distance(Fixed::from_int(1)), pt(2, 0));
    assert_eq!(curve.point_at_distance(Fixed::from_int(2)), pt(3, 0));
    let two = vec![pt(0, 0), pt(10, 0)];
    assert!(matches!(Curve_::perfect(&two, Fixed::from_int(10)), Curve_::Bezier(_)));
}

#[test]
fn curve_starts_at_the_first_control_point() {
    for kind in [PathType::Linear, PathType::Bezier, PathType::Catmull, PathType::PerfectCurve] {
        let points = vec![cp(30, 40, Some(kind)), cp(60, 10, None), cp(90, 40, None)];
        for expected in [-3, 0, 1, 50, 500] {
            let curve = Curve::new(&points, Fixed::from_int(expected));
            assert_eq!(curve.path()[0], pt(30, 40));
            assert_eq!(curve.point_at_distance(Fixed::zero()), pt(30, 40));
        }
    }
}
