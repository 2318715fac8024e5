use slider_path::curve::Curve;
use slider_path::fixed::Fixed;
use slider_path::length::{calculate_length, correct_length, cumulative};
use slider_path::path::{PathControlPoint, PathType};
use slider_path::point::Pos2;

fn fx(v: f64) -> Fixed {
    Fixed::from_raw((v * 16777216.0).round() as i64)
}

fn pt(x: i32, y: i32) -> Pos2 {
    Pos2::new(Fixed::from_int(x), Fixed::from_int(y))
}

fn cp(x: i32, y: i32, kind: Option<PathType>) -> PathControlPoint {
    PathControlPoint { pos: pt(x, y), kind }
}

fn ints(values: &[i32]) -> Vec<Fixed> {
    values.iter().map(|v| Fixed::from_int(*v)).collect()
}

fn linear(positions: &[(i32, i32)]) -> Vec<PathControlPoint> {
    let mut points = Vec::new();
    for (i, (x, y)) in positions.iter().enumerate() {
        points.push(cp(*x, *y, if i == 0 { Some(PathType::Linear) } else { None }));
    }
    points
}

#[test]
fn cumulative_lengths_of_a_polyline() {
    assert_eq!(cumulative(&vec![pt(0, 0), pt(3, 4), pt(3, 10)]), ints(&[0, 5, 11]));
    assert_eq!(cumulative(&vec![pt(7, 7)]), ints(&[0]));
    assert!(cumulative(&Vec::new()).is_empty());
}

#[test]
fn cumulative_lengths_saturate() {
    let lo = Fixed::from_raw(i64::MIN);
    let hi = Fixed::from_raw(i64::MAX);
    let path = vec![Pos2::new(lo, lo), Pos2::new(hi, hi), Pos2::new(lo, lo)];
    let table = cumulative(&path);
    assert_eq!(table, vec![Fixed::zero(), hi, hi]);
}

#[test]
fn matching_length_changes_nothing() {
    let mut path = vec![pt(0, 0), pt(10, 0), pt(10, 10)];
    let lengths = correct_length(false, &mut path, Fixed::from_int(20));
    assert_eq!(path, vec![pt(0, 0), pt(10, 0), pt(10, 10)]);
    assert_eq!(lengths, ints(&[0, 10, 20]));
}

#[test]
fn length_within_the_tolerance_changes_nothing() {
    let mut path = vec![pt(0, 0), pt(10, 0)];
    let lengths = correct_length(false, &mut path, Fixed::from_raw((10 << 24) + 2));
    assert_eq!(path, vec![pt(0, 0), pt(10, 0)]);
    assert_eq!(lengths, ints(&[0, 10]));
    let mut path = vec![pt(0, 0), pt(10, 0)];
    let lengths = correct_length(false, &mut path, Fixed::from_raw((10 << 24) - 2));
    assert_eq!(path, vec![pt(0, 0), pt(10, 0)]);
    assert_eq!(lengths, ints(&[0, 10]));
}

#[test]
fn longer_declared_length_extends_the_last_span() {
    let mut path = vec![pt(0, 0), pt(10, 0)];
    let lengths = correct_length(false, &mut path, Fixed::from_int(12));
    assert_eq!(path, vec![pt(0, 0), pt(12, 0)]);
    assert_eq!(lengths, ints(&[0, 12]));
}

#[test]
fn length_just_beyond_the_tolerance_is_corrected() {
    let mut path = vec![pt(0, 0), pt(10, 0)];
    let expected = Fixed::from_raw((10 << 24) + 3);
    let lengths = correct_length(false, &mut path, expected);
    assert_eq!(path, vec![pt(0, 0), Pos2::new(expected, Fixed::zero())]);
    assert_eq!(lengths, vec![Fixed::zero(), expected]);
}

#[test]
fn shorter_declared_length_truncates() {
    let mut path = vec![pt(0, 0), pt(10, 0), pt(10, 10)];
    let lengths = correct_length(false, &mut path, Fixed::from_int(15));
    assert_eq!(path, vec![pt(0, 0), pt(10, 0), pt(10, 5)]);
    assert_eq!(lengths, ints(&[0, 10, 15]));
}

#[test]
fn truncation_drops_whole_spans() {
    let mut path = vec![pt(0, 0), pt(10, 0), pt(10, 10), pt(20, 10), pt(20, 20)];
    let lengths = correct_length(false, &mut path, Fixed::from_int(4));
    assert_eq!(path, vec![pt(0, 0), pt(4, 0)]);
    assert_eq!(lengths, ints(&[0, 4]));
}

#[test]
fn truncation_at_a_vertex_repeats_it() {
    let mut path = vec![pt(0, 0), pt(10, 0), pt(20, 0)];
    let lengths = correct_length(false, &mut path, Fixed::from_int(10));
    assert_eq!(path, vec![pt(0, 0), pt(10, 0), pt(10, 0)]);
    assert_eq!(lengths, ints(&[0, 10, 10]));
}

#[test]
fn truncation_along_a_slanted_span() {
    let mut path = vec![pt(0, 0), pt(30, 40)];
    let lengths = correct_length(true, &mut path, Fixed::from_int(25));
    assert_eq!(path, vec![pt(0, 0), pt(15, 20)]);
    assert_eq!(lengths, ints(&[0, 25]));
}

#[test]
fn coinciding_last_control_points_stop_the_extension() {
    let mut path = vec![pt(0, 0), pt(10, 0)];
    let lengths = correct_length(true, &mut path, Fixed::from_int(12));
    assert_eq!(path, vec![pt(0, 0), pt(10, 0)]);
    assert_eq!(lengths, ints(&[0, 10, 10]));
}

#[test]
fn zero_declared_length() {
    let mut path = vec![pt(0, 0), pt(10, 0)];
    let lengths = correct_length(false, &mut path, Fixed::zero());
    assert_eq!(path, vec![pt(0, 0), pt(0, 0)]);
    assert_eq!(lengths, ints(&[0, 0]));
}

#[test]
fn negative_declared_length() {
    let mut path = vec![pt(0, 0), pt(10, 0), pt(20, 0)];
    let lengths = correct_length(false, &mut path, Fixed::from_int(-1));
    assert_eq!(path, vec![pt(0, 0)]);
    assert_eq!(lengths, ints(&[0]));
}

#[test]
fn single_vertex_keeps_the_table_of_one_zero() {
    let mut path = vec![pt(5, 5)];
    let lengths = correct_length(false, &mut path, Fixed::from_int(10));
    assert_eq!(path, vec![pt(5, 5)]);
    assert_eq!(lengths, ints(&[0]));
    let lengths = correct_length(false, &mut path, Fixed::zero());
    assert_eq!(lengths, ints(&[0]));
    let lengths = correct_length(true, &mut path, Fixed::from_int(10));
    assert_eq!(lengths, ints(&[0, 0]));
}

#[test]
fn empty_polyline_has_an_empty_table() {
    let mut path = Vec::new();
    assert!(correct_length(false, &mut path, Fixed::from_int(10)).is_empty());
    assert!(path.is_empty());
    assert!(calculate_length(&Vec::new(), &mut path, Fixed::from_int(10)).is_empty());
}

#[test]
fn control_points_decide_on_the_extension() {
    let points = linear(&[(0, 0), (10, 0), (10, 0)]);
    let mut path = vec![pt(0, 0), pt(10, 0)];
    assert_eq!(calculate_length(&points, &mut path, Fixed::from_int(12)), ints(&[0, 10, 10]));
    assert_eq!(path, vec![pt(0, 0), pt(10, 0)]);
    let points = linear(&[(0, 0), (10, 0)]);
    assert_eq!(calculate_length(&points, &mut path, Fixed::from_int(12)), ints(&[0, 12]));
    assert_eq!(path, vec![pt(0, 0), pt(12, 0)]);
    // A shorter declared length truncates in spite of coinciding points.
    let points = linear(&[(0, 0), (10, 0), (10, 0)]);
    assert_eq!(calculate_length(&points, &mut path, Fixed::from_int(6)), ints(&[0, 6]));
    assert_eq!(path, vec![pt(0, 0), pt(6, 0)]);
}

fn assert_table_shape(curve: &Curve, one_more: bool) {
    let lengths = curve.lengths();
    for pair in lengths.windows(2) {
        assert!(pair[0].raw <= pair[1].raw);
    }
    assert_eq!(lengths.len(), curve.path().len() + if one_more { 1 } else { 0 });
    if !lengths.is_empty() {
        assert_eq!(lengths[0], Fixed::zero());
    }
}

#[test]
fn built_tables_never_decrease() {
    let shapes: Vec<Vec<PathControlPoint>> = vec![
        Vec::new(),
        linear(&[(0, 0)]),
        linear(&[(0, 0), (10, 0), (10, 10), (0, 10)]),
        vec![cp(0, 0, Some(PathType::Bezier)), cp(50, 100, None), cp(100, 0, None)],
        vec![cp(0, 0, Some(PathType::Catmull)), cp(50, 100, None), cp(100, 0, None)],
        vec![cp(0, 0, Some(PathType::PerfectCurve)), cp(50, 50, None), cp(100, 0, None)],
    ];
    for points in shapes.iter() {
        for expected in [-5.0, 0.0, 1.0, 37.5, 100.0, 1000.0] {
            let curve = Curve::new(points, fx(expected));
            assert_table_shape(&curve, false);
        }
    }
    // Coinciding last control points and a longer declared length give one
    // entry more.
    let points = linear(&[(0, 0), (10, 0), (10, 0)]);
    assert_table_shape(&Curve::new(&points, Fixed::from_int(12)), true);
    assert_table_shape(&Curve::new(&points, Fixed::from_int(5)), false);
    let points = linear(&[(0, 0), (0, 0)]);
    let curve = Curve::new(&points, Fixed::from_int(10));
    assert_eq!(curve.path(), &vec![pt(0, 0)]);
    assert_eq!(curve.lengths(), &ints(&[0, 0]));
}

#[test]
fn built_curves_end_at_the_declared_length() {
    let shapes: Vec<Vec<PathControlPoint>> = vec![
        linear(&[(0, 0), (10, 0), (10, 10), (0, 10)]),
        vec![cp(0, 0, Some(PathType::Bezier)), cp(50, 100, None), cp(100, 0, None)],
        vec![cp(0, 0, Some(PathType::Catmull)), cp(50, 100, None), cp(100, 0, None)],
        vec![cp(0, 0, Some(PathType::PerfectCurve)), cp(50, 50, None), cp(100, 0, None)],
    ];
    for points in shapes.iter() {
        for expected in [0.0, 1.0, 37.5, 100.0, 1000.0] {
            let curve = Curve::new(points, fx(expected));
            assert_eq!(curve.dist(), fx(expected));
        }
    }
    // A single control point cannot be stretched.
    let curve = Curve::new(&linear(&[(0, 0)]), Fixed::from_int(10));
    assert_eq!(curve.dist(), Fixed::zero());
}

#[test]
fn truncation_never_adds_vertices() {
    let points = vec![cp(0, 0, Some(PathType::Bezier)), cp(50, 100, None), cp(100, 0, None)];
    let whole = Curve::new(&points, Fixed::from_int(10000));
    let mut last_len = whole.path().len();
    for expected in [140, 100, 60, 30, 10, 1] {
        let curve = Curve::new(&points, Fixed::from_int(expected));
        assert!(curve.path().len() <= last_len);
        last_len = curve.path().len();
        assert_eq!(curve.dist(), Fixed::from_int(expected));
        // The vertices before the last stay where they were.
        let kept = curve.path().len() - 1;
        assert_eq!(curve.path()[..kept], whole.path()[..kept]);
    }
}
