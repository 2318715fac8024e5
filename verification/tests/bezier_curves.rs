use slider_path::bezier::{
    approximate_bspline, bezier_approximate, bezier_is_flat_enough, bezier_subdivide,
    bezier_subpath, copy_points, zero_points, BezierBuffers,
};
use slider_path::fixed::Fixed;
use slider_path::point::Pos2;

fn fx(v: f64) -> Fixed {
    Fixed::from_raw((v * 16777216.0).round() as i64)
}

fn pf(x: f64, y: f64) -> Pos2 {
    Pos2::new(fx(x), fx(y))
}

fn pt(x: i32, y: i32) -> Pos2 {
    Pos2::new(Fixed::from_int(x), Fixed::from_int(y))
}

fn to_f64(v: Fixed) -> f64 {
    v.raw as f64 / 16777216.0
}

#[test]
fn buffers_start_as_zero_points() {
    let bufs = BezierBuffers::new(3);
    assert_eq!(bufs.buf1, vec![pt(0, 0); 3]);
    assert_eq!(bufs.buf2, vec![pt(0, 0); 3]);
    assert_eq!(bufs.buf3, vec![pt(0, 0); 3]);
    assert_eq!(BezierBuffers::new(0).buf1.len(), 0);
    assert_eq!(zero_points(2), vec![pt(0, 0), pt(0, 0)]);
    assert_eq!(copy_points(&vec![pt(1, 2), pt(3, 4)]), vec![pt(1, 2), pt(3, 4)]);
}

#[test]
fn flatness_limit_is_a_quarter() {
    // The second difference of the middle point is twice its height.
    assert!(bezier_is_flat_enough(&vec![pf(0.0, 0.0), pf(5.0, 0.2), pf(10.0, 0.0)]));
    assert!(bezier_is_flat_enough(&vec![pf(0.0, 0.0), pf(5.0, 0.25), pf(10.0, 0.0)]));
    assert!(!bezier_is_flat_enough(&vec![pf(0.0, 0.0), pf(5.0, 0.3), pf(10.0, 0.0)]));
    assert!(bezier_is_flat_enough(&vec![pt(0, 0), pt(100, 100)]));
    assert!(bezier_is_flat_enough(&vec![pt(7, 7)]));
    assert!(bezier_is_flat_enough(&Vec::new()));
    // Every inner point counts.
    assert!(!bezier_is_flat_enough(&vec![pt(0, 0), pt(1, 0), pt(2, 0), pt(3, 5), pt(4, 0)]));
}

#[test]
fn subdivision_of_a_quadratic_polygon() {
    let points = vec![pt(0, 0), pt(4, 8), pt(8, 0)];
    let mut l = zero_points(3);
    let mut r = zero_points(3);
    let mut scratch = zero_points(3);
    bezier_subdivide(&points, &mut l, &mut r, &mut scratch);
    assert_eq!(l, vec![pt(0, 0), pt(2, 4), pt(4, 4)]);
    assert_eq!(r, vec![pt(4, 4), pt(6, 4), pt(8, 0)]);
}

#[test]
fn subdivision_leaves_the_rest_of_larger_buffers() {
    let points = vec![pt(0, 0), pt(2, 2)];
    let mut l = vec![pt(9, 9); 4];
    let mut r = vec![pt(9, 9); 4];
    let mut scratch = vec![pt(9, 9); 4];
    bezier_subdivide(&points, &mut l, &mut r, &mut scratch);
    assert_eq!(l, vec![pt(0, 0), pt(1, 1), pt(9, 9), pt(9, 9)]);
    assert_eq!(r, vec![pt(1, 1), pt(2, 2), pt(9, 9), pt(9, 9)]);
}

#[test]
fn flat_piece_of_a_straight_polygon() {
    let points = vec![pt(0, 0), pt(5, 0), pt(10, 0)];
    let mut path = vec![pt(-1, -1)];
    let mut bufs = BezierBuffers::new(3);
    bezier_approximate(&points, &mut path, &mut bufs);
    assert_eq!(path, vec![pt(-1, -1), pt(0, 0), pt(5, 0)]);
}

#[test]
fn flat_piece_of_short_polygons() {
    let mut bufs = BezierBuffers::new(2);
    let mut path = Vec::new();
    bezier_approximate(&vec![pt(3, 3)], &mut path, &mut bufs);
    assert_eq!(path, vec![pt(3, 3)]);
    bezier_approximate(&vec![pt(1, 1), pt(2, 2)], &mut path, &mut bufs);
    assert_eq!(path, vec![pt(3, 3), pt(1, 1)]);
    bezier_approximate(&Vec::new(), &mut path, &mut bufs);
    assert_eq!(path.len(), 2);
}

#[test]
fn straight_polygon_gives_the_straight_segment() {
    let points = vec![pt(0, 0), pt(5, 0), pt(10, 0)];
    let mut path = Vec::new();
    let mut bufs = BezierBuffers::new(3);
    approximate_bspline(&mut path, &points, &mut bufs);
    assert_eq!(path, vec![pt(0, 0), pt(5, 0), pt(10, 0)]);
}

#[test]
fn single_point_polygon() {
    let mut path = Vec::new();
    let mut bufs = BezierBuffers::new(1);
    approximate_bspline(&mut path, &vec![pt(4, 2)], &mut bufs);
    assert_eq!(path, vec![pt(4, 2), pt(4, 2)]);
    let mut none = Vec::new();
    approximate_bspline(&mut none, &Vec::new(), &mut bufs);
    assert!(none.is_empty());
}

fn quadratic(t: f64) -> (f64, f64) {
    // Control points (0, 0), (50, 100), (100, 0).
    let x = 2.0 * (1.0 - t) * t * 50.0 + t * t * 100.0;
    let y = 2.0 * (1.0 - t) * t * 100.0;
    (x, y)
}

#[test]
fn curved_polygon_follows_the_curve() {
    let points = vec![pt(0, 0), pt(50, 100), pt(100, 0)];
    let mut path = Vec::new();
    let mut bufs = BezierBuffers::new(3);
    approximate_bspline(&mut path, &points, &mut bufs);
    assert!(path.len() > 10);
    assert_eq!(path[0], pt(0, 0));
    assert_eq!(path[path.len() - 1], pt(100, 0));
    let mut last_x = -1.0;
    for p in path.iter() {
        let x = to_f64(p.x);
        let y = to_f64(p.y);
        // For this polygon x is t * 100.
        let (cx, cy) = quadratic(x / 100.0);
        assert!((cx - x).abs() < 1e-6);
        assert!((cy - y).abs() < 0.25, "at x {} the curve has {} but the path {}", x, cy, y);
        assert!(x > last_x);
        last_x = x;
    }
}

#[test]
fn subpath_stops_short_of_the_last_point() {
    let points = vec![pt(0, 0), pt(50, 100), pt(100, 0)];
    let mut whole = Vec::new();
    let mut short = Vec::new();
    let mut bufs = BezierBuffers::new(3);
    approximate_bspline(&mut whole, &points, &mut bufs);
    bezier_subpath(&mut short, &points, &mut bufs);
    assert_eq!(short.len() + 1, whole.len());
    assert_eq!(short[..], whole[..short.len()]);
}

#[test]
fn subdivision_stops_at_the_depth_limit() {
    // The differences of these points saturate, so that no polygon ever
    // counts as flat; the depth limit ends the subdivision.
    let lo = Fixed::from_raw(i64::MIN);
    let hi = Fixed::from_raw(i64::MAX);
    let points = vec![Pos2::new(lo, lo), Pos2::new(hi, hi), Pos2::new(lo, lo)];
    let mut path = Vec::new();
    let mut bufs = BezierBuffers::new(3);
    approximate_bspline(&mut path, &points, &mut bufs);
    assert!(path.len() <= 2 * 65536 + 1);
    assert_eq!(path[0], points[0]);
    assert_eq!(path[path.len() - 1], points[2]);
}
