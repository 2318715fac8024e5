use slider_path::catmull::{approximate_catmull, catmull_find_point, catmull_points};
use slider_path::fixed::Fixed;
use slider_path::point::Pos2;

fn fx(v: f64) -> Fixed {
    Fixed::from_raw((v * 16777216.0).round() as i64)
}

fn pf(x: f64, y: f64) -> Pos2 {
    Pos2::new(fx(x), fx(y))
}

fn pt(x: i32, y: i32) -> Pos2 {
    Pos2::new(Fixed::from_int(x), Fixed::from_int(y))
}

fn to_f64(v: Fixed) -> f64 {
    v.raw as f64 / 16777216.0
}

#[test]
fn spline_point_at_the_ends_and_the_middle() {
    let (v1, v2, v3, v4) = (pt(0, 0), pt(0, 0), pt(10, 0), pt(20, 0));
    assert_eq!(catmull_find_point(v1, v2, v3, v4, Fixed::zero()), pt(0, 0));
    assert_eq!(catmull_find_point(v1, v2, v3, v4, Fixed::one()), pt(10, 0));
    // 5 t + 10 t^2 - 5 t^3 at one half.
    assert_eq!(catmull_find_point(v1, v2, v3, v4, fx(0.5)), pf(4.375, 0.0));
}

#[test]
fn spline_point_follows_the_formula() {
    let (v1, v2, v3, v4) = (pf(1.0, 2.0), pf(3.0, -1.0), pf(7.5, 4.0), pf(9.0, 9.0));
    let want = |a: f64, b: f64, c: f64, d: f64, t: f64| {
        0.5 * (2.0 * b + (-a + c) * t + (2.0 * a - 5.0 * b + 4.0 * c - d) * t * t
            + (-a + 3.0 * b - 3.0 * c + d) * t * t * t)
    };
    for step in 0..=50 {
        let t = step as f64 / 50.0;
        let p = catmull_find_point(v1, v2, v3, v4, fx(t));
        assert!((to_f64(p.x) - want(1.0, 3.0, 7.5, 9.0, t)).abs() < 1e-5);
        assert!((to_f64(p.y) - want(2.0, -1.0, 4.0, 9.0, t)).abs() < 1e-5);
    }
}

#[test]
fn one_span_has_a_hundred_samples() {
    let mut result = vec![pt(-1, -1)];
    catmull_points(&mut result, pt(0, 0), pt(0, 0), pt(10, 0), pt(20, 0));
    assert_eq!(result.len(), 101);
    assert_eq!(result[0], pt(-1, -1));
    assert_eq!(result[1], pt(0, 0));
    assert_eq!(result[100], pt(10, 0));
    // Both ends of every step are given, so inner samples come twice.
    assert_eq!(result[50], pf(4.375, 0.0));
    assert_eq!(result[51], pf(4.375, 0.0));
    assert_eq!(result[2], result[3]);
    assert_ne!(result[1], result[2]);
}

#[test]
fn spline_through_two_points() {
    let mut path = Vec::new();
    approximate_catmull(&mut path, &vec![pt(0, 0), pt(10, 0)]);
    assert_eq!(path.len(), 100);
    assert_eq!(path[0], pt(0, 0));
    assert_eq!(path[49], pf(4.375, 0.0));
    assert_eq!(path[99], pt(10, 0));
}

#[test]
fn spline_passes_through_its_control_points() {
    let points = vec![pt(0, 0), pt(10, 5), pt(20, -5), pt(30, 0)];
    let mut path = Vec::new();
    approximate_catmull(&mut path, &points);
    assert_eq!(path.len(), 300);
    assert_eq!(path[0], points[0]);
    assert_eq!(path[99], points[1]);
    assert_eq!(path[100], points[1]);
    assert_eq!(path[199], points[2]);
    assert_eq!(path[200], points[2]);
    assert_eq!(path[299], points[3]);
}

#[test]
fn single_point_stands_for_itself() {
    let mut path = Vec::new();
    approximate_catmull(&mut path, &vec![pt(3, 4)]);
    assert_eq!(path, vec![pt(3, 4)]);
    let mut none = Vec::new();
    approximate_catmull(&mut none, &Vec::new());
    assert!(none.is_empty());
}
