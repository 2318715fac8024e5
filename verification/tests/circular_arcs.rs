use slider_path::arc::{
    approximate_circular_arc, circular_arc_point_count, circular_arc_properties, cross_product,
    CircularArcProperties,
};
use slider_path::bezier::approximate_bezier;
use slider_path::fixed::Fixed;
use slider_path::point::Pos2;
use slider_path::trig::pi;

fn fx(v: f64) -> Fixed {
    Fixed::from_raw((v * 16777216.0).round() as i64)
}

fn pt(x: i32, y: i32) -> Pos2 {
    Pos2::new(Fixed::from_int(x), Fixed::from_int(y))
}

fn to_f64(v: Fixed) -> f64 {
    v.raw as f64 / 16777216.0
}

#[test]
fn cross_product_is_twice_the_area() {
    let one = 1i128 << 24;
    assert_eq!(cross_product(pt(0, 0), pt(1, 0), pt(0, 1)), one * one);
    assert_eq!(cross_product(pt(0, 0), pt(5, 5), pt(10, 0)), -50 * one * one);
    assert_eq!(cross_product(pt(1, 1), pt(2, 2), pt(5, 5)), 0);
}

#[test]
fn properties_of_a_half_circle() {
    let pr = circular_arc_properties(pt(0, 0), pt(5, 5), pt(10, 0)).unwrap();
    assert_eq!(pr.centre, pt(5, 0));
    assert_eq!(pr.radius, Fixed::from_int(5));
    assert_eq!(pr.theta_start, pi());
    assert_eq!(pr.theta_range, pi());
    assert_eq!(pr.direction, Fixed::from_int(-1));
}

#[test]
fn properties_of_the_opposite_half_circle() {
    let pr = circular_arc_properties(pt(0, 0), pt(5, -5), pt(10, 0)).unwrap();
    assert_eq!(pr.centre, pt(5, 0));
    assert_eq!(pr.radius, Fixed::from_int(5));
    assert_eq!(pr.theta_start, pi());
    assert_eq!(pr.theta_range, pi());
    assert_eq!(pr.direction, Fixed::from_int(1));
}

#[test]
fn properties_of_a_quarter_circle() {
    // From (1, 0) over (cos 45, sin 45) to (0, 1) on the unit circle,
    // scaled by a hundred.
    let b = Pos2::new(fx(70.710678), fx(70.710678));
    let pr = circular_arc_properties(pt(100, 0), b, pt(0, 100)).unwrap();
    assert!(to_f64(pr.centre.x).abs() < 1e-4);
    assert!(to_f64(pr.centre.y).abs() < 1e-4);
    assert!((to_f64(pr.radius) - 100.0).abs() < 1e-4);
    assert!(to_f64(pr.theta_start).abs() < 1e-5);
    assert!((to_f64(pr.theta_range) - std::f64::consts::FRAC_PI_2).abs() < 1e-5);
    assert_eq!(pr.direction, Fixed::one());
}

#[test]
fn collinear_points_have_no_arc() {
    assert_eq!(circular_arc_properties(pt(0, 0), pt(5, 0), pt(10, 0)), None);
    assert_eq!(circular_arc_properties(pt(1, 1), pt(2, 2), pt(5, 5)), None);
    assert_eq!(circular_arc_properties(pt(3, 3), pt(3, 3), pt(3, 3)), None);
    assert_eq!(circular_arc_properties(pt(0, 0), pt(10, 0), pt(5, 0)), None);
}

#[test]
fn nearly_collinear_points_have_no_arc() {
    // The determinant is twice the cross product; two raw units of it are
    // the tolerance.
    let a = pt(0, 0);
    let c = pt(1, 0);
    let low = Pos2::new(Fixed::zero(), Fixed::from_raw(1));
    let high = Pos2::new(Fixed::zero(), Fixed::from_raw(2));
    assert_eq!(circular_arc_properties(a, low, c), None);
    assert!(circular_arc_properties(a, high, c).is_some());
}

#[test]
fn collinear_points_fall_back_to_the_straight_segment() {
    let mut path = Vec::new();
    approximate_circular_arc(&mut path, pt(0, 0), pt(5, 0), pt(10, 0));
    assert_eq!(path, vec![pt(0, 0), pt(5, 0), pt(10, 0)]);
    let mut bezier = Vec::new();
    approximate_bezier(&mut bezier, &vec![pt(0, 0), pt(5, 0), pt(10, 0)]);
    assert_eq!(path, bezier);
}

#[test]
fn half_circle_is_sampled_at_equal_angles() {
    let mut path = vec![pt(-1, -1)];
    approximate_circular_arc(&mut path, pt(0, 0), pt(5, 5), pt(10, 0));
    // The tolerance angle is 2 acos(1 - 0.1 / 5), about 0.4007; half a turn
    // holds 7.84 of them.
    assert_eq!(path.len(), 1 + 8);
    assert_eq!(path[0], pt(-1, -1));
    for (i, p) in path.iter().skip(1).enumerate() {
        let theta = std::f64::consts::PI * (1.0 - i as f64 / 7.0);
        assert!((to_f64(p.x) - (5.0 + 5.0 * theta.cos())).abs() < 1e-5);
        assert!((to_f64(p.y) - 5.0 * theta.sin()).abs() < 1e-5);
    }
}

#[test]
fn arc_the_long_way_round() {
    // The middle point lies beyond the end point, so the arc takes three
    // quarters of the circle round (0, 0).
    let mut path = Vec::new();
    approximate_circular_arc(&mut path, pt(10, 0), pt(-10, 0), pt(0, 10));
    let first = path[0];
    let last = path[path.len() - 1];
    assert!((to_f64(first.x) - 10.0).abs() < 1e-4 && to_f64(first.y).abs() < 1e-4);
    assert!(to_f64(last.x).abs() < 1e-4 && (to_f64(last.y) - 10.0).abs() < 1e-4);
    let mut below = 0;
    for p in path.iter() {
        let r = (to_f64(p.x).powi(2) + to_f64(p.y).powi(2)).sqrt();
        assert!((r - 10.0).abs() < 1e-4);
        if to_f64(p.y) < -1.0 {
            below += 1;
        }
    }
    assert!(below > 0);
}

#[test]
fn point_count_of_arcs() {
    let tiny = CircularArcProperties {
        theta_start: Fixed::zero(),
        theta_range: pi(),
        direction: Fixed::one(),
        radius: fx(0.05),
        centre: pt(0, 0),
    };
    assert_eq!(circular_arc_point_count(&tiny), 2);
    let short = CircularArcProperties { theta_range: fx(0.01), radius: fx(5.0), ..tiny };
    assert_eq!(circular_arc_point_count(&short), 2);
    let half = CircularArcProperties { radius: fx(5.0), ..tiny };
    assert_eq!(circular_arc_point_count(&half), 8);
    let wide = CircularArcProperties { radius: fx(100.0), ..tiny };
    // 2 acos(1 - 0.001) is about 0.08945; half a turn holds 35.1 of them.
    assert_eq!(circular_arc_point_count(&wide), 36);
}

#[test]
fn arc_with_a_very_large_radius_has_few_points() {
    let mut path = Vec::new();
    approximate_circular_arc(&mut path, pt(0, 0), pt(255, 1), pt(512, 2));
    assert!(path.len() >= 2 && path.len() <= 16, "{} points", path.len());
}

#[test]
fn arc_points_by_distance() {
    let pr = circular_arc_properties(pt(0, 0), pt(5, 5), pt(10, 0)).unwrap();
    let start = pr.point_at_distance(Fixed::zero());
    assert!(to_f64(start.x).abs() < 1e-5 && to_f64(start.y).abs() < 1e-5);
    // A quarter of the circle is 2.5 pi long.
    let top = pr.point_at_distance(fx(2.5 * std::f64::consts::PI));
    assert!((to_f64(top.x) - 5.0).abs() < 1e-5 && (to_f64(top.y) - 5.0).abs() < 1e-5);
    let end = pr.point_at_distance(fx(5.0 * std::f64::consts::PI));
    assert!((to_f64(end.x) - 10.0).abs() < 1e-5 && to_f64(end.y).abs() < 1e-5);
    let at_angle = pr.point_at_angle(Fixed::zero());
    assert_eq!(at_angle, pt(10, 0));
}

#[test]
fn centre_of_a_very_small_triangle() {
    // Sides of about 0.0005: the determinant is 8 raw units.
    let a = Pos2::new(Fixed::zero(), Fixed::zero());
    let b = Pos2::new(Fixed::from_raw(8192), Fixed::zero());
    let c = Pos2::new(Fixed::zero(), Fixed::from_raw(8192));
    let pr = circular_arc_properties(a, b, c).unwrap();
    assert_eq!(pr.centre, Pos2::new(Fixed::from_raw(4096), Fixed::from_raw(4096)));
    assert_eq!(pr.radius, Fixed::from_raw(5792));
    assert_eq!(pr.centre.distance(b), pr.radius);
    assert_eq!(pr.centre.distance(c), pr.radius);
}

#[test]
fn centre_of_a_very_large_triangle() {
    // Sides of a million, far beyond the range of squared lengths.
    let a = pt(-500_000, 250_000);
    let b = pt(500_000, 250_000);
    let c = pt(-500_000, 1_250_000);
    let pr = circular_arc_properties(a, b, c).unwrap();
    assert_eq!(pr.centre, pt(0, 750_000));
    assert_eq!(pr.radius, a.distance(pr.centre));
    assert_eq!(pr.centre.distance(b), pr.radius);
    assert_eq!(pr.centre.distance(c), pr.radius);
    // Coordinates at the end of the range.
    let far = 1 << 30;
    let pr = circular_arc_properties(pt(-far, -far), pt(far, -far), pt(-far, far)).unwrap();
    assert_eq!(pr.centre, pt(0, 0));
    assert!(pr.radius.raw > 0);
}

#[test]
fn corners_lie_at_the_radius_from_the_centre() {
    let corners = [
        (pt(100, 100), pt(160, 60), pt(220, 100)),
        (pt(300, 200), pt(250, 260), pt(280, 120)),
        (pt(0, 0), pt(255, 1), pt(512, 2)),
        (pt(-7, 3), pt(11, 5), pt(2, -13)),
        (pt(1, 1), pt(2, 1), pt(1, 3)),
    ];
    for (a, b, c) in corners {
        let pr = circular_arc_properties(a, b, c).unwrap();
        assert!(pr.radius.raw > 0);
        for corner in [a, b, c] {
            let gap = pr.centre.distance(corner).raw - pr.radius.raw;
            assert!(gap.abs() <= 5, "gap {} for {:?}", gap, corner);
        }
    }
}

#[test]
fn points_of_the_circle_lie_at_the_radius() {
    for (centre, radius) in [
        (pt(5, 0), fx(5.0)),
        (pt(-300, 200), fx(0.07)),
        (pt(0, 0), fx(1234.5678)),
        (pt(100_000, -100_000), fx(8_400_000.0)),
        (pt(1, 1), Fixed::from_raw(1)),
        (pt(1, 1), Fixed::zero()),
    ] {
        let pr = CircularArcProperties {
            theta_start: Fixed::zero(),
            theta_range: pi(),
            direction: Fixed::one(),
            radius,
            centre,
        };
        let whole = radius.raw / (1 << 24);
        let mut raw: i64 = -(1 << 27);
        while raw < (1 << 27) {
            let p = pr.point_at_angle(Fixed::from_raw(raw));
            let gap = centre.distance(p).raw - radius.raw;
            assert!(-(3 * whole + 8) <= gap && gap <= 5 * whole + 7, "gap {}", gap);
            raw += 1_000_003;
        }
    }
}
