use slider_path::fixed::Fixed;
use slider_path::path::{
    approximate_linear, calculate_path, calculate_subpath, dedup, PathControlPoint, PathType,
};
use slider_path::point::Pos2;

fn pt(x: i32, y: i32) -> Pos2 {
    Pos2::new(Fixed::from_int(x), Fixed::from_int(y))
}

fn cp(x: i32, y: i32, kind: Option<PathType>) -> PathControlPoint {
    PathControlPoint { pos: pt(x, y), kind }
}

#[test]
fn empty_list_gives_an_empty_path() {
    assert!(calculate_path(&Vec::new()).is_empty());
}

#[test]
fn linear_path_is_its_control_points() {
    let points = vec![cp(0, 0, Some(PathType::Linear)), cp(10, 0, None), cp(10, 10, None)];
    assert_eq!(calculate_path(&points), vec![pt(0, 0), pt(10, 0), pt(10, 10)]);
}

#[test]
fn unmarked_first_point_starts_a_linear_segment() {
    let points = vec![cp(0, 0, None), cp(10, 0, None), cp(10, 10, None)];
    assert_eq!(calculate_path(&points), vec![pt(0, 0), pt(10, 0), pt(10, 10)]);
}

#[test]
fn single_control_point() {
    for kind in [
        None,
        Some(PathType::Linear),
        Some(PathType::Bezier),
        Some(PathType::Catmull),
        Some(PathType::PerfectCurve),
    ] {
        assert_eq!(calculate_path(&vec![cp(3, 4, kind)]), vec![pt(3, 4)]);
    }
}

#[test]
fn a_marked_point_ends_one_segment_and_starts_the_next() {
    // A straight Bezier segment to (10, 0), then a linear one.
    let points = vec![
        cp(0, 0, Some(PathType::Bezier)),
        cp(5, 0, None),
        cp(10, 0, Some(PathType::Linear)),
        cp(10, 10, None),
        cp(20, 10, None),
    ];
    assert_eq!(
        calculate_path(&points),
        vec![pt(0, 0), pt(5, 0), pt(10, 0), pt(10, 10), pt(20, 10)]
    );
}

#[test]
fn repeated_control_point_leaves_no_repeated_vertex() {
    let points = vec![
        cp(0, 0, Some(PathType::Linear)),
        cp(10, 0, None),
        cp(10, 0, Some(PathType::Linear)),
        cp(20, 0, None),
    ];
    let path = calculate_path(&points);
    assert_eq!(path, vec![pt(0, 0), pt(10, 0), pt(20, 0)]);
    for pair in path.windows(2) {
        assert_ne!(pair[0], pair[1]);
    }
}

#[test]
fn paths_of_curved_segments_have_no_repeated_vertex() {
    let points = vec![
        cp(0, 0, Some(PathType::Catmull)),
        cp(10, 20, None),
        cp(30, 20, Some(PathType::Bezier)),
        cp(50, 60, None),
        cp(70, 20, Some(PathType::PerfectCurve)),
        cp(80, 30, None),
        cp(90, 20, None),
    ];
    let path = calculate_path(&points);
    assert_eq!(path[0], pt(0, 0));
    assert!(path.contains(&pt(30, 20)));
    assert!(path.contains(&pt(70, 20)));
    for pair in path.windows(2) {
        assert_ne!(pair[0], pair[1]);
    }
}

#[test]
fn collinear_perfect_curve_is_the_straight_segment() {
    let points = vec![cp(0, 0, Some(PathType::PerfectCurve)), cp(5, 0, None), cp(10, 0, None)];
    assert_eq!(calculate_path(&points), vec![pt(0, 0), pt(5, 0), pt(10, 0)]);
}

#[test]
fn perfect_curve_needs_three_points() {
    // Four points marked as a perfect curve are read as a Bezier polygon.
    let positions = vec![pt(0, 0), pt(10, 0), pt(20, 0), pt(30, 0)];
    let mut as_perfect = Vec::new();
    calculate_subpath(&mut as_perfect, &positions, PathType::PerfectCurve);
    let mut as_bezier = Vec::new();
    calculate_subpath(&mut as_bezier, &positions, PathType::Bezier);
    assert_eq!(as_perfect, as_bezier);
    assert_eq!(as_bezier[0], pt(0, 0));
    assert_eq!(as_bezier[as_bezier.len() - 1], pt(30, 0));
}

#[test]
fn subpath_by_kind() {
    let positions = vec![pt(0, 0), pt(5, 5), pt(10, 0)];
    let mut linear = vec![pt(-1, -1)];
    calculate_subpath(&mut linear, &positions, PathType::Linear);
    assert_eq!(linear, vec![pt(-1, -1), pt(0, 0), pt(5, 5), pt(10, 0)]);
    let mut catmull = Vec::new();
    calculate_subpath(&mut catmull, &positions, PathType::Catmull);
    assert_eq!(catmull.len(), 200);
    let mut arc = Vec::new();
    calculate_subpath(&mut arc, &positions, PathType::PerfectCurve);
    assert_eq!(arc.len(), 8);
    let mut bezier = Vec::new();
    calculate_subpath(&mut bezier, &positions, PathType::Bezier);
    assert_eq!(bezier[0], pt(0, 0));
    assert_eq!(bezier[bezier.len() - 1], pt(10, 0));
    assert!(bezier.len() > 3);
}

#[test]
fn linear_approximation_appends_the_points() {
    let mut path = vec![pt(1, 1)];
    approximate_linear(&mut path, &vec![pt(2, 2), pt(3, 3)]);
    assert_eq!(path, vec![pt(1, 1), pt(2, 2), pt(3, 3)]);
}

#[test]
fn dedup_removes_runs_of_equal_vertices() {
    let path = vec![pt(0, 0), pt(0, 0), pt(1, 1), pt(1, 1), pt(1, 1), pt(0, 0), pt(2, 2)];
    assert_eq!(dedup(&path), vec![pt(0, 0), pt(1, 1), pt(0, 0), pt(2, 2)]);
    assert_eq!(dedup(&vec![pt(5, 5)]), vec![pt(5, 5)]);
    assert!(dedup(&Vec::new()).is_empty());
}

#[test]
fn path_starts_at_the_first_control_point() {
    let kinds = [
        None,
        Some(PathType::Linear),
        Some(PathType::Bezier),
        Some(PathType::Catmull),
        Some(PathType::PerfectCurve),
    ];
    for first in kinds {
        for second in kinds {
            let points = vec![cp(30, 40, first), cp(60, 10, second), cp(90, 40, None)];
            assert_eq!(calculate_path(&points)[0], pt(30, 40));
        }
        assert_eq!(calculate_path(&vec![cp(30, 40, first)])[0], pt(30, 40));
    }
}
