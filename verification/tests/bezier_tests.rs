use strokefit::{BezierCurve, Point};
use strokefit::bezier::{de_casteljau2, de_casteljau3, de_casteljau4};

fn pt(x: i64, y: i64) -> Point {
    Point::new(x, y)
}

fn curve(points: [(i64, i64); 4]) -> BezierCurve {
    BezierCurve::from_points([
        pt(points[0].0, points[0].1),
        pt(points[1].0, points[1].1),
        pt(points[2].0, points[2].1),
        pt(points[3].0, points[3].1),
    ])
}

#[test]
fn evaluation_hits_the_endpoints() {
    let c = curve([(3, 7), (100, -50), (-20, 90), (64, 1)]);
    assert_eq!(c.eval(0), pt(3, 7));
    assert_eq!(c.eval(1024), pt(64, 1));
}

#[test]
fn straight_control_polygon_evaluates_on_the_line() {
    let c = curve([(0, 0), (30, 0), (70, 0), (100, 0)]);
    for t in [0, 128, 256, 512, 768, 1024] {
        assert_eq!(c.eval(t).y, 0);
    }
    // midpoint of a symmetric straight polygon is the chord midpoint
    let c = curve([(0, 0), (30, 0), (70, 0), (100, 0)]);
    assert_eq!(c.eval(512).x, 50);
}

#[test]
fn de_casteljau_levels() {
    // the linear level is plain interpolation
    assert_eq!(de_casteljau2(512, pt(0, 0), pt(10, 20)), pt(5, 10));
    // the quadratic level at the midpoint averages with double weight on
    // the middle point
    assert_eq!(de_casteljau3(512, pt(0, 0), pt(10, 0), pt(20, 0)), pt(10, 0));
    // the cubic level at the ends returns the end control points
    assert_eq!(de_casteljau4(0, pt(1, 2), pt(3, 4), pt(5, 6), pt(7, 8)), pt(1, 2));
    assert_eq!(de_casteljau4(1024, pt(1, 2), pt(3, 4), pt(5, 6), pt(7, 8)), pt(7, 8));
}

#[test]
fn flatten_is_positive_and_stable() {
    let c = curve([(0, 0), (40, 80), (80, 80), (120, 0)]);
    let f1 = c.flatten();
    let f2 = c.flatten();
    assert!(f1.len() >= 1);
    assert_eq!(f1.len(), f2.len());
    for (a, b) in f1.iter().zip(f2.iter()) {
        assert_eq!(a.from, b.from);
        assert_eq!(a.to, b.to);
    }
}

#[test]
fn flatten_chains_from_start_to_end() {
    let c = curve([(0, 0), (40, 80), (80, 80), (120, 0)]);
    let f = c.flatten();
    assert_eq!(f[0].from, pt(0, 0));
    assert_eq!(f[f.len() - 1].to, pt(120, 0));
    for w in f.windows(2) {
        assert_eq!(w[0].to, w[1].from);
    }
}

#[test]
fn degenerate_curve_still_flattens() {
    // a zero-length control polygon: the count heuristic still yields
    // segments, all of them degenerate at the single point
    let c = curve([(5, 5), (5, 5), (5, 5), (5, 5)]);
    let f = c.flatten();
    // the arc bound is zero, so the count is the ceiling of sqrt(800)/8
    assert_eq!(f.len(), 4);
    for s in f.iter() {
        assert_eq!(s.from, pt(5, 5));
        assert_eq!(s.to, pt(5, 5));
    }
}

#[test]
fn point_access() {
    let c = curve([(1, 2), (3, 4), (5, 6), (7, 8)]);
    assert_eq!(c.point_at(0), pt(1, 2));
    assert_eq!(c.point_at(3), pt(7, 8));
    let arr = c.into_points();
    assert_eq!(arr[1], pt(3, 4));
    let edges = c.edges();
    assert!(edges.len() >= 1);
}

#[test]
fn out_of_range_parameters_are_rejected() {
    let c = curve([(0, 0), (10, 10), (20, 10), (30, 0)]);
    assert_eq!(c.try_eval(-1), None);
    assert_eq!(c.try_eval(1025), None);
    assert_eq!(c.try_eval(0), Some(Point::new(0, 0)));
    assert_eq!(c.try_eval(1024), Some(Point::new(30, 0)));
}

#[test]
fn segment_count_rounds_up() {
    // control polygon length 24: sqrt(24*24 + 800) = sqrt(1376) is between
    // 37 and 38, so the ceiling formula gives ceil(38 / 8) = 5 segments
    let c = curve([(0, 0), (8, 0), (16, 0), (24, 0)]);
    assert_eq!(c.flatten().len(), 5);
}
