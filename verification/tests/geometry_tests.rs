use strokefit::{LineSegment, Point};
use strokefit::geometry::{cross, distance, fit_line, isqrt, sqdist};

fn pt(x: i64, y: i64) -> Point {
    Point::new(x, y)
}

fn seg(x0: i64, y0: i64, x1: i64, y1: i64) -> LineSegment {
    LineSegment::new(pt(x0, y0), pt(x1, y1))
}

#[test]
fn isqrt_exact_values() {
    assert_eq!(isqrt(0), 0);
    assert_eq!(isqrt(1), 1);
    assert_eq!(isqrt(3), 1);
    assert_eq!(isqrt(4), 2);
    assert_eq!(isqrt(800), 28);
    assert_eq!(isqrt(1_000_000), 1000);
    assert_eq!(isqrt(u64::MAX), 0xFFFF_FFFF);
}

#[test]
fn distances_and_cross_products() {
    assert_eq!(sqdist(pt(0, 0), pt(3, 4)), 25);
    assert_eq!(distance(pt(0, 0), pt(3, 4)), 5);
    assert_eq!(distance(pt(0, 0), pt(1, 1)), 1);
    assert_eq!(cross(pt(2, 0), pt(0, 3)), 6);
    assert_eq!(cross(pt(1, 1), pt(2, 2)), 0);
}

#[test]
fn degenerate_segments() {
    assert!(seg(5, 5, 5, 5).is_degenerate());
    assert!(!seg(5, 5, 6, 5).is_degenerate());
}

#[test]
fn sampling_hits_the_endpoints() {
    let s = seg(10, 20, 30, 60);
    assert_eq!(s.sample_at(0), pt(10, 20));
    assert_eq!(s.sample_at(1024), pt(30, 60));
    assert_eq!(s.sample_at(512), pt(20, 40));
}

#[test]
fn crossing_segments_intersect() {
    let a = seg(0, 0, 10, 0);
    let b = seg(5, -5, 5, 5);
    let t = a.intersects_at(&b);
    // the crossing sits midway along `a`
    assert_eq!(t, Some(512));
    // parallel segments do not intersect, as a normal result
    let c = seg(0, 1, 10, 1);
    assert_eq!(a.intersects_at(&c), None);
    // disjoint segments do not intersect either
    let d = seg(20, -5, 20, 5);
    assert_eq!(a.intersects_at(&d), None);
}

#[test]
fn least_squares_line_on_exact_data() {
    // points on y = x: slope one (1024 at scale), intercept zero
    let points = vec![pt(0, 0), pt(10, 10), pt(20, 20), pt(30, 30)];
    let r = fit_line(&points);
    assert_eq!(r, Some((1024, 0)));
}

#[test]
fn least_squares_line_guards_vertical_runs() {
    // all points share one x coordinate: the solve is degenerate
    let points = vec![pt(5, 0), pt(5, 10), pt(5, 20)];
    assert_eq!(fit_line(&points), None);
}
