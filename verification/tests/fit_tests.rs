use strokefit::{fit_curve, BezierCurve, Point};

fn pt(x: i64, y: i64) -> Point {
    Point::new(x, y)
}

#[test]
fn too_few_points_yield_empty() {
    assert_eq!(fit_curve(&vec![], 0).len(), 0);
    assert_eq!(fit_curve(&vec![pt(3, 4)], 0).len(), 0);
}

#[test]
fn two_point_fit_is_exact() {
    let points = vec![pt(0, 0), pt(100, 40)];
    let curves = fit_curve(&points, 12345);
    assert_eq!(curves.len(), 1);
    let cps = curves[0].points();
    assert_eq!(cps[0], pt(0, 0));
    assert_eq!(cps[3], pt(100, 40));

    // the same holds at any tolerance
    let curves = fit_curve(&points, 0);
    assert_eq!(curves.len(), 1);
    assert_eq!(curves[0].points()[0], pt(0, 0));
    assert_eq!(curves[0].points()[3], pt(100, 40));
}

#[test]
fn collinear_points_fit_one_curve_at_zero_tolerance() {
    let points = vec![pt(0, 0), pt(5, 0), pt(10, 0)];
    let curves = fit_curve(&points, 0);
    assert_eq!(curves.len(), 1);
    let cps = curves[0].points();
    assert_eq!(cps[0], pt(0, 0));
    assert_eq!(cps[3], pt(10, 0));
    // the curve degenerates to a straight horizontal line
    assert_eq!(cps[1].y, 0);
    assert_eq!(cps[2].y, 0);
    for t in [0, 256, 512, 768, 1024] {
        assert_eq!(curves[0].eval(t).y, 0);
    }
}

#[test]
fn fit_order_and_continuity() {
    // a wavy run that forces at least one split at a tight tolerance
    let mut points = Vec::new();
    for i in 0..30i64 {
        let y = if (i / 5) % 2 == 0 { i % 5 } else { 5 - i % 5 };
        points.push(pt(i * 10, y * 12));
    }
    let curves = fit_curve(&points, 4);
    assert!(curves.len() >= 1);
    // endpoints of the whole chain are the run's endpoints
    assert_eq!(curves[0].points()[0], points[0]);
    assert_eq!(curves[curves.len() - 1].points()[3], points[points.len() - 1]);
    // consecutive curves share their meeting point exactly
    for w in curves.windows(2) {
        assert_eq!(w[0].points()[3], w[1].points()[0]);
    }
}

#[test]
fn noisy_sine_splits_but_generalizes() {
    // one period sampled at 50 points with deterministic noise
    let mut points = Vec::new();
    for i in 0..50i64 {
        let phase = (i as f64) * core::f64::consts::TAU / 49.0;
        let noise = if i % 2 == 0 { 1.0 } else { -1.0 };
        let y = 60.0 * phase.sin() + noise;
        points.push(pt(i * 12, y.round() as i64));
    }
    let curves = fit_curve(&points, 1);
    assert!(curves.len() > 1, "a tight tolerance must force at least one split");
    assert!(curves.len() < 50, "the fit must generalize, not emit one curve per point");
    // order is preserved across all the splits
    assert_eq!(curves[0].points()[0], points[0]);
    assert_eq!(curves[curves.len() - 1].points()[3], points[49]);
    for w in curves.windows(2) {
        assert_eq!(w[0].points()[3], w[1].points()[0]);
    }
}

#[test]
fn fit_to_matches_fit_curve() {
    let points = vec![pt(0, 0), pt(40, 40), pt(80, 0)];
    let a = fit_curve(&points, 100);
    let b = BezierCurve::fit_to(&points, 100);
    assert_eq!(a.len(), b.len());
    for (c1, c2) in a.iter().zip(b.iter()) {
        assert_eq!(c1.points()[0], c2.points()[0]);
        assert_eq!(c1.points()[3], c2.points()[3]);
    }
}

#[test]
fn identical_points_run_terminates() {
    // a run of identical points must not loop forever or panic
    let points = vec![pt(7, 7), pt(7, 7), pt(7, 7), pt(7, 7)];
    let curves = fit_curve(&points, 0);
    assert!(curves.len() >= 1);
    assert_eq!(curves[0].points()[0], pt(7, 7));
    assert_eq!(curves[curves.len() - 1].points()[3], pt(7, 7));
}

#[test]
fn tolerance_holds_at_some_parameter() {
    // every input point must be near its fitted curve at some parameter;
    // scanning all parameters finds the witness, with a small allowance
    // for the rounding of the evaluator's output coordinates
    let mut points = Vec::new();
    for i in 0..20i64 {
        let y = (i * i) % 37;
        points.push(pt(i * 15, y * 3));
    }
    let error = 100i64;
    let curves = fit_curve(&points, error);
    for p in points.iter() {
        let mut best = i64::MAX;
        for c in curves.iter() {
            for t in 0..=1024i64 {
                let q = c.eval(t);
                let dx = q.x - p.x;
                let dy = q.y - p.y;
                best = best.min(dx * dx + dy * dy);
            }
        }
        assert!(best <= error + 50, "point {:?} is {} away squared", p, best);
    }
}

#[test]
fn two_point_fit_places_handles_at_thirds() {
    // base case: handles one third of the chord along each end tangent
    let points = vec![pt(0, 0), pt(30, 0)];
    let curves = fit_curve(&points, 7);
    assert_eq!(curves.len(), 1);
    let cps = curves[0].points();
    assert_eq!(cps[0], pt(0, 0));
    assert_eq!(cps[1], pt(10, 0));
    assert_eq!(cps[2], pt(20, 0));
    assert_eq!(cps[3], pt(30, 0));
}
