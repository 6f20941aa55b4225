//! Cubic Bezier curves: construction, exact de Casteljau evaluation, and
//! flattening into straight line segments.
//!
//! Curve parameters run over `0..=PSCALE` instead of the real interval
//! `[0, 1]`; a parameter `t` stands for the real number `t / PSCALE`.  The de
//! Casteljau cascade is computed on exact numerators (denominator
//! `PSCALE^3`), so evaluation is exact rational arithmetic followed by one
//! final rounding toward zero.

use vstd::prelude::*;
use vstd::arithmetic::div_mod::{lemma_div_multiples_vanish, lemma_div_is_ordered};
use crate::geometry::{Point, LineSegment, sqrt_floor, isqrt, distance, spec_distance, tdiv,
    div_trunc, lemma_tdiv_cancel, lemma_tdiv_bound};

verus! {

/// Number of parameter steps that stand for the real interval `[0, 1]`.
pub const PSCALE: i64 = 1024;

/// Denominator of an exact cubic evaluation: `PSCALE` cubed.
pub const EVAL_DEN: i64 = 1073741824;

/// Largest magnitude accepted for an input of one linear-interpolation step.
pub const LERP_IN_LIMIT: i64 = 8796093022208;

/// Exact numerator of one linear interpolation step: the value
/// `a * (1 - t/PSCALE) + b * (t/PSCALE)` scaled by one more factor of
/// `PSCALE`.
pub open spec fn lerp_num(a: int, b: int, t: int) -> int {
    a * (1024 - t) + b * t
}

/// Exact numerator of a quadratic de Casteljau evaluation, denominator
/// `PSCALE^2` relative to the control values.
pub open spec fn quad_num(a: int, b: int, c: int, t: int) -> int {
    lerp_num(lerp_num(a, b, t), lerp_num(b, c, t), t)
}

/// Exact numerator of a cubic de Casteljau evaluation, denominator
/// `PSCALE^3` relative to the control values.
pub open spec fn cubic_num(a: int, b: int, c: int, d: int, t: int) -> int {
    lerp_num(quad_num(a, b, c, t), quad_num(b, c, d, t), t)
}

/// One linear interpolation step stays within the bound of its inputs,
/// scaled by `PSCALE`.
pub proof fn lemma_lerp_num_bound(a: int, b: int, t: int, m: int)
    requires
        -m <= a <= m,
        -m <= b <= m,
        0 <= t <= PSCALE,
        m >= 0,
    ensures
        -m * PSCALE <= lerp_num(a, b, t) <= m * PSCALE,
{
    assert(-m * 1024 <= a * (1024 - t) + b * t <= m * 1024) by (nonlinear_arith)
        requires
            -m <= a <= m,
            -m <= b <= m,
            0 <= t <= 1024,
            m >= 0,
    ;
}

/// The cubic numerator of control values bounded by `m` is bounded by
/// `m * PSCALE^3`.
pub proof fn lemma_cubic_num_bound(a: int, b: int, c: int, d: int, t: int, m: int)
    requires
        -m <= a <= m,
        -m <= b <= m,
        -m <= c <= m,
        -m <= d <= m,
        0 <= t <= PSCALE,
        m >= 0,
    ensures
        -m * 1073741824 <= cubic_num(a, b, c, d, t) <= m * 1073741824,
{
    lemma_lerp_num_bound(a, b, t, m);
    lemma_lerp_num_bound(b, c, t, m);
    lemma_lerp_num_bound(c, d, t, m);
    lemma_lerp_num_bound(lerp_num(a, b, t), lerp_num(b, c, t), t, m * 1024);
    lemma_lerp_num_bound(lerp_num(b, c, t), lerp_num(c, d, t), t, m * 1024);
    lemma_lerp_num_bound(quad_num(a, b, c, t), quad_num(b, c, d, t), t, m * 1048576);
}

/// One exact interpolation step on numerators.
fn lerp_step(a: i64, b: i64, t: i64) -> (r: i64)
    requires
        -LERP_IN_LIMIT <= a <= LERP_IN_LIMIT,
        -LERP_IN_LIMIT <= b <= LERP_IN_LIMIT,
        0 <= t <= PSCALE,
    ensures
        r == lerp_num(a as int, b as int, t as int),
        -9007199254740992 <= r <= 9007199254740992,
{
    proof {
        assert(-9007199254740992 <= a * (1024 - t) + b * t <= 9007199254740992
            && a * (1024 - t) >= -9007199254740992 && a * (1024 - t) <= 9007199254740992
            && b * t >= -9007199254740992 && b * t <= 9007199254740992) by (nonlinear_arith)
            requires
                -8796093022208 <= a <= 8796093022208,
                -8796093022208 <= b <= 8796093022208,
                0 <= t <= 1024,
        ;
    }
    a * (1024 - t) + b * t
}

/// Exact cubic de Casteljau numerator on one coordinate.
pub(crate) fn cubic_num_exec(a: i64, b: i64, c: i64, d: i64, t: i64) -> (r: i64)
    requires
        -8388608 <= a <= 8388608,
        -8388608 <= b <= 8388608,
        -8388608 <= c <= 8388608,
        -8388608 <= d <= 8388608,
        0 <= t <= PSCALE,
    ensures
        r == cubic_num(a as int, b as int, c as int, d as int, t as int),
        -9007199254740992 <= r <= 9007199254740992,
{
    let ab = lerp_step(a, b, t);
    let bc = lerp_step(b, c, t);
    let cd = lerp_step(c, d, t);
    proof {
        lemma_lerp_num_bound(a as int, b as int, t as int, 8388608);
        lemma_lerp_num_bound(b as int, c as int, t as int, 8388608);
        lemma_lerp_num_bound(c as int, d as int, t as int, 8388608);
    }
    let abc = lerp_step(ab, bc, t);
    let bcd = lerp_step(bc, cd, t);
    proof {
        lemma_lerp_num_bound(ab as int, bc as int, t as int, 8589934592);
        lemma_lerp_num_bound(bc as int, cd as int, t as int, 8589934592);
        lemma_lerp_num_bound(abc as int, bcd as int, t as int, 8796093022208);
    }
    lerp_step(abc, bcd, t)
}

/// Exact quadratic de Casteljau numerator on one coordinate.
pub(crate) fn quad_num_exec(a: i64, b: i64, c: i64, t: i64) -> (r: i64)
    requires
        -268435456 <= a <= 268435456,
        -268435456 <= b <= 268435456,
        -268435456 <= c <= 268435456,
        0 <= t <= PSCALE,
    ensures
        r == quad_num(a as int, b as int, c as int, t as int),
        -281474976710656 <= r <= 281474976710656,
{
    let ab = lerp_step(a, b, t);
    let bc = lerp_step(b, c, t);
    proof {
        lemma_lerp_num_bound(a as int, b as int, t as int, 268435456);
        lemma_lerp_num_bound(b as int, c as int, t as int, 268435456);
        lemma_lerp_num_bound(ab as int, bc as int, t as int, 274877906944);
    }
    lerp_step(ab, bc, t)
}

/// Exact linear interpolation numerator on one coordinate.
pub(crate) fn lin_num_exec(a: i64, b: i64, t: i64) -> (r: i64)
    requires
        -1073741824 <= a <= 1073741824,
        -1073741824 <= b <= 1073741824,
        0 <= t <= PSCALE,
    ensures
        r == lerp_num(a as int, b as int, t as int),
        -1099511627776 <= r <= 1099511627776,
{
    proof {
        lemma_lerp_num_bound(a as int, b as int, t as int, 1073741824);
    }
    lerp_step(a, b, t)
}

/// de Casteljau's algorithm for cubic Bezier curves: three rounds of
/// pairwise interpolation, computed on exact numerators and rounded once.
pub fn de_casteljau4(t: i64, w1: Point, w2: Point, w3: Point, w4: Point) -> (r: Point)
    requires
        w1.in_handle_range(),
        w2.in_handle_range(),
        w3.in_handle_range(),
        w4.in_handle_range(),
        0 <= t <= PSCALE,
    ensures
        r.x == tdiv(cubic_num(w1.x as int, w2.x as int, w3.x as int, w4.x as int, t as int),
            EVAL_DEN as int),
        r.y == tdiv(cubic_num(w1.y as int, w2.y as int, w3.y as int, w4.y as int, t as int),
            EVAL_DEN as int),
        r.in_handle_range(),
{
    let xn = cubic_num_exec(w1.x, w2.x, w3.x, w4.x, t);
    let yn = cubic_num_exec(w1.y, w2.y, w3.y, w4.y, t);
    proof {
        lemma_cubic_num_bound(w1.x as int, w2.x as int, w3.x as int, w4.x as int, t as int,
            8388608);
        lemma_cubic_num_bound(w1.y as int, w2.y as int, w3.y as int, w4.y as int, t as int,
            8388608);
        lemma_tdiv_bound(xn as int, EVAL_DEN as int, 8388608);
        lemma_tdiv_bound(yn as int, EVAL_DEN as int, 8388608);
    }
    Point { x: div_trunc(xn, EVAL_DEN), y: div_trunc(yn, EVAL_DEN) }
}

/// de Casteljau's algorithm for quadratic Bezier curves.
pub fn de_casteljau3(t: i64, w1: Point, w2: Point, w3: Point) -> (r: Point)
    requires
        w1.in_handle_range(),
        w2.in_handle_range(),
        w3.in_handle_range(),
        0 <= t <= PSCALE,
    ensures
        r.x == tdiv(quad_num(w1.x as int, w2.x as int, w3.x as int, t as int), 1048576),
        r.y == tdiv(quad_num(w1.y as int, w2.y as int, w3.y as int, t as int), 1048576),
        r.in_handle_range(),
{
    let xn = quad_num_exec(w1.x, w2.x, w3.x, t);
    let yn = quad_num_exec(w1.y, w2.y, w3.y, t);
    proof {
        lemma_lerp_num_bound(w1.x as int, w2.x as int, t as int, 8388608);
        lemma_lerp_num_bound(w2.x as int, w3.x as int, t as int, 8388608);
        lemma_lerp_num_bound(lerp_num(w1.x as int, w2.x as int, t as int),
            lerp_num(w2.x as int, w3.x as int, t as int), t as int, 8589934592);
        lemma_lerp_num_bound(w1.y as int, w2.y as int, t as int, 8388608);
        lemma_lerp_num_bound(w2.y as int, w3.y as int, t as int, 8388608);
        lemma_lerp_num_bound(lerp_num(w1.y as int, w2.y as int, t as int),
            lerp_num(w2.y as int, w3.y as int, t as int), t as int, 8589934592);
        lemma_tdiv_bound(xn as int, 1048576, 8388608);
        lemma_tdiv_bound(yn as int, 1048576, 8388608);
    }
    Point { x: div_trunc(xn, 1048576), y: div_trunc(yn, 1048576) }
}

/// de Casteljau's algorithm for straight lines.
pub fn de_casteljau2(t: i64, w1: Point, w2: Point) -> (r: Point)
    requires
        w1.in_handle_range(),
        w2.in_handle_range(),
        0 <= t <= PSCALE,
    ensures
        r.x == tdiv(lerp_num(w1.x as int, w2.x as int, t as int), 1024),
        r.y == tdiv(lerp_num(w1.y as int, w2.y as int, t as int), 1024),
        r.in_handle_range(),
{
    let xn = lin_num_exec(w1.x, w2.x, t);
    let yn = lin_num_exec(w1.y, w2.y, t);
    proof {
        lemma_lerp_num_bound(w1.x as int, w2.x as int, t as int, 8388608);
        lemma_lerp_num_bound(w1.y as int, w2.y as int, t as int, 8388608);
        lemma_tdiv_bound(xn as int, 1024, 8388608);
        lemma_tdiv_bound(yn as int, 1024, 8388608);
    }
    Point { x: div_trunc(xn, 1024), y: div_trunc(yn, 1024) }
}

/// A cubic Bezier curve: start point, two control handles, end point.
#[derive(Clone, Copy, Debug)]
pub struct BezierCurve {
    pub points: [Point; 4],
}

impl BezierCurve {
    /// Control point `i` as a spec value.
    pub open spec fn pt(self, i: int) -> Point {
        self.points[i]
    }

    /// Every control point lies in the engine's control-point range.
    pub open spec fn wf(self) -> bool {
        forall|i: int| 0 <= i < 4 ==> #[trigger] self.pt(i).in_handle_range()
    }

    /// Exact numerator of the x coordinate at parameter `t`.
    pub open spec fn eval_num_x(self, t: int) -> int {
        cubic_num(self.pt(0).x as int, self.pt(1).x as int, self.pt(2).x as int,
            self.pt(3).x as int, t)
    }

    /// Exact numerator of the y coordinate at parameter `t`.
    pub open spec fn eval_num_y(self, t: int) -> int {
        cubic_num(self.pt(0).y as int, self.pt(1).y as int, self.pt(2).y as int,
            self.pt(3).y as int, t)
    }

    /// The point returned by evaluation: the exact value rounded toward
    /// zero.
    pub open spec fn spec_eval(self, t: int) -> Point {
        Point {
            x: tdiv(self.eval_num_x(t), EVAL_DEN as int) as i64,
            y: tdiv(self.eval_num_y(t), EVAL_DEN as int) as i64,
        }
    }

    pub fn from_points(points: [Point; 4]) -> (r: BezierCurve)
        ensures
            r.points == points,
            r.pt(0) == points[0],
            r.pt(1) == points[1],
            r.pt(2) == points[2],
            r.pt(3) == points[3],
    {
        BezierCurve { points }
    }

    /// Control point by index.
    pub fn point_at(&self, index: usize) -> (r: Point)
        requires
            index < 4,
        ensures
            r == self.pt(index as int),
    {
        self.points[index]
    }

    /// All four control points.
    pub fn points(&self) -> (r: &[Point; 4])
        ensures
            r == self.points,
    {
        &self.points
    }

    /// Evaluate the curve, rejecting a parameter outside the range
    /// `0..=PSCALE` as a plain precondition failure rather than a
    /// numerical fallback.
    pub fn try_eval(&self, param: i64) -> (r: Option<Point>)
        requires
            self.wf(),
        ensures
            r is Some <==> 0 <= param <= PSCALE,
            r is Some ==> r->0 == self.spec_eval(param as int),
    {
        if 0 <= param && param <= PSCALE {
            Some(self.eval(param))
        } else {
            None
        }
    }

    /// Control points of the curve's first derivative: scaled differences
    /// of adjacent control points, conceptually a quadratic curve.  Used by
    /// the fitter's Newton-Raphson reparameterization.
    pub fn derivative_points(&self) -> (r: [Point; 3])
        requires
            self.wf(),
        ensures
            forall|i: int|
                0 <= i < 3 ==> (#[trigger] r[i]).x == 3 * (self.pt(i + 1).x - self.pt(i).x)
                    && r[i].y == 3 * (self.pt(i + 1).y - self.pt(i).y),
    {
        proof {
            assert(self.pt(0).in_handle_range());
            assert(self.pt(1).in_handle_range());
            assert(self.pt(2).in_handle_range());
            assert(self.pt(3).in_handle_range());
        }
        let r = [
            Point {
                x: (self.points[1].x - self.points[0].x) * 3,
                y: (self.points[1].y - self.points[0].y) * 3,
            },
            Point {
                x: (self.points[2].x - self.points[1].x) * 3,
                y: (self.points[2].y - self.points[1].y) * 3,
            },
            Point {
                x: (self.points[3].x - self.points[2].x) * 3,
                y: (self.points[3].y - self.points[2].y) * 3,
            },
        ];
        r
    }

    /// Mutable access to the control points, for an editor that reconnects
    /// endpoints when stitching shapes together.
    pub fn points_mut(&mut self) -> (r: &mut [Point; 4])
        ensures
            *r == old(self).points,
            final (self).points == *final (r),
    {
        &mut self.points
    }

    /// The four control points, by value.
    pub fn into_points(self) -> (r: [Point; 4])
        ensures
            r == self.points,
    {
        self.points
    }

    /// Sum of the control-polygon edge lengths: an upper-bound estimate of
    /// the arc length, used to size the flattening.
    pub open spec fn spec_arc_bound(self) -> nat {
        spec_distance(self.pt(0), self.pt(1)) + spec_distance(self.pt(1), self.pt(2))
            + spec_distance(self.pt(2), self.pt(3))
    }

    /// Number of straight segments a flattening of this curve produces:
    /// the ceiling of one eighth of the root of the squared arc bound plus
    /// a smoothing constant.
    pub open spec fn spec_segment_count(self) -> nat {
        (crate::geometry::sqrt_ceil((self.spec_arc_bound() * self.spec_arc_bound()
            + 800) as nat) + 7) / 8
    }

    /// Evaluate the curve at a parameter over `0..=PSCALE` by de Casteljau's
    /// cascade, exactly, rounding the final rational coordinates toward
    /// zero.
    pub fn eval(&self, param: i64) -> (r: Point)
        requires
            self.wf(),
            0 <= param <= PSCALE,
        ensures
            r == self.spec_eval(param as int),
            r.in_handle_range(),
            param == 0 ==> r == self.pt(0),
            param == PSCALE ==> r == self.pt(3),
    {
        proof {
            assert(self.pt(0).in_handle_range());
            assert(self.pt(1).in_handle_range());
            assert(self.pt(2).in_handle_range());
            assert(self.pt(3).in_handle_range());
            lemma_spec_eval_fields(*self, param as int);
            lemma_eval_endpoints(*self);
        }
        let r = de_casteljau4(param, self.points[0], self.points[1], self.points[2],
            self.points[3]);
        r
    }
}

/// The rounded evaluation result is the pair of rounded exact coordinates,
/// and stays in the control-point range.
pub proof fn lemma_spec_eval_fields(c: BezierCurve, t: int)
    requires
        c.wf(),
        0 <= t <= PSCALE,
    ensures
        c.spec_eval(t).x == tdiv(c.eval_num_x(t), EVAL_DEN as int),
        c.spec_eval(t).y == tdiv(c.eval_num_y(t), EVAL_DEN as int),
        c.spec_eval(t).in_handle_range(),
{
    assert(c.pt(0).in_handle_range());
    assert(c.pt(1).in_handle_range());
    assert(c.pt(2).in_handle_range());
    assert(c.pt(3).in_handle_range());
    lemma_cubic_num_bound(c.pt(0).x as int, c.pt(1).x as int, c.pt(2).x as int, c.pt(3).x as int,
        t, 8388608);
    lemma_cubic_num_bound(c.pt(0).y as int, c.pt(1).y as int, c.pt(2).y as int, c.pt(3).y as int,
        t, 8388608);
    lemma_tdiv_bound(c.eval_num_x(t), EVAL_DEN as int, 8388608);
    lemma_tdiv_bound(c.eval_num_y(t), EVAL_DEN as int, 8388608);
}

/// Evaluation at the ends of the parameter range returns the first and the
/// last control point exactly: the curve interpolates its endpoints.
pub proof fn lemma_eval_endpoints(c: BezierCurve)
    requires
        c.wf(),
    ensures
        c.spec_eval(0) == c.pt(0),
        c.spec_eval(PSCALE as int) == c.pt(3),
{
    assert(c.pt(0).in_handle_range());
    assert(c.pt(3).in_handle_range());
    assert(c.eval_num_x(0) == (c.pt(0).x as int) * 1073741824);
    assert(c.eval_num_y(0) == (c.pt(0).y as int) * 1073741824);
    assert(c.eval_num_x(1024) == (c.pt(3).x as int) * 1073741824);
    assert(c.eval_num_y(1024) == (c.pt(3).y as int) * 1073741824);
    lemma_tdiv_cancel(c.pt(0).x as int, 1073741824);
    lemma_tdiv_cancel(c.pt(0).y as int, 1073741824);
    lemma_tdiv_cancel(c.pt(3).x as int, 1073741824);
    lemma_tdiv_cancel(c.pt(3).y as int, 1073741824);
}

/// Parameter of flattening step `i` out of `n`.
pub open spec fn spec_flat_t(i: int, n: int) -> int {
    (i * 1024) / n
}

/// Flattening parameters stay in the parameter range and hit both ends
/// exactly.
pub proof fn lemma_flat_t_range(i: int, n: int)
    requires
        0 <= i <= n,
        n >= 1,
    ensures
        0 <= spec_flat_t(i, n) <= 1024,
        spec_flat_t(0, n) == 0,
        spec_flat_t(n, n) == 1024,
        i < n ==> spec_flat_t(i, n) < 1024,
{
    assert(n * 1024 == 1024 * n) by (nonlinear_arith);
    lemma_div_multiples_vanish(1024, n);
    assert(spec_flat_t(n, n) == 1024);
    assert(i * 1024 >= 0) by (nonlinear_arith)
        requires
            i >= 0,
    ;
    assert(spec_flat_t(i, n) >= 0) by {
        assert(0int / n == 0) by (nonlinear_arith)
            requires
                n >= 1,
        ;
        lemma_div_is_ordered(0, i * 1024, n);
    }
    assert(i * 1024 <= n * 1024);
    lemma_div_is_ordered(i * 1024, n * 1024, n);
    if i < n {
        assert(i * 1024 + 1024 <= n * 1024);
        assert((i * 1024) / n < 1024) by {
            if (i * 1024) / n >= 1024 {
                assert(i * 1024 >= n * 1024) by (nonlinear_arith)
                    requires
                        (i * 1024) / n >= 1024,
                        n >= 1,
                        i * 1024 >= 0,
                ;
            }
        }
    }
}

impl BezierCurve {
    /// The flattening of the curve as a mathematical value: one chord per
    /// parameter step.
    pub open spec fn spec_flatten(self) -> Seq<LineSegment> {
        Seq::new(self.spec_segment_count(),
            |i: int|
                LineSegment {
                    from: self.spec_eval(spec_flat_t(i, self.spec_segment_count() as int)),
                    to: self.spec_eval(spec_flat_t(i + 1, self.spec_segment_count() as int)),
                },
        )
    }

    /// Number of segments a flattening produces: a stable function of the
    /// curve alone, always at least one.
    pub fn segment_count(&self) -> (n: u64)
        requires
            self.wf(),
        ensures
            n == self.spec_segment_count(),
            4 <= n <= 16777216,
    {
        proof {
            assert(self.pt(0).in_handle_range());
            assert(self.pt(1).in_handle_range());
            assert(self.pt(2).in_handle_range());
            assert(self.pt(3).in_handle_range());
        }
        let d01 = distance(self.points[0], self.points[1]);
        let d12 = distance(self.points[1], self.points[2]);
        let d23 = distance(self.points[2], self.points[3]);
        let clb = d01 + d12 + d23;
        proof {
            assert(clb * clb <= 10133099161583616 && clb * clb >= 0) by (nonlinear_arith)
                requires
                    0 <= clb <= 100663296,
            ;
        }
        let sq = clb * clb + 800;
        let root = isqrt(sq);
        proof {
            if root > 134217727 {
                assert((root as int) * (root as int) > 10133099161583616 + 800)
                    by (nonlinear_arith)
                    requires
                        root as int >= 134217728,
                ;
            }
            assert(root * root <= 18014398509481984) by (nonlinear_arith)
                requires
                    0 <= root <= 134217727,
            ;
        }
        let root_c: u64 = if root * root == sq {
            root
        } else {
            root + 1
        };
        let n = (root_c + 7) / 8;
        proof {
            assert(root_c == crate::geometry::sqrt_ceil(sq as nat));
            if root < 28 {
                assert((root + 1) * (root + 1) <= 784) by (nonlinear_arith)
                    requires
                        0 <= root <= 27,
                ;
            }
            assert(root_c >= 29) by {
                if root == 28 {
                    assert(root * root == 784) by (nonlinear_arith)
                        requires
                            root == 28,
                    ;
                }
            }
            lemma_div_is_ordered(36, root_c as int + 7, 8);
            assert(36int / 8 == 4);
            lemma_div_is_ordered(root_c as int + 7, 134217735, 8);
            assert(134217735int / 8 == 16777216);
        }
        n
    }

    /// Flatten the curve into straight segments: `spec_segment_count`
    /// chords between evaluations at evenly spaced parameters.  The chain
    /// starts at the first control point, ends at the last, and consecutive
    /// segments share their meeting point.
    pub fn flatten(&self) -> (segs: Vec<LineSegment>)
        requires
            self.wf(),
        ensures
            segs@.len() == self.spec_segment_count(),
            segs@.len() >= 1,
            forall|i: int|
                0 <= i < segs@.len() ==> (#[trigger] segs@[i]).from == self.spec_eval(
                    spec_flat_t(i, segs@.len() as int)) && segs@[i].to == self.spec_eval(
                    spec_flat_t(i + 1, segs@.len() as int)),
            segs@[0].from == self.pt(0),
            segs@[segs@.len() - 1].to == self.pt(3),
            forall|i: int|
                0 <= i < segs@.len() - 1 ==> (#[trigger] segs@[i]).to == segs@[i + 1].from,
            forall|i: int|
                0 <= i < segs@.len() ==> (#[trigger] segs@[i]).from.in_handle_range()
                    && segs@[i].to.in_handle_range(),
            segs@ == self.spec_flatten(),
    {
        let n = self.segment_count();
        let mut segs: Vec<LineSegment> = Vec::new();
        proof {
            lemma_flat_t_range(0, n as int);
        }
        let mut prev = self.eval(0);
        let mut i: u64 = 0;
        while i < n
            invariant
                self.wf(),
                4 <= n <= 16777216,
                n == self.spec_segment_count(),
                i <= n,
                segs@.len() == i,
                prev == self.spec_eval(spec_flat_t(i as int, n as int)),
                prev.in_handle_range(),
                forall|j: int|
                    0 <= j < i ==> (#[trigger] segs@[j]).from == self.spec_eval(
                        spec_flat_t(j, n as int)) && segs@[j].to == self.spec_eval(
                        spec_flat_t(j + 1, n as int)),
                forall|j: int|
                    0 <= j < i ==> (#[trigger] segs@[j]).from.in_handle_range()
                        && segs@[j].to.in_handle_range(),
            decreases n - i,
        {
            proof {
                lemma_flat_t_range(i as int + 1, n as int);
                lemma_spec_eval_fields(*self, spec_flat_t(i as int + 1, n as int));
            }
            let ti1 = ((i + 1) * 1024) / n;
            let cur = self.eval(ti1 as i64);
            segs.push(LineSegment { from: prev, to: cur });
            prev = cur;
            i = i + 1;
        }
        proof {
            lemma_flat_t_range(0, n as int);
            lemma_flat_t_range(n as int, n as int);
            lemma_eval_endpoints(*self);
            assert(segs@[0].from == self.spec_eval(spec_flat_t(0, n as int)));
            assert(segs@[segs@.len() - 1].to == self.spec_eval(spec_flat_t(n as int, n as int)));
            assert(segs@ =~= self.spec_flatten());
        }
        segs
    }

    /// The flattened edges of the curve, the name the editor shell uses
    /// for the flattening.
    pub fn edges(&self) -> (segs: Vec<LineSegment>)
        requires
            self.wf(),
        ensures
            segs@ == self.spec_flatten(),
            segs@.len() >= 1,
    {
        self.flatten()
    }
}

/// Flattening is stable and productive: the number of segments is a
/// function of the curve alone -- flattening the same curve again yields
/// the same count -- and is always at least one.
pub proof fn lemma_flatten_count(c: BezierCurve)
    ensures
        c.spec_flatten().len() == c.spec_segment_count(),
        c.spec_segment_count() >= 1,
{
    let b = c.spec_arc_bound();
    let n = (b * b + 800) as nat;
    crate::geometry::lemma_sqrt_floor(n);
    let r = sqrt_floor(n);
    let rc = crate::geometry::sqrt_ceil(n);
    assert(b * b >= 0) by (nonlinear_arith);
    if r < 28 {
        assert((r + 1) * (r + 1) <= 784) by (nonlinear_arith)
            requires
                0 <= r <= 27,
        ;
    }
    assert(rc >= 29) by {
        if r == 28 {
            assert(r * r == 784) by (nonlinear_arith)
                requires
                    r == 28,
            ;
        }
    }
    lemma_div_is_ordered(36, rc as int + 7, 8);
    assert(36int / 8 == 4);
}

} // verus!
