//! Fitting an ordered run of points with a minimal sequence of cubic Bezier
//! curves, by recursive least-squares fitting with Newton-Raphson
//! reparameterization, after the classical Graphics Gems method.
//!
//! Error comparisons are exact: a fitted curve is evaluated at each point's
//! parameter as a rational number, and the squared distance numerator is
//! compared against the tolerance scaled by the common denominator.  The
//! tolerance is a squared distance in sub-pixel units.

use vstd::prelude::*;
use vstd::arithmetic::div_mod::lemma_div_is_ordered;
use crate::geometry::{Point, isqrt, distance, div_trunc, lemma_tdiv_bound, tdiv, sdiv};
use crate::bezier::{
    BezierCurve, PSCALE, lerp_num, quad_num, lemma_cubic_num_bound, quad_num_exec,
    lin_num_exec,
};

verus! {

/// Largest control-handle offset the solver accepts before it falls back to
/// the chord heuristic.
pub const ALPHA_LIMIT: i64 = 4194304;

/// A unit-direction vector at the fixed-point scale of 1024, as produced
/// by normalization.
pub open spec fn is_tangent(v: Point) -> bool {
    -1024 <= v.x <= 1024 && -1024 <= v.y <= 1024
}

/// Exact numerator of the squared distance between point `p` and the curve
/// evaluated at parameter `t`; the denominator is `PSCALE^6`.
pub open spec fn err_num(c: BezierCurve, p: Point, t: int) -> int {
    let dx = c.eval_num_x(t) - (p.x as int) * 1073741824;
    let dy = c.eval_num_y(t) - (p.y as int) * 1073741824;
    dx * dx + dy * dy
}

/// Point `p` lies within squared distance `e` of the curve at parameter
/// `t`, compared exactly.
pub open spec fn within_err(c: BezierCurve, p: Point, t: int, e: int) -> bool {
    0 <= t <= 1024 && err_num(c, p, t) <= e * 1152921504606846976
}

/// Some curve of the sequence passes within squared distance `e` of point
/// `i` at some parameter.
pub open spec fn covered(points: Seq<Point>, i: int, curves: Seq<BezierCurve>, e: int) -> bool {
    exists|j: int, t: int|
        0 <= j < curves.len() && #[trigger] within_err(curves[j], points[i], t, e)
}

/// The curves' endpoints trace the run `points[start..end]` from left to
/// right: `idxs` lists the input indices at which consecutive curves meet,
/// strictly increasing from `start` to `end - 1`.
pub open spec fn chain(
    points: Seq<Point>,
    curves: Seq<BezierCurve>,
    idxs: Seq<int>,
    start: int,
    end: int,
) -> bool {
    &&& idxs.len() == curves.len() + 1
    &&& curves.len() >= 1
    &&& idxs[0] == start
    &&& idxs[curves.len() as int] == end - 1
    &&& forall|j: int| 0 <= j < curves.len() ==> #[trigger] idxs[j] < idxs[j + 1]
    &&& forall|j: int|
        0 <= j < curves.len() ==> (#[trigger] curves[j]).pt(0) == points[idxs[j]]
            && curves[j].pt(3) == points[idxs[j + 1]]
}

/// All curves of a fit result are well formed.
pub open spec fn all_wf(curves: Seq<BezierCurve>) -> bool {
    forall|j: int| 0 <= j < curves.len() ==> (#[trigger] curves[j]).wf()
}

/// The normalized direction of a vector at the fixed-point scale of 1024:
/// each component scaled by 1024 and divided by the vector's length, or the
/// zero vector for a zero-length input.
pub open spec fn spec_normalize(dx: int, dy: int) -> Point {
    let len = crate::geometry::sqrt_floor((dx * dx + dy * dy) as nat) as int;
    if len == 0 {
        Point { x: 0, y: 0 }
    } else {
        Point { x: tdiv(dx * 1024, len) as i64, y: tdiv(dy * 1024, len) as i64 }
    }
}

/// The unit tangent at the start of a run: toward the second point.
pub open spec fn spec_left_tangent(points: Seq<Point>, end: int) -> Point {
    spec_normalize(points[end + 1].x - points[end].x, points[end + 1].y - points[end].y)
}

/// The unit tangent at the end of a run: toward the next-to-last point.
pub open spec fn spec_right_tangent(points: Seq<Point>, end: int) -> Point {
    spec_normalize(points[end - 1].x - points[end].x, points[end - 1].y - points[end].y)
}

/// The center tangent at a split point: the direction of the sum of the
/// two chord vectors meeting there, which runs from the successor point to
/// the predecessor point.
pub open spec fn spec_center_tangent(points: Seq<Point>, center: int) -> Point {
    spec_normalize(points[center - 1].x - points[center + 1].x, points[center - 1].y
        - points[center + 1].y)
}

/// Normalize a direction to the fixed-point scale of 1024, falling back to
/// the zero vector for a zero-length input.
fn normalize_dir(dx: i64, dy: i64) -> (r: Point)
    requires
        -4194304 <= dx <= 4194304,
        -4194304 <= dy <= 4194304,
    ensures
        is_tangent(r),
        r == spec_normalize(dx as int, dy as int),
{
    proof {
        assert(dx * dx <= 17592186044416 && dx * dx >= 0) by (nonlinear_arith)
            requires
                -4194304 <= dx <= 4194304,
        ;
        assert(dy * dy <= 17592186044416 && dy * dy >= 0) by (nonlinear_arith)
            requires
                -4194304 <= dy <= 4194304,
        ;
    }
    let sx: i64 = dx * dx;
    let sy: i64 = dy * dy;
    let sq: u64 = (sx as u64) + (sy as u64);
    let len = isqrt(sq);
    if len == 0 {
        Point { x: 0, y: 0 }
    } else {
        proof {
            if dx > len {
                assert(dx * dx > (len as int) * (len as int) + 2 * (len as int))
                    by (nonlinear_arith)
                    requires
                        dx >= len + 1,
                        len >= 0,
                ;
            }
            if -dx > len {
                assert(dx * dx > (len as int) * (len as int) + 2 * (len as int))
                    by (nonlinear_arith)
                    requires
                        -dx >= len + 1,
                        len >= 0,
                ;
            }
            if dy > len {
                assert(dy * dy > (len as int) * (len as int) + 2 * (len as int))
                    by (nonlinear_arith)
                    requires
                        dy >= len + 1,
                        len >= 0,
                ;
            }
            if -dy > len {
                assert(dy * dy > (len as int) * (len as int) + 2 * (len as int))
                    by (nonlinear_arith)
                    requires
                        -dy >= len + 1,
                        len >= 0,
                ;
            }
            assert((len + 1) * (len + 1) == (len as int) * (len as int) + 2 * (len as int) + 1)
                by (nonlinear_arith);
            if len > 16777216 {
                assert((len as int) * (len as int) > 35184372088832) by (nonlinear_arith)
                    requires
                        len >= 16777217,
                ;
            }
            lemma_tdiv_bound(dx * 1024, len as int, 1024);
            lemma_tdiv_bound(dy * 1024, len as int, 1024);
        }
        let nx = div_trunc(dx * 1024, len as i64);
        let ny = div_trunc(dy * 1024, len as i64);
        Point { x: nx, y: ny }
    }
}

/// Unit direction from a point of the run toward its successor.
fn compute_left_tangent(points: &Vec<Point>, end: usize) -> (r: Point)
    requires
        end + 1 < points@.len(),
        points@.len() <= 1048576,
        forall|i: int| 0 <= i < points@.len() ==> (#[trigger] points@[i]).in_range(),
    ensures
        is_tangent(r),
        r == spec_left_tangent(points@, end as int),
{
    let a = points[end + 1];
    let b = points[end];
    normalize_dir(a.x - b.x, a.y - b.y)
}

/// Unit direction from a point of the run toward its predecessor.
fn compute_right_tangent(points: &Vec<Point>, end: usize) -> (r: Point)
    requires
        0 < end < points@.len(),
        points@.len() <= 1048576,
        forall|i: int| 0 <= i < points@.len() ==> (#[trigger] points@[i]).in_range(),
    ensures
        is_tangent(r),
        r == spec_right_tangent(points@, end as int),
{
    let a = points[end - 1];
    let b = points[end];
    normalize_dir(a.x - b.x, a.y - b.y)
}

/// Average of the two chord directions meeting at a split point.
fn compute_center_tangent(points: &Vec<Point>, center: usize) -> (r: Point)
    requires
        0 < center,
        center + 1 < points@.len(),
        points@.len() <= 1048576,
        forall|i: int| 0 <= i < points@.len() ==> (#[trigger] points@[i]).in_range(),
    ensures
        is_tangent(r),
        r == spec_center_tangent(points@, center as int),
{
    let pm = points[center - 1];
    let pc = points[center];
    let pp = points[center + 1];
    let v1x = pm.x - pc.x;
    let v1y = pm.y - pc.y;
    let v2x = pc.x - pp.x;
    let v2y = pc.y - pp.y;
    normalize_dir(v1x + v2x, v1y + v2y)
}

/// Cumulative chord length from the run's first point up to its `k`-th.
pub open spec fn spec_cum_dist(points: Seq<Point>, start: int, k: int) -> int
    decreases k,
{
    if k <= 0 {
        0
    } else {
        spec_cum_dist(points, start, k - 1) + crate::geometry::spec_distance(points[start + k
            - 1], points[start + k])
    }
}

/// The chord-length parameter of point `k` of a run of `n` points, over
/// `0..=1024`: proportional to the cumulative chord length, or evenly
/// spaced when the whole run has zero length.
pub open spec fn spec_chord_u(points: Seq<Point>, start: int, n: int, k: int) -> int {
    let total = spec_cum_dist(points, start, n - 1);
    if total == 0 {
        (k * 1024) / (n - 1)
    } else {
        (spec_cum_dist(points, start, k) * 1024) / total
    }
}

/// Assign each point of the run a parameter in `0..=PSCALE` proportional to
/// the cumulative chord length from the run's first point.  The first
/// parameter is zero, the last is full scale, and parameters never
/// decrease.  A run of identical points falls back to evenly spaced
/// parameters.
fn chord_length_parameterize(points: &Vec<Point>, start: usize, end: usize) -> (u: Vec<i64>)
    requires
        start < end <= points@.len(),
        end - start >= 2,
        points@.len() <= 1048576,
        forall|i: int| 0 <= i < points@.len() ==> (#[trigger] points@[i]).in_range(),
    ensures
        u@.len() == end - start,
        forall|k: int| 0 <= k < u@.len() ==> 0 <= #[trigger] u@[k] <= 1024,
        forall|k: int|
            0 <= k < u@.len() ==> #[trigger] u@[k] == spec_chord_u(points@, start as int, (end
                - start) as int, k),
        u@[0] == 0,
        u@[u@.len() - 1] == 1024,
        forall|k: int| 0 <= k < u@.len() - 1 ==> #[trigger] u@[k] <= u@[k + 1],
{
    let n = end - start;
    let mut cum: Vec<u64> = Vec::new();
    cum.push(0);
    let mut k: usize = 1;
    while k < n
        invariant
            1 <= k <= n,
            n == end - start,
            start < end <= points@.len(),
            points@.len() <= 1048576,
            forall|i: int| 0 <= i < points@.len() ==> (#[trigger] points@[i]).in_range(),
            cum@.len() == k,
            forall|j: int| 0 <= j < k ==> #[trigger] cum@[j] <= (j as u64) * 33554432,
            forall|j: int| 0 <= j < k - 1 ==> #[trigger] cum@[j] <= cum@[j + 1],
            forall|j: int|
                0 <= j < k ==> #[trigger] cum@[j] == spec_cum_dist(points@, start as int, j),
        decreases n - k,
    {
        proof {
            assert(points@[start + k - 1].in_range());
            assert(points@[start + k].in_range());
        }
        let d = distance(points[start + k - 1], points[start + k]);
        let prev = cum[k - 1];
        cum.push(prev + d);
        k = k + 1;
    }
    let total = cum[n - 1];
    let ghost n_i = n as int;
    let mut u: Vec<i64> = Vec::new();
    let mut k: usize = 0;
    if total == 0 {
        while k < n
            invariant
                k <= n,
                2 <= n <= 1048576,
                n_i == n as int,
                spec_cum_dist(points@, start as int, n_i - 1) == 0,
                u@.len() == k,
                forall|j: int| 0 <= j < k ==> 0 <= #[trigger] u@[j] <= 1024,
                forall|j: int|
                    0 <= j < k ==> #[trigger] u@[j] == spec_chord_u(points@, start as int, n_i,
                        j),
            decreases n - k,
        {
            proof {
                crate::bezier::lemma_flat_t_range(k as int, (n - 1) as int);
            }
            let uk: u64 = if k == n - 1 {
                proof {
                    crate::bezier::lemma_flat_t_range((n - 1) as int, (n - 1) as int);
                }
                1024
            } else {
                ((k as u64) * 1024) / ((n - 1) as u64)
            };
            u.push(uk as i64);
            k = k + 1;
        }
        proof {
            crate::bezier::lemma_flat_t_range(0, (n - 1) as int);
            crate::bezier::lemma_flat_t_range((n - 1) as int, (n - 1) as int);
            lemma_chord_u_monotone(points@, start as int, n_i, u@);
            assert(u@[0] == 0);
            assert(u@[n_i - 1] == 1024);
        }
        u
    } else {
        while k < n
            invariant
                k <= n,
                2 <= n <= 1048576,
                n == end - start,
                n_i == n as int,
                total > 0,
                cum@.len() == n,
                total == cum@[n - 1],
                forall|j: int| 0 <= j < n ==> #[trigger] cum@[j] <= (j as u64) * 33554432,
                forall|j: int| 0 <= j < n - 1 ==> #[trigger] cum@[j] <= cum@[j + 1],
                forall|j: int|
                    0 <= j < n ==> #[trigger] cum@[j] == spec_cum_dist(points@, start as int, j),
                u@.len() == k,
                forall|j: int| 0 <= j < k ==> 0 <= #[trigger] u@[j] <= 1024,
                forall|j: int|
                    0 <= j < k ==> #[trigger] u@[j] == spec_chord_u(points@, start as int, n_i,
                        j),
            decreases n - k,
        {
            proof {
                lemma_cum_le_total(cum@, k as int, (n - 1) as int);
                crate::bezier::lemma_flat_t_range(cum@[k as int] as int, total as int);
                assert(cum@[k as int] <= 35184372088832);
            }
            let ck = cum[k];
            let uk: u64 = (ck * 1024) / total;
            u.push(uk as i64);
            k = k + 1;
        }
        proof {
            crate::bezier::lemma_flat_t_range(0, total as int);
            crate::bezier::lemma_flat_t_range(total as int, total as int);
            lemma_chord_u_monotone(points@, start as int, n_i, u@);
            assert(u@[0] == 0);
            assert(u@[n_i - 1] == 1024);
        }
        u
    }
}

/// Cumulative chord lengths are nonnegative and never decrease.
proof fn lemma_cum_nonneg(points: Seq<Point>, start: int, k: int)
    ensures
        spec_cum_dist(points, start, k) >= 0,
        k >= 1 ==> spec_cum_dist(points, start, k - 1) <= spec_cum_dist(points, start, k),
    decreases k,
{
    if k > 0 {
        lemma_cum_nonneg(points, start, k - 1);
    }
}

/// Chord-length parameters never decrease along the run: the cumulative
/// lengths grow, and dividing by the shared total keeps the order.
proof fn lemma_chord_u_monotone(points: Seq<Point>, start: int, n: int, u: Seq<i64>)
    requires
        n >= 2,
        u.len() == n,
        forall|k: int| 0 <= k < n ==> #[trigger] u[k] == spec_chord_u(points, start, n, k),
    ensures
        forall|k: int| 0 <= k < n - 1 ==> #[trigger] u[k] <= u[k + 1],
{
    lemma_cum_nonneg(points, start, n - 1);
    assert forall|k: int| 0 <= k < n - 1 implies #[trigger] u[k] <= u[k + 1] by {
        let total = spec_cum_dist(points, start, n - 1);
        if total == 0 {
            assert(k * 1024 <= (k + 1) * 1024);
            lemma_div_is_ordered(k * 1024, (k + 1) * 1024, n - 1);
        } else {
            assert(total > 0);
            lemma_cum_nonneg(points, start, k + 1);
            assert(spec_cum_dist(points, start, k + 1) == spec_cum_dist(points, start, k)
                + crate::geometry::spec_distance(points[start + k], points[start + k + 1]));
            assert(spec_cum_dist(points, start, k) * 1024 <= spec_cum_dist(points, start, k + 1)
                * 1024);
            lemma_div_is_ordered(spec_cum_dist(points, start, k) * 1024, spec_cum_dist(points,
                start, k + 1) * 1024, total);
        }
    }
}

/// A unit-tangent component scaled by a Bernstein weight, divided back to
/// tangent scale.
fn scaled_weight(t: i64, b: i64) -> (r: i64)
    requires
        -1024 <= t <= 1024,
        0 <= b <= 3072,
    ensures
        r == tdiv(t * b, 1024),
        -3072 <= r <= 3072,
{
    proof {
        assert(-(3072 * 1024) <= t * b && t * b <= 3072 * 1024 && -3145728 <= t * b <= 3145728)
            by (nonlinear_arith)
            requires
                -1024 <= t <= 1024,
                0 <= b <= 3072,
        ;
        lemma_tdiv_bound(t * b, 1024, 3072);
    }
    div_trunc(t * b, 1024)
}

/// A unit-tangent component scaled by a control-handle offset, divided back
/// to coordinate units.
fn scaled_offset(t: i64, alpha: i64) -> (r: i64)
    requires
        -1024 <= t <= 1024,
        0 <= alpha <= ALPHA_LIMIT,
    ensures
        r == tdiv(t * alpha, 1024),
        -4194304 <= r <= 4194304,
{
    proof {
        assert(-(4194304 * 1024) <= t * alpha && t * alpha <= 4194304 * 1024 && -4294967296
            <= t * alpha <= 4294967296) by (nonlinear_arith)
            requires
                -1024 <= t <= 1024,
                0 <= alpha <= 4194304,
        ;
        lemma_tdiv_bound(t * alpha, 1024, 4194304);
    }
    div_trunc(t * alpha, 1024)
}

/// The chord-heuristic curve as a mathematical value: both control handles
/// one third of the endpoint distance along the given tangent directions.
pub open spec fn spec_chord_curve(first: Point, last: Point, lt: Point, rt: Point)
    -> BezierCurve {
    let alpha = crate::geometry::spec_distance(first, last) as int / 3;
    BezierCurve {
        points: [
            first,
            Point {
                x: (first.x + tdiv(lt.x * alpha, 1024)) as i64,
                y: (first.y + tdiv(lt.y * alpha, 1024)) as i64,
            },
            Point {
                x: (last.x + tdiv(rt.x * alpha, 1024)) as i64,
                y: (last.y + tdiv(rt.y * alpha, 1024)) as i64,
            },
            last,
        ],
    }
}

/// Chord-heuristic curve: both control handles one third of the endpoint
/// distance along the given tangent directions.  Used as the base two-point
/// fit and as the fallback for a degenerate least-squares solve.
fn chord_heuristic_curve(first: Point, last: Point, lt: Point, rt: Point) -> (c: BezierCurve)
    requires
        first.in_range(),
        last.in_range(),
        is_tangent(lt),
        is_tangent(rt),
    ensures
        c.wf(),
        c == spec_chord_curve(first, last, lt, rt),
        c.pt(0) == first,
        c.pt(3) == last,
{
    let dist = distance(first, last);
    proof {
        crate::geometry::lemma_sqrt_floor(crate::geometry::spec_sqdist(first, last) as nat);
        assert(0 <= crate::geometry::spec_sqdist(first, last) <= 8796093022208)
            by (nonlinear_arith)
            requires
                -1048576 <= first.x <= 1048576,
                -1048576 <= first.y <= 1048576,
                -1048576 <= last.x <= 1048576,
                -1048576 <= last.y <= 1048576,
        ;
        if dist > 2965821 {
            assert((dist as int) * (dist as int) > 8796093022208) by (nonlinear_arith)
                requires
                    dist >= 2965822,
            ;
        }
        lemma_div_is_ordered(dist as int, 2965821, 3);
        assert(2965821int / 3 == 988607);
    }
    let alpha = (dist / 3) as i64;
    let h1 = Point { x: first.x + scaled_offset(lt.x, alpha), y: first.y + scaled_offset(lt.y, alpha) };
    let h2 = Point { x: last.x + scaled_offset(rt.x, alpha), y: last.y + scaled_offset(rt.y, alpha) };
    let c = BezierCurve::from_points([first, h1, h2, last]);
    proof {
        assert(c.pt(0).in_handle_range());
        assert(c.pt(1).in_handle_range());
        assert(c.pt(2).in_handle_range());
        assert(c.pt(3).in_handle_range());
        assert(forall|i: int| 0 <= i < 4 ==> #[trigger] c.pt(i).in_handle_range());
    }
    c
}

/// Basis-vector components of the least-squares system at one parameter:
/// the tangents scaled by the middle Bernstein weights.
pub open spec fn gb_a1x(lt: Point, uk: int) -> int {
    tdiv(lt.x * bern1_at(uk), 1024)
}

pub open spec fn gb_a1y(lt: Point, uk: int) -> int {
    tdiv(lt.y * bern1_at(uk), 1024)
}

pub open spec fn gb_a2x(rt: Point, uk: int) -> int {
    tdiv(rt.x * bern2_at(uk), 1024)
}

pub open spec fn gb_a2y(rt: Point, uk: int) -> int {
    tdiv(rt.y * bern2_at(uk), 1024)
}

/// Residual components at one parameter: the point minus the endpoints
/// weighted by the outer Bernstein values.
pub open spec fn gb_tx(first: Point, last: Point, p: Point, uk: int) -> int {
    p.x - tdiv(first.x * (bern0_at(uk) + bern1_at(uk)) + last.x * (bern2_at(uk) + bern3_at(uk)),
        1024)
}

pub open spec fn gb_ty(first: Point, last: Point, p: Point, uk: int) -> int {
    p.y - tdiv(first.y * (bern0_at(uk) + bern1_at(uk)) + last.y * (bern2_at(uk) + bern3_at(uk)),
        1024)
}

/// The normal-equation matrix and right-hand-side sums over the first `n`
/// parameterized points.
pub open spec fn gb_c00(lt: Point, u: Seq<i64>, n: int) -> int
    decreases n,
{
    if n <= 0 {
        0
    } else {
        gb_c00(lt, u, n - 1) + gb_a1x(lt, u[n - 1] as int) * gb_a1x(lt, u[n - 1] as int)
            + gb_a1y(lt, u[n - 1] as int) * gb_a1y(lt, u[n - 1] as int)
    }
}

pub open spec fn gb_c01(lt: Point, rt: Point, u: Seq<i64>, n: int) -> int
    decreases n,
{
    if n <= 0 {
        0
    } else {
        gb_c01(lt, rt, u, n - 1) + gb_a1x(lt, u[n - 1] as int) * gb_a2x(rt, u[n - 1] as int)
            + gb_a1y(lt, u[n - 1] as int) * gb_a2y(rt, u[n - 1] as int)
    }
}

pub open spec fn gb_c11(rt: Point, u: Seq<i64>, n: int) -> int
    decreases n,
{
    if n <= 0 {
        0
    } else {
        gb_c11(rt, u, n - 1) + gb_a2x(rt, u[n - 1] as int) * gb_a2x(rt, u[n - 1] as int)
            + gb_a2y(rt, u[n - 1] as int) * gb_a2y(rt, u[n - 1] as int)
    }
}

pub open spec fn gb_x0(points: Seq<Point>, start: int, end: int, lt: Point, u: Seq<i64>, n: int)
    -> int
    decreases n,
{
    if n <= 0 {
        0
    } else {
        gb_x0(points, start, end, lt, u, n - 1) + gb_a1x(lt, u[n - 1] as int) * gb_tx(
            points[start], points[end - 1], points[start + n - 1], u[n - 1] as int) + gb_a1y(lt,
            u[n - 1] as int) * gb_ty(points[start], points[end - 1], points[start + n - 1], u[n
            - 1] as int)
    }
}

pub open spec fn gb_x1(points: Seq<Point>, start: int, end: int, rt: Point, u: Seq<i64>, n: int)
    -> int
    decreases n,
{
    if n <= 0 {
        0
    } else {
        gb_x1(points, start, end, rt, u, n - 1) + gb_a2x(rt, u[n - 1] as int) * gb_tx(
            points[start], points[end - 1], points[start + n - 1], u[n - 1] as int) + gb_a2y(rt,
            u[n - 1] as int) * gb_ty(points[start], points[end - 1], points[start + n - 1], u[n
            - 1] as int)
    }
}

/// The control-handle offset a determinant ratio solves to: the magnitudes'
/// scaled quotient with the shared sign, or nothing when the signs differ,
/// the offset vanishes, or it is implausibly large.
pub open spec fn spec_alpha(det_x: int, det_c: int) -> Option<i64> {
    if (det_x < 0) != (det_c < 0) {
        None
    } else {
        let q = ((if det_x < 0 {
            -det_x
        } else {
            det_x
        }) * 1024) / (if det_c < 0 {
            -det_c
        } else {
            det_c
        });
        if q == 0 || q > 4194304 {
            None
        } else {
            Some(q as i64)
        }
    }
}

/// The least-squares curve as a mathematical value: handles at the solved
/// offsets along the tangents, or the chord heuristic when the system is
/// degenerate or an offset is rejected.
pub open spec fn spec_generate_bezier(
    points: Seq<Point>,
    start: int,
    end: int,
    u: Seq<i64>,
    lt: Point,
    rt: Point,
) -> BezierCurve {
    let n = end - start;
    let first = points[start];
    let last = points[end - 1];
    let c00 = gb_c00(lt, u, n);
    let c01 = gb_c01(lt, rt, u, n);
    let c11 = gb_c11(rt, u, n);
    let x0 = gb_x0(points, start, end, lt, u, n);
    let x1 = gb_x1(points, start, end, rt, u, n);
    let det_c = c00 * c11 - c01 * c01;
    if det_c == 0 {
        spec_chord_curve(first, last, lt, rt)
    } else {
        match (spec_alpha(x0 * c11 - x1 * c01, det_c), spec_alpha(c00 * x1 - c01 * x0, det_c)) {
            (Some(al), Some(ar)) => BezierCurve {
                points: [
                    first,
                    Point {
                        x: (first.x + tdiv(lt.x * al, 1024)) as i64,
                        y: (first.y + tdiv(lt.y * al, 1024)) as i64,
                    },
                    Point {
                        x: (last.x + tdiv(rt.x * ar, 1024)) as i64,
                        y: (last.y + tdiv(rt.y * ar, 1024)) as i64,
                    },
                    last,
                ],
            },
            _ => spec_chord_curve(first, last, lt, rt),
        }
    }
}

/// Solve the least-squares system for the two control-handle offsets along
/// the given tangents that best explain the parameterized points; fall back
/// to the chord heuristic when the system is degenerate or the offsets are
/// implausible.  The produced curve always starts at the run's first point
/// and ends at its last.
fn generate_bezier(
    points: &Vec<Point>,
    start: usize,
    end: usize,
    u: &Vec<i64>,
    lt: Point,
    rt: Point,
) -> (c: BezierCurve)
    requires
        start < end <= points@.len(),
        end - start >= 2,
        points@.len() <= 1048576,
        u@.len() == end - start,
        forall|k: int| 0 <= k < u@.len() ==> 0 <= #[trigger] u@[k] <= 1024,
        forall|i: int| 0 <= i < points@.len() ==> (#[trigger] points@[i]).in_range(),
        is_tangent(lt),
        is_tangent(rt),
    ensures
        c.wf(),
        c == spec_generate_bezier(points@, start as int, end as int, u@, lt, rt),
        c.pt(0) == points@[start as int],
        c.pt(3) == points@[end - 1],
{
    let first = points[start];
    let last = points[end - 1];
    let n = end - start;
    let mut c00: i128 = 0;
    let mut c01: i128 = 0;
    let mut c11: i128 = 0;
    let mut x0: i128 = 0;
    let mut x1: i128 = 0;
    let mut k: usize = 0;
    while k < n
        invariant
            start < end <= points@.len(),
            n == end - start,
            points@.len() <= 1048576,
            u@.len() == n,
            forall|j: int| 0 <= j < u@.len() ==> 0 <= #[trigger] u@[j] <= 1024,
            forall|i: int| 0 <= i < points@.len() ==> (#[trigger] points@[i]).in_range(),
            is_tangent(lt),
            is_tangent(rt),
            first == points@[start as int],
            last == points@[end - 1],
            k <= n,
            -(k as int) * 18874368 <= c00 <= (k as int) * 18874368,
            -(k as int) * 18874368 <= c01 <= (k as int) * 18874368,
            -(k as int) * 18874368 <= c11 <= (k as int) * 18874368,
            -(k as int) * 57982058496 <= x0 <= (k as int) * 57982058496,
            -(k as int) * 57982058496 <= x1 <= (k as int) * 57982058496,
            c00 == gb_c00(lt, u@, k as int),
            c01 == gb_c01(lt, rt, u@, k as int),
            c11 == gb_c11(rt, u@, k as int),
            x0 == gb_x0(points@, start as int, end as int, lt, u@, k as int),
            x1 == gb_x1(points@, start as int, end as int, rt, u@, k as int),
        decreases n - k,
    {
        let uk = u[k];
        let (b0, b1, b2, b3) = bern_all(uk);
        let a1x = scaled_weight(lt.x, b1);
        let a1y = scaled_weight(lt.y, b1);
        let a2x = scaled_weight(rt.x, b2);
        let a2y = scaled_weight(rt.y, b2);
        let s1 = b0 + b1;
        let s2 = b2 + b3;
        proof {
            assert(points@[start + k].in_range());
            assert(-4294967296 <= first.x * s1 <= 4294967296 && -4294967296 <= first.y * s1
                <= 4294967296) by (nonlinear_arith)
                requires
                    -1048576 <= first.x <= 1048576,
                    -1048576 <= first.y <= 1048576,
                    0 <= s1 <= 4096,
            ;
            assert(-4294967296 <= last.x * s2 <= 4294967296 && -4294967296 <= last.y * s2
                <= 4294967296) by (nonlinear_arith)
                requires
                    -1048576 <= last.x <= 1048576,
                    -1048576 <= last.y <= 1048576,
                    0 <= s2 <= 4096,
            ;
            assert(-(8388608 * 1024) <= first.x * s1 + last.x * s2 && first.x * s1 + last.x * s2
                <= 8388608 * 1024) by (nonlinear_arith)
                requires
                    -4294967296 <= first.x * s1 <= 4294967296,
                    -4294967296 <= last.x * s2 <= 4294967296,
            ;
            assert(-(8388608 * 1024) <= first.y * s1 + last.y * s2 && first.y * s1 + last.y * s2
                <= 8388608 * 1024) by (nonlinear_arith)
                requires
                    -4294967296 <= first.y * s1 <= 4294967296,
                    -4294967296 <= last.y * s2 <= 4294967296,
            ;
            lemma_tdiv_bound(first.x * s1 + last.x * s2, 1024, 8388608);
            lemma_tdiv_bound(first.y * s1 + last.y * s2, 1024, 8388608);
        }
        let wx = div_trunc(first.x * s1 + last.x * s2, 1024);
        let wy = div_trunc(first.y * s1 + last.y * s2, 1024);
        let p = points[start + k];
        let tx = p.x - wx;
        let ty = p.y - wy;
        proof {
            assert(-9437184 <= tx <= 9437184 && -9437184 <= ty <= 9437184);
            assert(0 <= a1x * a1x <= 9437184 && 0 <= a1y * a1y <= 9437184 && 0 <= a2x * a2x
                <= 9437184 && 0 <= a2y * a2y <= 9437184 && -9437184 <= a1x * a2x <= 9437184
                && -9437184 <= a1y * a2y <= 9437184) by (nonlinear_arith)
                requires
                    -3072 <= a1x <= 3072,
                    -3072 <= a1y <= 3072,
                    -3072 <= a2x <= 3072,
                    -3072 <= a2y <= 3072,
            ;
            assert(-28991029248 <= a1x * tx <= 28991029248 && -28991029248 <= a1y * ty
                <= 28991029248 && -28991029248 <= a2x * tx <= 28991029248 && -28991029248
                <= a2y * ty <= 28991029248) by (nonlinear_arith)
                requires
                    -3072 <= a1x <= 3072,
                    -3072 <= a1y <= 3072,
                    -3072 <= a2x <= 3072,
                    -3072 <= a2y <= 3072,
                    -9437184 <= tx <= 9437184,
                    -9437184 <= ty <= 9437184,
            ;
        }
        proof {
            assert(a1x == gb_a1x(lt, uk as int));
            assert(a1y == gb_a1y(lt, uk as int));
            assert(a2x == gb_a2x(rt, uk as int));
            assert(a2y == gb_a2y(rt, uk as int));
            assert(tx == gb_tx(first, last, points@[start + k], uk as int));
            assert(ty == gb_ty(first, last, points@[start + k], uk as int));
        }
        let d00: i64 = a1x * a1x + a1y * a1y;
        let d01: i64 = a1x * a2x + a1y * a2y;
        let d11: i64 = a2x * a2x + a2y * a2y;
        let e0: i64 = a1x * tx + a1y * ty;
        let e1: i64 = a2x * tx + a2y * ty;
        c00 = c00 + (d00 as i128);
        c01 = c01 + (d01 as i128);
        c11 = c11 + (d11 as i128);
        x0 = x0 + (e0 as i128);
        x1 = x1 + (e1 as i128);
        proof {
            assert(u@[k as int] == uk);
            assert(c00 == gb_c00(lt, u@, k as int + 1));
            assert(c01 == gb_c01(lt, rt, u@, k as int + 1));
            assert(c11 == gb_c11(rt, u@, k as int + 1));
            assert(x0 == gb_x0(points@, start as int, end as int, lt, u@, k as int + 1));
            assert(x1 == gb_x1(points@, start as int, end as int, rt, u@, k as int + 1));
        }
        k = k + 1;
    }
    proof {
        assert(-19791209299968 <= c00 <= 19791209299968);
        assert(-19791209299968 <= c01 <= 19791209299968);
        assert(-19791209299968 <= c11 <= 19791209299968);
        assert(-60798594969501696 <= x0 <= 60798594969501696);
        assert(-60798594969501696 <= x1 <= 60798594969501696);
        assert(-391691965555139852604801024 <= c00 * c11 <= 391691965555139852604801024
            && -391691965555139852604801024 <= c01 * c01 <= 391691965555139852604801024)
            by (nonlinear_arith)
            requires
                -19791209299968 <= c00 <= 19791209299968,
                -19791209299968 <= c01 <= 19791209299968,
                -19791209299968 <= c11 <= 19791209299968,
        ;
        assert(-1203277718185389627201948745728 <= x0 * c11
            <= 1203277718185389627201948745728 && -1203277718185389627201948745728 <= x1 * c01
            <= 1203277718185389627201948745728 && -1203277718185389627201948745728 <= c00 * x1
            <= 1203277718185389627201948745728 && -1203277718185389627201948745728 <= c01 * x0
            <= 1203277718185389627201948745728) by (nonlinear_arith)
            requires
                -19791209299968 <= c00 <= 19791209299968,
                -19791209299968 <= c01 <= 19791209299968,
                -19791209299968 <= c11 <= 19791209299968,
                -60798594969501696 <= x0 <= 60798594969501696,
                -60798594969501696 <= x1 <= 60798594969501696,
        ;
    }
    let det_c: i128 = c00 * c11 - c01 * c01;
    let det_xc1: i128 = x0 * c11 - x1 * c01;
    let det_c0x: i128 = c00 * x1 - c01 * x0;
    if det_c == 0 {
        let c = chord_heuristic_curve(first, last, lt, rt);
        proof {
            assert(c == spec_generate_bezier(points@, start as int, end as int, u@, lt, rt));
        }
        return c;
    }
    let alpha_l = solve_alpha(det_xc1, det_c);
    let alpha_r = solve_alpha(det_c0x, det_c);
    match (alpha_l, alpha_r) {
        (Some(al), Some(ar)) => {
            let h1 = Point { x: first.x + scaled_offset(lt.x, al), y: first.y + scaled_offset(
                lt.y, al) };
            let h2 = Point { x: last.x + scaled_offset(rt.x, ar), y: last.y + scaled_offset(rt.y,
                ar) };
            let c = BezierCurve::from_points([first, h1, h2, last]);
            proof {
                assert(c.pt(0).in_handle_range());
                assert(c.pt(1).in_handle_range());
                assert(c.pt(2).in_handle_range());
                assert(c.pt(3).in_handle_range());
                assert(forall|i: int| 0 <= i < 4 ==> #[trigger] c.pt(i).in_handle_range());
                assert(h1.x == (first.x + tdiv(lt.x * al, 1024)) as i64);
                assert(h1.y == (first.y + tdiv(lt.y * al, 1024)) as i64);
                assert(h2.x == (last.x + tdiv(rt.x * ar, 1024)) as i64);
                assert(h2.y == (last.y + tdiv(rt.y * ar, 1024)) as i64);
                assert(c == spec_generate_bezier(points@, start as int, end as int, u@, lt,
                    rt));
            }
            c
        },
        _ => {
            let c = chord_heuristic_curve(first, last, lt, rt);
            proof {
                assert(c == spec_generate_bezier(points@, start as int, end as int, u@, lt,
                    rt));
            }
            c
        },
    }
}

/// Quotient of a determinant ratio brought to coordinate units, or `None`
/// when the offset is non-positive or implausibly large and the chord
/// fallback should be used instead.
fn solve_alpha(det_x: i128, det_c: i128) -> (r: Option<i64>)
    requires
        det_c != 0,
        -783383931110279705209602048 <= det_c <= 783383931110279705209602048,
        -2406555436370779254403897491456 <= det_x <= 2406555436370779254403897491456,
    ensures
        r == spec_alpha(det_x as int, det_c as int),
        r is Some ==> 1 <= r->0 <= ALPHA_LIMIT,
{
    let neg = (det_x < 0) != (det_c < 0);
    if neg {
        return None;
    }
    let mx: u128 = if det_x < 0 {
        (-det_x) as u128
    } else {
        det_x as u128
    };
    let mc: u128 = if det_c < 0 {
        (-det_c) as u128
    } else {
        det_c as u128
    };
    proof {
        assert(mx * 1024 <= 2464312766843677956509591031250944) by (nonlinear_arith)
            requires
                mx <= 2406555436370779254403897491456,
        ;
        assert(((mx * 1024) as int) / (mc as int) <= (mx as int) * 1024) by (nonlinear_arith)
            requires
                mc >= 1,
                mx * 1024 == (mx as int) * 1024,
        ;
        assert(mx as int == if det_x < 0 {
            -(det_x as int)
        } else {
            det_x as int
        });
        assert(mc as int == if det_c < 0 {
            -(det_c as int)
        } else {
            det_c as int
        });
    }
    let q: u128 = (mx * 1024) / mc;
    if q == 0 || q > 4194304 {
        None
    } else {
        Some(q as i64)
    }
}

/// In a non-decreasing sequence an earlier entry is at most a later one.
proof fn lemma_cum_le_total(cum: Seq<u64>, i: int, j: int)
    requires
        0 <= i <= j < cum.len(),
        forall|k: int| 0 <= k < cum.len() - 1 ==> #[trigger] cum[k] <= cum[k + 1],
    ensures
        cum[i] <= cum[j],
    decreases j - i,
{
    if i < j {
        lemma_cum_le_total(cum, i + 1, j);
        assert(cum[i] <= cum[i + 1]);
    }
}

/// The cubic Bernstein basis values at parameter `u` over `0..=1024`, each
/// at scale 1024, rounded down.
pub open spec fn bern0_at(u: int) -> int {
    (((1024 - u) * (1024 - u)) * (1024 - u)) / 1048576
}

pub open spec fn bern1_at(u: int) -> int {
    (3 * (u * ((1024 - u) * (1024 - u)))) / 1048576
}

pub open spec fn bern2_at(u: int) -> int {
    (3 * ((1024 - u) * (u * u))) / 1048576
}

pub open spec fn bern3_at(u: int) -> int {
    ((u * u) * u) / 1048576
}

/// The four cubic Bernstein basis values at parameter `u`, at scale
/// `PSCALE`.
fn bern_all(u: i64) -> (r: (i64, i64, i64, i64))
    requires
        0 <= u <= 1024,
    ensures
        r.0 == bern0_at(u as int),
        r.1 == bern1_at(u as int),
        r.2 == bern2_at(u as int),
        r.3 == bern3_at(u as int),
        0 <= r.0 <= 1024,
        0 <= r.1 <= 3072,
        0 <= r.2 <= 3072,
        0 <= r.3 <= 1024,
{
    let v: u64 = (1024 - u) as u64;
    let uu: u64 = u as u64;
    proof {
        assert(v * v <= 1048576 && v * v * v <= 1073741824 && uu * (v * v) <= 1073741824
            && uu * uu <= 1048576 && uu * uu * uu <= 1073741824 && v * (uu * uu) <= 1073741824)
            by (nonlinear_arith)
            requires
                0 <= v <= 1024,
                0 <= uu <= 1024,
        ;
    }
    let v2: u64 = v * v;
    let u2: u64 = uu * uu;
    let b0: u64 = (v2 * v) / 1048576;
    let b1: u64 = (3 * (uu * v2)) / 1048576;
    let b2: u64 = (3 * (v * u2)) / 1048576;
    let b3: u64 = (u2 * uu) / 1048576;
    proof {
        lemma_div_is_ordered((v2 * v) as int, 1073741824, 1048576);
        lemma_div_is_ordered((3 * (uu * v2)) as int, 3221225472, 1048576);
        lemma_div_is_ordered((3 * (v * u2)) as int, 3221225472, 1048576);
        lemma_div_is_ordered((u2 * uu) as int, 1073741824, 1048576);
        assert(1073741824int / 1048576 == 1024);
        assert(3221225472int / 1048576 == 3072);
        assert((v2 * v) as int / 1048576 >= 0);
        assert((3 * (uu * v2)) as int / 1048576 >= 0);
        assert((3 * (v * u2)) as int / 1048576 >= 0);
        assert((u2 * uu) as int / 1048576 >= 0);
    }
    (b0 as i64, b1 as i64, b2 as i64, b3 as i64)
}



/// Largest squared-error numerator any curve/point pair can produce.
pub const ERR_NUM_LIMIT: i128 = 205359397236973163042465919270912;

/// Exact squared-error numerator of one point against the curve at one
/// parameter.
fn point_err_num(curve: &BezierCurve, p: Point, t: i64) -> (r: i128)
    requires
        curve.wf(),
        p.in_range(),
        0 <= t <= 1024,
    ensures
        r == err_num(*curve, p, t as int),
        0 <= r <= ERR_NUM_LIMIT,
{
    proof {
        assert(curve.pt(0).in_handle_range());
        assert(curve.pt(1).in_handle_range());
        assert(curve.pt(2).in_handle_range());
        assert(curve.pt(3).in_handle_range());
    }
    let xn = crate::bezier::cubic_num_exec(curve.points[0].x, curve.points[1].x,
        curve.points[2].x, curve.points[3].x, t);
    let yn = crate::bezier::cubic_num_exec(curve.points[0].y, curve.points[1].y,
        curve.points[2].y, curve.points[3].y, t);
    let dx: i64 = xn - p.x * 1073741824;
    let dy: i64 = yn - p.y * 1073741824;
    proof {
        assert(-102679698618486581521232959635456 <= (dx as i128) * (dx as i128)
            <= 102679698618486581521232959635456 && (dx as i128) * (dx as i128) >= 0)
            by (nonlinear_arith)
            requires
                -10133099161583616 <= dx as i128 <= 10133099161583616,
        ;
        assert(-102679698618486581521232959635456 <= (dy as i128) * (dy as i128)
            <= 102679698618486581521232959635456 && (dy as i128) * (dy as i128) >= 0)
            by (nonlinear_arith)
            requires
                -10133099161583616 <= dy as i128 <= 10133099161583616,
        ;
        assert((dx as i128) * (dx as i128) == (dx as int) * (dx as int)) by (nonlinear_arith);
        assert((dy as i128) * (dy as i128) == (dy as int) * (dy as int)) by (nonlinear_arith);
    }
    (dx as i128) * (dx as i128) + (dy as i128) * (dy as i128)
}

/// The largest squared-error numerator over the first `n` points of the
/// run, at their assigned parameters.
pub open spec fn spec_max_err_upto(
    points: Seq<Point>,
    start: int,
    c: BezierCurve,
    u: Seq<i64>,
    n: int,
) -> int
    decreases n,
{
    if n <= 0 {
        0
    } else {
        let prev = spec_max_err_upto(points, start, c, u, n - 1);
        let e = err_num(c, points[start + n - 1], u[n - 1] as int);
        if e > prev {
            e
        } else {
            prev
        }
    }
}

/// The largest squared-error numerator of the whole run against the curve.
pub open spec fn spec_max_err(
    points: Seq<Point>,
    start: int,
    end: int,
    c: BezierCurve,
    u: Seq<i64>,
) -> int {
    spec_max_err_upto(points, start, c, u, end - start)
}

/// The index of the first point attaining the largest error over the first
/// `n` points of the run; the run's middle before any error is seen.
pub open spec fn spec_worst_upto(
    points: Seq<Point>,
    start: int,
    end: int,
    c: BezierCurve,
    u: Seq<i64>,
    n: int,
) -> int
    decreases n,
{
    if n <= 0 {
        start + (end - start) / 2
    } else {
        if err_num(c, points[start + n - 1], u[n - 1] as int) > spec_max_err_upto(points, start,
            c, u, n - 1) {
            start + n - 1
        } else {
            spec_worst_upto(points, start, end, c, u, n - 1)
        }
    }
}

/// The worst-error index of the whole run.
pub open spec fn spec_worst(
    points: Seq<Point>,
    start: int,
    end: int,
    c: BezierCurve,
    u: Seq<i64>,
) -> int {
    spec_worst_upto(points, start, end, c, u, end - start)
}

/// Find the worst deviation of the run from the fitted curve at the
/// assigned parameters, and the index of the worst point, the candidate
/// split position.
fn compute_max_error(
    points: &Vec<Point>,
    start: usize,
    end: usize,
    curve: &BezierCurve,
    u: &Vec<i64>,
) -> (r: (i128, usize))
    requires
        start < end <= points@.len(),
        end - start >= 2,
        points@.len() <= 1048576,
        u@.len() == end - start,
        forall|k: int| 0 <= k < u@.len() ==> 0 <= #[trigger] u@[k] <= 1024,
        forall|i: int| 0 <= i < points@.len() ==> (#[trigger] points@[i]).in_range(),
        curve.wf(),
    ensures
        0 <= r.0 <= ERR_NUM_LIMIT,
        r.0 == spec_max_err(points@, start as int, end as int, *curve, u@),
        forall|k: int|
            0 <= k < u@.len() ==> #[trigger] err_num(*curve, points@[start + k], u@[k] as int)
                <= r.0,
        start <= r.1 < end,
        r.1 == spec_worst(points@, start as int, end as int, *curve, u@),
        r.0 > 0 ==> err_num(*curve, points@[r.1 as int], u@[r.1 - start] as int) == r.0,
{
    let n = end - start;
    let mut max_err: i128 = 0;
    let mut split: usize = start + n / 2;
    proof {
        assert(n / 2 < n);
    }
    let mut k: usize = 0;
    while k < n
        invariant
            start < end <= points@.len(),
            n == end - start,
            points@.len() <= 1048576,
            u@.len() == n,
            forall|j: int| 0 <= j < u@.len() ==> 0 <= #[trigger] u@[j] <= 1024,
            forall|i: int| 0 <= i < points@.len() ==> (#[trigger] points@[i]).in_range(),
            curve.wf(),
            k <= n,
            0 <= max_err <= ERR_NUM_LIMIT,
            max_err == spec_max_err_upto(points@, start as int, *curve, u@, k as int),
            start <= split < end,
            split == spec_worst_upto(points@, start as int, end as int, *curve, u@, k as int),
            forall|j: int|
                0 <= j < k ==> #[trigger] err_num(*curve, points@[start + j], u@[j] as int)
                    <= max_err,
            max_err > 0 ==> err_num(*curve, points@[split as int], u@[split - start] as int)
                == max_err,
        decreases n - k,
    {
        let e = point_err_num(curve, points[start + k], u[k]);
        if e > max_err {
            max_err = e;
            split = start + k;
        }
        k = k + 1;
    }
    (max_err, split)
}

/// The x coordinate of the curve's first derivative at parameter `u`: the
/// quadratic de Casteljau value over the scaled control-point differences,
/// divided back to coordinate units.
pub open spec fn q1x_at(c: BezierCurve, u: int) -> int {
    tdiv(quad_num(3 * (c.pt(1).x - c.pt(0).x), 3 * (c.pt(2).x - c.pt(1).x), 3 * (c.pt(3).x
        - c.pt(2).x), u), 1048576)
}

/// The y coordinate of the curve's first derivative at parameter `u`.
pub open spec fn q1y_at(c: BezierCurve, u: int) -> int {
    tdiv(quad_num(3 * (c.pt(1).y - c.pt(0).y), 3 * (c.pt(2).y - c.pt(1).y), 3 * (c.pt(3).y
        - c.pt(2).y), u), 1048576)
}

/// The x coordinate of the curve's second derivative at parameter `u`: the
/// linear interpolation of the twice-differenced control points.
pub open spec fn q2x_at(c: BezierCurve, u: int) -> int {
    tdiv(lerp_num(2 * ((3 * (c.pt(2).x - c.pt(1).x)) - (3 * (c.pt(1).x - c.pt(0).x))), 2 * ((3
        * (c.pt(3).x - c.pt(2).x)) - (3 * (c.pt(2).x - c.pt(1).x))), u), 1024)
}

/// The y coordinate of the curve's second derivative at parameter `u`.
pub open spec fn q2y_at(c: BezierCurve, u: int) -> int {
    tdiv(lerp_num(2 * ((3 * (c.pt(2).y - c.pt(1).y)) - (3 * (c.pt(1).y - c.pt(0).y))), 2 * ((3
        * (c.pt(3).y - c.pt(2).y)) - (3 * (c.pt(2).y - c.pt(1).y))), u), 1024)
}

/// The Newton numerator `(Q(u) - P) . Q'(u)`.
pub open spec fn newton_num(c: BezierCurve, p: Point, u: int) -> int {
    let fx = c.spec_eval(u).x - p.x;
    let fy = c.spec_eval(u).y - p.y;
    fx * q1x_at(c, u) + fy * q1y_at(c, u)
}

/// The Newton denominator in the second-derivative-inclusive form,
/// `|Q'(u)|^2 + (Q(u) - P) . Q''(u)`.
pub open spec fn newton_den(c: BezierCurve, p: Point, u: int) -> int {
    let fx = c.spec_eval(u).x - p.x;
    let fy = c.spec_eval(u).y - p.y;
    q1x_at(c, u) * q1x_at(c, u) + q1y_at(c, u) * q1y_at(c, u) + fx * q2x_at(c, u) + fy * q2y_at(
        c, u)
}

/// A value forced back into the parameter range.
pub open spec fn clamp_param(v: int) -> int {
    if v < 0 {
        0
    } else if v > 1024 {
        1024
    } else {
        v
    }
}

/// The corrected parameter: `u - f(u)/f'(u)` rounded toward zero and
/// clamped into range, or `u` unchanged when the denominator vanishes.
pub open spec fn spec_newton_step(c: BezierCurve, p: Point, u: int) -> int {
    let den = newton_den(c, p, u);
    if den == 0 {
        u
    } else {
        clamp_param(u - sdiv(newton_num(c, p, u) * 1024, den))
    }
}

/// One Newton-Raphson parameter correction for one point: adjust the
/// parameter by `f(u)/f'(u)` where `f` is the offset between curve point
/// and target projected onto the first derivative.  The denominator is the
/// standard second-derivative-inclusive form, `|Q'|^2 + (Q - P) . Q''`.
/// A vanishing denominator skips the correction, and the corrected
/// parameter is clamped back into the parameter range.
fn newton_raphson_root_find(curve: &BezierCurve, p: Point, u: i64) -> (r: i64)
    requires
        curve.wf(),
        p.in_range(),
        0 <= u <= 1024,
    ensures
        r == spec_newton_step(*curve, p, u as int),
        0 <= r <= 1024,
{
    proof {
        assert(curve.pt(0).in_handle_range());
        assert(curve.pt(1).in_handle_range());
        assert(curve.pt(2).in_handle_range());
        assert(curve.pt(3).in_handle_range());
    }
    let q = curve.eval(u);
    // first-derivative control points, three per coordinate
    let d0x = (curve.points[1].x - curve.points[0].x) * 3;
    let d1x = (curve.points[2].x - curve.points[1].x) * 3;
    let d2x = (curve.points[3].x - curve.points[2].x) * 3;
    let d0y = (curve.points[1].y - curve.points[0].y) * 3;
    let d1y = (curve.points[2].y - curve.points[1].y) * 3;
    let d2y = (curve.points[3].y - curve.points[2].y) * 3;
    // second-derivative control points, two per coordinate
    let e0x = (d1x - d0x) * 2;
    let e1x = (d2x - d1x) * 2;
    let e0y = (d1y - d0y) * 2;
    let e1y = (d2y - d1y) * 2;
    let q1xn = quad_num_exec(d0x, d1x, d2x, u);
    let q1yn = quad_num_exec(d0y, d1y, d2y, u);
    proof {
        crate::bezier::lemma_lerp_num_bound(d0x as int, d1x as int, u as int, 50331648);
        crate::bezier::lemma_lerp_num_bound(d1x as int, d2x as int, u as int, 50331648);
        crate::bezier::lemma_lerp_num_bound(lerp_num(d0x as int, d1x as int, u as int),
            lerp_num(d1x as int, d2x as int, u as int), u as int, 51539607552);
        crate::bezier::lemma_lerp_num_bound(d0y as int, d1y as int, u as int, 50331648);
        crate::bezier::lemma_lerp_num_bound(d1y as int, d2y as int, u as int, 50331648);
        crate::bezier::lemma_lerp_num_bound(lerp_num(d0y as int, d1y as int, u as int),
            lerp_num(d1y as int, d2y as int, u as int), u as int, 51539607552);
        assert(-(50331648 * 1048576) <= q1xn <= 50331648 * 1048576);
        assert(-(50331648 * 1048576) <= q1yn <= 50331648 * 1048576);
        lemma_tdiv_bound(q1xn as int, 1048576, 50331648);
        lemma_tdiv_bound(q1yn as int, 1048576, 50331648);
    }
    let q1x = div_trunc(q1xn, 1048576);
    let q1y = div_trunc(q1yn, 1048576);
    let q2xn = lin_num_exec(e0x, e1x, u);
    let q2yn = lin_num_exec(e0y, e1y, u);
    proof {
        crate::bezier::lemma_lerp_num_bound(e0x as int, e1x as int, u as int, 201326592);
        crate::bezier::lemma_lerp_num_bound(e0y as int, e1y as int, u as int, 201326592);
        assert(-(201326592 * 1024) <= q2xn <= 201326592 * 1024);
        assert(-(201326592 * 1024) <= q2yn <= 201326592 * 1024);
        lemma_tdiv_bound(q2xn as int, 1024, 201326592);
        lemma_tdiv_bound(q2yn as int, 1024, 201326592);
    }
    let q2x = div_trunc(q2xn, 1024);
    let q2y = div_trunc(q2yn, 1024);
    let fx = q.x - p.x;
    let fy = q.y - p.y;
    proof {
        assert(-474989023199232 <= fx * q1x <= 474989023199232 && -474989023199232 <= fy * q1y
            <= 474989023199232) by (nonlinear_arith)
            requires
                -9437184 <= fx <= 9437184,
                -9437184 <= fy <= 9437184,
                -50331648 <= q1x <= 50331648,
                -50331648 <= q1y <= 50331648,
        ;
        assert(0 <= q1x * q1x <= 2533274790395904 && 0 <= q1y * q1y <= 2533274790395904)
            by (nonlinear_arith)
            requires
                -50331648 <= q1x <= 50331648,
                -50331648 <= q1y <= 50331648,
        ;
        assert(-1899956092796928 <= fx * q2x <= 1899956092796928 && -1899956092796928 <= fy
            * q2y <= 1899956092796928) by (nonlinear_arith)
            requires
                -9437184 <= fx <= 9437184,
                -9437184 <= fy <= 9437184,
                -201326592 <= q2x <= 201326592,
                -201326592 <= q2y <= 201326592,
        ;
    }
    let numerator: i64 = fx * q1x + fy * q1y;
    let denominator: i64 = q1x * q1x + q1y * q1y + fx * q2x + fy * q2y;
    proof {
        assert(q1x == q1x_at(*curve, u as int));
        assert(q1y == q1y_at(*curve, u as int));
        assert(q2x == q2x_at(*curve, u as int));
        assert(q2y == q2y_at(*curve, u as int));
        assert(numerator == newton_num(*curve, p, u as int));
        assert(denominator == newton_den(*curve, p, u as int));
    }
    if denominator == 0 {
        return u;
    }
    let num128: i128 = (numerator as i128) * 1024;
    let neg = (num128 < 0) != (denominator < 0);
    let mn: u128 = if num128 < 0 {
        (-num128) as u128
    } else {
        num128 as u128
    };
    let md: u128 = if denominator < 0 {
        (-(denominator as i128)) as u128
    } else {
        denominator as u128
    };
    proof {
        assert(mn / md <= mn) by (nonlinear_arith)
            requires
                md >= 1,
        ;
    }
    let mq: u128 = mn / md;
    let delta: i128 = if neg {
        -(mq as i128)
    } else {
        mq as i128
    };
    proof {
        let a = newton_num(*curve, p, u as int) * 1024;
        let d = newton_den(*curve, p, u as int);
        assert(num128 == a);
        assert(denominator == d);
        // the sign-split magnitude quotient is the truncating division of
        // the signed pair
        if d > 0 {
            if a >= 0 {
                assert(delta == sdiv(a, d));
            } else {
                assert(mn == -a && md == d);
                assert(delta == -((-a) / d));
                assert(delta == sdiv(a, d));
            }
        } else {
            if a >= 0 {
                assert(mn == a && md == -d);
                if a == 0 {
                    assert(0int / ((-d) as int) == 0) by (nonlinear_arith)
                        requires
                            -d >= 1,
                    ;
                    assert(delta == sdiv(a, d));
                } else {
                    assert(delta == -(a / (-d)));
                    assert(sdiv(a, d) == tdiv(-a, -d));
                    assert(tdiv(-a, -d) == -(a / (-d)));
                    assert(delta == sdiv(a, d));
                }
            } else {
                assert(mn == -a && md == -d);
                assert(delta == (-a) / (-d));
                assert(sdiv(a, d) == tdiv(-a, -d));
                assert(delta == sdiv(a, d));
            }
        }
    }
    let shifted: i128 = (u as i128) - delta;
    let r: i64 = if shifted < 0 {
        0
    } else if shifted > 1024 {
        1024
    } else {
        shifted as i64
    };
    proof {
        assert(r == clamp_param(u - sdiv(newton_num(*curve, p, u as int)
            * 1024, newton_den(*curve, p, u as int))));
    }
    r
}

/// Correct every parameter of the run by one Newton-Raphson round.
fn reparameterize(
    points: &Vec<Point>,
    start: usize,
    end: usize,
    u: &Vec<i64>,
    curve: &BezierCurve,
) -> (u2: Vec<i64>)
    requires
        start < end <= points@.len(),
        end - start >= 2,
        points@.len() <= 1048576,
        u@.len() == end - start,
        forall|k: int| 0 <= k < u@.len() ==> 0 <= #[trigger] u@[k] <= 1024,
        forall|i: int| 0 <= i < points@.len() ==> (#[trigger] points@[i]).in_range(),
        curve.wf(),
    ensures
        u2@.len() == end - start,
        forall|k: int| 0 <= k < u2@.len() ==> 0 <= #[trigger] u2@[k] <= 1024,
        forall|k: int|
            0 <= k < u2@.len() ==> #[trigger] u2@[k] == spec_newton_step(*curve,
                points@[start + k], u@[k] as int),
{
    let n = end - start;
    let mut u2: Vec<i64> = Vec::new();
    let mut k: usize = 0;
    while k < n
        invariant
            start < end <= points@.len(),
            n == end - start,
            points@.len() <= 1048576,
            u@.len() == n,
            forall|j: int| 0 <= j < u@.len() ==> 0 <= #[trigger] u@[j] <= 1024,
            forall|i: int| 0 <= i < points@.len() ==> (#[trigger] points@[i]).in_range(),
            curve.wf(),
            k <= n,
            u2@.len() == k,
            forall|j: int| 0 <= j < k ==> 0 <= #[trigger] u2@[j] <= 1024,
            forall|j: int|
                0 <= j < k ==> #[trigger] u2@[j] == spec_newton_step(*curve, points@[start + j],
                    u@[j] as int),
        decreases n - k,
    {
        proof {
            assert(points@[start + k].in_range());
        }
        let corrected = newton_raphson_root_find(curve, points[start + k], u[k]);
        u2.push(corrected);
        k = k + 1;
    }
    u2
}

/// A curve that starts at `a` and ends at `b` has zero deviation from those
/// two points at the ends of the parameter range.
proof fn lemma_endpoint_err(c: BezierCurve, a: Point, b: Point)
    requires
        c.wf(),
        c.pt(0) == a,
        c.pt(3) == b,
    ensures
        err_num(c, a, 0) == 0,
        err_num(c, b, 1024) == 0,
{
    assert(c.eval_num_x(0) == (c.pt(0).x as int) * 1073741824);
    assert(c.eval_num_y(0) == (c.pt(0).y as int) * 1073741824);
    assert(c.eval_num_x(1024) == (c.pt(3).x as int) * 1073741824);
    assert(c.eval_num_y(1024) == (c.pt(3).y as int) * 1073741824);
    assert(0int * 0 == 0) by (nonlinear_arith);
}

/// Coverage by either of two curve sequences carries over to their
/// concatenation.
proof fn lemma_covered_concat(
    points: Seq<Point>,
    i: int,
    c1: Seq<BezierCurve>,
    c2: Seq<BezierCurve>,
    e: int,
)
    requires
        covered(points, i, c1, e) || covered(points, i, c2, e),
    ensures
        covered(points, i, c1 + c2, e),
{
    if covered(points, i, c1, e) {
        let (j, t) = choose|j: int, t: int|
            0 <= j < c1.len() && #[trigger] within_err(c1[j], points[i], t, e);
        assert((c1 + c2)[j] == c1[j]);
        assert(within_err((c1 + c2)[j], points[i], t, e));
    } else {
        let (j, t) = choose|j: int, t: int|
            0 <= j < c2.len() && #[trigger] within_err(c2[j], points[i], t, e);
        assert((c1 + c2)[j + c1.len()] == c2[j]);
        assert(within_err((c1 + c2)[j + c1.len()], points[i], t, e));
    }
}

/// Two chains that meet at the split point `mid` concatenate into one chain
/// over the whole run.
proof fn lemma_chain_concat(
    points: Seq<Point>,
    c1: Seq<BezierCurve>,
    c2: Seq<BezierCurve>,
    i1: Seq<int>,
    i2: Seq<int>,
    start: int,
    mid: int,
    end: int,
)
    requires
        chain(points, c1, i1, start, mid + 1),
        chain(points, c2, i2, mid, end),
    ensures
        chain(points, c1 + c2, i1 + i2.subrange(1, i2.len() as int), start, end),
{
    let c = c1 + c2;
    let idxs = i1 + i2.subrange(1, i2.len() as int);
    assert(idxs.len() == c.len() + 1);
    assert(idxs[0] == i1[0]);
    assert forall|j: int| 0 <= j <= c.len() implies #[trigger] idxs[j] == if j <= c1.len() {
        i1[j]
    } else {
        i2[j - c1.len()]
    } by {
        if j < i1.len() {
        } else {
            assert(idxs[j] == i2.subrange(1, i2.len() as int)[j - i1.len()]);
            assert(idxs[j] == i2[j - i1.len() + 1]);
        }
    }
    assert(idxs[c.len() as int] == i2[c2.len() as int] == end - 1);
    assert(i1[c1.len() as int] == mid == i2[0]);
    assert forall|j: int| 0 <= j < c.len() implies #[trigger] idxs[j] < idxs[j + 1] by {
        if j < c1.len() {
            assert(i1[j] < i1[j + 1]);
        } else if j == c1.len() {
            assert(idxs[j] == i1[c1.len() as int] == mid);
            assert(idxs[j + 1] == i2[1]);
            assert(i2[0] < i2[1]);
        } else {
            assert(i2[j - c1.len()] < i2[j - c1.len() + 1]);
        }
    }
    assert forall|j: int|
        0 <= j < c.len() implies (#[trigger] c[j]).pt(0) == points[idxs[j]] && c[j].pt(3)
            == points[idxs[j + 1]] by {
        if j < c1.len() {
            assert(c[j] == c1[j]);
            assert(c1[j].pt(0) == points[i1[j]]);
            assert(c1[j].pt(3) == points[i1[j + 1]]);
        } else {
            assert(c[j] == c2[j - c1.len()]);
            assert(c2[j - c1.len()].pt(0) == points[i2[j - c1.len()]]);
            assert(c2[j - c1.len()].pt(3) == points[i2[j - c1.len() + 1]]);
            if j == c1.len() {
                assert(idxs[j] == i1[c1.len() as int] == i2[0]);
            }
        }
    }
}

/// The chord-length parameters of a whole run, as one sequence.
pub open spec fn spec_chord_useq(points: Seq<Point>, start: int, n: int) -> Seq<i64> {
    Seq::new(n as nat, |k: int| spec_chord_u(points, start, n, k) as i64)
}

/// The Newton-corrected parameters of a whole run, as one sequence.
pub open spec fn spec_newton_useq(
    points: Seq<Point>,
    start: int,
    c: BezierCurve,
    u: Seq<i64>,
) -> Seq<i64> {
    Seq::new(u.len(), |k: int| spec_newton_step(c, points[start + k], u[k] as int) as i64)
}

/// The parameterization the fit holds after `r` Newton-Raphson rounds:
/// the chord-length parameters for round zero, and each further round the
/// correction against the previous round's least-squares curve.
pub open spec fn spec_round_u(
    points: Seq<Point>,
    start: int,
    end: int,
    lt: Point,
    rt: Point,
    r: int,
) -> Seq<i64>
    decreases r,
{
    if r <= 0 {
        spec_chord_useq(points, start, end - start)
    } else {
        let up = spec_round_u(points, start, end, lt, rt, r - 1);
        spec_newton_useq(points, start, spec_generate_bezier(points, start, end, up, lt, rt),
            up)
    }
}

/// The candidate curve of round `r`: the least-squares solve over that
/// round's parameterization.
pub open spec fn spec_round_curve(
    points: Seq<Point>,
    start: int,
    end: int,
    lt: Point,
    rt: Point,
    r: int,
) -> BezierCurve {
    spec_generate_bezier(points, start, end, spec_round_u(points, start, end, lt, rt, r), lt,
        rt)
}

/// The worst squared error of round `r`'s candidate at that round's
/// parameters.
pub open spec fn spec_round_err(
    points: Seq<Point>,
    start: int,
    end: int,
    lt: Point,
    rt: Point,
    r: int,
) -> int {
    spec_max_err(points, start, end, spec_round_curve(points, start, end, lt, rt, r),
        spec_round_u(points, start, end, lt, rt, r))
}

/// The worst-error index of round `r`.
pub open spec fn spec_round_worst(
    points: Seq<Point>,
    start: int,
    end: int,
    lt: Point,
    rt: Point,
    r: int,
) -> int {
    spec_worst(points, start, end, spec_round_curve(points, start, end, lt, rt, r),
        spec_round_u(points, start, end, lt, rt, r))
}

/// Whether the first candidate's miss is moderate enough that
/// Newton-Raphson retries are worth running: under the squared tolerance,
/// the deliberately asymmetric retry threshold.
pub open spec fn spec_retry_worth(
    points: Seq<Point>,
    start: int,
    end: int,
    lt: Point,
    rt: Point,
    error: int,
) -> bool {
    spec_round_err(points, start, end, lt, rt, 0) / 1152921504606846976 < error * error
}

/// The first round whose candidate is accepted within tolerance: zero for
/// the chord-parameterized candidate, one through four for the
/// Newton-corrected rounds (run only when retrying is worth it), and five
/// when no round is accepted and the run is split.
pub open spec fn spec_accept_round(
    points: Seq<Point>,
    start: int,
    end: int,
    lt: Point,
    rt: Point,
    error: int,
) -> int {
    let e60 = error * 1152921504606846976;
    if spec_round_err(points, start, end, lt, rt, 0) <= e60 {
        0
    } else if !spec_retry_worth(points, start, end, lt, rt, error) {
        5
    } else if spec_round_err(points, start, end, lt, rt, 1) <= e60 {
        1
    } else if spec_round_err(points, start, end, lt, rt, 2) <= e60 {
        2
    } else if spec_round_err(points, start, end, lt, rt, 3) <= e60 {
        3
    } else if spec_round_err(points, start, end, lt, rt, 4) <= e60 {
        4
    } else {
        5
    }
}

/// A split index forced strictly inside the run, so both halves shrink.
pub open spec fn spec_clamp_split(s: int, start: int, end: int) -> int {
    if s <= start {
        start + 1
    } else if s >= end - 1 {
        end - 2
    } else {
        s
    }
}

/// Where an over-tolerance run is split: the worst-error index of the last
/// measured round -- the fourth when retries ran, the first otherwise --
/// clamped strictly inside the run.
pub open spec fn spec_split_point(
    points: Seq<Point>,
    start: int,
    end: int,
    lt: Point,
    rt: Point,
    error: int,
) -> int {
    let fr: int = if spec_retry_worth(points, start, end, lt, rt, error) {
        4
    } else {
        0
    };
    spec_clamp_split(spec_round_worst(points, start, end, lt, rt, fr), start, end)
}

/// Some interior meeting index of a fit's chain is the given split point.
pub open spec fn splits_at(idxs: Seq<int>, m: int) -> bool {
    exists|j: int| 0 < j < idxs.len() - 1 && #[trigger] idxs[j] == m
}

/// A candidate within tolerance at round `r` is the accepted round when
/// every earlier round missed.
proof fn lemma_accept_round_is(
    points: Seq<Point>,
    start: int,
    end: int,
    lt: Point,
    rt: Point,
    e: int,
    r: int,
)
    requires
        0 <= r <= 4,
        r >= 1 ==> spec_retry_worth(points, start, end, lt, rt, e),
        forall|q: int|
            0 <= q < r ==> #[trigger] spec_round_err(points, start, end, lt, rt, q) > e
                * 1152921504606846976,
        spec_round_err(points, start, end, lt, rt, r) <= e * 1152921504606846976,
    ensures
        spec_accept_round(points, start, end, lt, rt, e) == r,
{
    if r >= 1 {
        assert(spec_round_err(points, start, end, lt, rt, 0) > e * 1152921504606846976);
    }
    if r >= 2 {
        assert(spec_round_err(points, start, end, lt, rt, 1) > e * 1152921504606846976);
    }
    if r >= 3 {
        assert(spec_round_err(points, start, end, lt, rt, 2) > e * 1152921504606846976);
    }
    if r >= 4 {
        assert(spec_round_err(points, start, end, lt, rt, 3) > e * 1152921504606846976);
    }
}

/// With the first candidate missed and either retries not worth running or
/// every retry round missed too, no round is accepted and the run splits.
proof fn lemma_no_accept(points: Seq<Point>, start: int, end: int, lt: Point, rt: Point, e: int)
    requires
        spec_round_err(points, start, end, lt, rt, 0) > e * 1152921504606846976,
        spec_retry_worth(points, start, end, lt, rt, e) ==> forall|q: int|
            1 <= q <= 4 ==> #[trigger] spec_round_err(points, start, end, lt, rt, q) > e
                * 1152921504606846976,
    ensures
        spec_accept_round(points, start, end, lt, rt, e) == 5,
{
    if spec_retry_worth(points, start, end, lt, rt, e) {
        assert(spec_round_err(points, start, end, lt, rt, 1) > e * 1152921504606846976);
        assert(spec_round_err(points, start, end, lt, rt, 2) > e * 1152921504606846976);
        assert(spec_round_err(points, start, end, lt, rt, 3) > e * 1152921504606846976);
        assert(spec_round_err(points, start, end, lt, rt, 4) > e * 1152921504606846976);
    }
}

/// Wrap one accepted candidate as a whole run's fit result, with its
/// two-element index chain.
fn accepted_single(
    points: &Vec<Point>,
    start: usize,
    end: usize,
    curve: BezierCurve,
    u: &Vec<i64>,
    max_err: i128,
    error: i64,
) -> (r: (Vec<BezierCurve>, Ghost<Seq<int>>))
    requires
        start < end <= points@.len(),
        end - start >= 2,
        error >= 0,
        curve.wf(),
        curve.pt(0) == points@[start as int],
        curve.pt(3) == points@[end - 1],
        u@.len() == end - start,
        forall|k: int| 0 <= k < u@.len() ==> 0 <= #[trigger] u@[k] <= 1024,
        forall|k: int|
            0 <= k < u@.len() ==> #[trigger] err_num(curve, points@[start + k], u@[k] as int)
                <= max_err,
        max_err <= (error as int) * 1152921504606846976,
    ensures
        r.0@.len() == 1,
        r.0@[0] == curve,
        r.1@ == seq![start as int, end as int - 1],
        all_wf(r.0@),
        chain(points@, r.0@, r.1@, start as int, end as int),
        forall|i: int| start <= i < end ==> covered(points@, i, r.0@, error as int),
{
    let ghost e = error as int;
    let curves = vec![curve];
    let ghost idxs = seq![start as int, end as int - 1];
    proof {
        assert(curves@ =~= seq![curve]);
        assert forall|i: int| start <= i < end implies covered(points@, i, curves@, e) by {
            let k = i - start;
            assert(err_num(curve, points@[start + k], u@[k] as int) <= max_err);
            assert(within_err(curves@[0], points@[i], u@[k] as int, e));
        }
        assert(chain(points@, curves@, idxs, start as int, end as int));
    }
    (curves, Ghost(idxs))
}

/// Fit one run `points[start..end]` recursively: accept the least-squares
/// curve if it is within tolerance, retry a few Newton-Raphson rounds when
/// the miss is moderate, and otherwise split at the worst point and fit
/// both halves, which share the split point.  The split index is clamped
/// strictly inside the run, so both halves shrink and the recursion depth
/// is bounded by the run length, which the termination measure checks.
/// Every point of the run ends up within the tolerance of some returned
/// curve at some parameter, and the curves trace the run in order.
#[verifier::rlimit(50)]
fn fit_cubic(
    points: &Vec<Point>,
    start: usize,
    end: usize,
    lt: Point,
    rt: Point,
    error: i64,
) -> (r: (Vec<BezierCurve>, Ghost<Seq<int>>))
    requires
        start < end <= points@.len(),
        end - start >= 2,
        points@.len() <= 1048576,
        forall|i: int| 0 <= i < points@.len() ==> (#[trigger] points@[i]).in_range(),
        is_tangent(lt),
        is_tangent(rt),
        error >= 0,
    ensures
        all_wf(r.0@),
        chain(points@, r.0@, r.1@, start as int, end as int),
        forall|i: int| start <= i < end ==> covered(points@, i, r.0@, error as int),
        end - start == 2 ==> r.0@.len() == 1 && r.0@[0] == spec_chord_curve(
            points@[start as int], points@[end - 1], lt, rt),
        end - start >= 3 ==> ({
            let ar = spec_accept_round(points@, start as int, end as int, lt, rt,
                error as int);
            &&& (ar <= 4 ==> r.0@.len() == 1 && r.0@[0] == spec_round_curve(points@,
                start as int, end as int, lt, rt, ar))
            &&& (ar == 5 ==> r.0@.len() >= 2 && splits_at(r.1@, spec_split_point(points@,
                start as int, end as int, lt, rt, error as int)))
        }),
    decreases end - start,
{
    let ghost e = error as int;
    // a two-point run takes the chord-heuristic shortcut
    if end - start == 2 {
        let c = chord_heuristic_curve(points[start], points[end - 1], lt, rt);
        let curves = vec![c];
        let ghost idxs = seq![start as int, start as int + 1];
        proof {
            assert(curves@ =~= seq![c]);
            assert(curves@[0] == spec_chord_curve(points@[start as int], points@[end - 1], lt,
                rt));
            lemma_endpoint_err(c, points@[start as int], points@[end - 1]);
            assert(e * 1152921504606846976 >= 0) by (nonlinear_arith)
                requires
                    e >= 0,
            ;
            assert(within_err(curves@[0], points@[start as int], 0, e));
            assert(within_err(curves@[0], points@[end - 1], 1024, e));
            assert forall|i: int| start <= i < end implies covered(points@, i, curves@, e) by {
                if i == start {
                    assert(within_err(curves@[0], points@[i], 0, e));
                } else {
                    assert(within_err(curves@[0], points@[i], 1024, e));
                }
            }
            assert(chain(points@, curves@, idxs, start as int, end as int));
        }
        return (curves, Ghost(idxs));
    }
    // parameterize by chord length and solve for a first candidate
    let mut u = chord_length_parameterize(points, start, end);
    let mut curve = generate_bezier(points, start, end, &u, lt, rt);
    let m0 = compute_max_error(points, start, end, &curve, &u);
    let mut max_err = m0.0;
    let mut split = m0.1;
    let ghost u0 = spec_chord_useq(points@, start as int, (end - start) as int);
    let ghost cand = spec_round_curve(points@, start as int, end as int, lt, rt, 0);
    proof {
        assert forall|k: int| 0 <= k < u@.len() implies #[trigger] u@[k] == u0[k] by {
            assert(u@[k] == spec_chord_u(points@, start as int, (end - start) as int, k));
        }
        assert(u@ =~= u0);
        assert(curve == cand);
        assert(max_err == spec_max_err(points@, start as int, end as int, cand, u0));
        assert(u@ == spec_round_u(points@, start as int, end as int, lt, rt, 0));
        assert(curve == spec_round_curve(points@, start as int, end as int, lt, rt, 0));
        assert(max_err == spec_round_err(points@, start as int, end as int, lt, rt, 0));
        assert(split == spec_round_worst(points@, start as int, end as int, lt, rt, 0));
    }
    proof {
        assert((error as i128) * 1152921504606846976 == e * 1152921504606846976
            && e * 1152921504606846976 >= 0 && e * 1152921504606846976
            <= 170141183460469231731687303715884105727) by (nonlinear_arith)
            requires
                0 <= error as i128 <= 9223372036854775807,
                e == error as i128,
        ;
    }
    let e60: i128 = (error as i128) * 1152921504606846976;
    if max_err <= e60 {
        proof {
            lemma_accept_round_is(points@, start as int, end as int, lt, rt, e, 0);
        }
        return accepted_single(points, start, end, curve, &u, max_err, error);
    }
    proof {
        assert(spec_round_err(points@, start as int, end as int, lt, rt, 0) > e
            * 1152921504606846976);
    }
    // when the miss is moderate, correct the parameters a few times
    proof {
        assert((error as i128) * (error as i128) >= 0 && (error as i128) * (error as i128)
            <= 85070591730234615847396907784232501249) by (nonlinear_arith)
            requires
                0 <= error as i128 <= 9223372036854775807,
        ;
    }
    let worth = max_err / 1152921504606846976 < (error as i128) * (error as i128);
    proof {
        assert(worth == spec_retry_worth(points@, start as int, end as int, lt, rt, e));
    }
    if worth {
        let mut round: usize = 0;
        while round < 4
            invariant
                start < end <= points@.len(),
                end - start >= 3,
                points@.len() <= 1048576,
                forall|i: int| 0 <= i < points@.len() ==> (#[trigger] points@[i]).in_range(),
                is_tangent(lt),
                is_tangent(rt),
                error >= 0,
                e == error as int,
                e60 == e * 1152921504606846976,
                round <= 4,
                u@.len() == end - start,
                forall|k: int| 0 <= k < u@.len() ==> 0 <= #[trigger] u@[k] <= 1024,
                curve.wf(),
                curve.pt(0) == points@[start as int],
                curve.pt(3) == points@[end - 1],
                start <= split < end,
                u@ == spec_round_u(points@, start as int, end as int, lt, rt, round as int),
                curve == spec_round_curve(points@, start as int, end as int, lt, rt,
                    round as int),
                max_err == spec_round_err(points@, start as int, end as int, lt, rt,
                    round as int),
                split == spec_round_worst(points@, start as int, end as int, lt, rt,
                    round as int),
                spec_retry_worth(points@, start as int, end as int, lt, rt, e),
                forall|q: int|
                    0 <= q <= round ==> #[trigger] spec_round_err(points@, start as int,
                        end as int, lt, rt, q) > e * 1152921504606846976,
            decreases 4 - round,
        {
            let ghost u_prev = u@;
            let ghost curve_prev = curve;
            u = reparameterize(points, start, end, &u, &curve);
            proof {
                assert forall|k: int|
                    0 <= k < u@.len() implies #[trigger] u@[k] == spec_newton_useq(points@,
                        start as int, curve_prev, u_prev)[k] by {
                    assert(u@[k] == spec_newton_step(curve_prev, points@[start + k],
                        u_prev[k] as int));
                }
                assert(u@ =~= spec_newton_useq(points@, start as int, curve_prev, u_prev));
                assert(u@ == spec_round_u(points@, start as int, end as int, lt, rt,
                    round as int + 1));
            }
            curve = generate_bezier(points, start, end, &u, lt, rt);
            let m1 = compute_max_error(points, start, end, &curve, &u);
            max_err = m1.0;
            split = m1.1;
            proof {
                assert(curve == spec_round_curve(points@, start as int, end as int, lt, rt,
                    round as int + 1));
                assert(max_err == spec_round_err(points@, start as int, end as int, lt, rt,
                    round as int + 1));
                assert(split == spec_round_worst(points@, start as int, end as int, lt, rt,
                    round as int + 1));
            }
            if max_err <= e60 {
                proof {
                    lemma_accept_round_is(points@, start as int, end as int, lt, rt, e,
                        round as int + 1);
                }
                return accepted_single(points, start, end, curve, &u, max_err, error);
            }
            round = round + 1;
        }
        proof {
            lemma_no_accept(points@, start as int, end as int, lt, rt, e);
            assert(spec_clamp_split(split as int, start as int, end as int)
                == spec_split_point(points@, start as int, end as int, lt, rt, e));
        }
    } else {
        proof {
            lemma_no_accept(points@, start as int, end as int, lt, rt, e);
            assert(spec_clamp_split(split as int, start as int, end as int)
                == spec_split_point(points@, start as int, end as int, lt, rt, e));
        }
    }
    // still over tolerance: split at the worst point and fit both halves,
    // keeping the split strictly inside the run so both halves shrink
    let mut mid = split;
    if mid <= start {
        mid = start + 1;
    }
    if mid >= end - 1 {
        mid = end - 2;
    }
    proof {
        assert(mid as int == spec_clamp_split(split as int, start as int, end as int));
        assert(mid as int == spec_split_point(points@, start as int, end as int, lt, rt, e));
    }
    let ct = compute_center_tangent(points, mid);
    let (mut left, gl) = fit_cubic(points, start, mid + 1, lt, ct, error);
    let nct = Point { x: -ct.x, y: -ct.y };
    let (mut right, gr) = fit_cubic(points, mid, end, nct, rt, error);
    let ghost lcurves = left@;
    let ghost rcurves = right@;
    left.append(&mut right);
    let ghost idxs = gl@ + gr@.subrange(1, gr@.len() as int);
    proof {
        lemma_chain_concat(points@, lcurves, rcurves, gl@, gr@, start as int, mid as int,
            end as int);
        assert(left@ =~= lcurves + rcurves);
        assert(idxs[lcurves.len() as int] == gl@[lcurves.len() as int]);
        assert(gl@[lcurves.len() as int] == mid as int);
        assert(0 < lcurves.len() < idxs.len() - 1);
        assert(splits_at(idxs, mid as int));
        assert(splits_at(idxs, spec_split_point(points@, start as int, end as int, lt, rt,
            e)));
        assert forall|i: int| start <= i < end implies covered(points@, i, left@, e) by {
            if i <= mid {
                lemma_covered_concat(points@, i, lcurves, rcurves, e);
            } else {
                lemma_covered_concat(points@, i, lcurves, rcurves, e);
            }
        }
        assert forall|j: int| 0 <= j < left@.len() implies (#[trigger] left@[j]).wf() by {
            if j < lcurves.len() {
                assert(left@[j] == lcurves[j]);
            } else {
                assert(left@[j] == rcurves[j - lcurves.len()]);
            }
        }
    }
    (left, Ghost(idxs))
}

/// In a strictly increasing index chain, the `j`-th index is at least `j`
/// above the first.
proof fn lemma_idxs_grow(idxs: Seq<int>, n: int, j: int)
    requires
        0 <= j <= n,
        idxs.len() == n + 1,
        forall|k: int| 0 <= k < n ==> #[trigger] idxs[k] < idxs[k + 1],
    ensures
        idxs[j] >= idxs[0] + j,
    decreases j,
{
    if j > 0 {
        lemma_idxs_grow(idxs, n, j - 1);
        assert(idxs[j - 1] < idxs[j]);
    }
}

/// A chain over a run uses at least one input interval per curve: a fit
/// can never emit more curves than the run has chords.
pub proof fn lemma_chain_curve_bound(
    points: Seq<Point>,
    curves: Seq<BezierCurve>,
    idxs: Seq<int>,
    start: int,
    end: int,
)
    requires
        chain(points, curves, idxs, start, end),
    ensures
        curves.len() <= end - 1 - start,
{
    lemma_idxs_grow(idxs, curves.len() as int, curves.len() as int);
}

/// Fit an ordered run of points with a sequence of cubic Bezier curves so
/// that every input point lies within the squared-distance tolerance of
/// some returned curve at some parameter.  The curves trace the run from
/// left to right, consecutive curves share their meeting point, and a
/// two-point run yields exactly one curve through both points.  Fewer than
/// two points yield an empty result.
#[verifier::rlimit(50)]
pub fn fit_curve(points: &Vec<Point>, error: i64) -> (r: Vec<BezierCurve>)
    requires
        forall|i: int| 0 <= i < points@.len() ==> (#[trigger] points@[i]).in_range(),
        points@.len() <= 1048576,
        error >= 0,
    ensures
        points@.len() < 2 ==> r@.len() == 0,
        points@.len() >= 2 ==> {
            &&& 1 <= r@.len() <= points@.len() - 1
            &&& all_wf(r@)
            &&& exists|idxs: Seq<int>|
                chain(points@, r@, idxs, 0, points@.len() as int) && (points@.len() >= 3
                    && spec_accept_round(points@, 0, points@.len() as int, spec_left_tangent(
                    points@, 0), spec_right_tangent(points@, points@.len() - 1), error as int)
                    == 5 ==> splits_at(idxs, spec_split_point(points@, 0,
                    points@.len() as int, spec_left_tangent(points@, 0), spec_right_tangent(
                    points@, points@.len() - 1), error as int)))
            &&& forall|i: int| 0 <= i < points@.len() ==> covered(points@, i, r@, error as int)
            &&& r@[0].pt(0) == points@[0]
            &&& r@[r@.len() - 1].pt(3) == points@[points@.len() - 1]
            &&& forall|j: int| 0 <= j < r@.len() - 1 ==> (#[trigger] r@[j]).pt(3) == r@[j + 1].pt(0)
        },
        points@.len() == 2 ==> r@.len() == 1 && r@[0] == spec_chord_curve(points@[0],
            points@[1], spec_left_tangent(points@, 0), spec_right_tangent(points@,
            points@.len() - 1)),
        points@.len() >= 3 ==> ({
            let ar = spec_accept_round(points@, 0, points@.len() as int, spec_left_tangent(
                points@, 0), spec_right_tangent(points@, points@.len() - 1), error as int);
            &&& (ar <= 4 ==> r@.len() == 1 && r@[0] == spec_round_curve(points@, 0,
                points@.len() as int, spec_left_tangent(points@, 0), spec_right_tangent(
                points@, points@.len() - 1), ar))
            &&& (ar == 5 ==> r@.len() >= 2)
        }),
{
    if points.len() < 2 {
        return Vec::new();
    }
    let lt = compute_left_tangent(points, 0);
    let rt = compute_right_tangent(points, points.len() - 1);
    let (curves, gi) = fit_cubic(points, 0, points.len(), lt, rt, error);
    proof {
        assert(lt == spec_left_tangent(points@, 0));
        assert(rt == spec_right_tangent(points@, points@.len() - 1));
        let idxs = gi@;
        assert(chain(points@, curves@, idxs, 0, points@.len() as int));
        assert(chain(points@, curves@, idxs, 0, points@.len() as int) && (points@.len() >= 3
            && spec_accept_round(points@, 0, points@.len() as int, lt, rt, error as int) == 5
            ==> splits_at(idxs, spec_split_point(points@, 0, points@.len() as int, lt, rt,
            error as int))));
        lemma_chain_curve_bound(points@, curves@, idxs, 0, points@.len() as int);
        assert(curves@[0].pt(0) == points@[idxs[0]]);
        assert forall|j: int| 0 <= j < curves@.len() - 1 implies (#[trigger] curves@[j]).pt(3)
            == curves@[j + 1].pt(0) by {
            assert(curves@[j].pt(3) == points@[idxs[j + 1]]);
            assert(curves@[j + 1].pt(0) == points@[idxs[j + 1]]);
        }
    }
    curves
}


impl BezierCurve {
    /// Fit an ordered run of points with Bezier curves at the given
    /// squared-distance tolerance; see `fit_curve`.
    pub fn fit_to(points: &Vec<Point>, error: i64) -> (r: Vec<BezierCurve>)
        requires
            forall|i: int| 0 <= i < points@.len() ==> (#[trigger] points@[i]).in_range(),
            points@.len() <= 1048576,
            error >= 0,
        ensures
            points@.len() < 2 ==> r@.len() == 0,
            points@.len() >= 2 ==> {
                &&& 1 <= r@.len() <= points@.len() - 1
                &&& all_wf(r@)
                &&& exists|idxs: Seq<int>| chain(points@, r@, idxs, 0, points@.len() as int)
                &&& forall|i: int|
                    0 <= i < points@.len() ==> covered(points@, i, r@, error as int)
                &&& r@[0].pt(0) == points@[0]
                &&& r@[r@.len() - 1].pt(3) == points@[points@.len() - 1]
                &&& forall|j: int|
                    0 <= j < r@.len() - 1 ==> (#[trigger] r@[j]).pt(3) == r@[j + 1].pt(0)
            },
            points@.len() == 2 ==> r@.len() == 1 && r@[0] == spec_chord_curve(points@[0],
                points@[1], spec_left_tangent(points@, 0), spec_right_tangent(points@,
                points@.len() - 1)),
            points@.len() >= 3 ==> ({
                let ar = spec_accept_round(points@, 0, points@.len() as int,
                    spec_left_tangent(points@, 0), spec_right_tangent(points@,
                    points@.len() - 1), error as int);
                &&& (ar <= 4 ==> r@.len() == 1 && r@[0] == spec_round_curve(points@, 0,
                    points@.len() as int, spec_left_tangent(points@, 0), spec_right_tangent(
                    points@, points@.len() - 1), ar))
                &&& (ar == 5 ==> r@.len() >= 2)
            }),
    {
        fit_curve(points, error)
    }
}

} // verus!
