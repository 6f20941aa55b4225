//! Geometry primitives: points, line segments, and the exact integer
//! arithmetic (square roots, distances, cross products) the engine is built on.

use vstd::prelude::*;
use vstd::arithmetic::div_mod::{lemma_div_multiples_vanish, lemma_div_is_ordered};

verus! {

/// Largest coordinate magnitude the engine accepts at its boundary.  The
/// bound keeps every intermediate product of the fitter and rasterizer inside
/// `i64`/`i128` range.
pub const COORD_LIMIT: i64 = 1048576;

/// Coordinate bound for control points produced by the fitter.  Control
/// handles may legitimately overshoot the input range, so curves are allowed
/// a wider box than raw input points.
pub const HANDLE_LIMIT: i64 = 8388608;

/// A point (or free vector) in integer sub-pixel units.
#[derive(Clone, Copy, PartialEq, Eq, Structural, Debug)]
pub struct Point {
    pub x: i64,
    pub y: i64,
}

/// A directed straight segment between two points.
#[derive(Clone, Copy, PartialEq, Eq, Structural, Debug)]
pub struct LineSegment {
    pub from: Point,
    pub to: Point,
}

impl Point {
    /// True when both coordinates are within the engine's input range.
    pub open spec fn in_range(self) -> bool {
        -COORD_LIMIT <= self.x <= COORD_LIMIT && -COORD_LIMIT <= self.y <= COORD_LIMIT
    }

    /// True when both coordinates are within the wider control-point range.
    pub open spec fn in_handle_range(self) -> bool {
        -HANDLE_LIMIT <= self.x <= HANDLE_LIMIT && -HANDLE_LIMIT <= self.y <= HANDLE_LIMIT
    }

    pub fn new(x: i64, y: i64) -> (r: Point)
        ensures
            r.x == x,
            r.y == y,
    {
        Point { x, y }
    }
}

impl LineSegment {
    pub open spec fn wf(self) -> bool {
        self.from.in_range() && self.to.in_range()
    }

    pub fn new(from: Point, to: Point) -> (r: LineSegment)
        ensures
            r.from == from,
            r.to == to,
    {
        LineSegment { from, to }
    }

    /// A segment is degenerate when its endpoints coincide.
    pub open spec fn spec_degenerate(self) -> bool {
        self.from == self.to
    }

    pub fn is_degenerate(&self) -> (r: bool)
        ensures
            r == self.spec_degenerate(),
    {
        self.from.x == self.to.x && self.from.y == self.to.y
    }
}

/// Mathematical floor of the square root, defined by counting up.
pub open spec fn sqrt_floor(n: nat) -> nat
    decreases n,
{
    if n == 0 {
        0
    } else {
        let p = sqrt_floor((n - 1) as nat);
        if (p + 1) * (p + 1) <= n {
            p + 1
        } else {
            p
        }
    }
}

/// `sqrt_floor(n)` really is the floor of the square root of `n`.
pub proof fn lemma_sqrt_floor(n: nat)
    ensures
        sqrt_floor(n) * sqrt_floor(n) <= n,
        n < (sqrt_floor(n) + 1) * (sqrt_floor(n) + 1),
    decreases n,
{
    if n == 0 {
        assert(sqrt_floor(n) == 0);
        assert(n < (sqrt_floor(n) + 1) * (sqrt_floor(n) + 1)) by (nonlinear_arith)
            requires
                n == 0,
                sqrt_floor(n) == 0,
        ;
    } else {
        lemma_sqrt_floor((n - 1) as nat);
        let p = sqrt_floor((n - 1) as nat);
        if (p + 1) * (p + 1) <= n {
            assert(sqrt_floor(n) == p + 1);
            assert(n - 1 < (p + 1) * (p + 1));
            assert(sqrt_floor(n) * sqrt_floor(n) <= n) by (nonlinear_arith)
                requires
                    sqrt_floor(n) == p + 1,
                    (p + 1) * (p + 1) <= n,
            ;
            assert(n < (sqrt_floor(n) + 1) * (sqrt_floor(n) + 1)) by (nonlinear_arith)
                requires
                    sqrt_floor(n) == p + 1,
                    n <= (p + 1) * (p + 1),
                    p >= 0,
            ;
        } else {
            assert(sqrt_floor(n) == p);
            assert(sqrt_floor(n) * sqrt_floor(n) <= n) by (nonlinear_arith)
                requires
                    sqrt_floor(n) == p,
                    p * p <= n - 1,
            ;
            assert(n < (sqrt_floor(n) + 1) * (sqrt_floor(n) + 1)) by (nonlinear_arith)
                requires
                    sqrt_floor(n) == p,
                    n < (p + 1) * (p + 1),
            ;
        }
    }
}

/// Mathematical ceiling of the square root: the floor, bumped by one
/// unless the argument is a perfect square.
pub open spec fn sqrt_ceil(n: nat) -> nat {
    if sqrt_floor(n) * sqrt_floor(n) == n {
        sqrt_floor(n)
    } else {
        sqrt_floor(n) + 1
    }
}

/// Two values that both satisfy the square-root bounds are equal.
pub proof fn lemma_sqrt_unique(n: nat, r1: nat, r2: nat)
    requires
        r1 * r1 <= n < (r1 + 1) * (r1 + 1),
        r2 * r2 <= n < (r2 + 1) * (r2 + 1),
    ensures
        r1 == r2,
{
    if r1 < r2 {
        assert(r2 * r2 <= n);
        assert((r1 + 1) * (r1 + 1) <= r2 * r2) by (nonlinear_arith)
            requires
                r1 + 1 <= r2,
                r1 >= 0,
        ;
    }
    if r2 < r1 {
        assert((r2 + 1) * (r2 + 1) <= r1 * r1) by (nonlinear_arith)
            requires
                r2 + 1 <= r1,
                r2 >= 0,
        ;
    }
}

/// Integer square root by bisection.
pub fn isqrt(n: u64) -> (r: u64)
    ensures
        r == sqrt_floor(n as nat),
        r * r <= n,
        n < (r + 1) * (r + 1),
{
    proof {
        lemma_sqrt_floor(n as nat);
    }
    if n == 0 {
        proof {
            lemma_sqrt_unique(n as nat, 0nat, sqrt_floor(n as nat));
        }
        return 0;
    }
    let mut lo: u64 = 0;
    let mut hi: u64 = 0x1_0000_0000;
    while hi - lo > 1
        invariant
            lo < hi,
            hi <= 0x1_0000_0000,
            lo * lo <= n,
            (n as int) < (hi as int) * (hi as int),
        decreases hi - lo,
    {
        let mid = lo + (hi - lo) / 2;
        if mid > 0xFFFF_FFFF {
            proof {
                assert((n as int) < (mid as int) * (mid as int)) by (nonlinear_arith)
                    requires
                        mid >= 0x1_0000_0000,
                        n <= u64::MAX,
                ;
            }
            hi = mid;
        } else {
            proof {
                assert(mid * mid <= 0xFFFF_FFFFu64 * 0xFFFF_FFFFu64) by (nonlinear_arith)
                    requires
                        mid <= 0xFFFF_FFFFu64,
                ;
            }
            if mid * mid <= n {
                lo = mid;
            } else {
                hi = mid;
            }
        }
    }
    proof {
        lemma_sqrt_unique(n as nat, lo as nat, sqrt_floor(n as nat));
    }
    lo
}

/// Squared Euclidean distance between two points, exact.
pub open spec fn spec_sqdist(a: Point, b: Point) -> int {
    (a.x - b.x) * (a.x - b.x) + (a.y - b.y) * (a.y - b.y)
}

/// Squared distance, executable.  The handle range keeps the squares in
/// `u64`.
pub fn sqdist(a: Point, b: Point) -> (r: u64)
    requires
        a.in_handle_range(),
        b.in_handle_range(),
    ensures
        r == spec_sqdist(a, b),
{
    let dx: i64 = a.x - b.x;
    let dy: i64 = a.y - b.y;
    proof {
        assert(dx * dx <= 281474976710656 && dx * dx >= 0) by (nonlinear_arith)
            requires
                -16777216 <= dx <= 16777216,
        ;
        assert(dy * dy <= 281474976710656 && dy * dy >= 0) by (nonlinear_arith)
            requires
                -16777216 <= dy <= 16777216,
        ;
    }
    let sx: i64 = dx * dx;
    let sy: i64 = dy * dy;
    (sx as u64) + (sy as u64)
}

/// Euclidean distance, rounded down to whole units.
pub open spec fn spec_distance(a: Point, b: Point) -> nat {
    sqrt_floor(spec_sqdist(a, b) as nat)
}

/// Distance between two points: the floor of the square root of the squared
/// distance.
pub fn distance(a: Point, b: Point) -> (r: u64)
    requires
        a.in_handle_range(),
        b.in_handle_range(),
    ensures
        r == spec_distance(a, b),
        r <= 4 * (HANDLE_LIMIT as u64),
{
    let sq = sqdist(a, b);
    let r = isqrt(sq);
    proof {
        assert(spec_sqdist(a, b) <= 2 * ((2 * HANDLE_LIMIT) * (2 * HANDLE_LIMIT)))
            by (nonlinear_arith)
            requires
                -HANDLE_LIMIT <= a.x <= HANDLE_LIMIT,
                -HANDLE_LIMIT <= a.y <= HANDLE_LIMIT,
                -HANDLE_LIMIT <= b.x <= HANDLE_LIMIT,
                -HANDLE_LIMIT <= b.y <= HANDLE_LIMIT,
        ;
        if r > 4 * (HANDLE_LIMIT as u64) {
            assert((r as int) * (r as int) > 2 * ((2 * HANDLE_LIMIT) * (2 * HANDLE_LIMIT)))
                by (nonlinear_arith)
                requires
                    r as int >= 4 * HANDLE_LIMIT + 1,
                    HANDLE_LIMIT >= 1,
            ;
        }
    }
    r
}

/// Cross product of two free vectors.
pub open spec fn spec_cross(a: Point, b: Point) -> int {
    a.x * b.y - a.y * b.x
}

/// Cross product, executable.
pub fn cross(a: Point, b: Point) -> (r: i64)
    requires
        a.in_handle_range(),
        b.in_handle_range(),
    ensures
        r == spec_cross(a, b),
{
    proof {
        assert(a.x * b.y <= 70368744177664 && a.x * b.y >= -70368744177664)
            by (nonlinear_arith)
            requires
                -8388608 <= a.x <= 8388608,
                -8388608 <= b.y <= 8388608,
        ;
        assert(a.y * b.x <= 70368744177664 && a.y * b.x >= -70368744177664)
            by (nonlinear_arith)
            requires
                -8388608 <= a.y <= 8388608,
                -8388608 <= b.x <= 8388608,
        ;
    }
    a.x * b.y - a.y * b.x
}

/// Division rounding toward zero, the rule used to turn exact numerators
/// back into coordinates.
pub open spec fn tdiv(a: int, d: int) -> int {
    if a >= 0 {
        a / d
    } else {
        -((-a) / d)
    }
}

/// Truncating signed division by a positive divisor, carried out on
/// unsigned values.
pub fn div_trunc(a: i64, d: i64) -> (r: i64)
    requires
        d >= 1,
        -9007199254740992 <= a <= 9007199254740992,
    ensures
        r == tdiv(a as int, d as int),
        -9007199254740992 <= r <= 9007199254740992,
{
    if a >= 0 {
        let q = (a as u64) / (d as u64);
        proof {
            assert(a as u64 / (d as u64) <= a as u64) by (nonlinear_arith)
                requires
                    d as u64 >= 1,
            ;
        }
        q as i64
    } else {
        let n = (-a) as u64;
        let q = n / (d as u64);
        proof {
            assert(n / (d as u64) <= n) by (nonlinear_arith)
                requires
                    d as u64 >= 1,
            ;
        }
        -(q as i64)
    }
}

/// Scaling by a positive divisor and dividing back yields the original
/// value, for either sign.
pub proof fn lemma_tdiv_cancel(a: int, d: int)
    requires
        d > 0,
    ensures
        tdiv(a * d, d) == a,
{
    if a >= 0 {
        assert(a * d == d * a) by (nonlinear_arith);
        assert(a * d >= 0) by (nonlinear_arith)
            requires
                a >= 0,
                d > 0,
        ;
        lemma_div_multiples_vanish(a, d);
    } else {
        assert(a * d < 0) by (nonlinear_arith)
            requires
                a < 0,
                d > 0,
        ;
        assert(-(a * d) == d * (-a)) by (nonlinear_arith);
        lemma_div_multiples_vanish(-a, d);
    }
}

/// A numerator bounded by `m` times the divisor divides down to a value
/// bounded by `m`.
pub proof fn lemma_tdiv_bound(a: int, d: int, m: int)
    requires
        d > 0,
        m >= 0,
        -(m * d) <= a <= m * d,
    ensures
        -m <= tdiv(a, d) <= m,
{
    lemma_tdiv_cancel(m, d);
    assert(m * d >= 0) by (nonlinear_arith)
        requires
            m >= 0,
            d > 0,
    ;
    if a >= 0 {
        lemma_div_is_ordered(a, m * d, d);
        assert(a / d >= 0) by (nonlinear_arith)
            requires
                a >= 0,
                d > 0,
        ;
    } else {
        lemma_div_is_ordered(-a, m * d, d);
        assert((-a) / d >= 0) by (nonlinear_arith)
            requires
                -a >= 0,
                d > 0,
        ;
    }
}


/// Truncating division with the divisor's sign folded in: the quotient of
/// `a / d` rounded toward zero, for any nonzero `d`.
pub open spec fn sdiv(a: int, d: int) -> int {
    if d >= 0 {
        tdiv(a, d)
    } else {
        tdiv(-a, -d)
    }
}

/// Truncating signed division on wide intermediates.
pub fn div_trunc_i128(a: i128, d: i128) -> (r: i128)
    requires
        d >= 1,
        -85070591730234615865843651857942052864 <= a <= 85070591730234615865843651857942052864,
    ensures
        r == tdiv(a as int, d as int),
        -85070591730234615865843651857942052864 <= r
            <= 85070591730234615865843651857942052864,
{
    if a >= 0 {
        let q = (a as u128) / (d as u128);
        proof {
            assert(a as u128 / (d as u128) <= a as u128) by (nonlinear_arith)
                requires
                    d as u128 >= 1,
            ;
        }
        q as i128
    } else {
        let n = (-a) as u128;
        let q = n / (d as u128);
        proof {
            assert(n / (d as u128) <= n) by (nonlinear_arith)
                requires
                    d as u128 >= 1,
            ;
        }
        -(q as i128)
    }
}

/// A truncating quotient keeps the sign of its numerator.
pub proof fn lemma_tdiv_sign(a: int, d: int)
    requires
        d >= 1,
    ensures
        a >= 0 ==> tdiv(a, d) >= 0,
        a <= 0 ==> tdiv(a, d) <= 0,
{
    if a >= 0 {
        assert(a / d >= 0) by (nonlinear_arith)
            requires
                a >= 0,
                d >= 1,
        ;
    } else {
        assert((-a) / d >= 0) by (nonlinear_arith)
            requires
                -a >= 0,
                d >= 1,
        ;
    }
}

impl LineSegment {
    /// The segment's length, rounded down to whole units.
    pub fn length(&self) -> (r: u64)
        requires
            self.from.in_handle_range(),
            self.to.in_handle_range(),
        ensures
            r == spec_distance(self.from, self.to),
    {
        distance(self.from, self.to)
    }

    /// The point at parameter `t` over `0..=PSCALE` along the segment:
    /// the start plus the truncated fraction of the difference.
    pub open spec fn spec_sample(self, t: int) -> Point {
        Point {
            x: (self.from.x + tdiv((self.to.x - self.from.x) * t, 1024)) as i64,
            y: (self.from.y + tdiv((self.to.y - self.from.y) * t, 1024)) as i64,
        }
    }

    /// Sample the segment at a parameter; the ends of the range return the
    /// endpoints exactly.
    pub fn sample_at(&self, t: i64) -> (r: Point)
        requires
            self.from.in_handle_range(),
            self.to.in_handle_range(),
            0 <= t <= 1024,
        ensures
            r == self.spec_sample(t as int),
            t == 0 ==> r == self.from,
            t == 1024 ==> r == self.to,
            r.in_handle_range(),
    {
        let dx = self.to.x - self.from.x;
        let dy = self.to.y - self.from.y;
        proof {
            let mdx: int = if dx >= 0 { dx as int } else { -(dx as int) };
            let mdy: int = if dy >= 0 { dy as int } else { -(dy as int) };
            assert(-(mdx * 1024) <= dx * t <= mdx * 1024 && -17179869184 <= dx * t
                <= 17179869184) by (nonlinear_arith)
                requires
                    -mdx <= dx <= mdx,
                    0 <= mdx <= 16777216,
                    0 <= t <= 1024,
            ;
            assert(-(mdy * 1024) <= dy * t <= mdy * 1024 && -17179869184 <= dy * t
                <= 17179869184) by (nonlinear_arith)
                requires
                    -mdy <= dy <= mdy,
                    0 <= mdy <= 16777216,
                    0 <= t <= 1024,
            ;
            lemma_tdiv_bound(dx * t, 1024, mdx);
            lemma_tdiv_bound(dy * t, 1024, mdy);
            lemma_tdiv_sign(dx * t, 1024);
            lemma_tdiv_sign(dy * t, 1024);
            assert(dx >= 0 ==> dx * t >= 0) by (nonlinear_arith)
                requires
                    t >= 0,
            ;
            assert(dx < 0 ==> dx * t <= 0) by (nonlinear_arith)
                requires
                    t >= 0,
            ;
            assert(dy >= 0 ==> dy * t >= 0) by (nonlinear_arith)
                requires
                    t >= 0,
            ;
            assert(dy < 0 ==> dy * t <= 0) by (nonlinear_arith)
                requires
                    t >= 0,
            ;
            if t == 0 {
                assert(dx * 0 == 0 && dy * 0 == 0) by (nonlinear_arith);
                assert(0int / 1024 == 0) by (nonlinear_arith);
            }
            if t == 1024 {
                lemma_tdiv_cancel(dx as int, 1024);
                lemma_tdiv_cancel(dy as int, 1024);
            }
        }
        let qx = div_trunc(dx * t, 1024);
        let qy = div_trunc(dy * t, 1024);
        Point { x: self.from.x + qx, y: self.from.y + qy }
    }

    /// The parameter on `self`, scaled to `0..=1024`, at which `other`
    /// crosses it: `None` when the segments are parallel or do not meet
    /// within both segments' extents.
    pub open spec fn spec_intersection_t(self, other: LineSegment) -> Option<i64> {
        let rx = self.to.x - self.from.x;
        let ry = self.to.y - self.from.y;
        let sx = other.to.x - other.from.x;
        let sy = other.to.y - other.from.y;
        let denom = rx * sy - ry * sx;
        let qpx = other.from.x - self.from.x;
        let qpy = other.from.y - self.from.y;
        let tn = qpx * sy - qpy * sx;
        let un = qpx * ry - qpy * rx;
        if denom == 0 {
            None
        } else {
            let d2 = if denom < 0 { -denom } else { denom };
            let t2 = if denom < 0 { -tn } else { tn };
            let u2 = if denom < 0 { -un } else { un };
            if 0 <= t2 <= d2 && 0 <= u2 <= d2 {
                Some(tdiv(t2 * 1024, d2) as i64)
            } else {
                None
            }
        }
    }

    /// Where this segment is crossed by another, as a parameter on this
    /// segment; a parallel or non-meeting pair is a normal `None`, not an
    /// error.
    pub fn intersects_at(&self, other: &LineSegment) -> (r: Option<i64>)
        requires
            self.from.in_handle_range(),
            self.to.in_handle_range(),
            other.from.in_handle_range(),
            other.to.in_handle_range(),
        ensures
            r == self.spec_intersection_t(*other),
            r is Some ==> 0 <= r->0 <= 1024,
    {
        let rx = self.to.x - self.from.x;
        let ry = self.to.y - self.from.y;
        let sx = other.to.x - other.from.x;
        let sy = other.to.y - other.from.y;
        let qpx = other.from.x - self.from.x;
        let qpy = other.from.y - self.from.y;
        proof {
            assert(-281474976710656 <= rx * sy <= 281474976710656 && -281474976710656 <= ry
                * sx <= 281474976710656 && -281474976710656 <= qpx * sy <= 281474976710656
                && -281474976710656 <= qpy * sx <= 281474976710656 && -281474976710656 <= qpx
                * ry <= 281474976710656 && -281474976710656 <= qpy * rx <= 281474976710656)
                by (nonlinear_arith)
                requires
                    -16777216 <= rx <= 16777216,
                    -16777216 <= ry <= 16777216,
                    -16777216 <= sx <= 16777216,
                    -16777216 <= sy <= 16777216,
                    -16777216 <= qpx <= 16777216,
                    -16777216 <= qpy <= 16777216,
            ;
        }
        let denom: i64 = rx * sy - ry * sx;
        let tn: i64 = qpx * sy - qpy * sx;
        let un: i64 = qpx * ry - qpy * rx;
        if denom == 0 {
            return None;
        }
        let d2: i64 = if denom < 0 {
            -denom
        } else {
            denom
        };
        let t2: i64 = if denom < 0 {
            -tn
        } else {
            tn
        };
        let u2: i64 = if denom < 0 {
            -un
        } else {
            un
        };
        if 0 <= t2 && t2 <= d2 && 0 <= u2 && u2 <= d2 {
            proof {
                assert(-(1024 * (d2 as int)) <= (t2 as i128) * 1024 && (t2 as i128) * 1024
                    <= 1024 * (d2 as int) && -576460752303423488 <= (t2 as i128) * 1024
                    <= 576460752303423488 && (t2 as i128) * 1024 == (t2 as int) * 1024)
                    by (nonlinear_arith)
                    requires
                        0 <= t2 as int <= d2 as int,
                        d2 <= 562949953421312,
                ;
                assert(-(1024 * (d2 as int)) <= (t2 as int) * 1024 <= 1024 * (d2 as int));
                lemma_tdiv_bound((t2 as int) * 1024, d2 as int, 1024);
            }
            let q = div_trunc_i128((t2 as i128) * 1024, d2 as i128);
            Some(q as i64)
        } else {
            None
        }
    }
}

/// Sum of the x coordinates of a point run.
pub open spec fn sum_x(pts: Seq<Point>) -> int
    decreases pts.len(),
{
    if pts.len() == 0 {
        0
    } else {
        sum_x(pts.drop_last()) + pts.last().x
    }
}

/// Sum of the y coordinates of a point run.
pub open spec fn sum_y(pts: Seq<Point>) -> int
    decreases pts.len(),
{
    if pts.len() == 0 {
        0
    } else {
        sum_y(pts.drop_last()) + pts.last().y
    }
}

/// Sum of the products of each point's coordinates.
pub open spec fn sum_xy(pts: Seq<Point>) -> int
    decreases pts.len(),
{
    if pts.len() == 0 {
        0
    } else {
        sum_xy(pts.drop_last()) + pts.last().x * pts.last().y
    }
}

/// Sum of the squared x coordinates.
pub open spec fn sum_xx(pts: Seq<Point>) -> int
    decreases pts.len(),
{
    if pts.len() == 0 {
        0
    } else {
        sum_xx(pts.drop_last()) + pts.last().x * pts.last().x
    }
}

/// Ordinary least-squares line through a point run: the slope, scaled by
/// 1024, and the intercept in plain units.  `None` when the normal
/// equation is degenerate -- in particular when all points share one x
/// coordinate -- or when the slope leaves the engine's range; the caller
/// falls back rather than divides by zero.
pub fn fit_line(points: &Vec<Point>) -> (r: Option<(i64, i64)>)
    requires
        1 <= points@.len() <= 1048576,
        forall|i: int| 0 <= i < points@.len() ==> (#[trigger] points@[i]).in_range(),
    ensures
        ({
            let n = points@.len() as int;
            let den = n * sum_xx(points@) - sum_x(points@) * sum_x(points@);
            let m = sdiv((n * sum_xy(points@) - sum_x(points@) * sum_y(points@)) * 1024, den);
            &&& (r is Some <==> den != 0 && -1099511627776 <= m <= 1099511627776)
            &&& (r is Some ==> ({
                let pair = r->0;
                pair.0 == m && pair.1 == tdiv(sum_y(points@) * 1024 - m * sum_x(points@),
                    n * 1024)
            }))
        }),
{
    let ghost pts = points@;
    let n = points.len();
    let mut sx: i64 = 0;
    let mut sy: i64 = 0;
    let mut sxy: i128 = 0;
    let mut sxx: i128 = 0;
    let mut k: usize = 0;
    while k < n
        invariant
            n == pts.len(),
            1 <= n <= 1048576,
            pts == points@,
            forall|i: int| 0 <= i < pts.len() ==> (#[trigger] pts[i]).in_range(),
            k <= n,
            sx == sum_x(pts.take(k as int)),
            sy == sum_y(pts.take(k as int)),
            sxy == sum_xy(pts.take(k as int)),
            sxx == sum_xx(pts.take(k as int)),
            -(k as int) * 1048576 <= sx <= (k as int) * 1048576,
            -(k as int) * 1048576 <= sy <= (k as int) * 1048576,
            -(k as int) * 1099511627776 <= sxy <= (k as int) * 1099511627776,
            0 <= sxx <= (k as int) * 1099511627776,
        decreases n - k,
    {
        let p = points[k];
        proof {
            assert(pts.take(k as int + 1).drop_last() =~= pts.take(k as int));
            assert(pts.take(k as int + 1).last() == pts[k as int]);
            assert(-1099511627776 <= p.x * p.y <= 1099511627776 && 0 <= p.x * p.x
                <= 1099511627776) by (nonlinear_arith)
                requires
                    -1048576 <= p.x <= 1048576,
                    -1048576 <= p.y <= 1048576,
            ;
        }
        sx = sx + p.x;
        sy = sy + p.y;
        sxy = sxy + (p.x as i128) * (p.y as i128);
        sxx = sxx + (p.x as i128) * (p.x as i128);
        k = k + 1;
    }
    proof {
        assert(pts.take(n as int) =~= pts);
        assert(-1208925819614629174706176 <= (n as i128) * sxy <= 1208925819614629174706176
            && 0 <= (n as i128) * sxx <= 1208925819614629174706176) by (nonlinear_arith)
            requires
                1 <= n as i128 <= 1048576,
                -1152921504606846976 <= sxy <= 1152921504606846976,
                0 <= sxx <= 1152921504606846976,
        ;
        assert(0 <= (sx as i128) * (sx as i128) <= 1208925819614629174706176
            && -1208925819614629174706176 <= (sx as i128) * (sy as i128)
            <= 1208925819614629174706176) by (nonlinear_arith)
            requires
                -1099511627776 <= sx as i128 <= 1099511627776,
                -1099511627776 <= sy as i128 <= 1099511627776,
        ;
    }
    let den: i128 = (n as i128) * sxx - (sx as i128) * (sx as i128);
    if den == 0 {
        return None;
    }
    let mnum: i128 = ((n as i128) * sxy - (sx as i128) * (sy as i128)) * 1024;
    let dpos: i128 = if den < 0 {
        -den
    } else {
        den
    };
    let mn2: i128 = if den < 0 {
        -mnum
    } else {
        mnum
    };
    let m128 = div_trunc_i128(mn2, dpos);
    if m128 < -1099511627776 || m128 > 1099511627776 {
        return None;
    }
    let m: i64 = m128 as i64;
    proof {
        let mm: int = if m >= 0 {
            m as int
        } else {
            -(m as int)
        };
        assert(-1208925819614629174706176 <= (m as i128) * (sx as i128)
            <= 1208925819614629174706176) by (nonlinear_arith)
            requires
                -1099511627776 <= m as i128 <= 1099511627776,
                -1099511627776 <= sx as i128 <= 1099511627776,
        ;
        assert((n as i128) * 1024 >= 1024 && (n as i128) * 1024 <= 1073741824)
            by (nonlinear_arith)
            requires
                1 <= n as i128 <= 1048576,
        ;
    }
    let cnum: i128 = (sy as i128) * 1024 - (m as i128) * (sx as i128);
    let cden: i128 = (n as i128) * 1024;
    proof {
        assert(-(2251799813685248 * (cden as int)) <= cnum as int && cnum as int
            <= 2251799813685248 * (cden as int)) by (nonlinear_arith)
            requires
                -(n as int) * 1048576 <= sy as int <= (n as int) * 1048576,
                -(n as int) * 1048576 <= sx as int <= (n as int) * 1048576,
                -1099511627776 <= m as int <= 1099511627776,
                cnum as int == (sy as int) * 1024 - (m as int) * (sx as int),
                cden as int == (n as int) * 1024,
                1 <= n as int <= 1048576,
        ;
        lemma_tdiv_bound(cnum as int, cden as int, 2251799813685248);
    }
    let c128 = div_trunc_i128(cnum, cden);
    let c: i64 = c128 as i64;
    Some((m, c))
}

} // verus!
