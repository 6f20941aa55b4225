//! Polygons: ordered cyclic sequences of straight or curved edges, a
//! flattened straight-edge view, and an even-odd scanline fill.
//!
//! The fill is a pure function of the polygon's flattened edge segments:
//! per buffer row the segment intersections are collected in sorted order
//! and the spans between consecutive pairs are painted.  An unpaired
//! trailing intersection on a row is dropped rather than treated as an
//! error.

use vstd::prelude::*;
use crate::geometry::{Point, LineSegment, tdiv, div_trunc, lemma_tdiv_bound, distance};
use crate::bezier::BezierCurve;
use crate::raster::{PixelBuffer, Brush, Rasterizable, point_in_handle_range};

verus! {

/// A polygon edge: a straight segment or a Bezier curve.
#[derive(Clone, Copy, Debug)]
pub enum PolygonEdge {
    Straight(LineSegment),
    Curved(BezierCurve),
}

impl PolygonEdge {
    /// Edge coordinates are within the engine's range.
    pub open spec fn wf(self) -> bool {
        match self {
            PolygonEdge::Straight(s) => s.from.in_handle_range() && s.to.in_handle_range(),
            PolygonEdge::Curved(c) => c.wf(),
        }
    }

    /// The straight segments the edge flattens into: itself for a straight
    /// edge, the curve's flattening otherwise.
    pub open spec fn spec_flat(self) -> Seq<LineSegment> {
        match self {
            PolygonEdge::Straight(s) => seq![s],
            PolygonEdge::Curved(c) => c.spec_flatten(),
        }
    }

    pub fn is_straight(&self) -> (r: bool)
        ensures
            r == (self is Straight),
    {
        match self {
            PolygonEdge::Straight(_) => true,
            PolygonEdge::Curved(_) => false,
        }
    }

    /// Flatten the edge into straight segments.
    pub fn flatten(&self) -> (r: Vec<LineSegment>)
        requires
            self.wf(),
        ensures
            r@ == self.spec_flat(),
            forall|i: int|
                0 <= i < r@.len() ==> (#[trigger] r@[i]).from.in_handle_range()
                    && r@[i].to.in_handle_range(),
    {
        match self {
            PolygonEdge::Straight(s) => {
                let mut v: Vec<LineSegment> = Vec::new();
                v.push(*s);
                proof {
                    assert(v@ =~= self.spec_flat());
                }
                v
            },
            PolygonEdge::Curved(c) => c.flatten(),
        }
    }
}

impl From<LineSegment> for PolygonEdge {
    fn from(ls: LineSegment) -> (r: PolygonEdge) {
        PolygonEdge::Straight(ls)
    }
}

impl vstd::std_specs::convert::FromSpecImpl<LineSegment> for PolygonEdge {
    open spec fn obeys_from_spec() -> bool {
        true
    }

    open spec fn from_spec(ls: LineSegment) -> PolygonEdge {
        PolygonEdge::Straight(ls)
    }
}

impl From<BezierCurve> for PolygonEdge {
    fn from(bz: BezierCurve) -> (r: PolygonEdge) {
        PolygonEdge::Curved(bz)
    }
}

impl vstd::std_specs::convert::FromSpecImpl<BezierCurve> for PolygonEdge {
    open spec fn obeys_from_spec() -> bool {
        true
    }

    open spec fn from_spec(bz: BezierCurve) -> PolygonEdge {
        PolygonEdge::Curved(bz)
    }
}

/// Whether a polygon is drawn as an outline or filled.
#[derive(Clone, Copy, PartialEq, Eq, Structural, Debug)]
pub enum PolygonType {
    Fill,
    Outline,
}

/// A closed shape made of straight and curved edges.
#[derive(Clone, Debug)]
pub struct Polygon {
    pub edges: Vec<PolygonEdge>,
    pub mode: PolygonType,
}

/// The straight segments an edge list flattens into, in edge order.
pub open spec fn flat_edges(edges: Seq<PolygonEdge>) -> Seq<LineSegment>
    decreases edges.len(),
{
    if edges.len() == 0 {
        Seq::empty()
    } else {
        flat_edges(edges.drop_last()) + edges.last().spec_flat()
    }
}

/// All edges of a list are well formed.
pub open spec fn edges_wf(edges: Seq<PolygonEdge>) -> bool {
    forall|i: int| 0 <= i < edges.len() ==> (#[trigger] edges[i]).wf()
}

impl Polygon {
    pub open spec fn wf(self) -> bool {
        edges_wf(self.edges@)
    }

    pub fn new(edges: Vec<PolygonEdge>, mode: PolygonType) -> (p: Polygon)
        ensures
            p.edges == edges,
            p.mode == mode,
    {
        Polygon { edges, mode }
    }

    /// The polygon's edges flattened into straight segments, in edge
    /// order.
    pub fn as_straight_edges(&self) -> (r: Vec<LineSegment>)
        requires
            self.wf(),
        ensures
            r@ == flat_edges(self.edges@),
            forall|i: int|
                0 <= i < r@.len() ==> (#[trigger] r@[i]).from.in_handle_range()
                    && r@[i].to.in_handle_range(),
    {
        let n = self.edges.len();
        let mut r: Vec<LineSegment> = Vec::new();
        let mut k: usize = 0;
        proof {
            assert(r@ =~= flat_edges(self.edges@.take(0)));
        }
        while k < n
            invariant
                n == self.edges@.len(),
                k <= n,
                edges_wf(self.edges@),
                r@ == flat_edges(self.edges@.take(k as int)),
                forall|i: int|
                    0 <= i < r@.len() ==> (#[trigger] r@[i]).from.in_handle_range()
                        && r@[i].to.in_handle_range(),
            decreases n - k,
        {
            let mut f = self.edges[k].flatten();
            r.append(&mut f);
            proof {
                assert(self.edges@.take(k as int + 1).drop_last() =~= self.edges@.take(
                    k as int));
                assert(self.edges@.take(k as int + 1).last() == self.edges@[k as int]);
            }
            k = k + 1;
        }
        proof {
            assert(self.edges@.take(n as int) =~= self.edges@);
        }
        r
    }

    /// The same shape with every curved edge replaced by its flattening,
    /// fed in as straight edges.  The flattened segment list, and with it
    /// the fill, is unchanged.
    pub fn pre_flattened(&self) -> (q: Polygon)
        requires
            self.wf(),
        ensures
            q.wf(),
            q.mode == self.mode,
            flat_edges(q.edges@) == flat_edges(self.edges@),
            forall|i: int| 0 <= i < q.edges@.len() ==> (#[trigger] q.edges@[i]) is Straight,
    {
        let segs = self.as_straight_edges();
        let n = segs.len();
        let mut edges: Vec<PolygonEdge> = Vec::new();
        let mut k: usize = 0;
        proof {
            assert(flat_edges(edges@) =~= segs@.take(0));
        }
        while k < n
            invariant
                n == segs@.len(),
                k <= n,
                edges@.len() == k,
                forall|i: int|
                    0 <= i < edges@.len() ==> (#[trigger] edges@[i]) == PolygonEdge::Straight(
                        segs@[i]),
                flat_edges(edges@) == segs@.take(k as int),
                forall|i: int|
                    0 <= i < segs@.len() ==> (#[trigger] segs@[i]).from.in_handle_range()
                        && segs@[i].to.in_handle_range(),
            decreases n - k,
        {
            let ghost pre = edges@;
            edges.push(PolygonEdge::Straight(segs[k]));
            proof {
                assert(edges@.drop_last() =~= pre);
                assert(edges@.last() == PolygonEdge::Straight(segs@[k as int]));
                assert(flat_edges(edges@) == flat_edges(pre)
                    + PolygonEdge::Straight(segs@[k as int]).spec_flat());
                assert(flat_edges(edges@) =~= segs@.take(k as int + 1));
            }
            k = k + 1;
        }
        proof {
            assert(segs@.take(n as int) =~= segs@);
        }
        Polygon { edges, mode: self.mode }
    }
}

/// The x coordinate where row `y` crosses the segment, if the segment's
/// half-open vertical extent `[min_y, max_y)` contains the row.  Treating
/// the upper endpoint as exclusive counts a vertex shared by two edges
/// once and skips horizontal segments.
pub open spec fn spec_isect_x(seg: LineSegment, y: int) -> Option<i64> {
    let lo = if seg.from.y <= seg.to.y {
        seg.from
    } else {
        seg.to
    };
    let hi = if seg.from.y <= seg.to.y {
        seg.to
    } else {
        seg.from
    };
    if lo.y <= y < hi.y {
        Some((lo.x + tdiv((hi.x - lo.x) * (y - lo.y), hi.y - lo.y)) as i64)
    } else {
        None
    }
}

/// Insert a value into a sorted row of intersections, keeping it sorted.
pub open spec fn insert_sorted(s: Seq<i64>, v: i64) -> Seq<i64>
    decreases s.len(),
{
    if s.len() == 0 {
        seq![v]
    } else if v >= s.last() {
        s.push(v)
    } else {
        insert_sorted(s.drop_last(), v).push(s.last())
    }
}

/// A row of intersections in non-decreasing x order.
pub open spec fn sorted_xs(s: Seq<i64>) -> bool {
    forall|i: int| 0 <= i < s.len() - 1 ==> #[trigger] s[i] <= s[i + 1]
}

/// Sorted insertion keeps the row sorted; the new last element is the
/// larger of the old last element and the inserted value.
pub proof fn lemma_insert_sorted_props(s: Seq<i64>, v: i64)
    requires
        sorted_xs(s),
    ensures
        sorted_xs(insert_sorted(s, v)),
        insert_sorted(s, v).len() == s.len() + 1,
        insert_sorted(s, v).last() == if s.len() > 0 && s.last() > v {
            s.last()
        } else {
            v
        },
    decreases s.len(),
{
    if s.len() == 0 {
        assert(sorted_xs(seq![v]));
    } else if v >= s.last() {
        let r = s.push(v);
        assert forall|i: int| 0 <= i < r.len() - 1 implies #[trigger] r[i] <= r[i + 1] by {
            if i < s.len() - 1 {
                assert(s[i] <= s[i + 1]);
            }
        }
    } else {
        let dl = s.drop_last();
        assert(sorted_xs(dl)) by {
            assert forall|i: int| 0 <= i < dl.len() - 1 implies #[trigger] dl[i] <= dl[i
                + 1] by {
                assert(s[i] <= s[i + 1]);
            }
        }
        lemma_insert_sorted_props(dl, v);
        let q = insert_sorted(dl, v);
        let r = q.push(s.last());
        assert(q.len() > 0);
        assert(q.last() <= s.last()) by {
            if dl.len() > 0 && dl.last() > v {
                assert(s[s.len() - 2] <= s[s.len() - 1]);
            }
        }
        assert forall|i: int| 0 <= i < r.len() - 1 implies #[trigger] r[i] <= r[i + 1] by {
            if i < q.len() - 1 {
                assert(q[i] <= q[i + 1]);
            } else {
                assert(r[i] == q.last());
            }
        }
    }
}

/// Every row of intersections comes out sorted: the fill pairs crossings
/// in ascending x order, as the even-odd rule asks.
pub proof fn lemma_row_xs_sorted(segs: Seq<LineSegment>, y: int)
    ensures
        sorted_xs(row_xs(segs, y)),
    decreases segs.len(),
{
    if segs.len() == 0 {
    } else {
        lemma_row_xs_sorted(segs.drop_last(), y);
        match spec_isect_x(segs.last(), y) {
            Some(x) => {
                lemma_insert_sorted_props(row_xs(segs.drop_last(), y), x);
            },
            None => {},
        }
    }
}

/// The sorted intersections of row `y` with the segments, in insertion
/// order by segment.
pub open spec fn row_xs(segs: Seq<LineSegment>, y: int) -> Seq<i64>
    decreases segs.len(),
{
    if segs.len() == 0 {
        Seq::empty()
    } else {
        match spec_isect_x(segs.last(), y) {
            Some(x) => insert_sorted(row_xs(segs.drop_last(), y), x),
            None => row_xs(segs.drop_last(), y),
        }
    }
}

/// Pixel `(x, y)` lies in some even-odd span of its row: between the
/// first and second intersection, the third and fourth, and so on.
pub open spec fn fill_covers(segs: Seq<LineSegment>, x: int, y: int) -> bool {
    exists|m: int|
        0 <= m && 2 * m + 1 < row_xs(segs, y).len() && (#[trigger] row_xs(segs, y)[2 * m]) <= x
            <= row_xs(segs, y)[2 * m + 1]
}

/// The exact effect of an even-odd fill of the segments: covered in-bounds
/// pixels hold the brush color, all others keep their old value.
pub open spec fn filled(
    b0: PixelBuffer,
    b1: PixelBuffer,
    segs: Seq<LineSegment>,
    color: crate::raster::Color,
) -> bool {
    forall|i: int, j: int|
        0 <= i < b0.spec_width() && 0 <= j < b0.spec_height() ==> #[trigger] b1.pix(i, j)
            == if fill_covers(segs, i, j) {
            color.spec_rgba() as u32
        } else {
            b0.pix(i, j)
        }
}


/// Row `y` crossing of one segment, executable.
fn isect_x(seg: &LineSegment, y: i64) -> (r: Option<i64>)
    requires
        seg.from.in_handle_range(),
        seg.to.in_handle_range(),
    ensures
        r == spec_isect_x(*seg, y as int),
        r is Some ==> -25165824 <= r->0 <= 25165824,
{
    let lo = if seg.from.y <= seg.to.y {
        seg.from
    } else {
        seg.to
    };
    let hi = if seg.from.y <= seg.to.y {
        seg.to
    } else {
        seg.from
    };
    if lo.y <= y && y < hi.y {
        let dyy = hi.y - lo.y;
        let mx: i64 = if hi.x >= lo.x {
            hi.x - lo.x
        } else {
            lo.x - hi.x
        };
        proof {
            assert(-(mx * dyy) <= (hi.x - lo.x) * (y - lo.y) && (hi.x - lo.x) * (y - lo.y)
                <= mx * dyy && -281474976710656 <= (hi.x - lo.x) * (y - lo.y)
                && (hi.x - lo.x) * (y - lo.y) <= 281474976710656) by (nonlinear_arith)
                requires
                    -mx <= hi.x - lo.x <= mx,
                    0 <= mx <= 16777216,
                    0 <= y - lo.y < dyy,
                    0 < dyy <= 16777216,
            ;
            lemma_tdiv_bound((hi.x - lo.x) * (y - lo.y), dyy as int, mx as int);
        }
        let num: i64 = (hi.x - lo.x) * (y - lo.y);
        let q = div_trunc(num, dyy);
        Some(lo.x + q)
    } else {
        None
    }
}

/// A positional splice at the scan position equals the recursive sorted
/// insertion.
proof fn lemma_insert_sorted_pos(s: Seq<i64>, v: i64, p: int)
    requires
        0 <= p <= s.len(),
        forall|i: int| p <= i < s.len() ==> #[trigger] s[i] > v,
        p > 0 ==> s[p - 1] <= v,
    ensures
        insert_sorted(s, v) == s.take(p).add(seq![v]).add(s.skip(p)),
    decreases s.len(),
{
    if s.len() == 0 {
        assert(insert_sorted(s, v) =~= s.take(p).add(seq![v]).add(s.skip(p)));
    } else if v >= s.last() {
        assert(p == s.len()) by {
            if p < s.len() {
                assert(s[s.len() - 1] > v);
            }
        }
        assert(insert_sorted(s, v) == s.push(v));
        assert(s.push(v) =~= s.take(p).add(seq![v]).add(s.skip(p)));
    } else {
        assert(p < s.len()) by {
            if p == s.len() {
                assert(s[p - 1] <= v);
            }
        }
        let dl = s.drop_last();
        lemma_insert_sorted_pos(dl, v, p);
        assert(insert_sorted(s, v) == insert_sorted(dl, v).push(s.last()));
        assert(insert_sorted(dl, v) == dl.take(p).add(seq![v]).add(dl.skip(p)));
        assert(dl.take(p) =~= s.take(p));
        assert(dl.take(p).add(seq![v]).add(dl.skip(p)).push(s.last()) =~= s.take(p).add(
            seq![v]).add(s.skip(p)));
    }
}

/// Sorted intersections of one row with all segments, executable.
fn compute_row_xs(segs: &Vec<LineSegment>, y: i64) -> (xs: Vec<i64>)
    requires
        forall|i: int|
            0 <= i < segs@.len() ==> (#[trigger] segs@[i]).from.in_handle_range()
                && segs@[i].to.in_handle_range(),
    ensures
        xs@ == row_xs(segs@, y as int),
        sorted_xs(xs@),
        forall|k: int| 0 <= k < xs@.len() ==> -25165824 <= #[trigger] xs@[k] <= 25165824,
{
    proof {
        lemma_row_xs_sorted(segs@, y as int);
    }
    let n = segs.len();
    let mut xs: Vec<i64> = Vec::new();
    let mut k: usize = 0;
    proof {
        assert(xs@ =~= row_xs(segs@.take(0), y as int));
    }
    while k < n
        invariant
            n == segs@.len(),
            k <= n,
            forall|i: int|
                0 <= i < segs@.len() ==> (#[trigger] segs@[i]).from.in_handle_range()
                    && segs@[i].to.in_handle_range(),
            xs@ == row_xs(segs@.take(k as int), y as int),
            forall|m: int| 0 <= m < xs@.len() ==> -25165824 <= #[trigger] xs@[m] <= 25165824,
        decreases n - k,
    {
        proof {
            assert(segs@.take(k as int + 1).drop_last() =~= segs@.take(k as int));
            assert(segs@.take(k as int + 1).last() == segs@[k as int]);
        }
        match isect_x(&segs[k], y) {
            Some(x) => {
                let mut pos = xs.len();
                while pos > 0 && xs[pos - 1] > x
                    invariant
                        pos <= xs@.len(),
                        forall|i: int| pos <= i < xs@.len() ==> #[trigger] xs@[i] > x,
                    decreases pos,
                {
                    pos = pos - 1;
                }
                let ghost pre = xs@;
                xs.insert(pos, x);
                proof {
                    lemma_insert_sorted_pos(pre, x, pos as int);
                    assert(xs@ =~= pre.take(pos as int).add(seq![x]).add(pre.skip(pos as int)));
                    assert(xs@ == insert_sorted(pre, x));
                }
            },
            None => {},
        }
        k = k + 1;
    }
    proof {
        assert(segs@.take(n as int) =~= segs@);
    }
    xs
}

/// Pixel `x` lies in one of the first `upto` spans of the row.
pub open spec fn row_covered_upto(xs: Seq<i64>, upto: int, x: int) -> bool {
    exists|m: int|
        0 <= m < upto && 2 * m + 1 < xs.len() && (#[trigger] xs[2 * m]) <= x <= xs[2 * m + 1]
}

/// Fill the even-odd spans of every buffer row against the given edge
/// segments.  The result is a pure function of the old buffer, the segment
/// sequence and the brush color.
pub fn fill_segments(buf: &mut PixelBuffer, segs: &Vec<LineSegment>, brush: &Brush)
    requires
        old(buf).wf(),
        forall|i: int|
            0 <= i < segs@.len() ==> (#[trigger] segs@[i]).from.in_handle_range()
                && segs@[i].to.in_handle_range(),
    ensures
        final (buf).same_shape(*old(buf)),
        final (buf).spec_dirty(),
        filled(*old(buf), *final (buf), segs@, brush.spec_color()),
{
    buf.mark_dirty();
    let h = buf.height();
    let color = brush.color(0, 0).into_rgba();
    let mut y: usize = 0;
    while y < h
        invariant
            old(buf).wf(),
            forall|i: int|
                0 <= i < segs@.len() ==> (#[trigger] segs@[i]).from.in_handle_range()
                    && segs@[i].to.in_handle_range(),
            h == old(buf).spec_height(),
            y <= h,
            buf.same_shape(*old(buf)),
            buf.spec_dirty(),
            color == brush.spec_color().spec_rgba(),
            forall|i: int, j: int|
                0 <= i < old(buf).spec_width() && 0 <= j < old(buf).spec_height()
                    ==> #[trigger] buf.pix(i, j) == if fill_covers(segs@, i, j) && j < y {
                    color
                } else {
                    old(buf).pix(i, j)
                },
        decreases h - y,
    {
        let xs = compute_row_xs(segs, y as i64);
        let xs_len = xs.len();
        let nspans = xs_len / 2;
        let mut m: usize = 0;
        proof {
            vstd::arithmetic::div_mod::lemma_fundamental_div_mod(xs@.len() as int, 2);
        }
        while m < nspans
            invariant
                old(buf).wf(),
                h == old(buf).spec_height(),
                y < h,
                buf.same_shape(*old(buf)),
                buf.spec_dirty(),
                color == brush.spec_color().spec_rgba(),
                xs@ == row_xs(segs@, y as int),
                forall|k: int| 0 <= k < xs@.len() ==> -25165824 <= #[trigger] xs@[k] <= 25165824,
                xs_len == xs@.len(),
                nspans == xs@.len() / 2,
                2 * (nspans as int) <= xs@.len(),
                m <= nspans,
                forall|i: int, j: int|
                    0 <= i < old(buf).spec_width() && 0 <= j < old(buf).spec_height()
                        ==> #[trigger] buf.pix(i, j) == if (fill_covers(segs@, i, j) && j < y)
                        || (j == y && row_covered_upto(xs@, m as int, i)) {
                        color
                    } else {
                        old(buf).pix(i, j)
                    },
            decreases nspans - m,
        {
            let a = xs[2 * m];
            let b = xs[2 * m + 1];
            let ghost pre = *buf;
            buf.fill_span(y as i64, a, b, color);
            proof {
                assert forall|i: int, j: int|
                    0 <= i < old(buf).spec_width() && 0 <= j < old(buf).spec_height()
                        implies #[trigger] buf.pix(i, j) == if (fill_covers(segs@, i, j) && j
                        < y) || (j == y && row_covered_upto(xs@, m as int + 1, i)) {
                        color
                    } else {
                        old(buf).pix(i, j)
                    } by {
                    if j == y && a <= i <= b {
                        assert(2 * (m as int) + 1 < xs@.len() && xs@[2 * (m as int)] <= i
                            <= xs@[2 * (m as int) + 1]);
                        assert(row_covered_upto(xs@, m as int + 1, i));
                    }
                    if j == y && row_covered_upto(xs@, m as int + 1, i) && !(a <= i <= b) {
                        let mm = choose|mm: int|
                            0 <= mm < m as int + 1 && 2 * mm + 1 < xs@.len() && (#[trigger] xs@[
                                2 * mm]) <= i <= xs@[2 * mm + 1];
                        assert(mm < m as int);
                        assert(row_covered_upto(xs@, m as int, i));
                    }
                    if j == y && row_covered_upto(xs@, m as int, i) {
                        let mm = choose|mm: int|
                            0 <= mm < m as int && 2 * mm + 1 < xs@.len() && (#[trigger] xs@[2
                                * mm]) <= i <= xs@[2 * mm + 1];
                        assert(row_covered_upto(xs@, m as int + 1, i));
                    }
                }
            }
            m = m + 1;
        }
        proof {
            assert forall|i: int, j: int|
                0 <= i < old(buf).spec_width() && 0 <= j < old(buf).spec_height()
                    implies #[trigger] buf.pix(i, j) == if fill_covers(segs@, i, j) && j < y
                + 1 {
                color
            } else {
                old(buf).pix(i, j)
            } by {
                if j == y {
                    if fill_covers(segs@, i, j) {
                        let mm = choose|mm: int|
                            0 <= mm && 2 * mm + 1 < row_xs(segs@, j).len() && (#[trigger] row_xs(
                                segs@, j)[2 * mm]) <= i <= row_xs(segs@, j)[2 * mm + 1];
                        assert(2 * mm + 2 <= xs@.len());
                        assert((2 * (mm + 1)) / 2 == mm + 1) by {
                            vstd::arithmetic::div_mod::lemma_div_multiples_vanish(mm + 1, 2);
                        }
                        assert(2 * (mm + 1) <= xs@.len());
                        vstd::arithmetic::div_mod::lemma_div_is_ordered(2 * (mm + 1),
                            xs@.len() as int, 2);
                        assert(mm + 1 <= xs@.len() / 2);
                        assert(mm < nspans as int);
                        assert(row_covered_upto(xs@, nspans as int, i));
                    }
                    if row_covered_upto(xs@, nspans as int, i) {
                        let mm = choose|mm: int|
                            0 <= mm < nspans as int && 2 * mm + 1 < xs@.len() && (#[trigger] xs@[
                                2 * mm]) <= i <= xs@[2 * mm + 1];
                        assert(fill_covers(segs@, i, j));
                    }
                }
            }
        }
        y = y + 1;
    }
}

impl Polygon {
    /// Fill the polygon: flatten all edges and paint the even-odd spans of
    /// every row.
    pub fn fill(&self, buf: &mut PixelBuffer, brush: &Brush)
        requires
            self.wf(),
            old(buf).wf(),
        ensures
            final (buf).same_shape(*old(buf)),
            final (buf).spec_dirty(),
            filled(*old(buf), *final (buf), flat_edges(self.edges@), brush.spec_color()),
    {
        let segs = self.as_straight_edges();
        fill_segments(buf, &segs, brush);
    }

    /// Whether every edge is within the engine's coordinate range.
    pub fn edges_ok(&self) -> (r: bool)
        ensures
            r == self.wf(),
    {
        let n = self.edges.len();
        let mut k: usize = 0;
        while k < n
            invariant
                n == self.edges@.len(),
                k <= n,
                forall|i: int| 0 <= i < k ==> (#[trigger] self.edges@[i]).wf(),
            decreases n - k,
        {
            let ok = match &self.edges[k] {
                PolygonEdge::Straight(s) => point_in_handle_range(s.from)
                    && point_in_handle_range(s.to),
                PolygonEdge::Curved(c) => {
                    let c0 = point_in_handle_range(c.point_at(0));
                    let c1 = point_in_handle_range(c.point_at(1));
                    let c2 = point_in_handle_range(c.point_at(2));
                    let c3 = point_in_handle_range(c.point_at(3));
                    proof {
                        if c0 && c1 && c2 && c3 {
                            assert forall|i: int| 0 <= i < 4 implies (#[trigger] c.pt(
                                i)).in_handle_range() by {
                                if i == 0 {
                                } else if i == 1 {
                                } else if i == 2 {
                                } else {
                                }
                            }
                        }
                    }
                    c0 && c1 && c2 && c3
                },
            };
            if !ok {
                proof {
                    assert(!self.edges@[k as int].wf());
                }
                return false;
            }
            k = k + 1;
        }
        true
    }
}

impl Rasterizable for Polygon {
    fn rasterize(&self, target: &mut PixelBuffer, brush: &Brush)
        ensures
            self.wf() && self.mode == PolygonType::Fill ==> filled(*old(target),
                *final (target), flat_edges(self.edges@), brush.spec_color()),
            self.wf() && self.mode == PolygonType::Outline ==> exists|
                paths: Seq<Seq<(i64, i64)>>,
            |
                crate::raster::paths_ok(flat_edges(self.edges@), paths)
                    && #[trigger] crate::raster::multi_painted(*old(target), *final (target),
                    paths, brush.spec_width() as int, brush.spec_color()),
            !self.wf() ==> final (target).pixels == old(target).pixels,
    {
        if !self.edges_ok() {
            // edges beyond the engine's coordinate range are not drawn
            target.mark_dirty();
            return;
        }
        match self.mode {
            PolygonType::Outline => {
                let segs = self.as_straight_edges();
                crate::raster::rasterize_segments(target, &segs, brush);
                proof {
                    let paths = choose|paths: Seq<Seq<(i64, i64)>>|
                        crate::raster::paths_ok(segs@, paths)
                            && #[trigger] crate::raster::multi_painted(*old(target), *target,
                            paths, brush.spec_width() as int, brush.spec_color());
                    assert(segs@ == flat_edges(self.edges@));
                    assert(crate::raster::paths_ok(flat_edges(self.edges@), paths)
                        && crate::raster::multi_painted(*old(target), *target, paths,
                        brush.spec_width() as int, brush.spec_color()));
                }
            },
            PolygonType::Fill => {
                self.fill(target, brush);
            },
        }
    }
}

/// Filling a polygon and filling the same shape with its curved edges
/// explicitly pre-flattened into straight edges paint pixel-identical
/// results: the fill is a function of the flattened segment sequence
/// alone, and pre-flattening keeps that sequence.
pub proof fn lemma_fill_pre_flatten_identical(
    p: Polygon,
    q: Polygon,
    b0: PixelBuffer,
    b1: PixelBuffer,
    b2: PixelBuffer,
    color: crate::raster::Color,
)
    requires
        flat_edges(p.edges@) == flat_edges(q.edges@),
        filled(b0, b1, flat_edges(p.edges@), color),
        filled(b0, b2, flat_edges(q.edges@), color),
    ensures
        forall|i: int, j: int|
            0 <= i < b0.spec_width() && 0 <= j < b0.spec_height() ==> #[trigger] b1.pix(i, j)
                == b2.pix(i, j),
{
}


/// The endpoint an edge starts at.
pub open spec fn spec_edge_start(e: PolygonEdge) -> Point {
    match e {
        PolygonEdge::Straight(s) => s.from,
        PolygonEdge::Curved(c) => c.pt(0),
    }
}

/// The endpoint an edge ends at.
pub open spec fn spec_edge_end(e: PolygonEdge) -> Point {
    match e {
        PolygonEdge::Straight(s) => s.to,
        PolygonEdge::Curved(c) => c.pt(3),
    }
}

/// Starting endpoint of an edge.
pub fn edge_start(e: &PolygonEdge) -> (r: Point)
    ensures
        r == spec_edge_start(*e),
{
    match e {
        PolygonEdge::Straight(s) => s.from,
        PolygonEdge::Curved(c) => c.point_at(0),
    }
}

/// Ending endpoint of an edge.
pub fn edge_end(e: &PolygonEdge) -> (r: Point)
    ensures
        r == spec_edge_end(*e),
{
    match e {
        PolygonEdge::Straight(s) => s.to,
        PolygonEdge::Curved(c) => c.point_at(3),
    }
}

/// Replace an edge's starting endpoint, keeping everything else.
fn set_edge_start(e: PolygonEdge, p: Point) -> (r: PolygonEdge)
    requires
        e.wf(),
        p.in_handle_range(),
    ensures
        r.wf(),
        spec_edge_start(r) == p,
        spec_edge_end(r) == spec_edge_end(e),
{
    match e {
        PolygonEdge::Straight(s) => PolygonEdge::Straight(LineSegment { from: p, to: s.to }),
        PolygonEdge::Curved(c) => {
            let r = PolygonEdge::Curved(BezierCurve::from_points([p, c.point_at(1),
                c.point_at(2), c.point_at(3)]));
            proof {
                let rc = r->Curved_0;
                assert forall|i: int| 0 <= i < 4 implies (#[trigger] rc.pt(
                    i)).in_handle_range() by {
                    if i == 0 {
                    } else {
                        assert(c.pt(i).in_handle_range());
                    }
                }
            }
            r
        },
    }
}

/// Replace an edge's ending endpoint, keeping everything else.
fn set_edge_end(e: PolygonEdge, p: Point) -> (r: PolygonEdge)
    requires
        e.wf(),
        p.in_handle_range(),
    ensures
        r.wf(),
        spec_edge_end(r) == p,
        spec_edge_start(r) == spec_edge_start(e),
{
    match e {
        PolygonEdge::Straight(s) => PolygonEdge::Straight(LineSegment { from: s.from, to: p }),
        PolygonEdge::Curved(c) => {
            let r = PolygonEdge::Curved(BezierCurve::from_points([c.point_at(0), c.point_at(1),
                c.point_at(2), p]));
            proof {
                let rc = r->Curved_0;
                assert forall|i: int| 0 <= i < 4 implies (#[trigger] rc.pt(
                    i)).in_handle_range() by {
                    if i == 3 {
                    } else {
                        assert(c.pt(i).in_handle_range());
                    }
                }
            }
            r
        },
    }
}

/// The midpoint of two coordinates, rounded toward zero.
fn midpoint(a: i64, b: i64) -> (r: i64)
    requires
        -8388608 <= a <= 8388608,
        -8388608 <= b <= 8388608,
    ensures
        r == tdiv(a + b, 2),
        -8388608 <= r <= 8388608,
{
    proof {
        assert(-(8388608 * 2) <= a + b <= 8388608 * 2) by (nonlinear_arith)
            requires
                -8388608 <= a <= 8388608,
                -8388608 <= b <= 8388608,
        ;
        lemma_tdiv_bound(a + b, 2, 8388608);
    }
    div_trunc(a + b, 2)
}

/// The successor of an edge index, cyclically.
pub open spec fn next_idx(i: int, n: int) -> int {
    if i + 1 == n {
        0
    } else {
        i + 1
    }
}

/// Consecutive edges of the cyclic run meet exactly.
pub open spec fn joined_at(edges: Seq<PolygonEdge>, i: int) -> bool {
    spec_edge_end(edges[i]) == spec_edge_start(edges[next_idx(i, edges.len() as int)])
}

/// The gap between edge `i` and its successor is spanned by one of the
/// recorded bridging lines.
pub open spec fn bridged_at(edges: Seq<PolygonEdge>, lines: Seq<LineSegment>, i: int) -> bool {
    exists|k: int|
        0 <= k < lines.len() && #[trigger] lines[k] == (LineSegment {
            from: spec_edge_end(edges[i]),
            to: spec_edge_start(edges[next_idx(i, edges.len() as int)]),
        })
}

/// The midpoint of two points, each coordinate rounded toward zero.
pub open spec fn spec_midpoint(a: Point, b: Point) -> Point {
    Point { x: tdiv(a.x + b.x, 2) as i64, y: tdiv(a.y + b.y, 2) as i64 }
}

/// Joint `i` of a stitched run is resolved as the inputs prescribe: when
/// no bridging is requested, or the gap between the original endpoints is
/// under the tolerance, both endpoints are fused at the gap's truncated
/// midpoint; otherwise both keep their original values and a recorded
/// bridging line spans the gap.
pub open spec fn joint_resolved(
    items: Seq<PolygonEdge>,
    edges: Seq<PolygonEdge>,
    lines: Seq<LineSegment>,
    i: int,
    tol: int,
    create_new_line: bool,
) -> bool {
    let nxt = next_idx(i, items.len() as int);
    let a = spec_edge_end(items[i]);
    let b = spec_edge_start(items[nxt]);
    if !create_new_line || (crate::geometry::spec_distance(a, b) as int) < tol {
        spec_edge_end(edges[i]) == spec_midpoint(a, b) && spec_edge_start(edges[nxt])
            == spec_midpoint(a, b)
    } else {
        spec_edge_end(edges[i]) == a && spec_edge_start(edges[nxt]) == b && exists|k: int|
            0 <= k < lines.len() && #[trigger] lines[k] == (LineSegment { from: a, to: b })
    }
}

/// Stitch an ordered cyclic run of drawn items into a closed outline
/// polygon.  Each pair of consecutive endpoints is either fused at its
/// midpoint -- always when no bridging is requested, and whenever the gap
/// is under the tolerance -- or bridged by a new straight line that is
/// returned for the caller's line store.
pub fn polygonify(
    items: Vec<PolygonEdge>,
    connect_tolerance: i64,
    create_new_line: bool,
) -> (r: (Polygon, Vec<LineSegment>))
    requires
        edges_wf(items@),
        items@.len() <= 65536,
    ensures
        r.0.mode == PolygonType::Outline,
        r.0.wf(),
        r.0.edges@.len() == items@.len(),
        forall|i: int|
            0 <= i < r.0.edges@.len() ==> #[trigger] joined_at(r.0.edges@, i) || bridged_at(
                r.0.edges@, r.1@, i),
        forall|i: int|
            0 <= i < r.0.edges@.len() ==> #[trigger] joint_resolved(items@, r.0.edges@, r.1@,
                i, connect_tolerance as int, create_new_line),
        !create_new_line ==> r.1@.len() == 0,
{
    let ghost orig = items@;
    let n = items.len();
    let mut edges = items;
    let mut new_lines: Vec<LineSegment> = Vec::new();
    if n == 0 {
        return (Polygon::new(edges, PolygonType::Outline), new_lines);
    }
    let mut i: usize = 0;
    while i < n
        invariant
            n == edges@.len(),
            n == orig.len(),
            1 <= n <= 65536,
            i <= n,
            edges_wf(edges@),
            forall|k: int|
                i <= k < n ==> spec_edge_end(#[trigger] edges@[k]).in_handle_range(),
            forall|k: int|
                i <= k < n ==> spec_edge_end(#[trigger] edges@[k]) == spec_edge_end(orig[k]),
            forall|k: int|
                i + 1 <= k < n ==> spec_edge_start(#[trigger] edges@[k]) == spec_edge_start(
                    orig[k]),
            i < n ==> spec_edge_start(edges@[0]) == spec_edge_start(orig[0]),
            forall|ip: int|
                0 <= ip < i ==> #[trigger] joined_at(edges@, ip) || bridged_at(edges@,
                    new_lines@, ip),
            forall|ip: int|
                0 <= ip < i ==> #[trigger] joint_resolved(orig, edges@, new_lines@, ip,
                    connect_tolerance as int, create_new_line),
            !create_new_line ==> new_lines@.len() == 0,
        decreases n - i,
    {
        let j = if i + 1 == n {
            0
        } else {
            i + 1
        };
        let cur_i = edges[i];
        let e2 = edge_end(&cur_i);
        let cur_j = edges[j];
        let e1 = edge_start(&cur_j);
        proof {
            assert(edges@[i as int].wf());
            assert(edges@[j as int].wf());
            assert(e2.in_handle_range() && e1.in_handle_range());
            assert(e2 == spec_edge_end(orig[i as int]));
            assert(e1 == spec_edge_start(orig[j as int]));
        }
        let ghost pre = edges@;
        let ghost pre_lines = new_lines@;
        let d = distance(e2, e1);
        if !create_new_line || (d as i64) < connect_tolerance {
            let avg = Point { x: midpoint(e2.x, e1.x), y: midpoint(e2.y, e1.y) };
            let stitched_i = set_edge_end(cur_i, avg);
            edges.set(i, stitched_i);
            let cur_j2 = edges[j];
            let stitched_j = set_edge_start(cur_j2, avg);
            edges.set(j, stitched_j);
            proof {
                assert(spec_edge_end(edges@[i as int]) == avg);
                assert(spec_edge_start(edges@[j as int]) == avg);
                assert(joined_at(edges@, i as int));
                assert(avg == spec_midpoint(e2, e1));
                assert(joint_resolved(orig, edges@, new_lines@, i as int,
                    connect_tolerance as int, create_new_line));
                assert forall|k: int|
                    i + 1 <= k < n implies spec_edge_end(#[trigger] edges@[k])
                        == spec_edge_end(orig[k]) by {
                    if k != j as int {
                        assert(edges@[k] == pre[k]);
                    }
                }
                assert forall|k: int|
                    i + 2 <= k < n implies spec_edge_start(#[trigger] edges@[k])
                        == spec_edge_start(orig[k]) by {
                    assert(edges@[k] == pre[k]);
                }
                assert(i as int + 1 < n ==> spec_edge_start(edges@[0]) == spec_edge_start(
                    orig[0])) by {
                    if i as int + 1 < n {
                        if i > 0 {
                            assert(edges@[0] == pre[0]);
                        }
                    }
                }
                assert forall|ip: int|
                    0 <= ip < i implies #[trigger] joint_resolved(orig, edges@, new_lines@,
                        ip, connect_tolerance as int, create_new_line) by {
                    let nip = next_idx(ip, n as int);
                    assert(spec_edge_end(edges@[ip]) == spec_edge_end(pre[ip])) by {
                        if ip != i as int && ip != j as int {
                            assert(edges@[ip] == pre[ip]);
                        }
                    }
                    assert(nip == ip + 1);
                    assert(nip != j as int);
                    assert(spec_edge_start(edges@[nip]) == spec_edge_start(pre[nip])) by {
                        if nip != i as int {
                            assert(edges@[nip] == pre[nip]);
                        }
                    }
                    let a = spec_edge_end(orig[ip]);
                    let b = spec_edge_start(orig[nip]);
                    assert(joint_resolved(orig, pre, pre_lines, ip, connect_tolerance as int,
                        create_new_line));
                    if create_new_line && (crate::geometry::spec_distance(a, b) as int)
                        >= connect_tolerance as int {
                        let k = choose|k: int|
                            0 <= k < pre_lines.len() && #[trigger] pre_lines[k]
                                == (LineSegment { from: a, to: b });
                        assert(new_lines@[k] == pre_lines[k]);
                    }
                }
                assert forall|ip: int|
                    0 <= ip < i implies #[trigger] joined_at(edges@, ip) || bridged_at(edges@,
                        new_lines@, ip) by {
                    let nip = next_idx(ip, n as int);
                    // this iteration rewrote only the end of edge i and the
                    // start of edge j, neither of which joint ip reads
                    assert(spec_edge_end(edges@[ip]) == spec_edge_end(pre[ip])) by {
                        if ip != i as int && ip != j as int {
                            assert(edges@[ip] == pre[ip]);
                        }
                    }
                    assert(nip == ip + 1);
                    assert(nip != j as int);
                    assert(spec_edge_start(edges@[nip]) == spec_edge_start(pre[nip])) by {
                        if nip != i as int {
                            assert(edges@[nip] == pre[nip]);
                        }
                    }
                    if !joined_at(pre, ip) {
                        assert(bridged_at(pre, pre_lines, ip));
                        let k = choose|k: int|
                            0 <= k < pre_lines.len() && #[trigger] pre_lines[k]
                                == (LineSegment {
                                from: spec_edge_end(pre[ip]),
                                to: spec_edge_start(pre[next_idx(ip, n as int)]),
                            });
                        assert(new_lines@[k] == pre_lines[k]);
                        assert(new_lines@[k] == (LineSegment {
                            from: spec_edge_end(edges@[ip]),
                            to: spec_edge_start(edges@[next_idx(ip, n as int)]),
                        }));
                        assert(bridged_at(edges@, new_lines@, ip));
                    }
                }
            }
        } else {
            new_lines.push(LineSegment { from: e2, to: e1 });
            proof {
                assert(new_lines@[new_lines@.len() - 1] == (LineSegment {
                    from: spec_edge_end(edges@[i as int]),
                    to: spec_edge_start(edges@[next_idx(i as int, n as int)]),
                }));
                assert(bridged_at(edges@, new_lines@, i as int));
                assert(new_lines@[new_lines@.len() - 1] == (LineSegment { from: e2, to: e1 }));
                assert(joint_resolved(orig, edges@, new_lines@, i as int,
                    connect_tolerance as int, create_new_line));
                assert forall|ip: int|
                    0 <= ip < i implies #[trigger] joint_resolved(orig, edges@, new_lines@,
                        ip, connect_tolerance as int, create_new_line) by {
                    let nip = next_idx(ip, n as int);
                    let a = spec_edge_end(orig[ip]);
                    let b = spec_edge_start(orig[nip]);
                    assert(joint_resolved(orig, pre, pre_lines, ip, connect_tolerance as int,
                        create_new_line));
                    if create_new_line && (crate::geometry::spec_distance(a, b) as int)
                        >= connect_tolerance as int {
                        let k = choose|k: int|
                            0 <= k < pre_lines.len() && #[trigger] pre_lines[k]
                                == (LineSegment { from: a, to: b });
                        assert(new_lines@[k] == pre_lines[k]);
                    }
                }
                assert forall|ip: int|
                    0 <= ip < i implies #[trigger] joined_at(edges@, ip) || bridged_at(edges@,
                        new_lines@, ip) by {
                    if !joined_at(edges@, ip) {
                        assert(bridged_at(pre, pre_lines, ip));
                        let k = choose|k: int|
                            0 <= k < pre_lines.len() && #[trigger] pre_lines[k]
                                == (LineSegment {
                                from: spec_edge_end(edges@[ip]),
                                to: spec_edge_start(edges@[next_idx(ip, n as int)]),
                            });
                        assert(new_lines@[k] == pre_lines[k]);
                        assert(bridged_at(edges@, new_lines@, ip));
                    }
                }
            }
        }
        i = i + 1;
    }
    (Polygon::new(edges, PolygonType::Outline), new_lines)
}

} // verus!
