//! Rasterization: a shared pixel buffer, brushes, and the drawing of
//! single-pixel paths, thick round-capped strokes and horizontal spans.
//!
//! Every write is "set pixel to the brush color"; writes outside the buffer
//! are silently clipped.  Each drawing routine states per pixel exactly
//! which coordinates receive the color and that all others keep their old
//! value.

use vstd::prelude::*;
use crate::geometry::{Point, LineSegment, sqrt_floor, isqrt};

verus! {

/// A solid color, one byte per channel.
#[derive(Clone, Copy, PartialEq, Eq, Structural, Debug)]
pub struct Color {
    pub r: u8,
    pub g: u8,
    pub b: u8,
}

impl Color {
    pub fn new(r: u8, g: u8, b: u8) -> (c: Color)
        ensures
            c == (Color { r, g, b }),
    {
        Color { r, g, b }
    }

    /// The color packed as one RGBA sample with full alpha.
    pub open spec fn spec_rgba(self) -> int {
        (self.r as u32) * 16777216 + (self.g as u32) * 65536 + (self.b as u32) * 256 + 255
    }

    /// The red channel.
    pub fn r(&self) -> (v: u8)
        ensures
            v == self.r,
    {
        self.r
    }

    /// The green channel.
    pub fn g(&self) -> (v: u8)
        ensures
            v == self.g,
    {
        self.g
    }

    /// The blue channel.
    pub fn b(&self) -> (v: u8)
        ensures
            v == self.b,
    {
        self.b
    }

    /// Pack the color into one RGBA sample with full alpha.
    pub fn into_rgba(self) -> (p: u32)
        ensures
            p == self.spec_rgba(),
    {
        (self.r as u32) * 16777216 + (self.g as u32) * 65536 + (self.b as u32) * 256 + 255
    }
}

/// The stock colors of the editor shell.
pub fn black() -> (c: Color)
    ensures
        c == (Color { r: 0, g: 0, b: 0 }),
{
    Color { r: 0, g: 0, b: 0 }
}

pub fn white() -> (c: Color)
    ensures
        c == (Color { r: 255, g: 255, b: 255 }),
{
    Color { r: 255, g: 255, b: 255 }
}

pub fn red() -> (c: Color)
    ensures
        c == (Color { r: 255, g: 0, b: 0 }),
{
    Color { r: 255, g: 0, b: 0 }
}

/// A brush: a solid color and a stroke width in pixels.  Width zero or one
/// draws the thinnest line; a larger width stamps a filled circle of that
/// radius around every path pixel.
#[derive(Clone, Copy, PartialEq, Eq, Structural, Debug)]
pub struct Brush {
    pub color: Color,
    pub width: u32,
}

impl Brush {
    pub open spec fn spec_color(self) -> Color {
        self.color
    }

    pub open spec fn spec_width(self) -> u32 {
        self.width
    }

    pub fn new(color: Color, width: u32) -> (b: Brush)
        ensures
            b.spec_color() == color,
            b.spec_width() == width,
    {
        Brush { color, width }
    }

    /// The color the brush paints at the given coordinates; a solid brush
    /// paints one color everywhere.
    pub fn color(&self, _x: u32, _y: u32) -> (c: Color)
        ensures
            c == self.spec_color(),
    {
        self.color
    }

    pub fn width(&self) -> (w: u32)
        ensures
            w == self.spec_width(),
    {
        self.width
    }
}

/// A two-dimensional grid of RGBA samples with a dirty flag, written by the
/// rasterizer and read by the display shell.
pub struct PixelBuffer {
    pub width: usize,
    pub height: usize,
    pub pixels: Vec<u32>,
    pub dirty: bool,
}

impl PixelBuffer {
    /// The sample store holds exactly one sample per coordinate pair.
    pub open spec fn wf(self) -> bool {
        self.pixels@.len() == self.width * self.height && self.width <= 16384 && self.height
            <= 16384
    }

    pub open spec fn spec_width(self) -> int {
        self.width as int
    }

    pub open spec fn spec_height(self) -> int {
        self.height as int
    }

    pub open spec fn spec_dirty(self) -> bool {
        self.dirty
    }

    /// The sample at a coordinate pair, in row-major order.
    pub open spec fn pix(self, x: int, y: int) -> u32 {
        self.pixels@[y * self.width + x]
    }

    /// Both dimensions and the well-formedness of `other` carry over.
    pub open spec fn same_shape(self, other: PixelBuffer) -> bool {
        self.wf() && other.wf() && self.width == other.width && self.height == other.height
    }

    pub fn new(width: usize, height: usize, fill: u32) -> (b: PixelBuffer)
        requires
            width <= 16384,
            height <= 16384,
        ensures
            b.wf(),
            b.spec_width() == width,
            b.spec_height() == height,
            !b.spec_dirty(),
            forall|x: int, y: int|
                0 <= x < width && 0 <= y < height ==> #[trigger] b.pix(x, y) == fill,
    {
        proof {
            assert(width * height <= 268435456) by (nonlinear_arith)
                requires
                    width <= 16384,
                    height <= 16384,
            ;
        }
        let n = width * height;
        let mut pixels: Vec<u32> = Vec::new();
        let mut i: usize = 0;
        while i < n
            invariant
                i <= n,
                pixels@.len() == i,
                forall|k: int| 0 <= k < i ==> #[trigger] pixels@[k] == fill,
            decreases n - i,
        {
            pixels.push(fill);
            i = i + 1;
        }
        let b = PixelBuffer { width, height, pixels, dirty: false };
        proof {
            assert forall|x: int, y: int|
                0 <= x < width && 0 <= y < height implies #[trigger] b.pix(x, y) == fill by {
                lemma_row_major_bound(x, y, width as int, height as int);
            }
        }
        b
    }

    pub fn width(&self) -> (w: usize)
        ensures
            w == self.spec_width(),
    {
        self.width
    }

    pub fn height(&self) -> (h: usize)
        ensures
            h == self.spec_height(),
    {
        self.height
    }

    /// Whether the buffer has been drawn into since the flag was cleared.
    pub fn is_dirty(&self) -> (d: bool)
        ensures
            d == self.spec_dirty(),
    {
        self.dirty
    }

    /// Clear the dirty flag, typically after the display shell has blitted
    /// the buffer.
    pub fn clear_dirty(&mut self)
        ensures
            final (self).width == old(self).width,
            final (self).height == old(self).height,
            final (self).pixels == old(self).pixels,
            !final (self).spec_dirty(),
    {
        self.dirty = false;
    }

    /// Read one sample.
    pub fn get_pixel(&self, x: usize, y: usize) -> (p: u32)
        requires
            self.wf(),
            x < self.spec_width(),
            y < self.spec_height(),
        ensures
            p == self.pix(x as int, y as int),
    {
        proof {
            lemma_row_major_bound(x as int, y as int, self.width as int, self.height as int);
        }
        self.pixels[y * self.width + x]
    }

    /// Write one sample, silently clipping coordinates outside the buffer,
    /// and mark the buffer dirty.
    pub fn set_pixel(&mut self, x: i64, y: i64, color: u32)
        requires
            old(self).wf(),
        ensures
            final (self).same_shape(*old(self)),
            final (self).spec_dirty(),
            forall|i: int, j: int|
                0 <= i < old(self).spec_width() && 0 <= j < old(self).spec_height()
                    ==> #[trigger] final (self).pix(i, j) == if i == x && j == y {
                    color
                } else {
                    old(self).pix(i, j)
                },
    {
        self.dirty = true;
        if 0 <= x && x < self.width as i64 && 0 <= y && y < self.height as i64 {
            let xi = x as usize;
            let yi = y as usize;
            proof {
                lemma_row_major_bound(xi as int, yi as int, self.width as int,
                    self.height as int);
            }
            let idx = yi * self.width + xi;
            self.pixels.set(idx, color);
            proof {
                assert forall|i: int, j: int|
                    0 <= i < self.spec_width() && 0 <= j < self.spec_height() && !(i == x && j
                        == y) implies #[trigger] self.pix(i, j) == old(self).pix(i, j) by {
                    lemma_row_major_bound(i, j, self.width as int, self.height as int);
                    if j * self.width + i == yi * self.width + xi {
                        lemma_row_major_injective(i, j, xi as int, yi as int, self.width as int);
                    }
                }
            }
        }
    }

    /// Paint the horizontal run of pixels from `x0` to `x1` on row `y`,
    /// clipped to the buffer.
    pub fn fill_span(&mut self, y: i64, x0: i64, x1: i64, color: u32)
        requires
            old(self).wf(),
            -33554432 <= x0 <= 33554432,
            -33554432 <= x1 <= 33554432,
        ensures
            final (self).same_shape(*old(self)),
            final (self).spec_dirty(),
            forall|i: int, j: int|
                0 <= i < old(self).spec_width() && 0 <= j < old(self).spec_height()
                    ==> #[trigger] final (self).pix(i, j) == if j == y && x0 <= i <= x1 {
                    color
                } else {
                    old(self).pix(i, j)
                },
    {
        self.dirty = true;
        if x1 < x0 {
            return;
        }
        let mut x = x0;
        while x <= x1
            invariant
                x0 <= x <= x1 + 1,
                x1 <= 33554432,
                self.same_shape(*old(self)),
                self.spec_dirty(),
                forall|i: int, j: int|
                    0 <= i < old(self).spec_width() && 0 <= j < old(self).spec_height()
                        ==> #[trigger] self.pix(i, j) == if j == y && x0 <= i < x {
                        color
                    } else {
                        old(self).pix(i, j)
                    },
            decreases x1 + 1 - x,
        {
            self.set_pixel(x, y, color);
            x = x + 1;
        }
    }
}

/// A row-major index of an in-bounds coordinate pair is within the sample
/// store.
proof fn lemma_row_major_bound(x: int, y: int, w: int, h: int)
    requires
        0 <= x < w,
        0 <= y < h,
        w <= 16384,
        h <= 16384,
    ensures
        0 <= y * w + x < w * h,
        y * w + x < 268435456,
{
    assert(y * w + x < w * h) by (nonlinear_arith)
        requires
            0 <= x < w,
            0 <= y < h,
    ;
    assert(y * w >= 0) by (nonlinear_arith)
        requires
            y >= 0,
            w > 0,
    ;
    assert(w * h <= 268435456) by (nonlinear_arith)
        requires
            0 < w <= 16384,
            0 < h <= 16384,
    ;
}

/// Distinct in-bounds coordinate pairs have distinct row-major indices.
proof fn lemma_row_major_injective(x1: int, y1: int, x2: int, y2: int, w: int)
    requires
        0 <= x1 < w,
        0 <= x2 < w,
        y1 * w + x1 == y2 * w + x2,
    ensures
        x1 == x2 && y1 == y2,
{
    assert(y1 == y2) by (nonlinear_arith)
        requires
            0 <= x1 < w,
            0 <= x2 < w,
            y1 * w + x1 == y2 * w + x2,
    ;
}


impl PixelBuffer {
    /// Mark the buffer dirty without painting anything.
    pub fn mark_dirty(&mut self)
        ensures
            final (self).width == old(self).width,
            final (self).height == old(self).height,
            final (self).pixels == old(self).pixels,
            final (self).spec_dirty(),
    {
        self.dirty = true;
    }
}

/// Squared-distance membership of a pixel in the filled circle of radius
/// `r` around `(cx, cy)`.
pub open spec fn in_disc(cx: int, cy: int, r: int, x: int, y: int) -> bool {
    (x - cx) * (x - cx) + (y - cy) * (y - cy) <= r * r
}

/// A value is within the floor square root of `n` exactly when its square
/// is within `n`.
proof fn lemma_sq_le_iff(v: int, n: nat)
    ensures
        v * v <= n <==> -(sqrt_floor(n) as int) <= v <= sqrt_floor(n) as int,
{
    crate::geometry::lemma_sqrt_floor(n);
    let s = sqrt_floor(n) as int;
    if -s <= v <= s {
        assert(v * v <= s * s) by (nonlinear_arith)
            requires
                -s <= v <= s,
                s >= 0,
        ;
    } else {
        assert(v * v >= (s + 1) * (s + 1)) by (nonlinear_arith)
            requires
                v < -s || v > s,
                s >= 0,
        ;
    }
}

/// Stamp a filled circle: every in-bounds pixel within `radius` of the
/// center receives the color, all others keep their value.  Rows are
/// painted as spans whose half-width is the integer square root of the
/// remaining squared radius, the midpoint-circle bound.
pub fn stamp_disc(buf: &mut PixelBuffer, cx: i64, cy: i64, radius: i64, color: u32)
    requires
        old(buf).wf(),
        0 <= radius <= 65536,
        -16777216 <= cx <= 16777216,
        -16777216 <= cy <= 16777216,
    ensures
        final (buf).same_shape(*old(buf)),
        final (buf).spec_dirty(),
        forall|i: int, j: int|
            0 <= i < old(buf).spec_width() && 0 <= j < old(buf).spec_height()
                ==> #[trigger] final (buf).pix(i, j) == if in_disc(cx as int, cy as int,
                radius as int, i, j) {
                color
            } else {
                old(buf).pix(i, j)
            },
{
    let mut dy: i64 = -radius;
    buf.mark_dirty();
    proof {
        assert(radius * radius <= 4294967296 && radius * radius >= 0) by (nonlinear_arith)
            requires
                0 <= radius <= 65536,
        ;
        lemma_radius_row_bound(cx as int, cy as int, radius as int);
        assert forall|i: int, j: int|
            0 <= i < old(buf).spec_width() && 0 <= j < old(buf).spec_height()
                implies #[trigger] buf.pix(i, j) == if in_disc(cx as int, cy as int,
                radius as int, i, j) && j - cy < dy {
                color
            } else {
                old(buf).pix(i, j)
            } by {
            if in_disc(cx as int, cy as int, radius as int, i, j) {
                assert(-(radius as int) <= j - cy);
            }
        }
    }
    while dy <= radius
        invariant
            old(buf).wf(),
            0 <= radius <= 65536,
            -16777216 <= cx <= 16777216,
            -16777216 <= cy <= 16777216,
            -radius <= dy <= radius + 1,
            buf.same_shape(*old(buf)),
            buf.spec_dirty(),
            forall|i: int, j: int|
                0 <= i < old(buf).spec_width() && 0 <= j < old(buf).spec_height()
                    ==> #[trigger] buf.pix(i, j) == if in_disc(cx as int, cy as int,
                    radius as int, i, j) && j - cy < dy {
                    color
                } else {
                    old(buf).pix(i, j)
                },
        decreases radius + 1 - dy,
    {
        proof {
            assert(radius * radius <= 4294967296 && radius * radius >= 0 && dy * dy
                <= radius * radius && dy * dy >= 0) by (nonlinear_arith)
                requires
                    0 <= radius <= 65536,
                    -radius <= dy <= radius,
            ;
        }
        let rem: i64 = radius * radius - dy * dy;
        let half_u = isqrt(rem as u64);
        proof {
            if half_u > 65536 {
                assert((half_u as int) * (half_u as int) > 4294967296) by (nonlinear_arith)
                    requires
                        half_u as int >= 65537,
                ;
            }
        }
        let half = half_u as i64;
        let ghost pre = *buf;
        buf.fill_span(cy + dy, cx - half, cx + half, color);
        proof {
            assert forall|i: int, j: int|
                0 <= i < old(buf).spec_width() && 0 <= j < old(buf).spec_height()
                    implies #[trigger] buf.pix(i, j) == if in_disc(cx as int, cy as int,
                    radius as int, i, j) && j - cy < dy + 1 {
                    color
                } else {
                    old(buf).pix(i, j)
                } by {
                lemma_sq_le_iff(i - cx, rem as nat);
                if j == cy + dy {
                    assert((i - cx) * (i - cx) + (j - cy) * (j - cy) == (i - cx) * (i - cx)
                        + dy * dy);
                    assert(in_disc(cx as int, cy as int, radius as int, i, j) <==> (i - cx) * (i
                        - cx) <= rem);
                }
            }
        }
        dy = dy + 1;
    }
    proof {
        lemma_radius_row_bound(cx as int, cy as int, radius as int);
        assert forall|i: int, j: int|
            0 <= i < old(buf).spec_width() && 0 <= j < old(buf).spec_height()
                implies #[trigger] buf.pix(i, j) == if in_disc(cx as int, cy as int,
                radius as int, i, j) {
                color
            } else {
                old(buf).pix(i, j)
            } by {
            if in_disc(cx as int, cy as int, radius as int, i, j) {
                assert(j - cy <= radius);
            }
        }
    }
}

/// Every pixel of the disc lies within `radius` rows of the center.
proof fn lemma_radius_row_bound(cx: int, cy: int, radius: int)
    requires
        radius >= 0,
    ensures
        forall|i: int, j: int|
            #[trigger] in_disc(cx, cy, radius, i, j) ==> -radius <= j - cy <= radius,
{
    assert forall|i: int, j: int|
        #[trigger] in_disc(cx, cy, radius, i, j) implies -radius <= j - cy <= radius by {
        assert((i - cx) * (i - cx) >= 0) by (nonlinear_arith);
        assert((j - cy) * (j - cy) <= radius * radius);
        if j - cy > radius || j - cy < -radius {
            assert((j - cy) * (j - cy) > radius * radius) by (nonlinear_arith)
                requires
                    j - cy > radius >= 0 || j - cy < -radius <= 0,
            ;
        }
    }
}

/// The pixel footprint of a brush stroke element at path point `p`: the
/// point itself for the thinnest widths, a filled circle of the brush width
/// otherwise.
pub open spec fn disc_radius(w: int) -> int {
    if w <= 1 {
        0
    } else {
        w
    }
}

/// Pixel `(x, y)` is covered by the stroke element stamped at `p`.
pub open spec fn covers_at(p: (i64, i64), w: int, x: int, y: int) -> bool {
    in_disc(p.0 as int, p.1 as int, disc_radius(w), x, y)
}

/// Pixel `(x, y)` is covered by some stroke element along the path.
pub open spec fn path_covers(pts: Seq<(i64, i64)>, w: int, x: int, y: int) -> bool {
    exists|k: int| 0 <= k < pts.len() && #[trigger] covers_at(pts[k], w, x, y)
}

/// The zero-radius disc holds exactly its center.
proof fn lemma_disc_zero(cx: int, cy: int, x: int, y: int)
    ensures
        in_disc(cx, cy, 0, x, y) <==> (x == cx && y == cy),
{
    assert((x - cx) * (x - cx) >= 0 && ((x - cx) * (x - cx) == 0 <==> x == cx))
        by (nonlinear_arith);
    assert((y - cy) * (y - cy) >= 0 && ((y - cy) * (y - cy) == 0 <==> y == cy))
        by (nonlinear_arith);
    assert(0int * 0 == 0) by (nonlinear_arith);
}

/// Stamp every point of a pixel path with the brush footprint: the path
/// pixels themselves for width zero or one, filled circles of the brush
/// width otherwise.
pub fn rasterize_path(buf: &mut PixelBuffer, pts: &Vec<(i64, i64)>, width: u32, color: u32)
    requires
        old(buf).wf(),
        width <= 16384,
        forall|k: int|
            0 <= k < pts@.len() ==> -16777216 <= (#[trigger] pts@[k]).0 <= 16777216
                && -16777216 <= pts@[k].1 <= 16777216,
    ensures
        final (buf).same_shape(*old(buf)),
        final (buf).spec_dirty(),
        forall|i: int, j: int|
            0 <= i < old(buf).spec_width() && 0 <= j < old(buf).spec_height()
                ==> #[trigger] final (buf).pix(i, j) == if path_covers(pts@, width as int, i,
                j) {
                color
            } else {
                old(buf).pix(i, j)
            },
{
    buf.mark_dirty();
    let n = pts.len();
    let mut k: usize = 0;
    while k < n
        invariant
            old(buf).wf(),
            width <= 16384,
            n == pts@.len(),
            forall|m: int|
                0 <= m < pts@.len() ==> -16777216 <= (#[trigger] pts@[m]).0 <= 16777216
                    && -16777216 <= pts@[m].1 <= 16777216,
            k <= n,
            buf.same_shape(*old(buf)),
            buf.spec_dirty(),
            forall|i: int, j: int|
                0 <= i < old(buf).spec_width() && 0 <= j < old(buf).spec_height()
                    ==> #[trigger] buf.pix(i, j) == if path_covers(pts@.take(k as int),
                    width as int, i, j) {
                    color
                } else {
                    old(buf).pix(i, j)
                },
        decreases n - k,
    {
        let p = pts[k];
        let ghost pre = *buf;
        if width <= 1 {
            buf.set_pixel(p.0, p.1, color);
        } else {
            stamp_disc(buf, p.0, p.1, width as i64, color);
        }
        proof {
            assert(pts@.take(k as int + 1) =~= pts@.take(k as int).push(pts@[k as int]));
            assert forall|i: int, j: int|
                0 <= i < old(buf).spec_width() && 0 <= j < old(buf).spec_height()
                    implies #[trigger] buf.pix(i, j) == if path_covers(pts@.take(k as int + 1),
                    width as int, i, j) {
                    color
                } else {
                    old(buf).pix(i, j)
                } by {
                if width <= 1 {
                    lemma_disc_zero(p.0 as int, p.1 as int, i, j);
                }
                let taken = pts@.take(k as int + 1);
                if buf.pix(i, j) == color && old(buf).pix(i, j) != color {
                    if covers_at(pts@[k as int], width as int, i, j) {
                        assert(taken[k as int] == pts@[k as int]);
                        assert(path_covers(taken, width as int, i, j));
                    } else {
                        assert(path_covers(pts@.take(k as int), width as int, i, j));
                        let m = choose|m: int|
                            0 <= m < pts@.take(k as int).len() && #[trigger] covers_at(
                                pts@.take(k as int)[m], width as int, i, j);
                        assert(taken[m] == pts@.take(k as int)[m]);
                        assert(path_covers(taken, width as int, i, j));
                    }
                }
                if path_covers(taken, width as int, i, j) {
                    let m = choose|m: int|
                        0 <= m < taken.len() && #[trigger] covers_at(taken[m], width as int, i,
                            j);
                    if m < k as int {
                        assert(pts@.take(k as int)[m] == taken[m]);
                        assert(path_covers(pts@.take(k as int), width as int, i, j));
                        assert(pre.pix(i, j) == color);
                    } else {
                        assert(covers_at(pts@[k as int], width as int, i, j));
                    }
                }
            }
        }
        k = k + 1;
    }
    proof {
        assert(pts@.take(n as int) =~= pts@);
    }
}


/// Bounding box membership of a pixel among a segment's endpoints.
pub open spec fn in_seg_box(seg: LineSegment, p: (i64, i64)) -> bool {
    &&& (if seg.from.x <= seg.to.x {
        seg.from.x <= p.0 <= seg.to.x
    } else {
        seg.to.x <= p.0 <= seg.from.x
    })
    &&& (if seg.from.y <= seg.to.y {
        seg.from.y <= p.1 <= seg.to.y
    } else {
        seg.to.y <= p.1 <= seg.from.y
    })
}

/// A well-formed rasterized path for a segment: it starts at the from
/// pixel, ends at the to pixel, moves by at most one pixel per axis per
/// step, and never leaves the segment's bounding box.
pub open spec fn path_ok(seg: LineSegment, pts: Seq<(i64, i64)>) -> bool {
    &&& pts.len() >= 1
    &&& pts[0] == (seg.from.x, seg.from.y)
    &&& pts[pts.len() - 1] == (seg.to.x, seg.to.y)
    &&& forall|k: int|
        0 <= k < pts.len() - 1 ==> -1 <= (#[trigger] pts[k + 1]).0 - pts[k].0 <= 1 && -1
            <= pts[k + 1].1 - pts[k].1 <= 1
    &&& forall|k: int| 0 <= k < pts.len() ==> in_seg_box(seg, #[trigger] pts[k])
}

/// Walk the segment's pixel path by incremental error stepping.
pub fn bresenham_points(seg: &LineSegment) -> (pts: Vec<(i64, i64)>)
    requires
        seg.from.in_handle_range(),
        seg.to.in_handle_range(),
    ensures
        path_ok(*seg, pts@),
        forall|k: int|
            0 <= k < pts@.len() ==> -16777216 <= (#[trigger] pts@[k]).0 <= 16777216
                && -16777216 <= pts@[k].1 <= 16777216,
{
    let x0 = seg.from.x;
    let y0 = seg.from.y;
    let x1 = seg.to.x;
    let y1 = seg.to.y;
    let dxp: i64 = if x1 >= x0 {
        x1 - x0
    } else {
        x0 - x1
    };
    let dyn_: i64 = if y1 >= y0 {
        y0 - y1
    } else {
        y1 - y0
    };
    let sx: i64 = if x0 < x1 {
        1
    } else {
        -1
    };
    let sy: i64 = if y0 < y1 {
        1
    } else {
        -1
    };
    let mut err: i64 = dxp + dyn_;
    let mut x = x0;
    let mut y = y0;
    let mut pts: Vec<(i64, i64)> = Vec::new();
    pts.push((x, y));
    let ghost d0: int = dxp - dyn_;
    while !(x == x1 && y == y1)
        invariant
            seg.from.x == x0 && seg.from.y == y0 && seg.to.x == x1 && seg.to.y == y1,
            seg.from.in_handle_range(),
            seg.to.in_handle_range(),
            dxp == (if x1 >= x0 { x1 - x0 } else { x0 - x1 }),
            dyn_ == (if y1 >= y0 { y0 - y1 } else { y1 - y0 }),
            sx == (if x0 < x1 { 1int } else { -1int }),
            sy == (if y0 < y1 { 1int } else { -1int }),
            (if x0 <= x1 { x0 <= x <= x1 } else { x1 <= x <= x0 }),
            (if y0 <= y1 { y0 <= y <= y1 } else { y1 <= y <= y0 }),
            d0 == dxp - dyn_,
            -67108864 - 67108864 * d0 <= err <= 67108864 + 67108864 * d0,
            pts@.len() >= 1,
            pts@[0] == (x0, y0),
            pts@[pts@.len() - 1] == (x, y),
            forall|k: int|
                0 <= k < pts@.len() - 1 ==> -1 <= (#[trigger] pts@[k + 1]).0 - pts@[k].0 <= 1
                    && -1 <= pts@[k + 1].1 - pts@[k].1 <= 1,
            forall|k: int| 0 <= k < pts@.len() ==> in_seg_box(*seg, #[trigger] pts@[k]),
        decreases (if x1 >= x { x1 - x } else { x - x1 }) + (if y1 >= y { y1 - y } else { y - y1 }),
    {
        let e2 = 2 * err;
        let mut moved = false;
        if x != x1 && e2 >= dyn_ {
            x = x + sx;
            err = err + dyn_;
            moved = true;
        }
        if y != y1 && e2 <= dxp {
            y = y + sy;
            err = err + dxp;
            moved = true;
        }
        if !moved {
            if x != x1 {
                x = x + sx;
            } else {
                y = y + sy;
            }
        }
        pts.push((x, y));
    }
    pts
}

/// Draw a one-pixel-wide line along the segment's rasterized path.
pub fn rasterize_thin_line(buf: &mut PixelBuffer, seg: &LineSegment, brush: &Brush)
    requires
        old(buf).wf(),
        seg.from.in_handle_range(),
        seg.to.in_handle_range(),
    ensures
        final (buf).same_shape(*old(buf)),
        final (buf).spec_dirty(),
        exists|pts: Seq<(i64, i64)>|
            path_ok(*seg, pts) && #[trigger] painted(*old(buf), *final (buf), pts, 1,
                brush.spec_color()),
{
    let pts = bresenham_points(seg);
    let color = brush.color(0, 0).into_rgba();
    rasterize_path(buf, &pts, 1, color);
    proof {
        assert(path_ok(*seg, pts@) && painted(*old(buf), *buf, pts@, 1, brush.spec_color()));
    }
}

/// Draw a line of the brush's width: a filled circle of that radius is
/// stamped at every pixel of the segment's rasterized path, giving a
/// round-capped stroke.  Width zero or one draws the thinnest line.
pub fn rasterize_thick_line(buf: &mut PixelBuffer, seg: &LineSegment, brush: &Brush)
    requires
        old(buf).wf(),
        seg.from.in_handle_range(),
        seg.to.in_handle_range(),
        brush.spec_width() <= 16384,
    ensures
        final (buf).same_shape(*old(buf)),
        final (buf).spec_dirty(),
        exists|pts: Seq<(i64, i64)>|
            path_ok(*seg, pts) && #[trigger] painted(*old(buf), *final (buf), pts,
                brush.spec_width() as int, brush.spec_color()),
{
    let pts = bresenham_points(seg);
    let color = brush.color(0, 0).into_rgba();
    rasterize_path(buf, &pts, brush.width(), color);
    proof {
        assert(path_ok(*seg, pts@) && painted(*old(buf), *buf, pts@,
            brush.spec_width() as int, brush.spec_color()));
    }
}

/// The exact effect of stamping a path with a brush: covered in-bounds
/// pixels hold the brush color, all others keep their old value.
pub open spec fn painted(
    b0: PixelBuffer,
    b1: PixelBuffer,
    pts: Seq<(i64, i64)>,
    w: int,
    color: Color,
) -> bool {
    forall|i: int, j: int|
        0 <= i < b0.spec_width() && 0 <= j < b0.spec_height() ==> #[trigger] b1.pix(i, j)
            == if path_covers(pts, w, i, j) {
            color.spec_rgba() as u32
        } else {
            b0.pix(i, j)
        }
}

/// Anything that can draw itself onto a pixel buffer with a brush.  Every
/// impl preserves the buffer's shape, marks it dirty, and writes nothing
/// but the brush color.
pub trait Rasterizable {
    fn rasterize(&self, target: &mut PixelBuffer, brush: &Brush)
        requires
            old(target).wf(),
            brush.spec_width() <= 16384,
        ensures
            final (target).same_shape(*old(target)),
            final (target).spec_dirty(),
            forall|i: int, j: int|
                0 <= i < old(target).spec_width() && 0 <= j < old(target).spec_height()
                    ==> #[trigger] final (target).pix(i, j) == old(target).pix(i, j) || final (
                target).pix(i, j) == brush.spec_color().spec_rgba(),
    ;
}

/// One well-formed rasterized path per segment of a flattened shape.
pub open spec fn paths_ok(segs: Seq<LineSegment>, paths: Seq<Seq<(i64, i64)>>) -> bool {
    paths.len() == segs.len() && forall|k: int|
        0 <= k < segs.len() ==> path_ok(#[trigger] segs[k], paths[k])
}

/// Pixel `(x, y)` is covered by the brush footprint along some path of the
/// collection.
pub open spec fn multi_path_covers(paths: Seq<Seq<(i64, i64)>>, w: int, x: int, y: int) -> bool {
    exists|k: int| 0 <= k < paths.len() && #[trigger] path_covers(paths[k], w, x, y)
}

/// The exact effect of stroking a collection of paths: in-bounds pixels
/// covered by some path's footprint hold the brush color, all others keep
/// their old value.
pub open spec fn multi_painted(
    b0: PixelBuffer,
    b1: PixelBuffer,
    paths: Seq<Seq<(i64, i64)>>,
    w: int,
    color: Color,
) -> bool {
    forall|i: int, j: int|
        0 <= i < b0.spec_width() && 0 <= j < b0.spec_height() ==> #[trigger] b1.pix(i, j)
            == if multi_path_covers(paths, w, i, j) {
            color.spec_rgba() as u32
        } else {
            b0.pix(i, j)
        }
}

/// Whether a point lies in the coordinate range the rasterizer accepts.
pub fn point_in_handle_range(p: Point) -> (r: bool)
    ensures
        r == p.in_handle_range(),
{
    -8388608 <= p.x && p.x <= 8388608 && -8388608 <= p.y && p.y <= 8388608
}

impl Rasterizable for LineSegment {
    fn rasterize(&self, target: &mut PixelBuffer, brush: &Brush)
        ensures
            self.from.in_handle_range() && self.to.in_handle_range() ==> exists|
                pts: Seq<(i64, i64)>,
            |
                path_ok(*self, pts) && #[trigger] painted(*old(target), *final (target), pts,
                    brush.spec_width() as int, brush.spec_color()),
            !(self.from.in_handle_range() && self.to.in_handle_range()) ==> final (
            target).pixels == old(target).pixels,
    {
        if point_in_handle_range(self.from) && point_in_handle_range(self.to) {
            rasterize_thick_line(target, self, brush);
        } else {
            // a segment with a coordinate beyond the engine's range is not
            // drawn at all, even where it would cross the buffer: the
            // engine's contract covers the coordinate range alone
            target.mark_dirty();
        }
    }
}


impl Rasterizable for crate::bezier::BezierCurve {
    fn rasterize(&self, target: &mut PixelBuffer, brush: &Brush)
        ensures
            self.wf() ==> exists|paths: Seq<Seq<(i64, i64)>>|
                paths_ok(self.spec_flatten(), paths) && #[trigger] multi_painted(*old(target),
                    *final (target), paths, brush.spec_width() as int, brush.spec_color()),
            !self.wf() ==> final (target).pixels == old(target).pixels,
    {
        let p0 = self.point_at(0);
        let p1 = self.point_at(1);
        let p2 = self.point_at(2);
        let p3 = self.point_at(3);
        if point_in_handle_range(p0) && point_in_handle_range(p1) && point_in_handle_range(p2)
            && point_in_handle_range(p3) {
            proof {
                assert forall|i: int| 0 <= i < 4 implies (#[trigger] self.pt(
                    i)).in_handle_range() by {
                    if i == 0 {
                    } else if i == 1 {
                    } else if i == 2 {
                    } else {
                    }
                }
            }
            let segs = self.flatten();
            rasterize_segments(target, &segs, brush);
            proof {
                let paths = choose|paths: Seq<Seq<(i64, i64)>>|
                    paths_ok(segs@, paths) && #[trigger] multi_painted(*old(target), *target,
                        paths, brush.spec_width() as int, brush.spec_color());
                assert(segs@ == self.spec_flatten());
                assert(paths_ok(self.spec_flatten(), paths) && multi_painted(*old(target),
                    *target, paths, brush.spec_width() as int, brush.spec_color()));
            }
        } else {
            proof {
                assert(!self.wf());
            }
            target.mark_dirty();
        }
    }
}

/// Stroke every segment of a flattened shape with the brush, in order.
/// The result is characterized exactly: one rasterized path per segment,
/// and a pixel holds the brush color precisely when some path's footprint
/// covers it.
pub fn rasterize_segments(buf: &mut PixelBuffer, segs: &Vec<LineSegment>, brush: &Brush)
    requires
        old(buf).wf(),
        brush.spec_width() <= 16384,
        forall|m: int|
            0 <= m < segs@.len() ==> (#[trigger] segs@[m]).from.in_handle_range()
                && segs@[m].to.in_handle_range(),
    ensures
        final (buf).same_shape(*old(buf)),
        final (buf).spec_dirty(),
        exists|paths: Seq<Seq<(i64, i64)>>|
            paths_ok(segs@, paths) && #[trigger] multi_painted(*old(buf), *final (buf), paths,
                brush.spec_width() as int, brush.spec_color()),
{
    buf.mark_dirty();
    let ghost w = brush.spec_width() as int;
    let ghost color = brush.spec_color();
    let ghost mut paths: Seq<Seq<(i64, i64)>> = Seq::empty();
    let n = segs.len();
    let mut k: usize = 0;
    proof {
        assert forall|i: int, j: int|
            0 <= i < old(buf).spec_width() && 0 <= j < old(buf).spec_height()
                implies #[trigger] buf.pix(i, j) == if multi_path_covers(paths, w, i, j) {
                color.spec_rgba() as u32
            } else {
                old(buf).pix(i, j)
            } by {
            if multi_path_covers(paths, w, i, j) {
                let m = choose|m: int| 0 <= m < paths.len() && #[trigger] path_covers(paths[m],
                    w, i, j);
            }
        }
    }
    while k < n
        invariant
            n == segs@.len(),
            k <= n,
            forall|m: int|
                0 <= m < segs@.len() ==> (#[trigger] segs@[m]).from.in_handle_range()
                    && segs@[m].to.in_handle_range(),
            buf.same_shape(*old(buf)),
            buf.spec_dirty(),
            brush.spec_width() <= 16384,
            w == brush.spec_width() as int,
            color == brush.spec_color(),
            paths.len() == k,
            forall|m: int| 0 <= m < k ==> path_ok(#[trigger] segs@[m], paths[m]),
            forall|i: int, j: int|
                0 <= i < old(buf).spec_width() && 0 <= j < old(buf).spec_height()
                    ==> #[trigger] buf.pix(i, j) == if multi_path_covers(paths, w, i, j) {
                    color.spec_rgba() as u32
                } else {
                    old(buf).pix(i, j)
                },
        decreases n - k,
    {
        let ghost pre = *buf;
        rasterize_thick_line(buf, &segs[k], brush);
        proof {
            let pts = choose|pts: Seq<(i64, i64)>|
                path_ok(segs@[k as int], pts) && #[trigger] painted(pre, *buf, pts, w, color);
            let ghost grown = paths.push(pts);
            assert forall|i: int, j: int|
                0 <= i < old(buf).spec_width() && 0 <= j < old(buf).spec_height()
                    implies #[trigger] buf.pix(i, j) == if multi_path_covers(grown, w, i, j) {
                    color.spec_rgba() as u32
                } else {
                    old(buf).pix(i, j)
                } by {
                assert(buf.pix(i, j) == if path_covers(pts, w, i, j) {
                    color.spec_rgba() as u32
                } else {
                    pre.pix(i, j)
                });
                if path_covers(pts, w, i, j) {
                    assert(grown[paths.len() as int] == pts);
                    assert(multi_path_covers(grown, w, i, j));
                } else if multi_path_covers(paths, w, i, j) {
                    let m = choose|m: int|
                        0 <= m < paths.len() && #[trigger] path_covers(paths[m], w, i, j);
                    assert(grown[m] == paths[m]);
                    assert(multi_path_covers(grown, w, i, j));
                } else if multi_path_covers(grown, w, i, j) {
                    let m = choose|m: int|
                        0 <= m < grown.len() && #[trigger] path_covers(grown[m], w, i, j);
                    if m < paths.len() {
                        assert(paths[m] == grown[m]);
                        assert(multi_path_covers(paths, w, i, j));
                    } else {
                        assert(grown[m] == pts);
                    }
                }
            }
            paths = grown;
        }
        k = k + 1;
    }
    proof {
        assert(paths_ok(segs@, paths));
        assert(multi_painted(*old(buf), *buf, paths, w, color));
    }
}

} // verus!
