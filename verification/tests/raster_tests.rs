use strokefit::{Brush, Color, LineSegment, PixelBuffer, Point, Rasterizable};
use strokefit::raster::{rasterize_thin_line, rasterize_thick_line, black, red, white};

fn seg(x0: i64, y0: i64, x1: i64, y1: i64) -> LineSegment {
    LineSegment::new(Point::new(x0, y0), Point::new(x1, y1))
}

#[test]
fn color_packs_to_rgba() {
    assert_eq!(Color::new(0, 0, 0).into_rgba(), 0x0000_00FF);
    assert_eq!(Color::new(255, 255, 255).into_rgba(), 0xFFFF_FFFF);
    assert_eq!(Color::new(255, 0, 0).into_rgba(), 0xFF00_00FF);
    assert_eq!(black().into_rgba(), 0x0000_00FF);
    assert_eq!(white().into_rgba(), 0xFFFF_FFFF);
    assert_eq!(red().into_rgba(), 0xFF00_00FF);
}

#[test]
fn buffer_starts_clean() {
    let buf = PixelBuffer::new(4, 3, 7);
    assert_eq!(buf.width(), 4);
    assert_eq!(buf.height(), 3);
    assert!(!buf.is_dirty());
    for y in 0..3 {
        for x in 0..4 {
            assert_eq!(buf.get_pixel(x, y), 7);
        }
    }
}

#[test]
fn set_pixel_clips_and_dirties() {
    let mut buf = PixelBuffer::new(4, 4, 0);
    buf.set_pixel(2, 1, 9);
    assert!(buf.is_dirty());
    assert_eq!(buf.get_pixel(2, 1), 9);
    // out-of-bounds writes are silently dropped
    buf.set_pixel(-1, 0, 9);
    buf.set_pixel(0, 100, 9);
    let mut count = 0;
    for y in 0..4 {
        for x in 0..4 {
            if buf.get_pixel(x, y) == 9 {
                count += 1;
            }
        }
    }
    assert_eq!(count, 1);
    buf.clear_dirty();
    assert!(!buf.is_dirty());
}

#[test]
fn width_one_horizontal_line_sets_exactly_its_pixels() {
    let mut buf = PixelBuffer::new(20, 20, 0);
    let brush = Brush::new(Color::new(10, 20, 30), 1);
    let color = Color::new(10, 20, 30).into_rgba();
    rasterize_thick_line(&mut buf, &seg(0, 0, 10, 0), &brush);
    for y in 0..20i64 {
        for x in 0..20i64 {
            let expected = if y == 0 && x <= 10 { color } else { 0 };
            assert_eq!(buf.get_pixel(x as usize, y as usize), expected, "pixel {},{}", x, y);
        }
    }
}

#[test]
fn thin_line_walks_a_connected_path() {
    let mut buf = PixelBuffer::new(16, 16, 0);
    let brush = Brush::new(Color::new(1, 2, 3), 0);
    let color = Color::new(1, 2, 3).into_rgba();
    rasterize_thin_line(&mut buf, &seg(1, 1, 9, 6), &brush);
    assert_eq!(buf.get_pixel(1, 1), color);
    assert_eq!(buf.get_pixel(9, 6), color);
    // every painted pixel lies in the segment's bounding box
    for y in 0..16 {
        for x in 0..16 {
            if buf.get_pixel(x, y) == color {
                assert!(1 <= x && x <= 9 && 1 <= y && y <= 6);
            }
        }
    }
}

#[test]
fn thick_stroke_stamps_a_disc() {
    let mut buf = PixelBuffer::new(16, 16, 0);
    let brush = Brush::new(Color::new(5, 5, 5), 3);
    let color = Color::new(5, 5, 5).into_rgba();
    // a degenerate segment stamps a single filled circle
    rasterize_thick_line(&mut buf, &seg(8, 8, 8, 8), &brush);
    for y in 0..16i64 {
        for x in 0..16i64 {
            let inside = (x - 8) * (x - 8) + (y - 8) * (y - 8) <= 9;
            let expected = if inside { color } else { 0 };
            assert_eq!(buf.get_pixel(x as usize, y as usize), expected, "pixel {},{}", x, y);
        }
    }
}

#[test]
fn line_clipping_never_panics() {
    let mut buf = PixelBuffer::new(8, 8, 0);
    let brush = Brush::new(Color::new(9, 9, 9), 2);
    rasterize_thick_line(&mut buf, &seg(-30, -30, 40, 3), &brush);
    // nothing to check beyond termination and in-bounds access: writes
    // outside the buffer are clipped
    assert!(buf.is_dirty());
}

#[test]
fn curve_rasterizes_through_trait() {
    let mut buf = PixelBuffer::new(32, 32, 0);
    let brush = Brush::new(Color::new(20, 0, 0), 1);
    let color = Color::new(20, 0, 0).into_rgba();
    let curve = strokefit::BezierCurve::from_points([
        Point::new(2, 2),
        Point::new(10, 28),
        Point::new(20, 28),
        Point::new(30, 2),
    ]);
    curve.rasterize(&mut buf, &brush);
    assert!(buf.is_dirty());
    assert_eq!(buf.get_pixel(2, 2), color);
    assert_eq!(buf.get_pixel(30, 2), color);
}
