use strokefit::{BezierCurve, Brush, Color, LineSegment, PixelBuffer, Point, Polygon,
    PolygonEdge, PolygonType, Rasterizable};
use strokefit::polygon::{edge_end, edge_start, polygonify};

fn pt(x: i64, y: i64) -> Point {
    Point::new(x, y)
}

fn seg(x0: i64, y0: i64, x1: i64, y1: i64) -> PolygonEdge {
    PolygonEdge::Straight(LineSegment::new(pt(x0, y0), pt(x1, y1)))
}

#[test]
fn square_fill_paints_its_rows() {
    let square = Polygon::new(
        vec![seg(2, 2, 10, 2), seg(10, 2, 10, 10), seg(10, 10, 2, 10), seg(2, 10, 2, 2)],
        PolygonType::Fill,
    );
    let mut buf = PixelBuffer::new(16, 16, 0);
    let brush = Brush::new(Color::new(1, 1, 1), 1);
    let color = Color::new(1, 1, 1).into_rgba();
    square.fill(&mut buf, &brush);
    for y in 0..16i64 {
        for x in 0..16i64 {
            // vertical edges span rows 2..10 half-open, between x = 2 and 10
            let inside = 2 <= y && y < 10 && 2 <= x && x <= 10;
            let expected = if inside { color } else { 0 };
            assert_eq!(buf.get_pixel(x as usize, y as usize), expected, "pixel {},{}", x, y);
        }
    }
}

#[test]
fn fill_matches_pre_flattened_fill() {
    // a convex shape with one genuinely curved edge
    let curved = PolygonEdge::Curved(BezierCurve::from_points([
        pt(20, 4),
        pt(26, 10),
        pt(26, 18),
        pt(20, 24),
    ]));
    let poly = Polygon::new(
        vec![seg(4, 4, 20, 4), curved, seg(20, 24, 4, 24), seg(4, 24, 4, 4)],
        PolygonType::Fill,
    );
    let flat = poly.pre_flattened();
    for e in flat.edges.iter() {
        assert!(e.is_straight());
    }

    let brush = Brush::new(Color::new(2, 3, 4), 1);
    let mut buf1 = PixelBuffer::new(32, 32, 0);
    let mut buf2 = PixelBuffer::new(32, 32, 0);
    poly.fill(&mut buf1, &brush);
    flat.fill(&mut buf2, &brush);
    for y in 0..32 {
        for x in 0..32 {
            assert_eq!(buf1.get_pixel(x, y), buf2.get_pixel(x, y), "pixel {},{}", x, y);
        }
    }
    // and the fill actually painted something
    let color = Color::new(2, 3, 4).into_rgba();
    assert_eq!(buf1.get_pixel(10, 10), color);
}

#[test]
fn odd_intersection_count_drops_the_unpaired_crossing() {
    // an unclosed zig: rows may see a single crossing, which is dropped
    let open_shape = Polygon::new(vec![seg(2, 2, 2, 12)], PolygonType::Fill);
    let mut buf = PixelBuffer::new(16, 16, 0);
    let brush = Brush::new(Color::new(7, 7, 7), 1);
    open_shape.fill(&mut buf, &brush);
    for y in 0..16 {
        for x in 0..16 {
            assert_eq!(buf.get_pixel(x, y), 0);
        }
    }
}

#[test]
fn outline_draws_edges_only() {
    let square = Polygon::new(
        vec![seg(2, 2, 10, 2), seg(10, 2, 10, 10), seg(10, 10, 2, 10), seg(2, 10, 2, 2)],
        PolygonType::Outline,
    );
    let mut buf = PixelBuffer::new(16, 16, 0);
    let brush = Brush::new(Color::new(1, 1, 1), 1);
    let color = Color::new(1, 1, 1).into_rgba();
    square.rasterize(&mut buf, &brush);
    assert_eq!(buf.get_pixel(2, 2), color);
    assert_eq!(buf.get_pixel(10, 10), color);
    assert_eq!(buf.get_pixel(6, 2), color);
    // the interior stays untouched
    assert_eq!(buf.get_pixel(6, 6), 0);
}

#[test]
fn straight_edge_flattens_to_itself() {
    let e = seg(1, 2, 3, 4);
    assert!(e.is_straight());
    let f = e.flatten();
    assert_eq!(f.len(), 1);
    assert_eq!(f[0].from, pt(1, 2));
    assert_eq!(f[0].to, pt(3, 4));
}

#[test]
fn polygonify_fuses_near_endpoints() {
    // two edges whose meeting points are two units apart: with fusing
    // forced, every joint is closed at the midpoint
    let items = vec![seg(0, 0, 10, 0), seg(10, 2, 0, 4)];
    let (poly, new_lines) = polygonify(items, 32, false);
    assert_eq!(new_lines.len(), 0);
    assert_eq!(poly.edges.len(), 2);
    // the gap (10,0)-(10,2) fused at (10,1); the wrap gap (0,4)-(0,0) at (0,2)
    assert_eq!(edge_end(&poly.edges[0]), Point::new(10, 1));
    assert_eq!(edge_start(&poly.edges[1]), Point::new(10, 1));
    assert_eq!(edge_end(&poly.edges[1]), Point::new(0, 2));
    assert_eq!(edge_start(&poly.edges[0]), Point::new(0, 2));
}

#[test]
fn polygonify_bridges_wide_gaps() {
    // the two edges are far apart: with bridging requested, new straight
    // lines span the gaps and the edges keep their endpoints
    let items = vec![seg(0, 0, 10, 0), seg(10, 50, 0, 50)];
    let (poly, new_lines) = polygonify(items, 4, true);
    assert_eq!(poly.edges.len(), 2);
    assert_eq!(new_lines.len(), 2);
    assert_eq!(new_lines[0].from, Point::new(10, 0));
    assert_eq!(new_lines[0].to, Point::new(10, 50));
    assert_eq!(new_lines[1].from, Point::new(0, 50));
    assert_eq!(new_lines[1].to, Point::new(0, 0));
    assert_eq!(edge_end(&poly.edges[0]), Point::new(10, 0));
    assert_eq!(edge_start(&poly.edges[1]), Point::new(10, 50));
}
