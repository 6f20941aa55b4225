//! A curve-fitting and rasterization engine for a vector drawing tool.
//!
//! Freehand input arrives as an ordered run of points; the fitter turns such a
//! run into a short sequence of cubic Bezier curves within an error bound, and
//! the rasterizer turns curves, line segments and filled polygons into pixels
//! of a caller-supplied buffer.
//!
//! All geometry is carried in integer sub-pixel units, so every computation
//! here is exact and checked; callers that work in fractional coordinates
//! scale them into units of their choosing before entering the engine.

pub mod geometry;
pub mod bezier;
pub mod fit;
pub mod raster;
pub mod polygon;
pub mod polynomial;
pub mod editor;

pub use geometry::{Point, LineSegment};
pub use bezier::BezierCurve;
pub use fit::fit_curve;
pub use raster::{Brush, Color, PixelBuffer, Rasterizable};
pub use polygon::{Polygon, PolygonEdge, PolygonType};
pub use polynomial::{Polynomial, Axis};
