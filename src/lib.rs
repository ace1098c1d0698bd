//! Circle packing over integer-lattice shapes: rectangles, circles and
//! polygons with holes, with a verified greedy placement protocol.
//!
//! Coordinates, radii and areas are integers. Distances from a shape's
//! boundary are rounded down, so a circle shrunk against a sibling keeps the
//! full padding from it; the depth of a point inside a circle it is nested
//! into is rounded the other way, so a nested circle keeps the full padding
//! inside its parent. A polygon reports at least one unit of distance off its
//! boundary so that its sign is exact; a circle reports zero for points less
//! than one unit outside it. Circle areas use 355/113 for pi and are rounded
//! down. Callers choose the unit (pixels, tenths of a pixel, ...) within
//! `COORD_LIMIT`.

pub mod geometry;
pub mod sampling;
pub mod shapes;
pub mod packing;
pub mod polygon;

pub use geometry::{COORD_LIMIT, RADIUS_LIMIT};
pub use packing::{PackShape, PackState, Settings};
pub use polygon::Polyline;
pub use sampling::uniform_point;
pub use shapes::{Bbox, Circle, Shape};
pub use rand::rngs::StdRng;


