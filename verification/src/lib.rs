//! Quadtree cell search over fixed-point latitude/longitude rectangles.
//!
//! Starting from a root cell that covers a whole coordinate domain, the search
//! bisects every live cell on both axes, level by level, and keeps the cells
//! that overlap a query rectangle. Each cell is named by a 64-bit code: a
//! leading sentinel bit followed by two bits per level.
//!
//! Coordinates are signed 64-bit fixed-point numbers. The unit is the
//! caller's choice (a fraction of a degree, say); every comparison is exact
//! and a midpoint is rounded down to a whole unit.

pub mod bounding_box;
pub mod cell;
pub mod frontier;
pub mod search;

pub use bounding_box::{midpoint, BoundingBox};
pub use cell::GeoHashBBox;
pub use search::geo_hashes_for_bounding_box;
