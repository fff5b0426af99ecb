//! Tiling of georeferenced rasters along the cells of a hierarchical
//! geocode (geohash over WGS84, quadtile over Web Mercator), and the
//! reverse merge, with the pixel and coordinate logic proved.
//!
//! Coordinates are fixed-point integers: one unit is 10^-9 of the native
//! unit of the coordinate reference system (nanodegrees for WGS84,
//! nanometres for Web Mercator).

mod wrappers;

pub mod bytes;

pub mod geocode;
pub mod window;
pub mod split;
pub mod merge;
pub mod serialize;
pub mod raster;
