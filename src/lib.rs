//! Voronoi "stained-glass" painting: a blue-noise anchor sampler, a
//! column-pruned nearest-anchor classifier, a raster of colours, and the
//! binary anchor cache format.
//!
//! Coordinates are fixed-point: one pixel is `SUBPIXEL` units along each axis.
//!
//! - `geometry`: points and squared distances.
//! - `sampler`: the frontier-based anchor generator.
//! - `voronoi`: colours, anchors, and the per-column nearest-anchor classifier.
//! - `raster`: the pixel grid, and binding anchors to source colours.
//! - `schedule`: the batches of columns classified side by side.
//! - `cache`: the flat little-endian record format of the anchor cache.
//! - `coordinate`: coordinates as the doubles that the cache stores.
//! - `random`: the random draws the sampler makes.
pub mod geometry;
pub mod random;
pub mod sampler;
pub mod voronoi;
pub mod raster;
pub mod cache;
pub mod schedule;
pub mod coordinate;
