//! Dominant-color extraction for raster images.
//!
//! The library clusters pixels of an image, given in a perceptually uniform
//! color space, with a weighted k-means++ algorithm, and returns the cluster
//! centroids together with the number of pixels assigned to each (the
//! dominance of a centroid is that count divided by the total pixel count).
//!
//! Perceptual colors are carried as fixed-point integers so that every step
//! of the clustering arithmetic is exact and verified; the conversion from
//! and to device (8-bit RGB) color is floating-point work and lives with the
//! callers, outside the library.

pub mod cli;
pub mod color_clusterer;
pub mod colors;
pub mod sampling;
pub mod weights;

pub use colors::Lab;
