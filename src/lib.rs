//! An in-memory RGB raster with clamp-to-edge pixel access, integer colour-space
//! conversions and two resampling methods.
pub mod color;
pub mod image;
pub mod resize;

