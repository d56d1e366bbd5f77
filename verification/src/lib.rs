//! Tile pyramids for large raster images.
//!
//! An image is cut into square tiles addressed by sector coordinates, tiles are
//! merged two by two into coarser levels of detail, and the tiles of one level
//! can be stitched back into a single image.
pub mod args;
pub mod tiler;
