//! The tile-pyramid engine: sector arithmetic, slicing, reduction and stitching.
pub mod error;
pub mod laws;
pub mod names;
pub mod pyramid;
pub mod raster;
pub mod reducer;
pub mod resample;
pub mod sector;
pub mod slicer;
pub mod stitcher;
pub mod tile;

pub use self::error::TileError;
pub use self::names::{
    level_name, parse_tile_name, parse_tile_name_bytes, parse_tile_names, search_pattern,
    tile_file_name,
};
pub use self::pyramid::generate_lods;
pub use self::raster::{Pixel, Raster};
pub use self::reducer::{assemble_quad, halve, reduce_sectors, shrink_tiles};
pub use self::slicer::{cut_tile, image_to_tiles, sector_bounds};
pub use self::stitcher::consolidate_images;
pub use self::tile::Tile;
pub use self::sector::{bounds_of, parent, sector, Bounds, TileCoordinate};
