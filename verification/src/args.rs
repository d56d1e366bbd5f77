//! What the command line asks for, as plain values.
use vstd::prelude::*;

verus! {

/// The tile size where none is asked for.
pub const DEFAULT_TILE_DIMENSIONS: u32 = 256;

/// One invocation of the program.
#[derive(Clone, Debug)]
pub struct Args {
    /// The subcommand to run.
    pub top_commands: TopSubcommands,
}

/// The subcommands of the program.
#[derive(Clone, Debug)]
pub enum TopSubcommands {
    /// Slices an image into tiles.
    GenTiles(GenTilesArgs),
    /// Slices an image into tiles and builds the levels of detail above them.
    GenTileLayers(GenTilesArgs),
    /// Stitches the tiles of a directory into one image.
    StitchImage(StitchImageArgs),
    /// Builds the levels of detail above the tiles of a directory, which
    /// become level `0`.
    TilesToLayers(TilesToLayersArgs),
}

/// What slicing needs.
#[derive(Clone, Debug)]
pub struct GenTilesArgs {
    /// The image to cut into tiles.
    pub input: String,
    /// The directory that takes the tiles.
    pub output: String,
    /// The width and height of a tile in pixels.
    pub tile_dimensions: u32,
    /// The column of the source that becomes column 0 of sector 0.
    pub x_offset: Option<i32>,
    /// The row of the source that becomes row 0 of sector 0.
    pub y_offset: Option<i32>,
}

/// What stitching needs.
#[derive(Clone, Debug)]
pub struct StitchImageArgs {
    /// The directory of tiles.
    pub input: String,
    /// Where the stitched image goes.
    pub output: String,
}

/// What building levels above existing tiles needs.
#[derive(Clone, Debug)]
pub struct TilesToLayersArgs {
    /// The directory of tiles.
    pub input: String,
}

/// The offset along one axis: the one asked for, else the middle of the
/// source along that axis.
pub open spec fn offset_or_middle(asked: Option<i32>, extent: u32) -> int {
    match asked {
        Some(offset) => offset as int,
        None => extent as int / 2,
    }
}

impl GenTilesArgs {
    /// The origin of the sector grid within a source of `width` by `height`
    /// pixels: the offsets asked for, and the middle of the source along an
    /// axis for which none was given.
    pub fn offsets(&self, width: u32, height: u32) -> (origin: (i32, i32))
        ensures
            origin.0 == offset_or_middle(self.x_offset, width),
            origin.1 == offset_or_middle(self.y_offset, height),
    {
        let x: i32 = match self.x_offset {
            Some(offset) => offset,
            None => (width / 2) as i32,
        };
        let z: i32 = match self.y_offset {
            Some(offset) => offset,
            None => (height / 2) as i32,
        };
        (x, z)
    }
}

} // verus!
