//! Putting the tiles of one level together into a single image.
use vstd::prelude::*;
use vstd::arithmetic::div_mod::lemma_fundamental_div_mod;
use crate::tiler::error::TileError;
use crate::tiler::raster::{max_bytes, Pixel, Raster};
use crate::tiler::sector::{
    bounding, bounds_of, lemma_bounding_encloses, lemma_floor_div, lemma_floor_div_unique, Bounds,
    TileCoordinate,
};
use crate::tiler::tile::{
    all_wf, coords_of, find_last, is_uniform, lemma_find_last, same_size, tile_coords, uniform, Tile,
};

verus! {

/// The width in pixels of the canvas for the sectors of `b`.
pub open spec fn canvas_width(b: Bounds, tile_width: int) -> int {
    b.columns() * tile_width
}

/// The height in pixels of the canvas for the sectors of `b`.
pub open spec fn canvas_height(b: Bounds, tile_height: int) -> int {
    b.rows() * tile_height
}

/// Whether the canvas for the sectors of `b` can be held.
pub open spec fn canvas_fits(b: Bounds, tile_width: int, tile_height: int) -> bool {
    &&& canvas_width(b, tile_width) <= u32::MAX
    &&& canvas_height(b, tile_height) <= u32::MAX
    &&& 4 * (canvas_width(b, tile_width) * canvas_height(b, tile_height)) <= max_bytes()
}

/// The canvas column at which the block of sector `c` starts.
pub open spec fn block_left(b: Bounds, c: TileCoordinate, tile_width: int) -> int {
    (c.x - b.min_x) * tile_width
}

/// The canvas row at which the block of sector `c` starts.
pub open spec fn block_top(b: Bounds, c: TileCoordinate, tile_height: int) -> int {
    (c.z - b.min_z) * tile_height
}

/// Pixel `(x, y)` of the canvas: the pixel of the tile whose block it falls
/// into, the last of the list where several tiles share the sector, fully
/// transparent where the list has no tile for the sector.
pub open spec fn stitched_pixel(
    tiles: Seq<Tile>,
    b: Bounds,
    tile_width: int,
    tile_height: int,
    x: int,
    y: int,
) -> Pixel {
    match find_last(coords_of(tiles), b.min_x + x / tile_width, b.min_z + y / tile_height) {
        Some(i) => tiles[i].image.pixel(x % tile_width, y % tile_height),
        None => Pixel::clear(),
    }
}

/// Whether `canvas` is the tiles stitched together: as wide and as high as
/// the smallest rectangle around their sectors, each tile in the block of its
/// sector.
pub open spec fn stitched(tiles: Seq<Tile>, canvas: Raster) -> bool {
    let b = bounding(coords_of(tiles));
    let tile_width = tiles[0].image.spec_width() as int;
    let tile_height = tiles[0].image.spec_height() as int;
    &&& canvas.wf()
    &&& canvas.spec_width() == canvas_width(b, tile_width)
    &&& canvas.spec_height() == canvas_height(b, tile_height)
    &&& forall|x: int, y: int|
        canvas.contains(x, y) ==> #[trigger] canvas.pixel(x, y) == stitched_pixel(
            tiles,
            b,
            tile_width,
            tile_height,
            x,
            y,
        )
}

/// A position lies in the block of a sector exactly if dividing it by the
/// tile size gives the sector's column, and it then stands as far into the
/// block as the remainder says.
pub proof fn lemma_block_of_position(v: int, tile_size: int, steps: int)
    requires
        tile_size > 0,
    ensures
        v / tile_size == steps <==> steps * tile_size <= v < steps * tile_size + tile_size,
        v / tile_size == steps ==> v % tile_size == v - steps * tile_size,
{
    lemma_floor_div(v, tile_size);
    lemma_fundamental_div_mod(v, tile_size);
    assert((steps + 1) * tile_size == steps * tile_size + tile_size) by (nonlinear_arith);
    if steps * tile_size <= v < steps * tile_size + tile_size {
        lemma_floor_div_unique(v, tile_size, steps);
    }
    if v / tile_size == steps {
        assert(tile_size * (v / tile_size) == steps * tile_size) by (nonlinear_arith)
            requires
                v / tile_size == steps,
        ;
    }
}

/// The blocks of two different sectors share no pixel of the canvas.
pub proof fn lemma_blocks_are_disjoint(
    b: Bounds,
    c: TileCoordinate,
    d: TileCoordinate,
    tile_width: int,
    tile_height: int,
    x: int,
    y: int,
)
    requires
        tile_width >= 0,
        tile_height >= 0,
        c != d,
    ensures
        !(Raster::in_block(
            block_left(b, c, tile_width),
            block_top(b, c, tile_height),
            tile_width,
            tile_height,
            x,
            y,
        ) && Raster::in_block(
            block_left(b, d, tile_width),
            block_top(b, d, tile_height),
            tile_width,
            tile_height,
            x,
            y,
        )),
{
    if c.x != d.x {
        lemma_steps_apart(c.x - b.min_x, d.x - b.min_x, tile_width);
    } else {
        lemma_steps_apart(c.z - b.min_z, d.z - b.min_z, tile_height);
    }
}

/// Blocks that start a different number of steps in do not overlap.
proof fn lemma_steps_apart(i: int, j: int, size: int)
    requires
        size >= 0,
        i != j,
    ensures
        i * size + size <= j * size || j * size + size <= i * size,
{
    if i < j {
        assert(i * size + size <= j * size) by (nonlinear_arith)
            requires
                i + 1 <= j,
                size >= 0,
        ;
    } else {
        assert(j * size + size <= i * size) by (nonlinear_arith)
            requires
                j + 1 <= i,
                size >= 0,
        ;
    }
}

/// The block of every sector within the bounds lies on the canvas.
pub proof fn lemma_block_is_on_canvas(
    b: Bounds,
    c: TileCoordinate,
    tile_width: int,
    tile_height: int,
)
    requires
        tile_width >= 0,
        tile_height >= 0,
        b.holds(c),
    ensures
        0 <= block_left(b, c, tile_width),
        block_left(b, c, tile_width) + tile_width <= canvas_width(b, tile_width),
        0 <= block_top(b, c, tile_height),
        block_top(b, c, tile_height) + tile_height <= canvas_height(b, tile_height),
{
    assert(0 <= (c.x - b.min_x) * tile_width && (c.x - b.min_x) * tile_width + tile_width <= (
    b.max_x - b.min_x + 1) * tile_width) by (nonlinear_arith)
        requires
            0 <= c.x - b.min_x,
            c.x - b.min_x + 1 <= b.max_x - b.min_x + 1,
            tile_width >= 0,
    ;
    assert(0 <= (c.z - b.min_z) * tile_height && (c.z - b.min_z) * tile_height + tile_height <= (
    b.max_z - b.min_z + 1) * tile_height) by (nonlinear_arith)
        requires
            0 <= c.z - b.min_z,
            c.z - b.min_z + 1 <= b.max_z - b.min_z + 1,
            tile_height >= 0,
    ;
}

/// Adding tile `k` to the first `k` tiles changes the canvas within the block
/// of that tile, where its own pixels now show, and nowhere else.
pub proof fn lemma_stitch_step(
    tiles: Seq<Tile>,
    k: int,
    b: Bounds,
    tile_width: int,
    tile_height: int,
    x: int,
    y: int,
)
    requires
        0 <= k < tiles.len(),
        tile_width > 0,
        tile_height > 0,
    ensures
        stitched_pixel(tiles.take(k + 1), b, tile_width, tile_height, x, y) == (if Raster::in_block(
            block_left(b, tiles[k].coord, tile_width),
            block_top(b, tiles[k].coord, tile_height),
            tile_width,
            tile_height,
            x,
            y,
        ) {
            tiles[k].image.pixel(
                x - block_left(b, tiles[k].coord, tile_width),
                y - block_top(b, tiles[k].coord, tile_height),
            )
        } else {
            stitched_pixel(tiles.take(k), b, tile_width, tile_height, x, y)
        }),
{
    let now = tiles.take(k + 1);
    let before = tiles.take(k);
    let c = tiles[k].coord;
    let sx = b.min_x + x / tile_width;
    let sz = b.min_z + y / tile_height;
    assert(coords_of(now).drop_last() =~= coords_of(before));
    assert(coords_of(now).last() == c);
    lemma_block_of_position(x, tile_width, c.x - b.min_x);
    lemma_block_of_position(y, tile_height, c.z - b.min_z);
    if c.x == sx && c.z == sz {
        assert(find_last(coords_of(now), sx, sz) == Some(k));
        assert(now[k] == tiles[k]);
    } else {
        assert(find_last(coords_of(now), sx, sz) == find_last(coords_of(before), sx, sz));
        lemma_find_last(coords_of(before), sx, sz);
        match find_last(coords_of(before), sx, sz) {
            Some(i) => {
                assert(now[i] == tiles[i] && before[i] == tiles[i]);
            },
            None => {},
        }
    }
}

/// Stitches the tiles of one level of detail into a single image.
///
/// The canvas spans the smallest rectangle of sectors around the tiles, and
/// each tile is copied into the block of its sector; where no tile lies the
/// canvas stays fully transparent. An empty list and tiles of differing
/// dimensions are refused with `Precondition`, a canvas that cannot be held
/// with `Capacity`.
pub fn consolidate_images(tiles: &Vec<Tile>) -> (r: Result<Raster, TileError>)
    requires
        all_wf(tiles@),
    ensures
        tiles.len() == 0 ==> r == Err::<Raster, TileError>(TileError::Precondition),
        tiles.len() > 0 ==> {
            let b = bounding(coords_of(tiles@));
            let tile_width = tiles[0].image.spec_width() as int;
            let tile_height = tiles[0].image.spec_height() as int;
            if !same_size(tiles@) {
                r == Err::<Raster, TileError>(TileError::Precondition)
            } else if !canvas_fits(b, tile_width, tile_height) {
                r == Err::<Raster, TileError>(TileError::Capacity)
            } else {
                r matches Ok(canvas) && stitched(tiles@, canvas)
            }
        },
{
    if tiles.len() == 0 {
        return Err(TileError::Precondition);
    }
    let tile_width = tiles[0].image.width();
    let tile_height = tiles[0].image.height();
    if !is_uniform(tiles, tile_width, tile_height) {
        return Err(TileError::Precondition);
    }
    let coords = tile_coords(tiles);
    let b = match bounds_of(&coords) {
        Some(b) => b,
        // never taken: the list is not empty
        None => {
            return Err(TileError::Precondition);
        },
    };
    let columns: u64 = (b.max_x as i64 - b.min_x as i64 + 1) as u64;
    let rows: u64 = (b.max_z as i64 - b.min_z as i64 + 1) as u64;
    assert(0 <= columns * tile_width <= 0x1_0000_0000 * 0xffff_ffff) by (nonlinear_arith)
        requires
            0 <= columns <= 0x1_0000_0000,
            0 <= tile_width <= 0xffff_ffff,
    ;
    assert(0 <= rows * tile_height <= 0x1_0000_0000 * 0xffff_ffff) by (nonlinear_arith)
        requires
            0 <= rows <= 0x1_0000_0000,
            0 <= tile_height <= 0xffff_ffff,
    ;
    let wide: u128 = columns as u128 * tile_width as u128;
    let high: u128 = rows as u128 * tile_height as u128;
    if wide > u32::MAX as u128 || high > u32::MAX as u128 {
        return Err(TileError::Capacity);
    }
    let mut canvas = match Raster::new(wide as u32, high as u32) {
        Ok(canvas) => canvas,
        Err(_) => {
            return Err(TileError::Capacity);
        },
    };
    assert(tiles@.take(0) =~= Seq::<Tile>::empty());
    let mut k: usize = 0;
    while k < tiles.len()
        invariant
            k <= tiles.len(),
            all_wf(tiles@),
            uniform(tiles@, tile_width as int, tile_height as int),
            b.wf(),
            b.encloses(coords_of(tiles@)),
            canvas.wf(),
            canvas.spec_width() == canvas_width(b, tile_width as int),
            canvas.spec_height() == canvas_height(b, tile_height as int),
            forall|x: int, y: int|
                canvas.contains(x, y) ==> #[trigger] canvas.pixel(x, y) == stitched_pixel(
                    tiles@.take(k as int),
                    b,
                    tile_width as int,
                    tile_height as int,
                    x,
                    y,
                ),
        decreases tiles.len() - k,
    {
        let tile = &tiles[k];
        let c = tile.coord;
        assert(b.holds(c)) by {
            assert(coords_of(tiles@)[k as int] == c);
        }
        let right_of: u64 = (c.x as i64 - b.min_x as i64) as u64;
        let below: u64 = (c.z as i64 - b.min_z as i64) as u64;
        proof {
            assert(right_of * tile_width + tile_width <= b.columns() * tile_width)
                by (nonlinear_arith)
                requires
                    0 <= right_of,
                    right_of + 1 <= b.columns(),
                    0 <= tile_width,
            ;
            assert(below * tile_height + tile_height <= b.rows() * tile_height)
                by (nonlinear_arith)
                requires
                    0 <= below,
                    below + 1 <= b.rows(),
                    0 <= tile_height,
            ;
            assert(0 <= right_of * tile_width && 0 <= below * tile_height) by (nonlinear_arith)
                requires
                    0 <= right_of,
                    0 <= below,
                    0 <= tile_width,
                    0 <= tile_height,
            ;
        }
        let left: u32 = (right_of * tile_width as u64) as u32;
        let top: u32 = (below * tile_height as u64) as u32;
        let ghost old_canvas = canvas;
        canvas.draw(&tile.image, left, top);
        proof {
            assert forall|x: int, y: int| canvas.contains(x, y) implies #[trigger] canvas.pixel(
                x,
                y,
            ) == stitched_pixel(
                tiles@.take(k + 1),
                b,
                tile_width as int,
                tile_height as int,
                x,
                y,
            ) by {
                assert(old_canvas.contains(x, y));
                if tile_width > 0 && tile_height > 0 {
                    lemma_stitch_step(tiles@, k as int, b, tile_width as int, tile_height as int, x, y);
                } else {
                    assert(canvas.spec_width() * canvas.spec_height() >= 0);
                    assert(b.columns() * tile_width == 0 || b.rows() * tile_height == 0)
                        by (nonlinear_arith)
                        requires
                            tile_width == 0 || tile_height == 0,
                    ;
                }
            }
        }
        k += 1;
    }
    assert(tiles@.take(k as int) =~= tiles@);
    Ok(canvas)
}

} // verus!
