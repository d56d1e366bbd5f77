//! Cutting a source image into the tiles of the base level.
use vstd::prelude::*;
use crate::tiler::error::TileError;
use crate::tiler::raster::{max_bytes, Pixel, Raster};
use crate::tiler::sector::{lemma_floor_div, sector, sector_of, Bounds, TileCoordinate};
use crate::tiler::tile::Tile;

verus! {

/// Whether `v` can be a sector coordinate.
pub open spec fn fits_i32(v: int) -> bool {
    i32::MIN <= v <= i32::MAX
}

/// Whether the sectors that an image of `width` by `height` pixels reaches
/// with its origin at the given offset all have coordinates of 32 bits.
pub open spec fn corners_fit(width: int, height: int, x_offset: int, y_offset: int, tile_size: int) -> bool {
    &&& fits_i32(sector_of(0, x_offset, tile_size))
    &&& fits_i32(sector_of(width - 1, x_offset, tile_size))
    &&& fits_i32(sector_of(0, y_offset, tile_size))
    &&& fits_i32(sector_of(height - 1, y_offset, tile_size))
}

/// The rectangle of sectors that an image reaches: from the sector of its
/// first pixel to the sector of its last, both included.
pub open spec fn reached(
    b: Bounds,
    width: int,
    height: int,
    x_offset: int,
    y_offset: int,
    tile_size: int,
) -> bool {
    &&& b.min_x == sector_of(0, x_offset, tile_size)
    &&& b.max_x == sector_of(width - 1, x_offset, tile_size)
    &&& b.min_z == sector_of(0, y_offset, tile_size)
    &&& b.max_z == sector_of(height - 1, y_offset, tile_size)
}

/// Pixel `(x, y)` of the tile at sector `c`: the source pixel at
/// `c * tile_size + (x, y) + offset`, fully transparent where that position
/// lies outside the source.
pub open spec fn cut_pixel(
    source: Raster,
    x_offset: int,
    y_offset: int,
    tile_size: int,
    c: TileCoordinate,
    x: int,
    y: int,
) -> Pixel {
    source.pixel_or_clear(c.x * tile_size + x + x_offset, c.z * tile_size + y + y_offset)
}

/// Whether `tile` is the square of `tile_size` pixels cut from the source at
/// the sector of the tile.
pub open spec fn is_cut(source: Raster, x_offset: int, y_offset: int, tile_size: int, tile: Tile) -> bool {
    &&& tile.image.wf()
    &&& tile.image.spec_width() == tile_size
    &&& tile.image.spec_height() == tile_size
    &&& forall|x: int, y: int|
        tile.image.contains(x, y) ==> #[trigger] tile.image.pixel(x, y) == cut_pixel(
            source,
            x_offset,
            y_offset,
            tile_size,
            tile.coord,
            x,
            y,
        )
}

/// Whether the tile at sector `c` shows anything: one of its pixels is not
/// fully transparent.
pub open spec fn visible(source: Raster, x_offset: int, y_offset: int, tile_size: int, c: TileCoordinate) -> bool {
    exists|x: int, y: int|
        0 <= x < tile_size && 0 <= y < tile_size && !(#[trigger] cut_pixel(
            source,
            x_offset,
            y_offset,
            tile_size,
            c,
            x,
            y,
        )).is_transparent()
}

/// Row by row, and from left to right within a row, `a` comes before `b`.
pub open spec fn row_major_before(a: TileCoordinate, b: TileCoordinate) -> bool {
    a.z < b.z || (a.z == b.z && a.x < b.x)
}

/// Whether `tiles` is the source cut into tiles: one tile for each sector
/// that shows anything and for no other, each the square cut at its sector,
/// row by row.
pub open spec fn sliced(source: Raster, x_offset: int, y_offset: int, tile_size: int, tiles: Seq<Tile>) -> bool {
    &&& forall|i: int|
        0 <= i < tiles.len() ==> is_cut(source, x_offset, y_offset, tile_size, #[trigger] tiles[i])
            && visible(source, x_offset, y_offset, tile_size, tiles[i].coord)
    &&& forall|c: TileCoordinate| #[trigger]
        visible(source, x_offset, y_offset, tile_size, c) ==> exists|i: int|
            0 <= i < tiles.len() && (#[trigger] tiles[i]).coord == c
    &&& forall|i: int, j: int|
        0 <= i < j < tiles.len() ==> row_major_before(
            (#[trigger] tiles[i]).coord,
            (#[trigger] tiles[j]).coord,
        )
}

/// The rectangle of sectors that an image of `width` by `height` pixels
/// reaches when its origin lies at the given offset: from the sector of pixel
/// `(0, 0)` to the sector of pixel `(width - 1, height - 1)`.
///
/// `Precondition` for a tile size of zero or an image without pixels, else
/// `Capacity` where a corner sector has no coordinate of 32 bits.
pub fn sector_bounds(width: u32, height: u32, x_offset: i32, y_offset: i32, tile_size: u32) -> (r:
    Result<Bounds, TileError>)
    ensures
        tile_size == 0 || width == 0 || height == 0 ==> r == Err::<Bounds, TileError>(
            TileError::Precondition,
        ),
        tile_size > 0 && width > 0 && height > 0 && !corners_fit(
            width as int,
            height as int,
            x_offset as int,
            y_offset as int,
            tile_size as int,
        ) ==> r == Err::<Bounds, TileError>(TileError::Capacity),
        tile_size > 0 && width > 0 && height > 0 && corners_fit(
            width as int,
            height as int,
            x_offset as int,
            y_offset as int,
            tile_size as int,
        ) ==> r is Ok,
        r matches Ok(b) ==> b.wf() && reached(
            b,
            width as int,
            height as int,
            x_offset as int,
            y_offset as int,
            tile_size as int,
        ),
{
    if tile_size == 0 || width == 0 || height == 0 {
        return Err(TileError::Precondition);
    }
    let min_x = sector(0, x_offset, tile_size);
    let max_x = sector(width - 1, x_offset, tile_size);
    let min_z = sector(0, y_offset, tile_size);
    let max_z = sector(height - 1, y_offset, tile_size);
    proof {
        lemma_sector_is_monotonic(0, width - 1, x_offset as int, tile_size as int);
        lemma_sector_is_monotonic(0, height - 1, y_offset as int, tile_size as int);
    }
    if min_x < i32::MIN as i64 || max_x > i32::MAX as i64 || min_z < i32::MIN as i64 || max_z
        > i32::MAX as i64 {
        return Err(TileError::Capacity);
    }
    Ok(Bounds { min_x: min_x as i32, max_x: max_x as i32, min_z: min_z as i32, max_z: max_z as i32 })
}

/// A position further right never lies in a sector further left.
pub proof fn lemma_sector_is_monotonic(p: int, q: int, offset: int, tile_size: int)
    requires
        tile_size > 0,
        p <= q,
    ensures
        sector_of(p, offset, tile_size) <= sector_of(q, offset, tile_size),
{
    let a = sector_of(p, offset, tile_size);
    let b = sector_of(q, offset, tile_size);
    lemma_floor_div(p - offset, tile_size);
    lemma_floor_div(q - offset, tile_size);
    if b < a {
        assert((b + 1) * tile_size <= a * tile_size) by (nonlinear_arith)
            requires
                b + 1 <= a,
                tile_size > 0,
        ;
    }
}

/// The square of `tile_size` by `tile_size` pixels that the sector `c` cuts
/// from the source, fully transparent where it reaches beyond the source.
/// `Capacity` where a tile of that size cannot be held.
pub fn cut_tile(source: &Raster, x_offset: i32, y_offset: i32, tile_size: u32, c: TileCoordinate) -> (r:
    Result<Raster, TileError>)
    requires
        source.wf(),
    ensures
        4 * (tile_size * tile_size) > max_bytes() <==> r is Err,
        r is Err ==> r == Err::<Raster, TileError>(TileError::Capacity),
        r matches Ok(image) ==> is_cut(
            *source,
            x_offset as int,
            y_offset as int,
            tile_size as int,
            Tile { coord: c, image },
        ),
{
    let mut image = match Raster::new(tile_size, tile_size) {
        Ok(image) => image,
        Err(_) => {
            return Err(TileError::Capacity);
        },
    };
    assert(-0x8000_0000 * 0xffff_ffff <= c.x * tile_size <= 0x7fff_ffff * 0xffff_ffff
        && -0x8000_0000 * 0xffff_ffff <= c.z * tile_size <= 0x7fff_ffff * 0xffff_ffff)
        by (nonlinear_arith)
        requires
            -0x8000_0000 <= c.x <= 0x7fff_ffff,
            -0x8000_0000 <= c.z <= 0x7fff_ffff,
            0 <= tile_size <= 0xffff_ffff,
    ;
    let left: i128 = c.x as i128 * tile_size as i128 + x_offset as i128;
    let top: i128 = c.z as i128 * tile_size as i128 + y_offset as i128;
    let width = source.width();
    let height = source.height();
    let mut y: u32 = 0;
    while y < tile_size
        invariant
            source.wf(),
            image.wf(),
            image.spec_width() == tile_size,
            image.spec_height() == tile_size,
            width == source.spec_width(),
            height == source.spec_height(),
            left == c.x * tile_size + x_offset,
            top == c.z * tile_size + y_offset,
            -0x1_0000_0000_0000_0000 <= left <= 0x1_0000_0000_0000_0000,
            -0x1_0000_0000_0000_0000 <= top <= 0x1_0000_0000_0000_0000,
            y <= tile_size,
            forall|u: int, v: int|
                image.contains(u, v) ==> #[trigger] image.pixel(u, v) == (if v < y {
                    source.pixel_or_clear(left + u, top + v)
                } else {
                    Pixel::clear()
                }),
        decreases tile_size - y,
    {
        let mut x: u32 = 0;
        while x < tile_size
            invariant
                source.wf(),
                image.wf(),
                image.spec_width() == tile_size,
                image.spec_height() == tile_size,
                width == source.spec_width(),
                height == source.spec_height(),
                left == c.x * tile_size + x_offset,
                top == c.z * tile_size + y_offset,
                -0x1_0000_0000_0000_0000 <= left <= 0x1_0000_0000_0000_0000,
                -0x1_0000_0000_0000_0000 <= top <= 0x1_0000_0000_0000_0000,
                y < tile_size,
                x <= tile_size,
                forall|u: int, v: int|
                    image.contains(u, v) ==> #[trigger] image.pixel(u, v) == (if v < y || (v == y
                        && u < x) {
                        source.pixel_or_clear(left + u, top + v)
                    } else {
                        Pixel::clear()
                    }),
            decreases tile_size - x,
        {
            let from_x: i128 = left + x as i128;
            let from_y: i128 = top + y as i128;
            if 0 <= from_x && from_x < width as i128 && 0 <= from_y && from_y < height as i128 {
                let p = source.get_pixel(from_x as u32, from_y as u32);
                image.put_pixel(x, y, p);
            }
            x += 1;
        }
        y += 1;
    }
    Ok(image)
}

/// A sector outside the rectangle that the image reaches shows nothing.
pub proof fn lemma_beyond_reach_is_blank(
    source: Raster,
    x_offset: int,
    y_offset: int,
    tile_size: int,
    b: Bounds,
    c: TileCoordinate,
)
    requires
        tile_size > 0,
        source.spec_width() > 0,
        source.spec_height() > 0,
        reached(
            b,
            source.spec_width() as int,
            source.spec_height() as int,
            x_offset,
            y_offset,
            tile_size,
        ),
        !b.holds(c),
    ensures
        !visible(source, x_offset, y_offset, tile_size, c),
{
    let w = source.spec_width() as int;
    let h = source.spec_height() as int;
    lemma_floor_div(0 - x_offset, tile_size);
    lemma_floor_div(w - 1 - x_offset, tile_size);
    lemma_floor_div(0 - y_offset, tile_size);
    lemma_floor_div(h - 1 - y_offset, tile_size);
    assert forall|x: int, y: int| 0 <= x < tile_size && 0 <= y < tile_size implies (
    #[trigger] cut_pixel(source, x_offset, y_offset, tile_size, c, x, y)).is_transparent() by {
        let sx = c.x * tile_size + x + x_offset;
        let sy = c.z * tile_size + y + y_offset;
        if c.x < b.min_x {
            assert((c.x + 1) * tile_size <= b.min_x * tile_size) by (nonlinear_arith)
                requires
                    c.x + 1 <= b.min_x,
                    tile_size > 0,
            ;
            assert((c.x + 1) * tile_size == c.x * tile_size + tile_size) by (nonlinear_arith);
            assert(sx < 0);
        } else if c.x > b.max_x {
            assert((b.max_x + 1) * tile_size <= c.x * tile_size) by (nonlinear_arith)
                requires
                    b.max_x + 1 <= c.x,
                    tile_size > 0,
            ;
            assert(sx >= w);
        } else if c.z < b.min_z {
            assert((c.z + 1) * tile_size <= b.min_z * tile_size) by (nonlinear_arith)
                requires
                    c.z + 1 <= b.min_z,
                    tile_size > 0,
            ;
            assert((c.z + 1) * tile_size == c.z * tile_size + tile_size) by (nonlinear_arith);
            assert(sy < 0);
        } else {
            assert((b.max_z + 1) * tile_size <= c.z * tile_size) by (nonlinear_arith)
                requires
                    b.max_z + 1 <= c.z,
                    tile_size > 0,
            ;
            assert(sy >= h);
        }
    }
}

/// Cuts the source into square tiles of `tile_dimensions` pixels, the origin
/// of the sector grid at pixel `(x_offset, y_offset)` of the source.
///
/// A tile is made for every sector in which the source has a pixel that is
/// not fully transparent, and for no other sector; the tiles come row by row.
/// A tile size of zero is refused with `Precondition`, a source whose sectors
/// have no coordinates of 32 bits or whose tiles cannot be held with
/// `Capacity`.
pub fn image_to_tiles(source: &Raster, x_offset: i32, y_offset: i32, tile_dimensions: u32) -> (r:
    Result<Vec<Tile>, TileError>)
    requires
        source.wf(),
    ensures
        tile_dimensions == 0 ==> r == Err::<Vec<Tile>, TileError>(TileError::Precondition),
        tile_dimensions > 0 && source.spec_width() > 0 && source.spec_height() > 0 && !(corners_fit(
            source.spec_width() as int,
            source.spec_height() as int,
            x_offset as int,
            y_offset as int,
            tile_dimensions as int,
        ) && 4 * (tile_dimensions * tile_dimensions) <= max_bytes()) ==> r == Err::<
            Vec<Tile>,
            TileError,
        >(TileError::Capacity),
        tile_dimensions > 0 && (source.spec_width() == 0 || source.spec_height() == 0 || (
        corners_fit(
            source.spec_width() as int,
            source.spec_height() as int,
            x_offset as int,
            y_offset as int,
            tile_dimensions as int,
        ) && 4 * (tile_dimensions * tile_dimensions) <= max_bytes())) ==> r is Ok,
        r matches Ok(tiles) ==> sliced(
            *source,
            x_offset as int,
            y_offset as int,
            tile_dimensions as int,
            tiles@,
        ),
{
    let mut tiles: Vec<Tile> = Vec::new();
    if tile_dimensions == 0 {
        return Err(TileError::Precondition);
    }
    if source.width() == 0 || source.height() == 0 {
        proof {
            assert forall|c: TileCoordinate| !#[trigger] visible(
                *source,
                x_offset as int,
                y_offset as int,
                tile_dimensions as int,
                c,
            ) by {}
        }
        return Ok(tiles);
    }
    let b = match sector_bounds(source.width(), source.height(), x_offset, y_offset, tile_dimensions) {
        Ok(b) => b,
        Err(_) => {
            return Err(TileError::Capacity);
        },
    };
    assert(0 <= tile_dimensions * tile_dimensions <= 0xffff_ffff * 0xffff_ffff) by (nonlinear_arith)
        requires
            0 <= tile_dimensions <= 0xffff_ffff,
    ;
    if 4 * (tile_dimensions as u128 * tile_dimensions as u128) > isize::MAX as u128 {
        return Err(TileError::Capacity);
    }
    let ghost xo = x_offset as int;
    let ghost yo = y_offset as int;
    let ghost t = tile_dimensions as int;
    let mut z: i64 = b.min_z as i64;
    while z <= b.max_z as i64
        invariant
            source.wf(),
            t == tile_dimensions,
            xo == x_offset,
            yo == y_offset,
            t > 0,
            4 * (t * t) <= max_bytes(),
            b.wf(),
            b.min_z <= z <= b.max_z + 1,
            forall|i: int|
                0 <= i < tiles@.len() ==> is_cut(*source, xo, yo, t, #[trigger] tiles@[i])
                    && visible(*source, xo, yo, t, tiles@[i].coord) && b.holds(tiles@[i].coord)
                    && tiles@[i].coord.z < z,
            forall|c: TileCoordinate| #[trigger]
                visible(*source, xo, yo, t, c) && b.holds(c) && c.z < z ==> exists|i: int|
                    0 <= i < tiles@.len() && (#[trigger] tiles@[i]).coord == c,
            forall|i: int, j: int|
                0 <= i < j < tiles@.len() ==> row_major_before(
                    (#[trigger] tiles@[i]).coord,
                    (#[trigger] tiles@[j]).coord,
                ),
        decreases b.max_z + 1 - z,
    {
        let mut x: i64 = b.min_x as i64;
        while x <= b.max_x as i64
            invariant
                source.wf(),
                t == tile_dimensions,
                xo == x_offset,
                yo == y_offset,
                t > 0,
                4 * (t * t) <= max_bytes(),
                b.wf(),
                b.min_z <= z <= b.max_z,
                b.min_x <= x <= b.max_x + 1,
                forall|i: int|
                    0 <= i < tiles@.len() ==> is_cut(*source, xo, yo, t, #[trigger] tiles@[i])
                        && visible(*source, xo, yo, t, tiles@[i].coord) && b.holds(tiles@[i].coord)
                        && (tiles@[i].coord.z < z || (tiles@[i].coord.z == z && tiles@[i].coord.x
                        < x)),
                forall|c: TileCoordinate| #[trigger]
                    visible(*source, xo, yo, t, c) && b.holds(c) && (c.z < z || (c.z == z && c.x
                        < x)) ==> exists|i: int|
                        0 <= i < tiles@.len() && (#[trigger] tiles@[i]).coord == c,
                forall|i: int, j: int|
                    0 <= i < j < tiles@.len() ==> row_major_before(
                        (#[trigger] tiles@[i]).coord,
                        (#[trigger] tiles@[j]).coord,
                    ),
            decreases b.max_x + 1 - x,
        {
            let c = TileCoordinate { x: x as i32, z: z as i32 };
            let image = match cut_tile(source, x_offset, y_offset, tile_dimensions, c) {
                Ok(image) => image,
                // never taken: the size of a tile was looked at above
                Err(_) => {
                    return Err(TileError::Capacity);
                },
            };
            let shows = !image.is_transparent();
            let ghost before = tiles@;
            proof {
                lemma_cut_shows(*source, xo, yo, t, Tile { coord: c, image });
            }
            if shows {
                tiles.push(Tile { coord: c, image });
                proof {
                    let n = before.len() as int;
                    assert(tiles@[n].coord == c);
                    assert forall|i: int| 0 <= i < n implies tiles@[i] == before[i] by {}
                    assert forall|d: TileCoordinate| #[trigger]
                        visible(*source, xo, yo, t, d) && b.holds(d) && (d.z < z || (d.z == z
                            && d.x < x + 1)) implies exists|i: int|
                        0 <= i < tiles@.len() && (#[trigger] tiles@[i]).coord == d by {
                        if d == c {
                            assert(tiles@[n].coord == d);
                        } else {
                            let i = choose|i: int|
                                0 <= i < before.len() && (#[trigger] before[i]).coord == d;
                            assert(tiles@[i].coord == d);
                        }
                    }
                }
            }
            x += 1;
        }
        z += 1;
    }
    proof {
        assert forall|c: TileCoordinate| #[trigger]
            visible(*source, xo, yo, t, c) implies exists|i: int|
            0 <= i < tiles@.len() && (#[trigger] tiles@[i]).coord == c by {
            if !b.holds(c) {
                lemma_beyond_reach_is_blank(*source, xo, yo, t, b, c);
            }
        }
    }
    Ok(tiles)
}

/// A cut tile has a pixel that is not fully transparent exactly if its
/// sector shows something of the source.
pub proof fn lemma_cut_shows(source: Raster, x_offset: int, y_offset: int, tile_size: int, tile: Tile)
    requires
        is_cut(source, x_offset, y_offset, tile_size, tile),
    ensures
        !tile.image.all_transparent() <==> visible(source, x_offset, y_offset, tile_size, tile.coord),
{
    if !tile.image.all_transparent() {
        let (x, y) = choose|x: int, y: int|
            tile.image.contains(x, y) && !(#[trigger] tile.image.pixel(x, y)).is_transparent();
        assert(!cut_pixel(source, x_offset, y_offset, tile_size, tile.coord, x, y).is_transparent());
    }
    if visible(source, x_offset, y_offset, tile_size, tile.coord) {
        let (x, y) = choose|x: int, y: int|
            0 <= x < tile_size && 0 <= y < tile_size && !(#[trigger] cut_pixel(
                source,
                x_offset,
                y_offset,
                tile_size,
                tile.coord,
                x,
                y,
            )).is_transparent();
        assert(tile.image.contains(x, y));
        assert(!tile.image.pixel(x, y).is_transparent());
    }
}

} // verus!
