//! What slicing and stitching promise together.
use vstd::prelude::*;
use crate::tiler::raster::{Pixel, Raster};
use crate::tiler::sector::{
    bounding, lemma_bounding_encloses, lemma_floor_div, sector_of, TileCoordinate,
};
use crate::tiler::slicer::{corners_fit, cut_pixel, is_cut, sliced, visible};
use crate::tiler::stitcher::{lemma_block_of_position, stitched, stitched_pixel};
use crate::tiler::tile::{coords_of, find_last, lemma_find_last, Tile};

verus! {

/// Slicing is sparse: a sector in which the source shows nothing, be it
/// beyond the source or fully transparent there, gets no tile.
pub proof fn lemma_blank_sector_has_no_tile(
    source: Raster,
    x_offset: int,
    y_offset: int,
    tile_size: int,
    tiles: Seq<Tile>,
    c: TileCoordinate,
)
    requires
        sliced(source, x_offset, y_offset, tile_size, tiles),
        forall|x: int, y: int|
            0 <= x < tile_size && 0 <= y < tile_size ==> (#[trigger] cut_pixel(
                source,
                x_offset,
                y_offset,
                tile_size,
                c,
                x,
                y,
            )).is_transparent(),
    ensures
        forall|i: int| 0 <= i < tiles.len() ==> (#[trigger] tiles[i]).coord != c,
{
    assert(!visible(source, x_offset, y_offset, tile_size, c));
}

/// Slicing gives each sector one tile at most.
pub proof fn lemma_slicing_has_no_duplicates(
    source: Raster,
    x_offset: int,
    y_offset: int,
    tile_size: int,
    tiles: Seq<Tile>,
)
    requires
        sliced(source, x_offset, y_offset, tile_size, tiles),
    ensures
        coords_of(tiles).no_duplicates(),
{
    assert forall|i: int, j: int|
        0 <= i < tiles.len() && 0 <= j < tiles.len() && i != j implies coords_of(tiles)[i]
        != coords_of(tiles)[j] by {
        if i < j {
            assert(crate::tiler::slicer::row_major_before(tiles[i].coord, tiles[j].coord));
        } else {
            assert(crate::tiler::slicer::row_major_before(tiles[j].coord, tiles[i].coord));
        }
    }
}

/// Slicing and then stitching gives the source back. With `left` and `top`
/// the source position of the canvas corner, every source pixel that is not
/// fully transparent is found again on the canvas, moved by that much; and
/// every canvas pixel is the source pixel of its place, or `(0, 0, 0, 0)` where
/// the source is fully transparent there or has no pixel.
pub proof fn lemma_slice_then_stitch(
    source: Raster,
    x_offset: int,
    y_offset: int,
    tile_size: int,
    tiles: Seq<Tile>,
    canvas: Raster,
)
    requires
        tile_size > 0,
        corners_fit(
            source.spec_width() as int,
            source.spec_height() as int,
            x_offset,
            y_offset,
            tile_size,
        ),
        sliced(source, x_offset, y_offset, tile_size, tiles),
        tiles.len() > 0,
        stitched(tiles, canvas),
    ensures
        ({
            let left = bounding(coords_of(tiles)).min_x * tile_size + x_offset;
            let top = bounding(coords_of(tiles)).min_z * tile_size + y_offset;
            &&& forall|x: int, y: int|
                source.contains(x, y) && !(#[trigger] source.pixel(x, y)).is_transparent()
                    ==> canvas.contains(x - left, y - top) && canvas.pixel(x - left, y - top)
                    == source.pixel(x, y)
            &&& forall|u: int, v: int|
                canvas.contains(u, v) ==> #[trigger] canvas.pixel(u, v) == source.pixel_or_clear(
                    u + left,
                    v + top,
                ) || (canvas.pixel(u, v) == Pixel::clear() && source.pixel_or_clear(
                    u + left,
                    v + top,
                ).is_transparent())
        }),
{
    let coords = coords_of(tiles);
    let b = bounding(coords);
    let t = tile_size;
    let left = b.min_x * t + x_offset;
    let top = b.min_z * t + y_offset;
    lemma_bounding_encloses(coords);
    assert(is_cut(source, x_offset, y_offset, t, tiles[0]));
    assert forall|i: int| 0 <= i < tiles.len() implies b.holds((#[trigger] tiles[i]).coord) by {
        assert(coords[i] == tiles[i].coord);
    }
    assert forall|x: int, y: int|
        source.contains(x, y) && !(#[trigger] source.pixel(x, y)).is_transparent() implies canvas.contains(
        x - left,
        y - top,
    ) && canvas.pixel(x - left, y - top) == source.pixel(x, y) by {
        let sx = sector_of(x, x_offset, t);
        let sz = sector_of(y, y_offset, t);
        lemma_floor_div(x - x_offset, t);
        lemma_floor_div(y - y_offset, t);
        crate::tiler::slicer::lemma_sector_is_monotonic(0, x, x_offset, t);
        crate::tiler::slicer::lemma_sector_is_monotonic(x, source.spec_width() - 1, x_offset, t);
        crate::tiler::slicer::lemma_sector_is_monotonic(0, y, y_offset, t);
        crate::tiler::slicer::lemma_sector_is_monotonic(y, source.spec_height() - 1, y_offset, t);
        let c = TileCoordinate { x: sx as i32, z: sz as i32 };
        let lx = x - x_offset - sx * t;
        let lz = y - y_offset - sz * t;
        assert((sx + 1) * t == sx * t + t && (sz + 1) * t == sz * t + t) by (nonlinear_arith);
        assert(cut_pixel(source, x_offset, y_offset, t, c, lx, lz) == source.pixel(x, y));
        assert(visible(source, x_offset, y_offset, t, c));
        let i = choose|i: int| 0 <= i < tiles.len() && (#[trigger] tiles[i]).coord == c;
        assert(b.holds(c));
        let u = x - left;
        let v = y - top;
        assert(u == (c.x - b.min_x) * t + lx && v == (c.z - b.min_z) * t + lz)
            by (nonlinear_arith)
            requires
                u == x - (b.min_x * t + x_offset),
                v == y - (b.min_z * t + y_offset),
                lx == x - x_offset - c.x * t,
                lz == y - y_offset - c.z * t,
        ;
        crate::tiler::stitcher::lemma_block_is_on_canvas(b, c, t, t);
        lemma_block_of_position(u, t, c.x - b.min_x);
        lemma_block_of_position(v, t, c.z - b.min_z);
        assert(canvas.contains(u, v));
        assert(canvas.pixel(u, v) == stitched_pixel(tiles, b, t, t, u, v));
        lemma_find_last(coords, c.x as int, c.z as int);
        assert(coords[i] == c);
        let j = find_last(coords, c.x as int, c.z as int)->0;
        assert(coords[j] == tiles[j].coord);
        assert(is_cut(source, x_offset, y_offset, t, tiles[j]));
        assert(tiles[j].image.contains(lx, lz));
        assert(tiles[j].coord == c);
    }
    assert forall|u: int, v: int| canvas.contains(u, v) implies #[trigger] canvas.pixel(u, v)
        == source.pixel_or_clear(u + left, v + top) || (canvas.pixel(u, v) == Pixel::clear()
        && source.pixel_or_clear(u + left, v + top).is_transparent()) by {
        let qx = u / t;
        let qz = v / t;
        lemma_floor_div(u, t);
        lemma_floor_div(v, t);
        lemma_block_of_position(u, t, qx);
        lemma_block_of_position(v, t, qz);
        assert(qx < b.columns() && qz < b.rows()) by (nonlinear_arith)
            requires
                qx * t <= u < b.columns() * t,
                qz * t <= v < b.rows() * t,
                t > 0,
        ;
        assert(qx >= 0 && qz >= 0) by (nonlinear_arith)
            requires
                u < (qx + 1) * t,
                v < (qz + 1) * t,
                u >= 0,
                v >= 0,
                t > 0,
        ;
        let c = TileCoordinate { x: (b.min_x + qx) as i32, z: (b.min_z + qz) as i32 };
        let lx = u % t;
        let lz = v % t;
        assert(c.x * t + lx + x_offset == u + left && c.z * t + lz + y_offset == v + top)
            by (nonlinear_arith)
            requires
                c.x == b.min_x + qx,
                c.z == b.min_z + qz,
                lx == u - qx * t,
                lz == v - qz * t,
                left == b.min_x * t + x_offset,
                top == b.min_z * t + y_offset,
        ;
        assert(canvas.pixel(u, v) == stitched_pixel(tiles, b, t, t, u, v));
        lemma_find_last(coords, c.x as int, c.z as int);
        match find_last(coords, c.x as int, c.z as int) {
            Some(j) => {
                assert(coords[j] == tiles[j].coord);
                assert(is_cut(source, x_offset, y_offset, t, tiles[j]));
                assert(tiles[j].image.contains(lx, lz));
                assert(tiles[j].coord == c);
            },
            None => {
                if visible(source, x_offset, y_offset, t, c) {
                    let i = choose|i: int| 0 <= i < tiles.len() && (#[trigger] tiles[i]).coord == c;
                    assert(coords[i] == c);
                }
                assert(cut_pixel(source, x_offset, y_offset, t, c, lx, lz).is_transparent());
            },
        }
    }
}

} // verus!
