//! One step up the pyramid: the tiles of a level merged four by four.
use vstd::prelude::*;
use crate::tiler::error::TileError;
use crate::tiler::raster::{max_bytes, Pixel, Raster};
use crate::tiler::resample::lanczos3_halve;
use crate::tiler::sector::{parent, TileCoordinate};
use crate::tiler::tile::{all_wf, coords_of, find_last, find_tile, is_uniform, same_size, uniform, Tile};

verus! {

/// The sectors of the next level of detail: the parent of each given sector,
/// each parent once, in the order in which the parents first come up.
pub open spec fn reduced_sectors(coords: Seq<TileCoordinate>) -> Seq<TileCoordinate>
    decreases coords.len(),
{
    if coords.len() == 0 {
        Seq::empty()
    } else {
        let before = reduced_sectors(coords.drop_last());
        let next = coords.last().spec_parent();
        if before.contains(next) {
            before
        } else {
            before.push(next)
        }
    }
}

/// Whether a canvas for four tiles of `width` by `height` pixels, two by two,
/// can be held.
pub open spec fn quad_fits(width: int, height: int) -> bool {
    &&& 2 * width <= u32::MAX
    &&& 2 * height <= u32::MAX
    &&& 16 * (width * height) <= max_bytes()
}

/// Whether tiles of `width` by `height` pixels can be merged four by four and
/// halved: they are not empty, and the doubled canvas and what the filter
/// needs beside it can be held.
pub open spec fn reducible(width: int, height: int) -> bool {
    &&& 0 < width
    &&& 0 < height
    &&& 2 * width <= u32::MAX
    &&& 2 * height <= u32::MAX
    &&& 32 * (width * height) <= max_bytes()
}

/// The tile of the list that fills quadrant `(dx, dz)` of the parent `sector`.
pub open spec fn child_of(tiles: Seq<Tile>, sector: TileCoordinate, dx: int, dz: int) -> Option<int> {
    find_last(coords_of(tiles), 2 * sector.x + dx, 2 * sector.z + dz)
}

/// Whether each of the four children of `sector` that the list holds has the
/// given dimensions.
pub open spec fn children_fit(tiles: Seq<Tile>, sector: TileCoordinate, width: int, height: int) -> bool {
    forall|dx: int, dz: int|
        0 <= dx <= 1 && 0 <= dz <= 1 ==> (#[trigger] child_of(tiles, sector, dx, dz) matches Some(i)
            ==> tiles[i].image.spec_width() == width && tiles[i].image.spec_height() == height)
}

/// Pixel `(x, y)` of the doubled canvas for `sector`: the pixel of the child
/// tile whose quadrant it falls into, fully transparent where the level has no
/// such child.
pub open spec fn quad_pixel(
    tiles: Seq<Tile>,
    sector: TileCoordinate,
    width: int,
    height: int,
    x: int,
    y: int,
) -> Pixel {
    let dx = if x < width { 0int } else { 1int };
    let dz = if y < height { 0int } else { 1int };
    match child_of(tiles, sector, dx, dz) {
        Some(i) => tiles[i].image.pixel(x - dx * width, y - dz * height),
        None => Pixel::clear(),
    }
}

/// Where all tiles have the given dimensions, so have the children of any
/// sector.
pub proof fn lemma_uniform_children_fit(
    tiles: Seq<Tile>,
    sector: TileCoordinate,
    width: int,
    height: int,
)
    requires
        uniform(tiles, width, height),
    ensures
        children_fit(tiles, sector, width, height),
{
    assert forall|dx: int, dz: int| 0 <= dx <= 1 && 0 <= dz <= 1 implies (#[trigger] child_of(
        tiles,
        sector,
        dx,
        dz,
    ) matches Some(i) ==> tiles[i].image.spec_width() == width && tiles[i].image.spec_height()
        == height) by {
        crate::tiler::tile::lemma_find_last(coords_of(tiles), 2 * sector.x + dx, 2 * sector.z + dz);
    }
}

/// Tiles that share one parent give one tile: where every given sector has
/// the parent `p`, as the four children of `p` have, reduction gives `p` and
/// nothing else.
pub proof fn lemma_siblings_reduce_to_one(coords: Seq<TileCoordinate>, p: TileCoordinate)
    requires
        coords.len() > 0,
        forall|i: int| 0 <= i < coords.len() ==> (#[trigger] coords[i]).spec_parent() == p,
    ensures
        reduced_sectors(coords) == seq![p],
    decreases coords.len(),
{
    let front = coords.drop_last();
    if front.len() == 0 {
        assert(reduced_sectors(front) =~= Seq::<TileCoordinate>::empty());
        assert(!reduced_sectors(front).contains(p));
        assert(reduced_sectors(coords) =~= seq![p]);
    } else {
        assert forall|i: int| 0 <= i < front.len() implies (#[trigger] front[i]).spec_parent()
            == p by {
            assert(front[i] == coords[i]);
        }
        lemma_siblings_reduce_to_one(front, p);
        assert(seq![p][0] == p);
        assert(reduced_sectors(front).contains(p));
    }
}

/// The four children of a sector have that sector as their parent.
pub proof fn lemma_children_share_parent(p: TileCoordinate, dx: int, dz: int)
    requires
        0 <= dx <= 1,
        0 <= dz <= 1,
        i32::MIN <= 2 * p.x && 2 * p.x + 1 <= i32::MAX,
        i32::MIN <= 2 * p.z && 2 * p.z + 1 <= i32::MAX,
    ensures
        (TileCoordinate { x: (2 * p.x + dx) as i32, z: (2 * p.z + dz) as i32 }).spec_parent() == p,
{
}

/// Whether `list` names sector `c`.
fn holds(list: &Vec<TileCoordinate>, c: TileCoordinate) -> (b: bool)
    ensures
        b == list@.contains(c),
{
    let mut i: usize = 0;
    while i < list.len()
        invariant
            i <= list.len(),
            forall|j: int| 0 <= j < i ==> list@[j] != c,
        decreases list.len() - i,
    {
        if list[i].x == c.x && list[i].z == c.z {
            assert(list@[i as int] == c);
            return true;
        }
        i += 1;
    }
    false
}

/// The sectors of the next level of detail above one whose tiles lie at
/// `coords`.
pub fn reduce_sectors(coords: &Vec<TileCoordinate>) -> (out: Vec<TileCoordinate>)
    ensures
        out@ == reduced_sectors(coords@),
{
    let mut out: Vec<TileCoordinate> = Vec::new();
    let mut i: usize = 0;
    while i < coords.len()
        invariant
            i <= coords.len(),
            out@ == reduced_sectors(coords@.take(i as int)),
        decreases coords.len() - i,
    {
        proof {
            let next = coords@.take(i + 1);
            assert(next.drop_last() =~= coords@.take(i as int));
            assert(next.last() == coords@[i as int]);
        }
        let p = parent(coords[i]);
        if !holds(&out, p) {
            out.push(p);
        }
        i += 1;
    }
    assert(coords@.take(i as int) =~= coords@);
    out
}

/// Draws the child of `sector` for quadrant `(dx, dz)` into its quarter of
/// the doubled canvas, if the level holds that child. Gives `false`, with the
/// canvas untouched, where the child has other dimensions than the given.
fn place_child(
    quad: &mut Raster,
    tiles: &Vec<Tile>,
    sector: TileCoordinate,
    dx: u32,
    dz: u32,
    width: u32,
    height: u32,
) -> (ok: bool)
    requires
        old(quad).wf(),
        all_wf(tiles@),
        dx <= 1,
        dz <= 1,
        old(quad).spec_width() == 2 * width,
        old(quad).spec_height() == 2 * height,
    ensures
        final(quad).wf(),
        final(quad).spec_width() == old(quad).spec_width(),
        final(quad).spec_height() == old(quad).spec_height(),
        ok == (child_of(tiles@, sector, dx as int, dz as int) matches Some(i)
            ==> tiles[i].image.spec_width() == width && tiles[i].image.spec_height() == height),
        !ok ==> *final(quad) == *old(quad),
        ok ==> forall|x: int, y: int|
            old(quad).contains(x, y) ==> #[trigger] final(quad).pixel(x, y) == (match child_of(
                tiles@,
                sector,
                dx as int,
                dz as int,
            ) {
                Some(i) if Raster::in_block(
                    dx * width,
                    dz * height,
                    width as int,
                    height as int,
                    x,
                    y,
                ) => tiles[i].image.pixel(x - dx * width, y - dz * height),
                _ => old(quad).pixel(x, y),
            }),
{
    let left: u32 = if dx == 0 { 0 } else { width };
    let top: u32 = if dz == 0 { 0 } else { height };
    assert(left == dx * width && top == dz * height) by (nonlinear_arith)
        requires
            dx <= 1,
            dz <= 1,
            left == (if dx == 0 { 0 } else { width as int }),
            top == (if dz == 0 { 0 } else { height as int }),
    ;
    let cx: i64 = 2 * (sector.x as i64) + dx as i64;
    let cz: i64 = 2 * (sector.z as i64) + dz as i64;
    match find_tile(tiles, cx, cz) {
        Some(i) => {
            let child = &tiles[i].image;
            if child.width() != width || child.height() != height {
                return false;
            }
            quad.draw(child, left, top);
            true
        },
        None => true,
    }
}

/// The doubled canvas for one sector of the next level: each of the up to
/// four child tiles in its quadrant, fully transparent where a child is
/// missing.
///
/// Fails with `Capacity` where a canvas of twice the width and height cannot
/// be held, else with `Precondition` where a child has other dimensions than
/// `width` by `height`.
pub fn assemble_quad(tiles: &Vec<Tile>, sector: TileCoordinate, width: u32, height: u32) -> (r:
    Result<Raster, TileError>)
    requires
        all_wf(tiles@),
    ensures
        !quad_fits(width as int, height as int) ==> r == Err::<Raster, TileError>(
            TileError::Capacity,
        ),
        quad_fits(width as int, height as int) && !children_fit(
            tiles@,
            sector,
            width as int,
            height as int,
        ) ==> r == Err::<Raster, TileError>(TileError::Precondition),
        quad_fits(width as int, height as int) && children_fit(
            tiles@,
            sector,
            width as int,
            height as int,
        ) ==> r is Ok,
        r matches Ok(quad) ==> {
            &&& quad.wf()
            &&& quad.spec_width() == 2 * width
            &&& quad.spec_height() == 2 * height
            &&& forall|x: int, y: int|
                quad.contains(x, y) ==> #[trigger] quad.pixel(x, y) == quad_pixel(
                    tiles@,
                    sector,
                    width as int,
                    height as int,
                    x,
                    y,
                )
        },
{
    if width > u32::MAX / 2 || height > u32::MAX / 2 {
        return Err(TileError::Capacity);
    }
    assert(4 * ((2 * width) * (2 * height)) == 16 * (width * height)) by (nonlinear_arith);
    let mut quad = match Raster::new(2 * width, 2 * height) {
        Ok(canvas) => canvas,
        Err(_) => {
            return Err(TileError::Capacity);
        },
    };
    let ghost blank = quad;
    let ok00 = place_child(&mut quad, tiles, sector, 0, 0, width, height);
    if !ok00 {
        assert(child_of(tiles@, sector, 0, 0) is Some);
        return Err(TileError::Precondition);
    }
    let ghost q1 = quad;
    let ok10 = place_child(&mut quad, tiles, sector, 1, 0, width, height);
    if !ok10 {
        assert(child_of(tiles@, sector, 1, 0) is Some);
        return Err(TileError::Precondition);
    }
    let ghost q2 = quad;
    let ok01 = place_child(&mut quad, tiles, sector, 0, 1, width, height);
    if !ok01 {
        assert(child_of(tiles@, sector, 0, 1) is Some);
        return Err(TileError::Precondition);
    }
    let ghost q3 = quad;
    let ok11 = place_child(&mut quad, tiles, sector, 1, 1, width, height);
    if !ok11 {
        assert(child_of(tiles@, sector, 1, 1) is Some);
        return Err(TileError::Precondition);
    }
    proof {
        assert(children_fit(tiles@, sector, width as int, height as int)) by {
            assert forall|dx: int, dz: int| 0 <= dx <= 1 && 0 <= dz <= 1 implies (
            #[trigger] child_of(tiles@, sector, dx, dz) matches Some(i) ==> tiles[i].image.spec_width()
                == width && tiles[i].image.spec_height() == height) by {
                assert((dx == 0 || dx == 1) && (dz == 0 || dz == 1));
            }
        }
        assert forall|x: int, y: int| quad.contains(x, y) implies #[trigger] quad.pixel(x, y)
            == quad_pixel(tiles@, sector, width as int, height as int, x, y) by {
            assert(blank.contains(x, y) && q1.contains(x, y) && q2.contains(x, y) && q3.contains(
                x,
                y,
            ));
            assert(blank.pixel(x, y) == Pixel::clear());
            if x < width && y < height {
                assert(q2.pixel(x, y) == q1.pixel(x, y) && q3.pixel(x, y) == q2.pixel(x, y));
            } else if y < height {
                assert(q1.pixel(x, y) == blank.pixel(x, y) && q3.pixel(x, y) == q2.pixel(x, y));
            } else if x < width {
                assert(q1.pixel(x, y) == blank.pixel(x, y) && q2.pixel(x, y) == q1.pixel(x, y));
            } else {
                assert(q1.pixel(x, y) == blank.pixel(x, y) && q2.pixel(x, y) == q1.pixel(x, y)
                    && q3.pixel(x, y) == q2.pixel(x, y));
            }
        }
    }
    Ok(quad)
}

/// Whether an image of `width` by `height` pixels can be halved: both sides
/// are even and not zero.
pub open spec fn halvable(width: int, height: int) -> bool {
    width > 0 && height > 0 && width % 2 == 0 && height % 2 == 0
}

/// The image at half its width and height, each pixel resampled from the
/// pixels around its place with the Lanczos filter of window 3.
///
/// Fails with `Precondition` for an image with a side that is odd or zero,
/// else with `Capacity` where what the filter needs beside the image cannot
/// be held. Of the pixels of the smaller image nothing is stated but their
/// number: they are what the filter gives.
pub fn halve(quad: Raster) -> (r: Result<Raster, TileError>)
    requires
        quad.wf(),
    ensures
        !halvable(quad.spec_width() as int, quad.spec_height() as int) ==> r == Err::<
            Raster,
            TileError,
        >(TileError::Precondition),
        halvable(quad.spec_width() as int, quad.spec_height() as int) && 32 * ((quad.spec_width()
            / 2) * (quad.spec_height() / 2)) > max_bytes() ==> r == Err::<Raster, TileError>(
            TileError::Capacity,
        ),
        halvable(quad.spec_width() as int, quad.spec_height() as int) && 32 * ((quad.spec_width()
            / 2) * (quad.spec_height() / 2)) <= max_bytes() ==> r is Ok,
        r matches Ok(small) ==> small.wf() && small.spec_width() == quad.spec_width() / 2
            && small.spec_height() == quad.spec_height() / 2,
{
    let width = quad.width();
    let height = quad.height();
    if width == 0 || height == 0 || width % 2 != 0 || height % 2 != 0 {
        return Err(TileError::Precondition);
    }
    let nwidth = width / 2;
    let nheight = height / 2;
    assert(0 <= nwidth * nheight <= 0x7fff_ffff * 0x7fff_ffff) by (nonlinear_arith)
        requires
            0 <= nwidth <= 0x7fff_ffff,
            0 <= nheight <= 0x7fff_ffff,
    ;
    if 32 * (nwidth as u128 * nheight as u128) > isize::MAX as u128 {
        return Err(TileError::Capacity);
    }
    let data = lanczos3_halve(quad.into_raw(), width, height, nwidth, nheight);
    match Raster::from_raw(nwidth, nheight, data) {
        Some(small) => Ok(small),
        // never taken: the filter gives four bytes for each pixel
        None => Err(TileError::Capacity),
    }
}

/// The next level of detail above `tiles`: one tile for each parent sector,
/// made of its up to four children side by side and halved.
///
/// An empty level gives an empty level. Otherwise the call fails with
/// `Precondition` where the tiles differ in their dimensions or are empty
/// images, else with `Capacity` where tiles of that size cannot be merged.
/// Of the pixels of the new tiles nothing is stated but their number: the
/// halving is left to the resampling filter.
pub fn shrink_tiles(tiles: &Vec<Tile>) -> (r: Result<Vec<Tile>, TileError>)
    requires
        all_wf(tiles@),
    ensures
        tiles.len() == 0 ==> (r matches Ok(out) && out.len() == 0),
        tiles.len() > 0 ==> {
            let width = tiles[0].image.spec_width() as int;
            let height = tiles[0].image.spec_height() as int;
            if !same_size(tiles@) || width == 0 || height == 0 {
                r == Err::<Vec<Tile>, TileError>(TileError::Precondition)
            } else if !reducible(width, height) {
                r == Err::<Vec<Tile>, TileError>(TileError::Capacity)
            } else {
                r matches Ok(out) && coords_of(out@) == reduced_sectors(coords_of(tiles@))
                    && all_wf(out@) && uniform(out@, width, height)
            }
        },
{
    let mut out: Vec<Tile> = Vec::new();
    if tiles.len() == 0 {
        return Ok(out);
    }
    let width = tiles[0].image.width();
    let height = tiles[0].image.height();
    if !is_uniform(tiles, width, height) || width == 0 || height == 0 {
        return Err(TileError::Precondition);
    }
    if width > u32::MAX / 2 || height > u32::MAX / 2 {
        return Err(TileError::Capacity);
    }
    assert(0 <= width * height <= 0x7fff_ffff * 0x7fff_ffff) by (nonlinear_arith)
        requires
            0 <= width <= 0x7fff_ffff,
            0 <= height <= 0x7fff_ffff,
    ;
    if 32 * (width as u128 * height as u128) > isize::MAX as u128 {
        return Err(TileError::Capacity);
    }
    let coords = crate::tiler::tile::tile_coords(tiles);
    let sectors = reduce_sectors(&coords);
    let mut k: usize = 0;
    while k < sectors.len()
        invariant
            k <= sectors.len(),
            all_wf(tiles@),
            uniform(tiles@, width as int, height as int),
            reducible(width as int, height as int),
            coords_of(out@) == sectors@.take(k as int),
            all_wf(out@),
            uniform(out@, width as int, height as int),
        decreases sectors.len() - k,
    {
        let sector = sectors[k];
        let quad = match assemble_quad(tiles, sector, width, height) {
            Ok(quad) => quad,
            // never taken: the canvas fits and all tiles have one size
            Err(e) => {
                proof {
                    lemma_uniform_children_fit(tiles@, sector, width as int, height as int);
                }
                return Err(e);
            },
        };
        let image = match halve(quad) {
            Ok(image) => image,
            // never taken: the canvas has twice the size of a tile that can be merged
            Err(e) => {
                return Err(e);
            },
        };
        let ghost before = out@;
        out.push(Tile { coord: sector, image });
        k += 1;
        proof {
            assert(coords_of(before).len() == before.len());
            assert(sectors@.take(k - 1).len() == k - 1);
            assert forall|i: int| 0 <= i < out@.len() implies coords_of(out@)[i] == sectors@.take(
                k as int,
            )[i] by {
                if i < before.len() {
                    assert(out@[i] == before[i]);
                    assert(coords_of(before)[i] == before[i].coord);
                    assert(sectors@.take(k - 1)[i] == sectors@[i]);
                }
            }
            assert(coords_of(out@) =~= sectors@.take(k as int));
            assert forall|i: int| 0 <= i < out@.len() implies (#[trigger] out@[i]).image.wf() by {
                if i < before.len() {
                    assert(out@[i] == before[i]);
                }
            }
            assert forall|i: int| 0 <= i < out@.len() implies (#[trigger] out@[i]).image.spec_width()
                == width && out@[i].image.spec_height() == height by {
                if i < before.len() {
                    assert(out@[i] == before[i]);
                }
            }
        }
    }
    assert(sectors@.take(k as int) =~= sectors@);
    Ok(out)
}

} // verus!
