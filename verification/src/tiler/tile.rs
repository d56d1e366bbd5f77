//! Tiles and lists of tiles.
use vstd::prelude::*;
use crate::tiler::raster::Raster;
use crate::tiler::sector::TileCoordinate;

verus! {

/// One tile of a level of detail: its sector and its pixels.
#[derive(Clone, Debug, PartialEq, Eq)]
pub struct Tile {
    pub coord: TileCoordinate,
    pub image: Raster,
}

/// The sectors of a list of tiles, in the order of the list.
pub open spec fn coords_of(tiles: Seq<Tile>) -> Seq<TileCoordinate> {
    Seq::new(tiles.len(), |i: int| tiles[i].coord)
}

/// Every image of the list is well formed.
pub open spec fn all_wf(tiles: Seq<Tile>) -> bool {
    forall|i: int| 0 <= i < tiles.len() ==> (#[trigger] tiles[i]).image.wf()
}

/// Every tile of the list is `width` pixels wide and `height` pixels high.
pub open spec fn uniform(tiles: Seq<Tile>, width: int, height: int) -> bool {
    forall|i: int|
        0 <= i < tiles.len() ==> (#[trigger] tiles[i]).image.spec_width() == width
            && tiles[i].image.spec_height() == height
}

/// Every tile of the list has the dimensions of the first.
pub open spec fn same_size(tiles: Seq<Tile>) -> bool {
    tiles.len() > 0 ==> uniform(
        tiles,
        tiles[0].image.spec_width() as int,
        tiles[0].image.spec_height() as int,
    )
}

/// The place in `coords` of sector `(x, z)`: the last one, where the list
/// names the sector more than once.
pub open spec fn find_last(coords: Seq<TileCoordinate>, x: int, z: int) -> Option<int>
    decreases coords.len(),
{
    if coords.len() == 0 {
        None
    } else if coords.last().x == x && coords.last().z == z {
        Some(coords.len() - 1)
    } else {
        find_last(coords.drop_last(), x, z)
    }
}

/// What `find_last` finds is a place of the sector with no later place of it
/// behind; it finds nothing only where the list does not name the sector.
pub proof fn lemma_find_last(coords: Seq<TileCoordinate>, x: int, z: int)
    ensures
        match find_last(coords, x, z) {
            Some(i) => {
                &&& 0 <= i < coords.len()
                &&& coords[i].x == x
                &&& coords[i].z == z
                &&& forall|j: int| i < j < coords.len() ==> !(coords[j].x == x && coords[j].z == z)
            },
            None => forall|j: int| 0 <= j < coords.len() ==> !(coords[j].x == x && coords[j].z == z),
        },
    decreases coords.len(),
{
    if coords.len() > 0 && !(coords.last().x == x && coords.last().z == z) {
        let front = coords.drop_last();
        lemma_find_last(front, x, z);
        assert forall|j: int| 0 <= j < front.len() implies front[j] == coords[j] by {}
        match find_last(front, x, z) {
            Some(i) => {
                assert forall|j: int| i < j < coords.len() implies !(coords[j].x == x
                    && coords[j].z == z) by {
                    if j < front.len() {
                        assert(front[j] == coords[j]);
                    }
                }
            },
            None => {
                assert forall|j: int| 0 <= j < coords.len() implies !(coords[j].x == x
                    && coords[j].z == z) by {
                    if j < front.len() {
                        assert(front[j] == coords[j]);
                    }
                }
            },
        }
    }
}

/// The sectors of the tiles, in the order of the list.
pub fn tile_coords(tiles: &Vec<Tile>) -> (coords: Vec<TileCoordinate>)
    ensures
        coords@ == coords_of(tiles@),
{
    let mut coords: Vec<TileCoordinate> = Vec::new();
    let mut i: usize = 0;
    while i < tiles.len()
        invariant
            i <= tiles.len(),
            coords@ == coords_of(tiles@.take(i as int)),
        decreases tiles.len() - i,
    {
        coords.push(tiles[i].coord);
        i += 1;
        assert(coords@ =~= coords_of(tiles@.take(i as int)));
    }
    assert(tiles@.take(i as int) =~= tiles@);
    coords
}

/// The place in `tiles` of the tile for sector `(x, z)`, the last one where
/// several share the sector.
pub fn find_tile(tiles: &Vec<Tile>, x: i64, z: i64) -> (found: Option<usize>)
    ensures
        found matches Some(i) ==> find_last(coords_of(tiles@), x as int, z as int) == Some(i as int),
        found is None ==> find_last(coords_of(tiles@), x as int, z as int) is None,
        found matches Some(i) ==> i < tiles.len() && tiles[i as int].coord.x == x
            && tiles[i as int].coord.z == z,
{
    let mut found: Option<usize> = None;
    let mut i: usize = 0;
    while i < tiles.len()
        invariant
            i <= tiles.len(),
            found matches Some(k) ==> find_last(
                coords_of(tiles@).take(i as int),
                x as int,
                z as int,
            ) == Some(k as int),
            found is None ==> find_last(coords_of(tiles@).take(i as int), x as int, z as int)
                is None,
        decreases tiles.len() - i,
    {
        proof {
            let next = coords_of(tiles@).take(i + 1);
            assert(next.drop_last() =~= coords_of(tiles@).take(i as int));
            assert(next.last() == tiles[i as int].coord);
        }
        if tiles[i].coord.x as i64 == x && tiles[i].coord.z as i64 == z {
            found = Some(i);
        }
        i += 1;
    }
    proof {
        assert(coords_of(tiles@).take(i as int) =~= coords_of(tiles@));
        lemma_find_last(coords_of(tiles@), x as int, z as int);
    }
    found
}

/// Whether every tile of the list has the given dimensions.
pub fn is_uniform(tiles: &Vec<Tile>, width: u32, height: u32) -> (b: bool)
    ensures
        b == uniform(tiles@, width as int, height as int),
{
    let mut i: usize = 0;
    while i < tiles.len()
        invariant
            i <= tiles.len(),
            uniform(tiles@.take(i as int), width as int, height as int),
        decreases tiles.len() - i,
    {
        if tiles[i].image.width() != width || tiles[i].image.height() != height {
            return false;
        }
        i += 1;
        assert forall|k: int| 0 <= k < i implies (#[trigger] tiles@.take(i as int)[k]).image.spec_width()
            == width && tiles@.take(i as int)[k].image.spec_height() == height by {
            if k < i - 1 {
                assert(tiles@.take(i - 1)[k] == tiles@.take(i as int)[k]);
            }
        }
    }
    assert(tiles@.take(i as int) =~= tiles@);
    true
}

} // verus!
