//! The levels of detail above a base level, and why building them ends.
use vstd::prelude::*;
use vstd::arithmetic::power2::{lemma2_to64, lemma_pow2_unfold, pow2};
use vstd::set_lib::lemma_len_subset;
use crate::tiler::error::TileError;
use crate::tiler::reducer::{reduced_sectors, reducible, shrink_tiles};
use crate::tiler::sector::{
    bounding, half, lemma_bounding_encloses, lemma_enclosing_is_bounding, Bounds, TileCoordinate,
};
use crate::tiler::tile::{all_wf, coords_of, same_size, uniform, Tile};

verus! {

/// The most levels that are ever built above the base level.
pub const MAX_LEVELS: usize = 31;

/// The sectors of level `level` above a base level whose tiles lie at
/// `coords`.
pub open spec fn level_sectors(coords: Seq<TileCoordinate>, level: nat) -> Seq<TileCoordinate>
    decreases level,
{
    if level == 0 {
        coords
    } else {
        reduced_sectors(level_sectors(coords, (level - 1) as nat))
    }
}

/// Every sector of the list has both coordinates from `-2^k` up to, but not
/// including, `2^k`.
pub open spec fn within(coords: Seq<TileCoordinate>, k: nat) -> bool {
    forall|i: int|
        0 <= i < coords.len() ==> -pow2(k) <= (#[trigger] coords[i]).x < pow2(k) && -pow2(k)
            <= coords[i].z < pow2(k)
}

/// Whether `levels` is the pyramid above `base`: level after level as
/// reduction gives them, each but the last with more than four tiles, the last
/// with four at most.
pub open spec fn pyramid(base: Seq<Tile>, levels: Seq<Vec<Tile>>) -> bool {
    &&& 1 <= levels.len() <= MAX_LEVELS
    &&& forall|k: int|
        0 <= k < levels.len() ==> coords_of((#[trigger] levels[k])@) == level_sectors(
            coords_of(base),
            (k + 1) as nat,
        ) && all_wf(levels[k]@) && uniform(
            levels[k]@,
            base[0].image.spec_width() as int,
            base[0].image.spec_height() as int,
        )
    &&& forall|k: int| 0 <= k < levels.len() - 1 ==> (#[trigger] levels[k]).len() > 4
    &&& levels.last().len() <= 4
}

/// What reduction gives: no sector twice, each the parent of a given sector,
/// the parent of every given sector among them, and no more sectors than were
/// given.
pub proof fn lemma_reduced_sectors(coords: Seq<TileCoordinate>)
    ensures
        reduced_sectors(coords).no_duplicates(),
        reduced_sectors(coords).len() <= coords.len(),
        coords.len() > 0 ==> reduced_sectors(coords).len() > 0,
        forall|j: int|
            0 <= j < reduced_sectors(coords).len() ==> exists|i: int|
                0 <= i < coords.len() && (#[trigger] coords[i]).spec_parent() == (
                #[trigger] reduced_sectors(coords)[j]),
        forall|i: int|
            0 <= i < coords.len() ==> reduced_sectors(coords).contains(
                (#[trigger] coords[i]).spec_parent(),
            ),
    decreases coords.len(),
{
    if coords.len() > 0 {
        let front = coords.drop_last();
        let before = reduced_sectors(front);
        let next = coords.last().spec_parent();
        let now = reduced_sectors(coords);
        lemma_reduced_sectors(front);
        assert forall|j: int| 0 <= j < now.len() implies exists|i: int|
            0 <= i < coords.len() && (#[trigger] coords[i]).spec_parent() == (#[trigger] now[j]) by {
            if j < before.len() {
                let i = choose|i: int|
                    0 <= i < front.len() && (#[trigger] front[i]).spec_parent() == before[j];
                assert(coords[i] == front[i]);
            } else {
                assert(coords[coords.len() - 1].spec_parent() == now[j]);
            }
        }
        assert forall|i: int| 0 <= i < coords.len() implies now.contains(
            (#[trigger] coords[i]).spec_parent(),
        ) by {
            if i < front.len() {
                assert(front[i] == coords[i]);
                let j = choose|j: int|
                    0 <= j < before.len() && before[j] == front[i].spec_parent();
                assert(now[j] == before[j]);
            } else if before.contains(next) {
            } else {
                assert(now[now.len() - 1] == next);
            }
        }
    }
}

/// Halving keeps sectors within half the range.
pub proof fn lemma_reduction_halves_range(coords: Seq<TileCoordinate>, k: nat)
    requires
        within(coords, k + 1),
        k + 1 <= 31,
    ensures
        within(reduced_sectors(coords), k),
{
    let now = reduced_sectors(coords);
    lemma_reduced_sectors(coords);
    lemma_pow2_unfold(k + 1);
    lemma2_to64();
    assert forall|j: int| 0 <= j < now.len() implies -pow2(k) <= (#[trigger] now[j]).x < pow2(k)
        && -pow2(k) <= now[j].z < pow2(k) by {
        let i = choose|i: int|
            0 <= i < coords.len() && (#[trigger] coords[i]).spec_parent() == now[j];
        let c = coords[i];
        assert(-pow2(k + 1) <= c.x < pow2(k + 1) && -pow2(k + 1) <= c.z < pow2(k + 1));
        assert(pow2(k + 1) <= 0x8000_0000) by {
            if k + 1 < 31 {
                vstd::arithmetic::power2::lemma_pow2_strictly_increases(k + 1, 31);
            }
        }
    }
}

/// Four sectors at most have both coordinates among `-1` and `0`.
pub proof fn lemma_at_most_four(coords: Seq<TileCoordinate>)
    requires
        coords.no_duplicates(),
        within(coords, 0),
    ensures
        coords.len() <= 4,
{
    lemma2_to64();
    let corners = set![
        TileCoordinate { x: -1i32, z: -1i32 },
        TileCoordinate { x: 0i32, z: -1i32 },
        TileCoordinate { x: -1i32, z: 0i32 },
        TileCoordinate { x: 0i32, z: 0i32 },
    ];
    assert(corners.finite() && corners.len() <= 4) by {
        broadcast use vstd::set::group_set_axioms;

    }
    assert forall|c: TileCoordinate| coords.to_set().contains(c) implies corners.contains(c) by {
        let i = choose|i: int| 0 <= i < coords.len() && coords[i] == c;
        assert(-1 <= coords[i].x < 1 && -1 <= coords[i].z < 1);
    }
    lemma_len_subset(coords.to_set(), corners);
    coords.unique_seq_to_set();
}

/// After `level` reductions every sector lies within `2^(31 - level)` of the
/// origin.
pub proof fn lemma_level_range(coords: Seq<TileCoordinate>, level: nat)
    requires
        level <= 31,
    ensures
        within(level_sectors(coords, level), (31 - level) as nat),
    decreases level,
{
    lemma2_to64();
    if level == 0 {
        assert forall|i: int| 0 <= i < coords.len() implies -pow2(31) <= (#[trigger] coords[i]).x
            < pow2(31) && -pow2(31) <= coords[i].z < pow2(31) by {}
    } else {
        lemma_level_range(coords, (level - 1) as nat);
        lemma_reduction_halves_range(
            level_sectors(coords, (level - 1) as nat),
            (31 - level) as nat,
        );
    }
}

/// Reduction comes to an end: whatever the base level holds, the level 31
/// steps above it has four tiles at most, and no level has more tiles than
/// the one below it.
pub proof fn lemma_pyramid_ends(coords: Seq<TileCoordinate>)
    ensures
        level_sectors(coords, 31).len() <= 4,
        forall|level: nat| #[trigger]
            level_sectors(coords, level + 1).len() <= level_sectors(coords, level).len(),
{
    lemma_level_range(coords, 31);
    lemma_reduced_sectors(level_sectors(coords, 30));
    lemma_at_most_four(level_sectors(coords, 31));
    assert forall|level: nat| #[trigger]
        level_sectors(coords, level + 1).len() <= level_sectors(coords, level).len() by {
        lemma_reduced_sectors(level_sectors(coords, level));
    }
}

/// A level spans about half of what the level below it spans: the smallest
/// rectangle around the reduced sectors is the one around the given sectors
/// with its corners halved, so along each axis it holds at least half as many
/// sectors, rounded up, and at most half as many, rounded down, and one.
pub proof fn lemma_reduction_halves_extent(coords: Seq<TileCoordinate>)
    requires
        coords.len() > 0,
    ensures
        reduced_sectors(coords).len() > 0,
        bounding(reduced_sectors(coords)) == (Bounds {
            min_x: half(bounding(coords).min_x as int) as i32,
            max_x: half(bounding(coords).max_x as int) as i32,
            min_z: half(bounding(coords).min_z as int) as i32,
            max_z: half(bounding(coords).max_z as int) as i32,
        }),
        (bounding(coords).columns() + 1) / 2 <= bounding(reduced_sectors(coords)).columns()
            <= bounding(coords).columns() / 2 + 1,
        (bounding(coords).rows() + 1) / 2 <= bounding(reduced_sectors(coords)).rows() <= bounding(
            coords,
        ).rows() / 2 + 1,
{
    let b = bounding(coords);
    let now = reduced_sectors(coords);
    let r = Bounds {
        min_x: half(b.min_x as int) as i32,
        max_x: half(b.max_x as int) as i32,
        min_z: half(b.min_z as int) as i32,
        max_z: half(b.max_z as int) as i32,
    };
    lemma_bounding_encloses(coords);
    lemma_reduced_sectors(coords);
    assert forall|j: int| 0 <= j < now.len() implies r.holds(#[trigger] now[j]) by {
        let i = choose|i: int|
            0 <= i < coords.len() && (#[trigger] coords[i]).spec_parent() == now[j];
        assert(b.holds(coords[i]));
    }
    let i0 = choose|i: int| 0 <= i < coords.len() && (#[trigger] coords[i]).x == b.min_x;
    let i1 = choose|i: int| 0 <= i < coords.len() && (#[trigger] coords[i]).x == b.max_x;
    let i2 = choose|i: int| 0 <= i < coords.len() && (#[trigger] coords[i]).z == b.min_z;
    let i3 = choose|i: int| 0 <= i < coords.len() && (#[trigger] coords[i]).z == b.max_z;
    assert(now.contains(coords[i0].spec_parent()));
    assert(now.contains(coords[i1].spec_parent()));
    assert(now.contains(coords[i2].spec_parent()));
    assert(now.contains(coords[i3].spec_parent()));
    let j0 = choose|j: int| 0 <= j < now.len() && now[j] == coords[i0].spec_parent();
    let j1 = choose|j: int| 0 <= j < now.len() && now[j] == coords[i1].spec_parent();
    let j2 = choose|j: int| 0 <= j < now.len() && now[j] == coords[i2].spec_parent();
    let j3 = choose|j: int| 0 <= j < now.len() && now[j] == coords[i3].spec_parent();
    assert(now[j0].x == r.min_x && now[j1].x == r.max_x && now[j2].z == r.min_z && now[j3].z
        == r.max_z);
    assert(r.encloses(now));
    lemma_enclosing_is_bounding(now, r);
}

/// Builds the levels of detail above `base`, each from the one below it,
/// until a level has four tiles or fewer. The first level above the base
/// comes first. For a base of four tiles or fewer there is nothing to build.
///
/// Fails as the first reduction does: with `Precondition` where the tiles of
/// the base differ in their dimensions or are empty images, else with
/// `Capacity` where tiles of that size cannot be merged.
pub fn generate_lods(base: &Vec<Tile>) -> (r: Result<Vec<Vec<Tile>>, TileError>)
    requires
        all_wf(base@),
    ensures
        base.len() <= 4 ==> (r matches Ok(levels) && levels.len() == 0),
        base.len() > 4 ==> {
            let width = base[0].image.spec_width() as int;
            let height = base[0].image.spec_height() as int;
            if !same_size(base@) || width == 0 || height == 0 {
                r == Err::<Vec<Vec<Tile>>, TileError>(TileError::Precondition)
            } else if !reducible(width, height) {
                r == Err::<Vec<Vec<Tile>>, TileError>(TileError::Capacity)
            } else {
                r matches Ok(levels) && pyramid(base@, levels@)
            }
        },
{
    let mut levels: Vec<Vec<Tile>> = Vec::new();
    if base.len() <= 4 {
        return Ok(levels);
    }
    let first = match shrink_tiles(base) {
        Ok(first) => first,
        Err(e) => {
            return Err(e);
        },
    };
    let ghost width = base[0].image.spec_width() as int;
    let ghost height = base[0].image.spec_height() as int;
    let ghost start = coords_of(base@);
    let mut more = first.len() > 4;
    levels.push(first);
    proof {
        assert(level_sectors(start, 1) == reduced_sectors(level_sectors(start, 0)));
        lemma_reduced_sectors(start);
        lemma_level_range(start, 1);
    }
    while more
        invariant
            1 <= levels.len() <= MAX_LEVELS,
            reducible(width, height),
            more == (levels@.last().len() > 4),
            forall|k: int|
                0 <= k < levels.len() ==> coords_of((#[trigger] levels@[k])@) == level_sectors(
                    start,
                    (k + 1) as nat,
                ) && all_wf(levels@[k]@) && uniform(levels@[k]@, width, height),
            forall|k: int| 0 <= k < levels.len() - 1 ==> (#[trigger] levels@[k]).len() > 4,
        decreases MAX_LEVELS - levels.len(),
    {
        let n = levels.len();
        let ghost top = levels@[n - 1]@;
        proof {
            assert(coords_of(top) == level_sectors(start, n as nat));
            assert(coords_of(top).len() == top.len());
            if n == MAX_LEVELS {
                lemma_level_range(start, 31);
                lemma_reduced_sectors(level_sectors(start, 30));
                lemma_at_most_four(level_sectors(start, 31));
            }
            assert(top[0].image.spec_width() == width && top[0].image.spec_height() == height);
        }
        let next = match shrink_tiles(&levels[n - 1]) {
            Ok(next) => next,
            // never taken: a level above the base has tiles of the base's size
            Err(e) => {
                return Err(e);
            },
        };
        more = next.len() > 4;
        let ghost before = levels@;
        levels.push(next);
        proof {
            assert(level_sectors(start, (n + 1) as nat) == reduced_sectors(
                level_sectors(start, n as nat),
            ));
            assert forall|k: int| 0 <= k < levels.len() implies coords_of(
                (#[trigger] levels@[k])@,
            ) == level_sectors(start, (k + 1) as nat) && all_wf(levels@[k]@) && uniform(
                levels@[k]@,
                width,
                height,
            ) by {
                if k < n {
                    assert(levels@[k] == before[k]);
                }
            }
            assert forall|k: int| 0 <= k < levels.len() - 1 implies (#[trigger] levels@[k]).len()
                > 4 by {
                assert(levels@[k] == before[k]);
            }
        }
    }
    Ok(levels)
}

} // verus!
