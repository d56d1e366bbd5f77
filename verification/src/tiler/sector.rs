//! Sector arithmetic: which tile holds a pixel, which tile covers a tile one
//! level down, and the rectangle around a set of tiles.
use vstd::prelude::*;
use vstd::arithmetic::div_mod::{
    lemma_fundamental_div_mod, lemma_fundamental_div_mod_converse, lemma_mod_bound,
};

verus! {

/// The sector of one tile within a level of detail.
#[derive(Clone, Copy, Debug, PartialEq, Eq, Hash, Structural)]
pub struct TileCoordinate {
    pub x: i32,
    pub z: i32,
}

/// The smallest rectangle of sectors, both corners included, around a set of
/// tile coordinates.
#[derive(Clone, Copy, Debug, PartialEq, Eq, Structural)]
pub struct Bounds {
    pub min_x: i32,
    pub max_x: i32,
    pub min_z: i32,
    pub max_z: i32,
}

impl Bounds {
    /// Both corners are in order: the rectangle holds at least one sector.
    pub open spec fn wf(self) -> bool {
        self.min_x <= self.max_x && self.min_z <= self.max_z
    }

    /// Whether sector `c` lies within the rectangle.
    pub open spec fn holds(self, c: TileCoordinate) -> bool {
        self.min_x <= c.x <= self.max_x && self.min_z <= c.z <= self.max_z
    }

    /// The number of sectors side by side.
    pub open spec fn columns(self) -> int {
        self.max_x - self.min_x + 1
    }

    /// The number of sectors one above the other.
    pub open spec fn rows(self) -> int {
        self.max_z - self.min_z + 1
    }

    /// Whether this is the smallest rectangle around `coords`: it holds each
    /// of them, and each of its four sides is touched by one of them.
    pub open spec fn encloses(self, coords: Seq<TileCoordinate>) -> bool {
        &&& forall|i: int| 0 <= i < coords.len() ==> self.holds(#[trigger] coords[i])
        &&& exists|i: int| 0 <= i < coords.len() && (#[trigger] coords[i]).x == self.min_x
        &&& exists|i: int| 0 <= i < coords.len() && (#[trigger] coords[i]).x == self.max_x
        &&& exists|i: int| 0 <= i < coords.len() && (#[trigger] coords[i]).z == self.min_z
        &&& exists|i: int| 0 <= i < coords.len() && (#[trigger] coords[i]).z == self.max_z
    }
}

/// The smallest rectangle around the sectors of a list that is not empty.
pub open spec fn bounding(coords: Seq<TileCoordinate>) -> Bounds
    decreases coords.len(),
{
    if coords.len() <= 1 {
        Bounds { min_x: coords[0].x, max_x: coords[0].x, min_z: coords[0].z, max_z: coords[0].z }
    } else {
        let b = bounding(coords.drop_last());
        let c = coords.last();
        Bounds {
            min_x: if c.x < b.min_x { c.x } else { b.min_x },
            max_x: if c.x > b.max_x { c.x } else { b.max_x },
            min_z: if c.z < b.min_z { c.z } else { b.min_z },
            max_z: if c.z > b.max_z { c.z } else { b.max_z },
        }
    }
}

/// For a list that is not empty, `bounding` is in order on both axes, holds
/// every sector of the list, and is touched by one of them on each side.
pub proof fn lemma_bounding_encloses(coords: Seq<TileCoordinate>)
    requires
        coords.len() > 0,
    ensures
        bounding(coords).wf(),
        bounding(coords).encloses(coords),
    decreases coords.len(),
{
    let b = bounding(coords);
    if coords.len() == 1 {
        assert(coords[0].x == b.min_x);
    } else {
        let front = coords.drop_last();
        let last = coords.len() - 1;
        let f = bounding(front);
        lemma_bounding_encloses(front);
        assert forall|i: int| 0 <= i < coords.len() implies b.holds(#[trigger] coords[i]) by {
            if i < last {
                assert(f.holds(front[i]));
            }
        }
        let i0 = choose|i: int| 0 <= i < front.len() && (#[trigger] front[i]).x == f.min_x;
        let i1 = choose|i: int| 0 <= i < front.len() && (#[trigger] front[i]).x == f.max_x;
        let i2 = choose|i: int| 0 <= i < front.len() && (#[trigger] front[i]).z == f.min_z;
        let i3 = choose|i: int| 0 <= i < front.len() && (#[trigger] front[i]).z == f.max_z;
        assert(coords[i0] == front[i0] && coords[i1] == front[i1] && coords[i2] == front[i2]
            && coords[i3] == front[i3]);
        assert(coords[if coords[last].x < f.min_x { last } else { i0 }].x == b.min_x);
        assert(coords[if coords[last].x > f.max_x { last } else { i1 }].x == b.max_x);
        assert(coords[if coords[last].z < f.min_z { last } else { i2 }].z == b.min_z);
        assert(coords[if coords[last].z > f.max_z { last } else { i3 }].z == b.max_z);
    }
}

/// A list of sectors has one smallest rectangle only.
pub proof fn lemma_enclosing_is_bounding(coords: Seq<TileCoordinate>, b: Bounds)
    requires
        b.encloses(coords),
    ensures
        coords.len() > 0,
        b == bounding(coords),
{
    lemma_bounding_encloses(coords);
    let c = bounding(coords);
    let i0 = choose|i: int| 0 <= i < coords.len() && (#[trigger] coords[i]).x == b.min_x;
    let i1 = choose|i: int| 0 <= i < coords.len() && (#[trigger] coords[i]).x == b.max_x;
    let i2 = choose|i: int| 0 <= i < coords.len() && (#[trigger] coords[i]).z == b.min_z;
    let i3 = choose|i: int| 0 <= i < coords.len() && (#[trigger] coords[i]).z == b.max_z;
    assert(c.holds(coords[i0]) && c.holds(coords[i1]) && c.holds(coords[i2]) && c.holds(coords[i3]));
    let j0 = choose|i: int| 0 <= i < coords.len() && (#[trigger] coords[i]).x == c.min_x;
    let j1 = choose|i: int| 0 <= i < coords.len() && (#[trigger] coords[i]).x == c.max_x;
    let j2 = choose|i: int| 0 <= i < coords.len() && (#[trigger] coords[i]).z == c.min_z;
    let j3 = choose|i: int| 0 <= i < coords.len() && (#[trigger] coords[i]).z == c.max_z;
    assert(b.holds(coords[j0]) && b.holds(coords[j1]) && b.holds(coords[j2]) && b.holds(coords[j3]));
}

/// The smallest rectangle around the given sectors, or nothing for an empty
/// list, which has none.
pub fn bounds_of(coords: &Vec<TileCoordinate>) -> (r: Option<Bounds>)
    ensures
        coords.len() == 0 ==> r is None,
        coords.len() > 0 ==> r == Some(bounding(coords@)),
        r matches Some(b) ==> b.wf() && b.encloses(coords@),
{
    if coords.len() == 0 {
        return None;
    }
    let first = coords[0];
    let mut b = Bounds { min_x: first.x, max_x: first.x, min_z: first.z, max_z: first.z };
    let mut i: usize = 1;
    assert(coords@.take(1).len() == 1 && coords@.take(1)[0] == coords@[0]);
    while i < coords.len()
        invariant
            1 <= i <= coords.len(),
            b == bounding(coords@.take(i as int)),
        decreases coords.len() - i,
    {
        proof {
            let next = coords@.take(i + 1);
            assert(next.drop_last() =~= coords@.take(i as int));
            assert(next.last() == coords@[i as int]);
        }
        let c = coords[i];
        if c.x < b.min_x {
            b.min_x = c.x;
        }
        if c.x > b.max_x {
            b.max_x = c.x;
        }
        if c.z < b.min_z {
            b.min_z = c.z;
        }
        if c.z > b.max_z {
            b.max_z = c.z;
        }
        i += 1;
    }
    proof {
        assert(coords@.take(i as int) =~= coords@);
        lemma_bounding_encloses(coords@);
    }
    Some(b)
}

/// The sector that holds position `pos` once the origin is moved to `offset`:
/// the quotient of `pos - offset` by the tile size, rounded towards minus
/// infinity.
pub open spec fn sector_of(pos: int, offset: int, tile_size: int) -> int {
    (pos - offset) / tile_size
}

/// The sector one level up that covers sector `v`.
pub open spec fn half(v: int) -> int {
    v / 2
}

/// The quotient `a / d` is the one multiple of `d` at or below `a`.
pub proof fn lemma_floor_div(a: int, d: int)
    requires
        d > 0,
    ensures
        (a / d) * d <= a < (a / d + 1) * d,
{
    lemma_fundamental_div_mod(a, d);
    lemma_mod_bound(a, d);
    assert((a / d + 1) * d == (a / d) * d + d) by (nonlinear_arith);
    assert(d * (a / d) == (a / d) * d) by (nonlinear_arith);
}

/// Only the floor quotient lies within one divisor below `a`.
pub proof fn lemma_floor_div_unique(a: int, d: int, q: int)
    requires
        d > 0,
        q * d <= a < (q + 1) * d,
    ensures
        q == a / d,
{
    assert((q + 1) * d == q * d + d) by (nonlinear_arith);
    lemma_fundamental_div_mod_converse(a, d, q, a - q * d);
}

/// Each position lies in exactly one sector: `s` is the sector of `pos` if and
/// only if `s * t <= pos - offset < (s + 1) * t`, also where `pos - offset` is
/// negative.
pub proof fn lemma_sector_holds_position(pos: int, offset: int, tile_size: int, s: int)
    requires
        tile_size > 0,
    ensures
        s == sector_of(pos, offset, tile_size) <==> s * tile_size <= pos - offset < (s + 1)
            * tile_size,
{
    lemma_floor_div(pos - offset, tile_size);
    if s * tile_size <= pos - offset < (s + 1) * tile_size {
        lemma_floor_div_unique(pos - offset, tile_size, s);
    }
}

/// The floor quotient of `a` by a positive `d`.
fn floor_div(a: i64, d: i64) -> (q: i64)
    requires
        d > 0,
        a > i64::MIN,
    ensures
        q == a as int / d as int,
{
    if a >= 0 {
        a / d
    } else {
        let below: i64 = (-a - 1) / d;
        proof {
            let m = -a - 1;
            lemma_floor_div(m, d as int);
            assert((-below - 1) * d <= a < (-below - 1 + 1) * d) by (nonlinear_arith)
                requires
                    below * d <= m < (below + 1) * d,
                    m == -a - 1,
            ;
            lemma_floor_div_unique(a as int, d as int, -below - 1);
        }
        -below - 1
    }
}

/// The sector that holds pixel position `pos` of an image whose origin lies
/// at `offset`, for tiles `tile_size` pixels wide.
pub fn sector(pos: u32, offset: i32, tile_size: u32) -> (s: i64)
    requires
        tile_size > 0,
    ensures
        s == sector_of(pos as int, offset as int, tile_size as int),
        s * tile_size <= pos - offset < (s + 1) * tile_size,
{
    proof {
        lemma_floor_div(pos - offset, tile_size as int);
    }
    floor_div(pos as i64 - offset as i64, tile_size as i64)
}

impl TileCoordinate {
    /// The sector one level of detail up that this one falls into.
    pub open spec fn spec_parent(self) -> TileCoordinate {
        TileCoordinate { x: half(self.x as int) as i32, z: half(self.z as int) as i32 }
    }
}

/// The sector one level of detail up that holds `c`: both coordinates halved,
/// rounded towards minus infinity.
pub fn parent(c: TileCoordinate) -> (p: TileCoordinate)
    ensures
        p == c.spec_parent(),
        p.x == half(c.x as int),
        p.z == half(c.z as int),
        2 * p.x <= c.x <= 2 * p.x + 1,
        2 * p.z <= c.z <= 2 * p.z + 1,
{
    let x: i64 = floor_div(c.x as i64, 2);
    let z: i64 = floor_div(c.z as i64, 2);
    TileCoordinate { x: x as i32, z: z as i32 }
}

} // verus!
