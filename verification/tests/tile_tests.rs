use tileproc::tiler::tile::{find_tile, is_uniform, tile_coords};
use tileproc::tiler::{Raster, Tile, TileCoordinate};

fn tile_at(x: i32, z: i32, width: u32, height: u32) -> Tile {
    Tile { coord: TileCoordinate { x, z }, image: Raster::new(width, height).unwrap() }
}

#[test]
fn tile_coords_keeps_the_order_of_the_list() {
    let tiles = vec![tile_at(3, -1, 1, 1), tile_at(0, 0, 1, 1), tile_at(3, -1, 1, 1)];
    assert_eq!(
        tile_coords(&tiles),
        vec![
            TileCoordinate { x: 3, z: -1 },
            TileCoordinate { x: 0, z: 0 },
            TileCoordinate { x: 3, z: -1 },
        ]
    );
    assert_eq!(tile_coords(&Vec::new()), Vec::new());
}

#[test]
fn find_tile_finds_the_last_tile_of_a_sector() {
    let tiles = vec![tile_at(3, -1, 1, 1), tile_at(0, 0, 1, 1), tile_at(3, -1, 1, 1), tile_at(-1, 3, 1, 1)];
    assert_eq!(find_tile(&tiles, 3, -1), Some(2));
    assert_eq!(find_tile(&tiles, 0, 0), Some(1));
    assert_eq!(find_tile(&tiles, -1, 3), Some(3));
    assert_eq!(find_tile(&tiles, 3, 0), None);
    assert_eq!(find_tile(&tiles, 3 + (1i64 << 32), -1), None);
    assert_eq!(find_tile(&Vec::new(), 0, 0), None);
}

#[test]
fn is_uniform_compares_every_tile_with_the_given_size() {
    let tiles = vec![tile_at(0, 0, 2, 3), tile_at(1, 0, 2, 3)];
    assert!(is_uniform(&tiles, 2, 3));
    assert!(!is_uniform(&tiles, 3, 2));
    let mixed = vec![tile_at(0, 0, 2, 3), tile_at(1, 0, 2, 4)];
    assert!(!is_uniform(&mixed, 2, 3));
    assert!(is_uniform(&Vec::new(), 7, 7));
}
