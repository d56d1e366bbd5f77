use tileproc::tiler::{bounds_of, parent, sector, sector_bounds, Bounds, TileCoordinate, TileError};

#[test]
fn sector_floors_negative_positions() {
    assert_eq!(sector(0, 1, 256), -1);
    assert_eq!(sector(0, 256, 256), -1);
    assert_eq!(sector(0, 257, 256), -2);
    assert_eq!(sector(255, 0, 256), 0);
    assert_eq!(sector(256, 0, 256), 1);
}

#[test]
fn sector_of_position_zero_is_zero() {
    assert_eq!(sector(0, 0, 1), 0);
    assert_eq!(sector(0, 0, 256), 0);
    assert_eq!(sector(0, 0, u32::MAX), 0);
}

#[test]
fn sector_holds_its_position_on_a_grid_of_inputs() {
    let positions: Vec<u32> = vec![0, 1, 2, 255, 256, 257, 599, 1000, 65535, u32::MAX - 1, u32::MAX];
    let offsets: Vec<i32> = vec![i32::MIN, -1000, -257, -256, -255, -1, 0, 1, 255, 256, 257, 300, i32::MAX];
    let sizes: Vec<u32> = vec![1, 2, 3, 7, 255, 256, 257, 1024, u32::MAX];
    for p in positions.iter() {
        for o in offsets.iter() {
            for t in sizes.iter() {
                let s = sector(*p, *o, *t) as i128;
                let adjusted = *p as i128 - *o as i128;
                let size = *t as i128;
                assert!(s * size <= adjusted, "p={} o={} t={}", p, o, t);
                assert!(adjusted < (s + 1) * size, "p={} o={} t={}", p, o, t);
            }
        }
    }
}

#[test]
fn sector_at_the_ends_of_the_range() {
    assert_eq!(sector(u32::MAX, i32::MIN, 1), 4294967295 + 2147483648);
    assert_eq!(sector(0, i32::MAX, 1), -2147483647);
    assert_eq!(sector(0, i32::MAX, u32::MAX), -1);
    assert_eq!(sector(u32::MAX, 0, u32::MAX), 1);
}

#[test]
fn parent_floors_negative_sectors() {
    assert_eq!(parent(TileCoordinate { x: -1, z: 3 }), TileCoordinate { x: -1, z: 1 });
    assert_eq!(parent(TileCoordinate { x: -2, z: -3 }), TileCoordinate { x: -1, z: -2 });
    assert_eq!(parent(TileCoordinate { x: 0, z: 1 }), TileCoordinate { x: 0, z: 0 });
    assert_eq!(
        parent(TileCoordinate { x: i32::MIN, z: i32::MAX }),
        TileCoordinate { x: -1073741824, z: 1073741823 }
    );
}

#[test]
fn parent_covers_its_four_children() {
    let parents: Vec<i32> = vec![-1073741824, -5, -1, 0, 1, 7, 1073741823];
    for px in parents.iter() {
        for pz in parents.iter() {
            for dx in 0..2 {
                for dz in 0..2 {
                    let child = TileCoordinate { x: 2 * px + dx, z: 2 * pz + dz };
                    assert_eq!(parent(child), TileCoordinate { x: *px, z: *pz });
                }
            }
        }
    }
}

#[test]
fn bounds_of_no_sectors_is_nothing() {
    assert_eq!(bounds_of(&Vec::new()), None);
}

#[test]
fn bounds_of_one_sector_is_that_sector() {
    let coords = vec![TileCoordinate { x: -4, z: 9 }];
    assert_eq!(bounds_of(&coords), Some(Bounds { min_x: -4, max_x: -4, min_z: 9, max_z: 9 }));
}

#[test]
fn bounds_of_several_sectors() {
    let coords = vec![
        TileCoordinate { x: 3, z: -2 },
        TileCoordinate { x: -7, z: 5 },
        TileCoordinate { x: 0, z: 0 },
        TileCoordinate { x: 3, z: 11 },
    ];
    let b = bounds_of(&coords).unwrap();
    assert_eq!(b, Bounds { min_x: -7, max_x: 3, min_z: -2, max_z: 11 });
    assert!(b.min_x <= b.max_x && b.min_z <= b.max_z);
}

#[test]
fn sector_bounds_of_600_by_400_image() {
    let b = sector_bounds(600, 400, 0, 0, 256).unwrap();
    assert_eq!(b, Bounds { min_x: 0, max_x: 2, min_z: 0, max_z: 1 });
}

#[test]
fn sector_bounds_with_the_origin_in_the_middle() {
    let b = sector_bounds(600, 400, 300, 200, 256).unwrap();
    assert_eq!(b, Bounds { min_x: -2, max_x: 1, min_z: -1, max_z: 0 });
}

#[test]
fn sector_bounds_of_an_image_of_whole_tiles() {
    let b = sector_bounds(512, 256, 0, 0, 256).unwrap();
    assert_eq!(b, Bounds { min_x: 0, max_x: 1, min_z: 0, max_z: 0 });
}

#[test]
fn sector_bounds_refuses_tile_size_zero_and_empty_images() {
    assert_eq!(sector_bounds(600, 400, 0, 0, 0), Err(TileError::Precondition));
    assert_eq!(sector_bounds(0, 400, 0, 0, 256), Err(TileError::Precondition));
    assert_eq!(sector_bounds(600, 0, 0, 0, 256), Err(TileError::Precondition));
}

#[test]
fn sector_bounds_refuses_sectors_beyond_32_bits() {
    assert_eq!(sector_bounds(1, 1, i32::MIN, 0, 1), Err(TileError::Capacity));
    assert_eq!(sector_bounds(1, 1, 0, i32::MIN, 1), Err(TileError::Capacity));
    assert_eq!(sector_bounds(u32::MAX, 1, 0, 0, 1), Err(TileError::Capacity));
    assert_eq!(
        sector_bounds(1, 1, i32::MIN + 1, 0, 1),
        Ok(Bounds { min_x: i32::MAX, max_x: i32::MAX, min_z: 0, max_z: 0 })
    );
}
