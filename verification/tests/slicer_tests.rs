use tileproc::tiler::{cut_tile, image_to_tiles, Pixel, Raster, Tile, TileCoordinate, TileError};

fn slicer_opaque(width: u32, height: u32) -> Raster {
    let mut image = Raster::new(width, height).unwrap();
    for y in 0..height {
        for x in 0..width {
            let p = Pixel { r: (x % 251) as u8, g: (y % 241) as u8, b: ((x + y) % 239) as u8, a: 255 };
            image.put_pixel(x, y, p);
        }
    }
    image
}

fn slicer_coords(tiles: &Vec<Tile>) -> Vec<(i32, i32)> {
    tiles.iter().map(|t| (t.coord.x, t.coord.z)).collect()
}

#[test]
fn image_of_600_by_400_gives_six_tiles() {
    let source = slicer_opaque(600, 400);
    let tiles = image_to_tiles(&source, 0, 0, 256).unwrap();
    assert_eq!(slicer_coords(&tiles), vec![(0, 0), (1, 0), (2, 0), (0, 1), (1, 1), (2, 1)]);
    for tile in tiles.iter() {
        assert_eq!(tile.image.width(), 256);
        assert_eq!(tile.image.height(), 256);
        for y in 0..256u32 {
            for x in 0..256u32 {
                let sx = tile.coord.x as u32 * 256 + x;
                let sy = tile.coord.z as u32 * 256 + y;
                let want = if sx < 600 && sy < 400 {
                    source.get_pixel(sx, sy)
                } else {
                    Pixel { r: 0, g: 0, b: 0, a: 0 }
                };
                assert_eq!(tile.image.get_pixel(x, y), want);
            }
        }
    }
}

#[test]
fn a_fully_transparent_region_gives_no_tile() {
    let mut source = Raster::new(600, 400).unwrap();
    for y in 0..400 {
        for x in 0..256 {
            source.put_pixel(x, y, Pixel { r: 1, g: 2, b: 3, a: 255 });
        }
    }
    source.put_pixel(300, 300, Pixel { r: 70, g: 80, b: 90, a: 0 });
    let tiles = image_to_tiles(&source, 0, 0, 256).unwrap();
    assert_eq!(slicer_coords(&tiles), vec![(0, 0), (0, 1)]);
}

#[test]
fn a_single_visible_pixel_gives_a_single_tile() {
    let mut source = Raster::new(600, 400).unwrap();
    source.put_pixel(599, 399, Pixel { r: 0, g: 0, b: 0, a: 1 });
    let tiles = image_to_tiles(&source, 0, 0, 256).unwrap();
    assert_eq!(slicer_coords(&tiles), vec![(2, 1)]);
    assert_eq!(tiles[0].image.get_pixel(599 - 512, 399 - 256), Pixel { r: 0, g: 0, b: 0, a: 1 });
}

#[test]
fn a_fully_transparent_image_gives_no_tiles() {
    let source = Raster::new(300, 300).unwrap();
    assert_eq!(image_to_tiles(&source, 0, 0, 256), Ok(Vec::new()));
}

#[test]
fn an_image_without_pixels_gives_no_tiles() {
    let source = Raster::new(0, 10).unwrap();
    assert_eq!(image_to_tiles(&source, 0, 0, 256), Ok(Vec::new()));
    let source = Raster::new(10, 0).unwrap();
    assert_eq!(image_to_tiles(&source, 5, 5, u32::MAX), Ok(Vec::new()));
}

#[test]
fn an_offset_moves_the_origin_into_the_image() {
    let source = slicer_opaque(10, 6);
    let tiles = image_to_tiles(&source, 5, 3, 4).unwrap();
    assert_eq!(
        slicer_coords(&tiles),
        vec![(-2, -1), (-1, -1), (0, -1), (1, -1), (-2, 0), (-1, 0), (0, 0), (1, 0)]
    );
    for tile in tiles.iter() {
        for y in 0..4i64 {
            for x in 0..4i64 {
                let sx = tile.coord.x as i64 * 4 + x + 5;
                let sy = tile.coord.z as i64 * 4 + y + 3;
                let want = if 0 <= sx && sx < 10 && 0 <= sy && sy < 6 {
                    source.get_pixel(sx as u32, sy as u32)
                } else {
                    Pixel { r: 0, g: 0, b: 0, a: 0 }
                };
                assert_eq!(tile.image.get_pixel(x as u32, y as u32), want);
            }
        }
    }
}

#[test]
fn a_negative_offset_moves_the_image_away_from_the_origin() {
    let source = slicer_opaque(3, 3);
    let tiles = image_to_tiles(&source, -6, -2, 4).unwrap();
    assert_eq!(slicer_coords(&tiles), vec![(1, 0), (2, 0), (1, 1), (2, 1)]);
    assert_eq!(tiles[0].image.get_pixel(2, 2), source.get_pixel(0, 0));
    assert_eq!(tiles[0].image.get_pixel(1, 2), Pixel { r: 0, g: 0, b: 0, a: 0 });
    assert_eq!(tiles[3].image.get_pixel(0, 0), source.get_pixel(2, 2));
}

#[test]
fn tile_size_zero_is_refused() {
    let source = slicer_opaque(4, 4);
    assert_eq!(image_to_tiles(&source, 0, 0, 0), Err(TileError::Precondition));
    let empty = Raster::new(0, 0).unwrap();
    assert_eq!(image_to_tiles(&empty, 0, 0, 0), Err(TileError::Precondition));
}

#[test]
fn sectors_beyond_32_bits_are_refused() {
    let source = slicer_opaque(1, 1);
    assert_eq!(image_to_tiles(&source, i32::MIN, 0, 1), Err(TileError::Capacity));
    assert_eq!(image_to_tiles(&source, 0, i32::MIN, 1), Err(TileError::Capacity));
}

#[test]
fn tiles_that_cannot_be_held_are_refused() {
    let source = slicer_opaque(1, 1);
    assert_eq!(image_to_tiles(&source, 0, 0, u32::MAX), Err(TileError::Capacity));
    assert_eq!(
        cut_tile(&source, 0, 0, u32::MAX, TileCoordinate { x: 0, z: 0 }),
        Err(TileError::Capacity)
    );
}

#[test]
fn cut_tile_beyond_the_image_is_fully_transparent() {
    let source = slicer_opaque(5, 5);
    let tile = cut_tile(&source, 0, 0, 4, TileCoordinate { x: 7, z: -3 }).unwrap();
    assert_eq!(tile, Raster::new(4, 4).unwrap());
    let far = cut_tile(&source, i32::MIN, i32::MAX, 3, TileCoordinate { x: i32::MAX, z: i32::MIN })
        .unwrap();
    assert!(far.is_transparent());
}

#[test]
fn cut_tile_copies_the_part_of_the_image_in_its_sector() {
    let source = slicer_opaque(5, 5);
    let tile = cut_tile(&source, 1, 2, 4, TileCoordinate { x: 0, z: 0 }).unwrap();
    for y in 0..4u32 {
        for x in 0..4u32 {
            let want = if x + 1 < 5 && y + 2 < 5 {
                source.get_pixel(x + 1, y + 2)
            } else {
                Pixel { r: 0, g: 0, b: 0, a: 0 }
            };
            assert_eq!(tile.get_pixel(x, y), want);
        }
    }
}
