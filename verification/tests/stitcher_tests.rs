use tileproc::tiler::{consolidate_images, image_to_tiles, Pixel, Raster, Tile, TileCoordinate, TileError};

fn stitcher_plain(width: u32, height: u32, shade: u8) -> Raster {
    let mut image = Raster::new(width, height).unwrap();
    for y in 0..height {
        for x in 0..width {
            image.put_pixel(x, y, Pixel { r: shade, g: x as u8, b: y as u8, a: 255 });
        }
    }
    image
}

fn stitcher_tile(x: i32, z: i32, image: Raster) -> Tile {
    Tile { coord: TileCoordinate { x, z }, image }
}

#[test]
fn canvas_spans_the_bounds_of_the_sectors() {
    let tiles = vec![
        stitcher_tile(-2, 5, stitcher_plain(3, 2, 10)),
        stitcher_tile(1, 3, stitcher_plain(3, 2, 20)),
        stitcher_tile(0, 4, stitcher_plain(3, 2, 30)),
    ];
    let canvas = consolidate_images(&tiles).unwrap();
    assert_eq!(canvas.width(), 4 * 3);
    assert_eq!(canvas.height(), 3 * 2);
}

#[test]
fn each_tile_lands_in_the_block_of_its_sector() {
    let tiles = vec![
        stitcher_tile(-2, 5, stitcher_plain(3, 2, 10)),
        stitcher_tile(1, 3, stitcher_plain(3, 2, 20)),
        stitcher_tile(0, 4, stitcher_plain(3, 2, 30)),
    ];
    let canvas = consolidate_images(&tiles).unwrap();
    for y in 0..canvas.height() {
        for x in 0..canvas.width() {
            let sector = (-2 + (x / 3) as i32, 3 + (y / 2) as i32);
            let want = match tiles.iter().find(|t| (t.coord.x, t.coord.z) == sector) {
                Some(t) => t.image.get_pixel(x % 3, y % 2),
                None => Pixel { r: 0, g: 0, b: 0, a: 0 },
            };
            assert_eq!(canvas.get_pixel(x, y), want);
        }
    }
}

#[test]
fn blocks_of_different_sectors_do_not_overlap() {
    let tiles = vec![
        stitcher_tile(0, 0, stitcher_plain(4, 4, 1)),
        stitcher_tile(1, 0, stitcher_plain(4, 4, 2)),
        stitcher_tile(0, 1, stitcher_plain(4, 4, 3)),
        stitcher_tile(1, 1, stitcher_plain(4, 4, 4)),
    ];
    let canvas = consolidate_images(&tiles).unwrap();
    assert_eq!((canvas.width(), canvas.height()), (8, 8));
    let mut seen = vec![0u32; 5];
    for y in 0..8 {
        for x in 0..8 {
            seen[canvas.get_pixel(x, y).r as usize] += 1;
        }
    }
    assert_eq!(seen, vec![0, 16, 16, 16, 16]);
}

#[test]
fn one_tile_gives_the_tile() {
    let tiles = vec![stitcher_tile(i32::MIN, i32::MAX, stitcher_plain(5, 7, 99))];
    assert_eq!(consolidate_images(&tiles), Ok(stitcher_plain(5, 7, 99)));
}

#[test]
fn the_last_of_two_tiles_for_one_sector_shows() {
    let tiles = vec![
        stitcher_tile(2, 2, stitcher_plain(2, 2, 50)),
        stitcher_tile(3, 2, stitcher_plain(2, 2, 60)),
        stitcher_tile(2, 2, stitcher_plain(2, 2, 70)),
    ];
    let canvas = consolidate_images(&tiles).unwrap();
    assert_eq!((canvas.width(), canvas.height()), (4, 2));
    assert_eq!(canvas.get_pixel(0, 0).r, 70);
    assert_eq!(canvas.get_pixel(1, 1).r, 70);
    assert_eq!(canvas.get_pixel(2, 0).r, 60);
}

#[test]
fn no_tiles_are_refused() {
    assert_eq!(consolidate_images(&Vec::new()), Err(TileError::Precondition));
}

#[test]
fn tiles_of_differing_dimensions_are_refused() {
    let tiles = vec![
        stitcher_tile(0, 0, stitcher_plain(2, 2, 1)),
        stitcher_tile(1, 0, stitcher_plain(2, 3, 2)),
    ];
    assert_eq!(consolidate_images(&tiles), Err(TileError::Precondition));
    let tiles = vec![
        stitcher_tile(0, 0, stitcher_plain(2, 2, 1)),
        stitcher_tile(1, 0, stitcher_plain(1, 2, 2)),
    ];
    assert_eq!(consolidate_images(&tiles), Err(TileError::Precondition));
}

#[test]
fn a_canvas_that_cannot_be_held_is_refused() {
    let tiles = vec![
        stitcher_tile(i32::MIN, 0, stitcher_plain(2, 2, 1)),
        stitcher_tile(i32::MAX, 0, stitcher_plain(2, 2, 2)),
    ];
    assert_eq!(consolidate_images(&tiles), Err(TileError::Capacity));
    let tiles = vec![
        stitcher_tile(0, i32::MIN, stitcher_plain(2, 2, 1)),
        stitcher_tile(0, i32::MAX, stitcher_plain(2, 2, 2)),
    ];
    assert_eq!(consolidate_images(&tiles), Err(TileError::Capacity));
}

#[test]
fn tiles_without_pixels_give_a_canvas_without_pixels() {
    let tiles = vec![
        stitcher_tile(0, 0, Raster::new(0, 3).unwrap()),
        stitcher_tile(4, 1, Raster::new(0, 3).unwrap()),
    ];
    let canvas = consolidate_images(&tiles).unwrap();
    assert_eq!((canvas.width(), canvas.height()), (0, 6));
}

#[test]
fn slicing_then_stitching_gives_the_image_back() {
    let mut source = Raster::new(600, 400).unwrap();
    for y in 0..400u32 {
        for x in 0..600u32 {
            let p = Pixel { r: (x % 256) as u8, g: (y % 256) as u8, b: ((x * y) % 256) as u8, a: 255 };
            source.put_pixel(x, y, p);
        }
    }
    let tiles = image_to_tiles(&source, 0, 0, 256).unwrap();
    assert_eq!(tiles.len(), 6);
    let canvas = consolidate_images(&tiles).unwrap();
    assert_eq!((canvas.width(), canvas.height()), (3 * 256, 2 * 256));
    for y in 0..canvas.height() {
        for x in 0..canvas.width() {
            let want = if x < 600 && y < 400 {
                source.get_pixel(x, y)
            } else {
                Pixel { r: 0, g: 0, b: 0, a: 0 }
            };
            assert_eq!(canvas.get_pixel(x, y), want);
        }
    }
}

#[test]
fn slicing_then_stitching_with_an_offset_and_holes() {
    let mut source = Raster::new(20, 12).unwrap();
    for y in 0..12u32 {
        for x in 8..20u32 {
            let visible = !(x >= 12 && x < 16 && y < 8);
            let p = Pixel { r: x as u8, g: y as u8, b: 7, a: if visible { 200 } else { 0 } };
            source.put_pixel(x, y, p);
        }
    }
    let tiles = image_to_tiles(&source, 4, 4, 4).unwrap();
    let coords: Vec<(i32, i32)> = tiles.iter().map(|t| (t.coord.x, t.coord.z)).collect();
    assert_eq!(coords, vec![(1, -1), (3, -1), (1, 0), (3, 0), (1, 1), (2, 1), (3, 1)]);
    let canvas = consolidate_images(&tiles).unwrap();
    assert_eq!((canvas.width(), canvas.height()), (12, 12));
    let left = 1 * 4 + 4;
    let top = -1 * 4 + 4;
    for y in 0..12u32 {
        for x in 0..12u32 {
            let from = source.get_pixel(x + left as u32, y + top as u32);
            let got = canvas.get_pixel(x, y);
            if from.a != 0 {
                assert_eq!(got, from);
            } else {
                assert_eq!(got, Pixel { r: 0, g: 0, b: 0, a: 0 });
            }
        }
    }
}
