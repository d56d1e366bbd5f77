use tileproc::tiler::{
    assemble_quad, halve, reduce_sectors, shrink_tiles, Pixel, Raster, Tile, TileCoordinate,
    TileError,
};

fn reducer_plain(width: u32, height: u32, p: Pixel) -> Raster {
    let mut image = Raster::new(width, height).unwrap();
    for y in 0..height {
        for x in 0..width {
            image.put_pixel(x, y, p);
        }
    }
    image
}

fn reducer_marked(width: u32, height: u32, shade: u8) -> Raster {
    let mut image = Raster::new(width, height).unwrap();
    for y in 0..height {
        for x in 0..width {
            image.put_pixel(x, y, Pixel { r: shade, g: x as u8, b: y as u8, a: 255 });
        }
    }
    image
}

fn reducer_tile(x: i32, z: i32, image: Raster) -> Tile {
    Tile { coord: TileCoordinate { x, z }, image }
}

fn reducer_sectors(list: &[(i32, i32)]) -> Vec<TileCoordinate> {
    list.iter().map(|c| TileCoordinate { x: c.0, z: c.1 }).collect()
}

#[test]
fn four_siblings_reduce_to_one_sector() {
    let coords = reducer_sectors(&[(4, 6), (5, 6), (4, 7), (5, 7)]);
    assert_eq!(reduce_sectors(&coords), reducer_sectors(&[(2, 3)]));
    let coords = reducer_sectors(&[(-2, -4), (-1, -4), (-2, -3), (-1, -3)]);
    assert_eq!(reduce_sectors(&coords), reducer_sectors(&[(-1, -2)]));
    let coords = reducer_sectors(&[(-1, 0), (-2, 1), (-2, 0), (-1, 1)]);
    assert_eq!(reduce_sectors(&coords), reducer_sectors(&[(-1, 0)]));
}

#[test]
fn parents_come_once_in_the_order_of_first_appearance() {
    let coords = reducer_sectors(&[(10, 10), (0, 0), (11, 11), (1, 1), (-1, -1), (10, 11), (-2, -2)]);
    assert_eq!(reduce_sectors(&coords), reducer_sectors(&[(5, 5), (0, 0), (-1, -1)]));
    assert_eq!(reduce_sectors(&Vec::new()), Vec::new());
}

#[test]
fn sectors_either_side_of_zero_have_different_parents() {
    let coords = reducer_sectors(&[(-1, 0), (0, 0), (0, -1), (-1, -1)]);
    assert_eq!(reduce_sectors(&coords), reducer_sectors(&[(-1, 0), (0, 0), (0, -1), (-1, -1)]));
}

#[test]
fn quad_holds_each_child_in_its_quadrant() {
    let tiles = vec![
        reducer_tile(4, 6, reducer_marked(3, 2, 10)),
        reducer_tile(5, 6, reducer_marked(3, 2, 20)),
        reducer_tile(4, 7, reducer_marked(3, 2, 30)),
        reducer_tile(5, 7, reducer_marked(3, 2, 40)),
        reducer_tile(6, 6, reducer_marked(3, 2, 50)),
    ];
    let quad = assemble_quad(&tiles, TileCoordinate { x: 2, z: 3 }, 3, 2).unwrap();
    assert_eq!((quad.width(), quad.height()), (6, 4));
    for y in 0..4u32 {
        for x in 0..6u32 {
            let shade = 10 + 10 * (x / 3) as u8 + 20 * (y / 2) as u8;
            assert_eq!(quad.get_pixel(x, y), Pixel { r: shade, g: (x % 3) as u8, b: (y % 2) as u8, a: 255 });
        }
    }
}

#[test]
fn quad_is_fully_transparent_where_a_child_is_missing() {
    let tiles = vec![
        reducer_tile(-1, -2, reducer_marked(2, 2, 20)),
        reducer_tile(-2, -1, reducer_marked(2, 2, 30)),
    ];
    let quad = assemble_quad(&tiles, TileCoordinate { x: -1, z: -1 }, 2, 2).unwrap();
    for y in 0..4u32 {
        for x in 0..4u32 {
            let want = if x >= 2 && y < 2 {
                Pixel { r: 20, g: (x - 2) as u8, b: y as u8, a: 255 }
            } else if x < 2 && y >= 2 {
                Pixel { r: 30, g: x as u8, b: (y - 2) as u8, a: 255 }
            } else {
                Pixel { r: 0, g: 0, b: 0, a: 0 }
            };
            assert_eq!(quad.get_pixel(x, y), want);
        }
    }
    let none = assemble_quad(&tiles, TileCoordinate { x: 7, z: 7 }, 2, 2).unwrap();
    assert_eq!(none, Raster::new(4, 4).unwrap());
}

#[test]
fn quad_takes_the_last_of_two_tiles_for_one_sector() {
    let tiles = vec![
        reducer_tile(0, 0, reducer_marked(1, 1, 11)),
        reducer_tile(0, 0, reducer_marked(1, 1, 22)),
    ];
    let quad = assemble_quad(&tiles, TileCoordinate { x: 0, z: 0 }, 1, 1).unwrap();
    assert_eq!(quad.get_pixel(0, 0).r, 22);
}

#[test]
fn quad_refuses_a_child_of_other_dimensions() {
    let tiles = vec![
        reducer_tile(0, 0, reducer_marked(2, 2, 1)),
        reducer_tile(1, 1, reducer_marked(2, 3, 2)),
        reducer_tile(9, 9, reducer_marked(5, 5, 3)),
    ];
    assert_eq!(
        assemble_quad(&tiles, TileCoordinate { x: 0, z: 0 }, 2, 2),
        Err(TileError::Precondition)
    );
    assert!(assemble_quad(&tiles, TileCoordinate { x: 4, z: 4 }, 5, 5).is_ok());
}

#[test]
fn quad_that_cannot_be_held_is_refused() {
    let tiles: Vec<Tile> = Vec::new();
    let sector = TileCoordinate { x: 0, z: 0 };
    assert_eq!(assemble_quad(&tiles, sector, 0x8000_0000, 1), Err(TileError::Capacity));
    assert_eq!(assemble_quad(&tiles, sector, 1, 0x8000_0000), Err(TileError::Capacity));
    assert_eq!(assemble_quad(&tiles, sector, 0x7fff_ffff, 0x7fff_ffff), Err(TileError::Capacity));
}

#[test]
fn shrinking_no_tiles_gives_no_tiles() {
    assert_eq!(shrink_tiles(&Vec::new()), Ok(Vec::new()));
}

#[test]
fn shrinking_four_siblings_gives_one_tile_of_the_same_size() {
    let tiles = vec![
        reducer_tile(4, 6, reducer_marked(8, 6, 10)),
        reducer_tile(5, 6, reducer_marked(8, 6, 20)),
        reducer_tile(4, 7, reducer_marked(8, 6, 30)),
        reducer_tile(5, 7, reducer_marked(8, 6, 40)),
    ];
    let out = shrink_tiles(&tiles).unwrap();
    assert_eq!(out.len(), 1);
    assert_eq!(out[0].coord, TileCoordinate { x: 2, z: 3 });
    assert_eq!((out[0].image.width(), out[0].image.height()), (8, 6));
    assert_eq!(out[0].image.clone().into_raw().len(), 4 * 8 * 6);
}

#[test]
fn shrinking_gives_one_tile_for_each_parent() {
    let tiles = vec![
        reducer_tile(10, 10, reducer_marked(4, 4, 1)),
        reducer_tile(0, 0, reducer_marked(4, 4, 2)),
        reducer_tile(11, 11, reducer_marked(4, 4, 3)),
        reducer_tile(-1, -1, reducer_marked(4, 4, 4)),
        reducer_tile(1, 0, reducer_marked(4, 4, 5)),
    ];
    let out = shrink_tiles(&tiles).unwrap();
    let coords: Vec<(i32, i32)> = out.iter().map(|t| (t.coord.x, t.coord.z)).collect();
    assert_eq!(coords, vec![(5, 5), (0, 0), (-1, -1)]);
    for tile in out.iter() {
        assert_eq!((tile.image.width(), tile.image.height()), (4, 4));
    }
}

#[test]
fn shrinking_tiles_of_one_colour_keeps_the_colour() {
    let p = Pixel { r: 200, g: 100, b: 50, a: 255 };
    let tiles = vec![
        reducer_tile(0, 0, reducer_plain(16, 16, p)),
        reducer_tile(1, 0, reducer_plain(16, 16, p)),
        reducer_tile(0, 1, reducer_plain(16, 16, p)),
        reducer_tile(1, 1, reducer_plain(16, 16, p)),
    ];
    let out = shrink_tiles(&tiles).unwrap();
    assert_eq!(out.len(), 1);
    assert_eq!(out[0].image, reducer_plain(16, 16, p));
}

#[test]
fn shrinking_halves_a_picture_of_two_colours() {
    let left = Pixel { r: 255, g: 0, b: 0, a: 255 };
    let right = Pixel { r: 0, g: 0, b: 255, a: 255 };
    let tiles = vec![
        reducer_tile(0, 0, reducer_plain(16, 16, left)),
        reducer_tile(1, 0, reducer_plain(16, 16, right)),
        reducer_tile(0, 1, reducer_plain(16, 16, left)),
        reducer_tile(1, 1, reducer_plain(16, 16, right)),
    ];
    let out = shrink_tiles(&tiles).unwrap();
    let image = &out[0].image;
    assert_eq!(image.get_pixel(1, 8), left);
    assert_eq!(image.get_pixel(14, 8), right);
}

#[test]
fn shrinking_tiles_of_differing_dimensions_is_refused() {
    let tiles = vec![
        reducer_tile(0, 0, reducer_marked(4, 4, 1)),
        reducer_tile(9, 9, reducer_marked(4, 5, 2)),
    ];
    assert_eq!(shrink_tiles(&tiles), Err(TileError::Precondition));
}

#[test]
fn shrinking_tiles_without_pixels_is_refused() {
    let tiles = vec![reducer_tile(0, 0, Raster::new(0, 4).unwrap())];
    assert_eq!(shrink_tiles(&tiles), Err(TileError::Precondition));
    let tiles = vec![reducer_tile(0, 0, Raster::new(4, 0).unwrap())];
    assert_eq!(shrink_tiles(&tiles), Err(TileError::Precondition));
}

#[test]
fn halving_gives_half_the_width_and_height() {
    let small = halve(reducer_marked(6, 4, 9)).unwrap();
    assert_eq!((small.width(), small.height()), (3, 2));
    assert_eq!(small.into_raw().len(), 4 * 3 * 2);
}

#[test]
fn halving_an_image_of_one_colour_keeps_the_colour() {
    let p = Pixel { r: 13, g: 250, b: 77, a: 255 };
    assert_eq!(halve(reducer_plain(32, 8, p)), Ok(reducer_plain(16, 4, p)));
}

#[test]
fn halving_an_image_with_an_odd_or_empty_side_is_refused() {
    assert_eq!(halve(reducer_marked(5, 4, 1)), Err(TileError::Precondition));
    assert_eq!(halve(reducer_marked(4, 5, 1)), Err(TileError::Precondition));
    assert_eq!(halve(Raster::new(0, 4).unwrap()), Err(TileError::Precondition));
    assert_eq!(halve(Raster::new(4, 0).unwrap()), Err(TileError::Precondition));
}
