use cpu_raytracer::color::Rgb;
use cpu_raytracer::grid::tile_count;
use cpu_raytracer::partition::partition;
use cpu_raytracer::tile::Tile;

#[test]
fn tile_count_rounds_up() {
    assert_eq!(tile_count(0, 64), 0);
    assert_eq!(tile_count(1, 64), 1);
    assert_eq!(tile_count(63, 64), 1);
    assert_eq!(tile_count(64, 64), 1);
    assert_eq!(tile_count(65, 64), 2);
    assert_eq!(tile_count(1920, 64), 30);
    assert_eq!(tile_count(1080, 64), 17);
    assert_eq!(tile_count(7, 1), 7);
}

#[test]
fn tile_count_near_the_largest_extent() {
    assert_eq!(tile_count(usize::MAX, 1), usize::MAX);
    assert_eq!(tile_count(usize::MAX, 2), usize::MAX / 2 + 1);
    assert_eq!(tile_count(usize::MAX, usize::MAX), 1);
    assert_eq!(tile_count(usize::MAX - 1, usize::MAX), 1);
}

#[test]
fn new_tile_is_zeroed() {
    let tile = Tile::new(10, 14, 20, 23, 4);
    assert_eq!(tile.x_min(), 10);
    assert_eq!(tile.x_max(), 14);
    assert_eq!(tile.y_min(), 20);
    assert_eq!(tile.y_max(), 23);
    assert_eq!(tile.edge(), 4);
    assert_eq!(tile.bytes().len(), 4 * 4 * 3);
    assert!(tile.bytes().iter().all(|b| *b == 0));
}

#[test]
fn tile_contains_its_rectangle_only() {
    let tile = Tile::new(10, 14, 20, 23, 4);
    assert!(tile.contains(10, 20));
    assert!(tile.contains(13, 22));
    assert!(!tile.contains(14, 22));
    assert!(!tile.contains(13, 23));
    assert!(!tile.contains(9, 20));
    assert!(!tile.contains(10, 19));
}

#[test]
fn tile_pixel_round_trip() {
    let mut tile = Tile::new(10, 14, 20, 23, 4);
    let color = Rgb { r: 1, g: 2, b: 3 };
    tile.put_pixel(11, 21, color);
    assert_eq!(tile.get_pixel(11, 21), color);
    assert_eq!(tile.get_pixel(10, 21), Rgb { r: 0, g: 0, b: 0 });
    assert_eq!(tile.get_pixel(11, 20), Rgb { r: 0, g: 0, b: 0 });
    assert_eq!(tile.get_pixel(11, 22), Rgb { r: 0, g: 0, b: 0 });
}

#[test]
fn tile_rows_run_from_the_highest_down() {
    let mut tile = Tile::new(10, 14, 20, 23, 4);
    tile.put_pixel(11, 21, Rgb { r: 1, g: 2, b: 3 });
    // ((4 - (21 - 20) - 1) * 4 + (11 - 10)) * 3 = 27
    let mut expected: Vec<u8> = vec![0u8; 48];
    expected[27] = 1;
    expected[28] = 2;
    expected[29] = 3;
    assert_eq!(tile.bytes(), &expected);

    let mut low = Tile::new(0, 4, 0, 4, 4);
    low.put_pixel(0, 0, Rgb { r: 9, g: 8, b: 7 });
    assert_eq!(&low.bytes()[36..39], &[9u8, 8, 7]);
    low.put_pixel(3, 3, Rgb { r: 6, g: 5, b: 4 });
    assert_eq!(&low.bytes()[9..12], &[6u8, 5, 4]);
}

#[test]
fn tile_write_leaves_the_other_pixels() {
    let mut tile = Tile::new(0, 3, 0, 3, 3);
    for y in 0..3usize {
        for x in 0..3usize {
            tile.put_pixel(x, y, Rgb { r: x as u8, g: y as u8, b: 100 });
        }
    }
    tile.put_pixel(1, 1, Rgb { r: 50, g: 60, b: 70 });
    for y in 0..3usize {
        for x in 0..3usize {
            let expected = if x == 1 && y == 1 {
                Rgb { r: 50, g: 60, b: 70 }
            } else {
                Rgb { r: x as u8, g: y as u8, b: 100 }
            };
            assert_eq!(tile.get_pixel(x, y), expected);
        }
    }
}

#[test]
fn partition_of_the_full_frame() {
    let tiles = partition(1920, 1080, 64);
    assert_eq!(tiles.len(), 30 * 17);
    assert_eq!(
        (tiles[0].x_min(), tiles[0].x_max(), tiles[0].y_min(), tiles[0].y_max()),
        (0, 64, 0, 64)
    );
    assert_eq!(
        (tiles[1].x_min(), tiles[1].x_max(), tiles[1].y_min(), tiles[1].y_max()),
        (64, 128, 0, 64)
    );
    assert_eq!(
        (tiles[30].x_min(), tiles[30].x_max(), tiles[30].y_min(), tiles[30].y_max()),
        (0, 64, 64, 128)
    );
    let last = &tiles[509];
    assert_eq!((last.x_min(), last.x_max(), last.y_min(), last.y_max()), (1856, 1920, 1024, 1080));
    for tile in &tiles {
        assert_eq!(tile.edge(), 64);
        assert_eq!(tile.bytes().len(), 64 * 64 * 3);
        assert!(tile.bytes().iter().all(|b| *b == 0));
    }
}

#[test]
fn partition_with_ragged_tiles() {
    let tiles = partition(100, 70, 64);
    assert_eq!(tiles.len(), 4);
    let bounds: Vec<(usize, usize, usize, usize)> =
        tiles.iter().map(|t| (t.x_min(), t.x_max(), t.y_min(), t.y_max())).collect();
    assert_eq!(
        bounds,
        vec![(0, 64, 0, 64), (64, 100, 0, 64), (0, 64, 64, 70), (64, 100, 64, 70)]
    );
}

#[test]
fn partition_of_an_empty_image() {
    assert_eq!(partition(0, 0, 64).len(), 0);
    assert_eq!(partition(0, 100, 64).len(), 0);
    assert_eq!(partition(100, 0, 64).len(), 0);
}

#[test]
fn partition_with_one_pixel_tiles() {
    let tiles = partition(3, 2, 1);
    assert_eq!(tiles.len(), 6);
    for (i, tile) in tiles.iter().enumerate() {
        assert_eq!(tile.x_min(), i % 3);
        assert_eq!(tile.x_max(), i % 3 + 1);
        assert_eq!(tile.y_min(), i / 3);
        assert_eq!(tile.y_max(), i / 3 + 1);
    }
}

#[test]
fn partition_with_a_tile_larger_than_the_image() {
    let tiles = partition(5, 3, 64);
    assert_eq!(tiles.len(), 1);
    assert_eq!(
        (tiles[0].x_min(), tiles[0].x_max(), tiles[0].y_min(), tiles[0].y_max()),
        (0, 5, 0, 3)
    );
}

#[test]
fn tiles_cover_each_pixel_once() {
    let sizes: Vec<(usize, usize, usize)> = vec![
        (1, 1, 1),
        (7, 5, 2),
        (8, 8, 4),
        (9, 8, 4),
        (8, 9, 4),
        (13, 17, 5),
        (100, 70, 64),
        (64, 64, 64),
        (65, 1, 64),
        (3, 200, 7),
    ];
    for (width, height, edge) in sizes {
        let tiles = partition(width, height, edge);
        let mut seen: Vec<u32> = vec![0u32; width * height];
        for tile in &tiles {
            assert!(tile.x_min() < tile.x_max() && tile.x_max() <= width);
            assert!(tile.y_min() < tile.y_max() && tile.y_max() <= height);
            assert!(tile.x_max() - tile.x_min() <= edge);
            assert!(tile.y_max() - tile.y_min() <= edge);
            for y in tile.y_min()..tile.y_max() {
                for x in tile.x_min()..tile.x_max() {
                    seen[y * width + x] += 1;
                }
            }
        }
        assert!(seen.iter().all(|n| *n == 1));
    }
}

#[test]
fn pixel_lies_in_the_tile_its_coordinates_name() {
    let width: usize = 100;
    let height: usize = 70;
    let edge: usize = 16;
    let tiles = partition(width, height, edge);
    let columns: usize = tile_count(width, edge);
    for y in 0..height {
        for x in 0..width {
            let index: usize = (y / edge) * columns + x / edge;
            for (i, tile) in tiles.iter().enumerate() {
                assert_eq!(tile.contains(x, y), i == index);
            }
        }
    }
}
