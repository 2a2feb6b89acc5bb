use cpu_raytracer::color::Rgb;
use cpu_raytracer::frame::assemble;
use cpu_raytracer::partition::partition;
use cpu_raytracer::random::RngXorShift;
use cpu_raytracer::tile::Tile;
use std::cell::RefCell;

fn from_word(word: u32) -> Rgb {
    Rgb { r: (word & 0xff) as u8, g: ((word >> 8) & 0xff) as u8, b: ((word >> 16) & 0xff) as u8 }
}

fn draw(_x: usize, _y: usize, mut rng: RngXorShift) -> (Rgb, RngXorShift) {
    let word: u32 = rng.xor_shift();
    (from_word(word), rng)
}

#[test]
fn render_visits_rows_from_the_top_and_columns_from_the_left() {
    let visits: RefCell<Vec<(usize, usize)>> = RefCell::new(Vec::new());
    let mut tile = Tile::new(4, 7, 10, 12, 3);
    tile.render(1, |x, y, rng| {
        visits.borrow_mut().push((x, y));
        (Rgb { r: 0, g: 0, b: 0 }, rng)
    });
    assert_eq!(visits.into_inner(), vec![(4, 11), (5, 11), (6, 11), (4, 10), (5, 10), (6, 10)]);
}

#[test]
fn render_hands_the_generator_from_pixel_to_pixel() {
    let mut tile = Tile::new(4, 7, 10, 12, 3);
    tile.render(58727590, draw);
    let words: Vec<u32> = vec![42944812, 2667389913, 1782959578, 2887934085, 3865355036];
    assert_eq!(tile.get_pixel(4, 11), from_word(words[0]));
    assert_eq!(tile.get_pixel(5, 11), from_word(words[1]));
    assert_eq!(tile.get_pixel(6, 11), from_word(words[2]));
    assert_eq!(tile.get_pixel(4, 10), from_word(words[3]));
    assert_eq!(tile.get_pixel(5, 10), from_word(words[4]));
}

#[test]
fn render_starts_the_generator_from_the_seed() {
    let seen: RefCell<Vec<u32>> = RefCell::new(Vec::new());
    let mut tile = Tile::new(0, 1, 0, 1, 1);
    tile.render(1, |_x, _y, mut rng| {
        seen.borrow_mut().push(rng.xor_shift());
        (Rgb { r: 0, g: 0, b: 0 }, rng)
    });
    assert_eq!(seen.into_inner(), vec![270369]);
}

#[test]
fn render_keeps_the_rectangle() {
    let mut tile = Tile::new(4, 7, 10, 12, 3);
    tile.render(9, draw);
    assert_eq!((tile.x_min(), tile.x_max(), tile.y_min(), tile.y_max()), (4, 7, 10, 12));
    assert_eq!(tile.edge(), 3);
    assert_eq!(tile.bytes().len(), 27);
}

#[test]
fn render_leaves_bytes_outside_the_rectangle() {
    // Two pixels in the lowest row of a buffer for three rows of three.
    let mut tile = Tile::new(0, 2, 0, 1, 3);
    tile.render(3, |_x, _y, rng| (Rgb { r: 255, g: 255, b: 255 }, rng));
    let mut expected: Vec<u8> = vec![0u8; 27];
    for at in 18..24usize {
        expected[at] = 255;
    }
    assert_eq!(tile.bytes(), &expected);
}

#[test]
fn tiles_rendered_from_one_seed_draw_the_same_words() {
    let mut tiles = partition(8, 8, 4);
    for tile in tiles.iter_mut() {
        tile.render(58727590, draw);
    }
    for tile in &tiles {
        for dy in 0..4usize {
            for dx in 0..4usize {
                assert_eq!(
                    tile.get_pixel(tile.x_min() + dx, tile.y_min() + dy),
                    tiles[0].get_pixel(dx, dy)
                );
            }
        }
    }
}

#[test]
fn rendering_twice_gives_the_same_image() {
    let shade = |x: usize, y: usize, mut rng: RngXorShift| {
        let word: u32 = rng.xor_shift() ^ rng.unit_bits();
        (Rgb { r: (word % 256) as u8, g: (x % 256) as u8, b: (y % 256) as u8 }, rng)
    };
    let mut first = partition(50, 30, 16);
    let mut second = partition(50, 30, 16);
    for tile in first.iter_mut() {
        tile.render(58727590, shade);
    }
    for tile in second.iter_mut().rev() {
        tile.render(58727590, shade);
    }
    let one: Vec<u8> = assemble(&first, 50, 30).into_bytes();
    let two: Vec<u8> = assemble(&second, 50, 30).into_bytes();
    assert_eq!(one, two);
    assert!(one.iter().any(|b| *b != 0));
}
