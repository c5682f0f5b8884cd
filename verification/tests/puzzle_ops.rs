use spg::params::{Params, PuzzleError};
use spg::puzzle::{Puzzle, RotateDirection};
use spg::raster::Raster;

fn raster_from(width: u32, height: u32, data: Vec<u8>) -> Raster {
    Raster::from_bytes(width, height, data).expect("buffer must match the grid")
}

fn puzzle_with(division_size: u32, division: (u32, u32), data: Vec<u8>) -> Puzzle {
    let params = Params {
        division_size,
        division,
        select_limit: 2,
        select_rate: 1,
        swap_rate: 1,
    };
    let image = raster_from(division.0 * division_size, division.1 * division_size, data);
    Puzzle::generate(&params, image).expect("dimensions match by construction")
}

fn patterned(width: u32, height: u32) -> Vec<u8> {
    let mut data = Vec::new();
    for y in 0..height {
        for x in 0..width {
            data.push((x * 7 + y * 13) as u8);
            data.push((x * 3 + y * 5 + 1) as u8);
            data.push((x + y * 11 + 2) as u8);
        }
    }
    data
}

fn solid_tiles(division_size: u32, division: (u32, u32)) -> Vec<u8> {
    let width = division.0 * division_size;
    let height = division.1 * division_size;
    let mut data = Vec::new();
    for y in 0..height {
        for x in 0..width {
            let tx = x / division_size;
            let ty = y / division_size;
            let tag = (ty * division.0 + tx) as u8;
            data.push(10 + tag * 3);
            data.push(11 + tag * 3);
            data.push(12 + tag * 3);
        }
    }
    data
}

fn tile_bytes(p: &Puzzle, tile: (u32, u32)) -> Vec<u8> {
    let s = p.division_size();
    let mut out = Vec::new();
    for v in 0..s {
        for u in 0..s {
            let px = p.image().get_pixel(tile.0 * s + u, tile.1 * s + v);
            out.push(px.0);
            out.push(px.1);
            out.push(px.2);
        }
    }
    out
}

#[test]
fn swap_twice_restores_raster() {
    let data = patterned(32, 32);
    let mut p = puzzle_with(16, (2, 2), data.clone());
    p.swap_tile((0, 0), (1, 1));
    assert_ne!(p.image().as_bytes(), &data);
    p.swap_tile((0, 0), (1, 1));
    assert_eq!(p.image().as_bytes(), &data);
}

#[test]
fn self_swap_is_a_no_op() {
    let data = patterned(32, 32);
    let mut p = puzzle_with(16, (2, 2), data.clone());
    p.swap_tile((1, 0), (1, 0));
    assert_eq!(p.image().as_bytes(), &data);
}

#[test]
fn rotate90_four_times_restores_tile() {
    let mut data = patterned(8, 8);
    data[0] = 255;
    data[1] = 0;
    data[2] = 0;
    let mut p = puzzle_with(4, (2, 2), data.clone());
    for _ in 0..4 {
        p.rotate_tile((0, 0), RotateDirection::Rotate90);
    }
    assert_eq!(p.image().as_bytes(), &data);
}

#[test]
fn rotate180_twice_restores_tile() {
    let data = patterned(8, 8);
    let mut p = puzzle_with(4, (2, 2), data.clone());
    p.rotate_tile((1, 1), RotateDirection::Rotate180);
    assert_ne!(p.image().as_bytes(), &data);
    p.rotate_tile((1, 1), RotateDirection::Rotate180);
    assert_eq!(p.image().as_bytes(), &data);
}

#[test]
fn rotate270_four_times_restores_tile() {
    let data = patterned(8, 8);
    let mut p = puzzle_with(4, (2, 2), data.clone());
    for _ in 0..4 {
        p.rotate_tile((1, 0), RotateDirection::Rotate270);
    }
    assert_eq!(p.image().as_bytes(), &data);
}

#[test]
fn rotate90_then_270_restores_tile() {
    let data = patterned(8, 8);
    let mut p = puzzle_with(4, (2, 2), data.clone());
    p.rotate_tile((0, 1), RotateDirection::Rotate90);
    p.rotate_tile((0, 1), RotateDirection::Rotate270);
    assert_eq!(p.image().as_bytes(), &data);
}

#[test]
fn rotate90_maps_pixels_clockwise() {
    // one 2x2-pixel tile beside another; rotate the right-hand tile
    let mut p = puzzle_with(2, (2, 1), patterned(4, 2));
    let before = tile_bytes(&p, (1, 0));
    p.rotate_tile((1, 0), RotateDirection::Rotate90);
    let after = tile_bytes(&p, (1, 0));
    // destination (u, v) shows source (v, s - 1 - u); s == 2
    let src = |u: usize, v: usize| {
        let sx = v;
        let sy = 1 - u;
        let k = 3 * (sy * 2 + sx);
        [before[k], before[k + 1], before[k + 2]]
    };
    for v in 0..2 {
        for u in 0..2 {
            let k = 3 * (v * 2 + u);
            assert_eq!([after[k], after[k + 1], after[k + 2]], src(u, v));
        }
    }
}

#[test]
fn swap_moves_only_the_two_tiles() {
    let mut p = puzzle_with(8, (3, 2), solid_tiles(8, (3, 2)));
    let before: Vec<Vec<u8>> = (0..6)
        .map(|i| tile_bytes(&p, (i % 3, i / 3)))
        .collect();
    p.swap_tile((0, 1), (2, 0));
    for i in 0..6u32 {
        let t = (i % 3, i / 3);
        let now = tile_bytes(&p, t);
        if t == (0, 1) {
            assert_eq!(now, before[2]);
        } else if t == (2, 0) {
            assert_eq!(now, before[3]);
        } else {
            assert_eq!(now, before[i as usize]);
        }
    }
}

#[test]
fn rotate_touches_only_its_tile() {
    let data = patterned(24, 16);
    let mut p = puzzle_with(8, (3, 2), data.clone());
    let before: Vec<Vec<u8>> = (0..6)
        .map(|i| tile_bytes(&p, (i % 3, i / 3)))
        .collect();
    p.rotate_tile((1, 1), RotateDirection::Rotate90);
    for i in 0..6u32 {
        let t = (i % 3, i / 3);
        if t != (1, 1) {
            assert_eq!(tile_bytes(&p, t), before[i as usize]);
        }
    }
}

#[test]
fn random_swap_keeps_solid_tiles_and_colour_multiset() {
    let mut p = puzzle_with(8, (3, 2), solid_tiles(8, (3, 2)));
    let mut before: Vec<Vec<u8>> = (0..6)
        .map(|i| tile_bytes(&p, (i % 3, i / 3)))
        .collect();
    p.random_swap();
    let mut after: Vec<Vec<u8>> = (0..6)
        .map(|i| tile_bytes(&p, (i % 3, i / 3)))
        .collect();
    for tile in &after {
        let first = [tile[0], tile[1], tile[2]];
        for px in tile.chunks(3) {
            assert_eq!([px[0], px[1], px[2]], first, "tile must stay solid");
        }
    }
    before.sort();
    after.sort();
    assert_eq!(before, after, "the multiset of tile contents must be kept");
}

#[test]
fn random_rotate_keeps_anchor_and_solid_tiles() {
    let mut p = puzzle_with(8, (3, 2), solid_tiles(8, (3, 2)));
    let before: Vec<Vec<u8>> = (0..6)
        .map(|i| tile_bytes(&p, (i % 3, i / 3)))
        .collect();
    p.random_rotate();
    for i in 0..6u32 {
        let t = (i % 3, i / 3);
        // a rotated solid tile is unchanged; the anchor is never rotated
        assert_eq!(tile_bytes(&p, t), before[i as usize]);
    }
}

#[test]
fn random_rotate_keeps_anchor_pattern() {
    let data = patterned(32, 32);
    let mut p = puzzle_with(16, (2, 2), data);
    p.random_swap();
    let anchor_after_swap = tile_bytes(&p, (0, 0));
    p.random_rotate();
    assert_eq!(tile_bytes(&p, (0, 0)), anchor_after_swap);
}

#[test]
fn generate_rejects_wrong_size() {
    let params = Params {
        division_size: 8,
        division: (2, 2),
        select_limit: 2,
        select_rate: 1,
        swap_rate: 1,
    };
    let image = raster_from(8, 8, vec![0u8; 192]);
    match Puzzle::generate(&params, image) {
        Err(PuzzleError::SourceWrongSize) => {}
        _ => panic!("a raster of the wrong size must be refused"),
    }
}

#[test]
fn generate_accepts_exact_size() {
    let p = puzzle_with(16, (2, 2), vec![9u8; 32 * 32 * 3]);
    assert_eq!(p.division(), (2, 2));
    assert_eq!(p.division_size(), 16);
    assert_eq!(p.image().width(), 32);
    assert_eq!(p.image().height(), 32);
}

#[test]
fn raster_rejects_short_buffer() {
    assert!(Raster::from_bytes(4, 4, vec![0u8; 47]).is_none());
    assert!(Raster::from_bytes(4, 4, vec![0u8; 48]).is_some());
}
