use maze::{
    adjust_maze_textures, gen_maze, gen_rooms, prepare_maze, tile_bits, Direction,
    DirectionalBias, MazeParams, Tile,
};
use turborand::rng::AtomicRng;
use turborand::SeededCore;

fn table(fill: u8) -> Vec<Tile> {
    vec![Tile(fill); 128 * 128]
}

fn closed(tile: Tile, side: Direction) -> bool {
    let flag = match side {
        Direction::Top => 0b1000,
        Direction::Right => 0b0100,
        Direction::Bottom => 0b0010,
        Direction::Left => 0b0001,
    };
    tile.0 & flag != 0
}

/// The corner bits worked out from the bytes alone.
fn expected_bits(i: usize, tiles: &[Tile]) -> u8 {
    let byte = tiles[i].0;
    if byte & 0b1111 == 0b1111 && byte != 0xff {
        return byte;
    }
    let mut bits = byte & 0b1111;
    let (x, y) = (i % 128, i / 128);
    if x == 0 || x == 127 || y == 0 || y == 127 {
        return bits;
    }
    if closed(tiles[i - 1], Direction::Top) || closed(tiles[i + 128], Direction::Left) {
        bits |= 0x80;
    }
    if closed(tiles[i + 1], Direction::Top) || closed(tiles[i + 128], Direction::Right) {
        bits |= 0x40;
    }
    if closed(tiles[i - 1], Direction::Bottom) || closed(tiles[i - 128], Direction::Left) {
        bits |= 0x20;
    }
    if closed(tiles[i + 1], Direction::Bottom) || closed(tiles[i - 128], Direction::Right) {
        bits |= 0x10;
    }
    bits
}

#[test]
fn grass_keeps_its_byte() {
    let mut tiles = table(0);
    tiles[64 * 128 + 64] = Tile(0x5f);
    assert_eq!(tile_bits(64 * 128 + 64, &tiles), 0x5f);
}

#[test]
fn open_tile_among_open_tiles_has_no_corner_bits() {
    let tiles = table(0);
    assert_eq!(tile_bits(64 * 128 + 64, &tiles), 0);
}

#[test]
fn closed_tile_among_closed_tiles_has_every_bit() {
    let tiles = table(0xff);
    assert_eq!(tile_bits(64 * 128 + 64, &tiles), 0xff);
}

#[test]
fn tiles_on_the_rim_keep_only_their_flags() {
    let tiles = table(0xf5);
    for i in [0, 5, 127, 128, 255, 127 * 128, 127 * 128 + 1, 128 * 128 - 1, 64 * 128, 64 * 128 + 127] {
        assert_eq!(tile_bits(i, &tiles), 0x05, "place {i}");
    }
    assert_eq!(tile_bits(129, &tiles), 0xf5);
    assert_eq!(tile_bits(126 * 128 + 126, &tiles), 0xf5);
}

#[test]
fn each_corner_bit_looks_at_two_neighbors() {
    let at = 64 * 128 + 64;
    let cases: [(usize, u8, u8); 8] = [
        (at - 1, 0b1000, 0x80),
        (at + 128, 0b0001, 0x80),
        (at + 1, 0b1000, 0x40),
        (at + 128, 0b0100, 0x40),
        (at - 1, 0b0010, 0x20),
        (at - 128, 0b0001, 0x20),
        (at + 1, 0b0010, 0x10),
        (at - 128, 0b0100, 0x10),
    ];
    for (neighbor, flag, bit) in cases {
        let mut tiles = table(0);
        tiles[at] = Tile(0b0110);
        tiles[neighbor] = Tile(flag);
        assert_eq!(tile_bits(at, &tiles), 0b0110 | bit, "neighbor {neighbor}, flag {flag}");
    }
}

#[test]
fn grass_next_to_a_tile_counts_as_closed() {
    let at = 64 * 128 + 64;
    let mut tiles = table(0);
    tiles[at - 1] = Tile(0x3f);
    assert_eq!(tile_bits(at, &tiles), 0x80 | 0x20);
}

#[test]
fn old_corner_bits_are_dropped() {
    let at = 64 * 128 + 64;
    let mut tiles = table(0);
    tiles[at] = Tile(0xf3);
    assert_eq!(tile_bits(at, &tiles), 0x03);
}

#[test]
fn adjusting_opens_the_border_and_works_out_every_tile() {
    for seed in 0..5 {
        let p = MazeParams { width: 7, height: 5, rooms: 2, bias: DirectionalBias::Unbiased };
        let rng = AtomicRng::with_seed(seed);
        let mut tiles = prepare_maze(&rng, p);
        gen_maze(&mut tiles, &rng, p);
        gen_rooms(&mut tiles, &rng, p);

        let mut expected = tiles.clone();
        let (left, bottom) = (p.margin_x() as usize, p.margin_y() as usize);
        let (right, top) = (left + 7, bottom + 5);
        for x in left - 1..=right {
            expected[top * 128 + x].0 &= !0b1101;
            expected[(bottom - 1) * 128 + x].0 &= !0b0111;
        }
        for y in bottom - 1..=top {
            expected[y * 128 + right].0 &= !0b1110;
            expected[y * 128 + left - 1].0 &= !0b1011;
        }
        let opened = expected.clone();
        for i in 0..expected.len() {
            expected[i] = Tile(expected_bits(i, &opened));
        }
        for x in left - 1..=right {
            expected[top * 128 + x].0 &= 0b0011_1111;
            expected[(bottom - 1) * 128 + x].0 &= 0b1100_1111;
        }
        for y in bottom - 1..=top {
            expected[y * 128 + right].0 &= 0b1010_1111;
            expected[y * 128 + left - 1].0 &= 0b0101_1111;
        }

        adjust_maze_textures(&mut tiles, p);
        assert_eq!(tiles, expected);
    }
}

#[test]
fn adjusting_keeps_every_wall_of_the_maze() {
    let p = MazeParams { width: 12, height: 9, rooms: 3, bias: DirectionalBias::Horizontal };
    let rng = AtomicRng::with_seed(17);
    let mut tiles = prepare_maze(&rng, p);
    gen_maze(&mut tiles, &rng, p);
    gen_rooms(&mut tiles, &rng, p);
    let before = tiles.clone();
    adjust_maze_textures(&mut tiles, p);
    for x in p.margin_x()..p.margin_x() + p.width() {
        for y in p.margin_y()..p.margin_y() + p.height() {
            let i = (y * 128 + x) as usize;
            assert_eq!(tiles[i].0 & 0b1111, before[i].0 & 0b1111);
        }
    }
    // Far from the maze the grass is as it was.
    assert_eq!(tiles[..128 * 50], before[..128 * 50]);
}

#[test]
fn the_corner_of_the_border_is_opened_from_both_sides() {
    let p = MazeParams { width: 3, height: 3, rooms: 0, bias: DirectionalBias::Unbiased };
    let mut tiles = table(0xff);
    adjust_maze_textures(&mut tiles, p);
    // Above and to the right of the maze: top, left, right and bottom walls are all taken
    // down, and of the corner bits only the one towards the maze is left.
    let corner = tiles[66 * 128 + 66];
    assert_eq!(corner.0 & 0b1111, 0);
    assert_eq!(corner.0 & 0b1101_0000, 0);
    let corner = tiles[62 * 128 + 62];
    assert_eq!(corner.0 & 0b1111, 0);
    assert_eq!(corner.0 & 0b1011_0000, 0);
}
