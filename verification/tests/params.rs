use maze::{clamp_size, neighbors, Direction, DirectionalBias, MazeParams, TilePos};

fn params(width: u16, height: u16) -> MazeParams {
    MazeParams { width, height, rooms: 0, bias: DirectionalBias::Unbiased }
}

#[test]
fn default_parameters() {
    let p = MazeParams::default();
    assert_eq!(p.width, 7);
    assert_eq!(p.height, 5);
    assert_eq!(p.rooms, 2);
    assert_eq!(p.bias, DirectionalBias::Unbiased);
}

#[test]
fn margins_centre_the_maze_behind_a_border() {
    assert_eq!(params(7, 5).margin_x(), 61);
    assert_eq!(params(7, 5).margin_y(), 62);
    assert_eq!(params(3, 3).margin_x(), 63);
    assert_eq!(params(4, 6).margin_x(), 63);
    assert_eq!(params(4, 6).margin_y(), 62);
    assert_eq!(params(100, 100).margin_y(), 15);
    assert_eq!(params(1, 2).margin_x(), 64);
    assert_eq!(params(1, 2).margin_y(), 64);
    assert_eq!(params(125, 124).margin_x(), 2);
    assert_eq!(params(125, 124).margin_y(), 3);
}

#[test]
fn width_and_height_as_u32() {
    let p = params(7, 5);
    assert_eq!(p.width(), 7u32);
    assert_eq!(p.height(), 5u32);
}

#[test]
fn the_middle_of_the_canvas_lies_in_every_maze() {
    for width in 1..=125u16 {
        let p = params(width, width);
        assert!(p.margin_x() <= 64 && 64 < p.margin_x() + p.width());
        assert!(p.margin_x() + p.width() <= 127);
    }
}

#[test]
fn neighbors_come_in_the_order_top_right_bottom_left() {
    let around = neighbors(TilePos { x: 64, y: 64 }, params(7, 5));
    assert_eq!(around[0], (TilePos { x: 64, y: 65 }, Direction::Top));
    assert_eq!(around[1], (TilePos { x: 65, y: 64 }, Direction::Right));
    assert_eq!(around[2], (TilePos { x: 64, y: 63 }, Direction::Bottom));
    assert_eq!(around[3], (TilePos { x: 63, y: 64 }, Direction::Left));
}

#[test]
fn neighbors_are_held_back_at_the_edge() {
    let p = params(3, 3);
    let corner = TilePos { x: 63, y: 63 };
    let around = neighbors(corner, p);
    assert_eq!(around[0], (TilePos { x: 63, y: 64 }, Direction::Top));
    assert_eq!(around[1], (TilePos { x: 64, y: 63 }, Direction::Right));
    assert_eq!(around[2], (corner, Direction::Bottom));
    assert_eq!(around[3], (corner, Direction::Left));
    let corner = TilePos { x: 65, y: 65 };
    let around = neighbors(corner, p);
    assert_eq!(around[0], (corner, Direction::Top));
    assert_eq!(around[1], (corner, Direction::Right));
    assert_eq!(around[2], (TilePos { x: 65, y: 64 }, Direction::Bottom));
    assert_eq!(around[3], (TilePos { x: 64, y: 65 }, Direction::Left));
}

#[test]
fn the_only_tile_of_a_maze_is_its_own_neighbor() {
    let only = TilePos { x: 64, y: 64 };
    for (pos, _) in neighbors(only, params(1, 1)) {
        assert_eq!(pos, only);
    }
}

#[test]
fn valid_mazes_leave_a_border_free() {
    assert!(params(1, 1).is_valid());
    assert!(params(3, 100).is_valid());
    assert!(params(125, 125).is_valid());
    assert!(!params(0, 5).is_valid());
    assert!(!params(5, 0).is_valid());
    assert!(!params(126, 5).is_valid());
    assert!(!params(5, 126).is_valid());
    assert!(!params(128, 128).is_valid());
    assert!(!params(u16::MAX, 3).is_valid());
    for size in 1..=125u16 {
        let p = params(size, size);
        assert!(p.margin_x() >= 2);
        assert!(p.margin_x() + p.width() <= 127);
    }
}

#[test]
fn maze_includes_its_tiles_only() {
    let p = params(7, 5);
    assert!(p.includes(TilePos { x: 61, y: 62 }));
    assert!(p.includes(TilePos { x: 67, y: 66 }));
    assert!(p.includes(TilePos { x: 64, y: 64 }));
    assert!(!p.includes(TilePos { x: 60, y: 64 }));
    assert!(!p.includes(TilePos { x: 68, y: 64 }));
    assert!(!p.includes(TilePos { x: 64, y: 61 }));
    assert!(!p.includes(TilePos { x: 64, y: 67 }));
    assert!(!p.includes(TilePos { x: 0, y: 0 }));
}

#[test]
fn sizes_are_clamped_to_what_is_offered() {
    assert_eq!(clamp_size(0), 3);
    assert_eq!(clamp_size(2), 3);
    assert_eq!(clamp_size(3), 3);
    assert_eq!(clamp_size(57), 57);
    assert_eq!(clamp_size(100), 100);
    assert_eq!(clamp_size(101), 100);
    assert_eq!(clamp_size(u16::MAX), 100);
}
