use maze::{
    gen_maze, gen_rooms, open_rooms, prepare_maze, Direction, DirectionalBias, MazeParams, Tile,
    TilePos,
};
use turborand::rng::AtomicRng;
use turborand::SeededCore;

const CENTER: TilePos = TilePos { x: 64, y: 64 };
const SIDES: [Direction; 4] = [Direction::Top, Direction::Right, Direction::Bottom, Direction::Left];

fn params(width: u16, height: u16, rooms: u16) -> MazeParams {
    MazeParams { width, height, rooms, bias: DirectionalBias::Unbiased }
}

fn at(tiles: &[Tile], pos: TilePos) -> Tile {
    tiles[(pos.y * 128 + pos.x) as usize]
}

fn inside(p: MazeParams, x: u32, y: u32) -> bool {
    p.margin_x() <= x
        && x < p.margin_x() + p.width()
        && p.margin_y() <= y
        && y < p.margin_y() + p.height()
}

fn step(pos: TilePos, side: Direction) -> TilePos {
    match side {
        Direction::Top => TilePos { x: pos.x, y: pos.y + 1 },
        Direction::Right => TilePos { x: pos.x + 1, y: pos.y },
        Direction::Bottom => TilePos { x: pos.x, y: pos.y - 1 },
        Direction::Left => TilePos { x: pos.x - 1, y: pos.y },
    }
}

fn is_room(tiles: &[Tile], p: MazeParams, pos: TilePos) -> bool {
    SIDES.into_iter().all(|side| {
        let next = step(pos, side);
        at(tiles, pos).is_open(side)
            && (!inside(p, next.x, next.y) || at(tiles, next).is_open(-side))
    })
}

fn rooms_of(tiles: &[Tile], p: MazeParams) -> Vec<TilePos> {
    let mut rooms = Vec::new();
    for x in p.margin_x()..p.margin_x() + p.width() {
        for y in p.margin_y()..p.margin_y() + p.height() {
            if at(tiles, TilePos { x, y }).0 & 0b1111 == 0 {
                rooms.push(TilePos { x, y });
            }
        }
    }
    rooms
}

fn walls_agree(tiles: &[Tile], p: MazeParams) -> bool {
    for x in p.margin_x()..p.margin_x() + p.width() {
        for y in p.margin_y()..p.margin_y() + p.height() {
            let pos = TilePos { x, y };
            for side in SIDES {
                let next = step(pos, side);
                if inside(p, next.x, next.y)
                    && at(tiles, pos).is_open(side) != at(tiles, next).is_open(-side)
                {
                    return false;
                }
            }
        }
    }
    true
}

#[test]
fn no_rooms_leaves_the_table_alone() {
    let p = params(7, 5, 0);
    let rng = AtomicRng::with_seed(4);
    let mut tiles = prepare_maze(&rng, p);
    gen_maze(&mut tiles, &rng, p);
    let before = tiles.clone();
    gen_rooms(&mut tiles, &rng, p);
    assert_eq!(tiles, before);
}

#[test]
fn one_room_is_the_middle_tile() {
    let p = params(7, 5, 1);
    let rng = AtomicRng::with_seed(4);
    let mut tiles = prepare_maze(&rng, p);
    gen_rooms(&mut tiles, &rng, p);
    assert_eq!(rooms_of(&tiles, p), vec![CENTER]);
    assert_eq!(at(&tiles, CENTER), Tile(0xf0));
    assert_eq!(at(&tiles, TilePos { x: 64, y: 65 }), Tile(0xfd));
    assert_eq!(at(&tiles, TilePos { x: 65, y: 64 }), Tile(0xfe));
    assert_eq!(at(&tiles, TilePos { x: 64, y: 63 }), Tile(0xf7));
    assert_eq!(at(&tiles, TilePos { x: 63, y: 64 }), Tile(0xfb));
    let changed = tiles.iter().filter(|tile| !tile.is_grass() && tile.0 != 0xff).count();
    assert_eq!(changed, 5);
}

#[test]
fn rooms_lie_off_the_outermost_ring() {
    for seed in 0..30 {
        let p = params(7, 5, 4);
        let rng = AtomicRng::with_seed(seed);
        let mut tiles = prepare_maze(&rng, p);
        gen_rooms(&mut tiles, &rng, p);
        let rooms = rooms_of(&tiles, p);
        assert!(rooms.contains(&CENTER));
        assert!(rooms.len() == 3 || rooms.len() == 4, "{rooms:?}");
        for room in rooms {
            assert!(p.margin_x() + 1 <= room.x && room.x < p.margin_x() + p.width() - 1);
            assert!(p.margin_y() + 1 <= room.y && room.y < p.margin_y() + p.height() - 1);
            assert!(is_room(&tiles, p, room));
        }
    }
}

#[test]
fn more_rooms_than_places_fill_every_place() {
    let p = params(5, 4, 100);
    let rng = AtomicRng::with_seed(2);
    let mut tiles = prepare_maze(&rng, p);
    gen_rooms(&mut tiles, &rng, p);
    let rooms = rooms_of(&tiles, p);
    assert_eq!(rooms.len(), 3 * 2);
    for room in rooms {
        assert!(is_room(&tiles, p, room));
    }
}

#[test]
fn narrow_maze_gets_only_the_middle_room() {
    let p = params(2, 9, 5);
    let rng = AtomicRng::with_seed(2);
    let mut tiles = prepare_maze(&rng, p);
    gen_rooms(&mut tiles, &rng, p);
    assert_eq!(rooms_of(&tiles, p), vec![CENTER]);
    assert!(walls_agree(&tiles, p));
}

#[test]
fn rooms_are_open_to_all_sides_after_generation() {
    for seed in 0..10 {
        let p = params(15, 11, 6);
        let rng = AtomicRng::with_seed(seed);
        let mut tiles = prepare_maze(&rng, p);
        gen_maze(&mut tiles, &rng, p);
        let before = tiles.clone();
        gen_rooms(&mut tiles, &rng, p);
        assert!(is_room(&tiles, p, CENTER));
        assert!(walls_agree(&tiles, p));
        let mut rooms = 0;
        for (i, (old, new)) in before.iter().zip(&tiles).enumerate() {
            assert_eq!(new.0 & 0xf0, old.0 & 0xf0);
            assert_eq!(new.0 & old.0, new.0);
            let (x, y) = (i as u32 % 128, i as u32 / 128);
            if !inside(p, x, y) {
                assert_eq!(new, old);
            } else if new.0 & 0b1111 == 0 && is_room(&tiles, p, TilePos { x, y }) {
                rooms += 1;
            }
        }
        assert!(rooms >= 5);
    }
}

#[test]
fn rooms_opened_at_given_tiles() {
    let p = params(5, 5, 0);
    let mut tiles = vec![Tile(0x3f); 128 * 128];
    for x in 62..67 {
        for y in 62..67 {
            tiles[(y * 128 + x) as usize] = Tile(0xff);
        }
    }
    let before = tiles.clone();
    let rooms = vec![TilePos { x: 63, y: 63 }, TilePos { x: 64, y: 63 }];
    open_rooms(&mut tiles, &rooms, p);
    assert_eq!(at(&tiles, TilePos { x: 63, y: 63 }), Tile(0xf0));
    assert_eq!(at(&tiles, TilePos { x: 64, y: 63 }), Tile(0xf0));
    assert_eq!(at(&tiles, TilePos { x: 62, y: 63 }), Tile(0xfb));
    assert_eq!(at(&tiles, TilePos { x: 65, y: 63 }), Tile(0xfe));
    assert_eq!(at(&tiles, TilePos { x: 63, y: 64 }), Tile(0xfd));
    assert_eq!(at(&tiles, TilePos { x: 64, y: 64 }), Tile(0xfd));
    assert_eq!(at(&tiles, TilePos { x: 63, y: 62 }), Tile(0xf7));
    assert_eq!(at(&tiles, TilePos { x: 64, y: 62 }), Tile(0xf7));
    let changed = before.iter().zip(&tiles).filter(|(old, new)| old != new).count();
    assert_eq!(changed, 8);
}

#[test]
fn room_at_the_edge_opens_towards_the_surroundings() {
    let p = params(1, 1, 1);
    let mut tiles = vec![Tile(0x3f); 128 * 128];
    tiles[64 * 128 + 64] = Tile(0xff);
    let before = tiles.clone();
    open_rooms(&mut tiles, &vec![CENTER], p);
    assert_eq!(at(&tiles, CENTER), Tile(0xf0));
    let changed = before.iter().zip(&tiles).filter(|(old, new)| old != new).count();
    assert_eq!(changed, 1);
}

#[test]
fn same_seed_gives_the_same_rooms() {
    let p = params(30, 30, 12);
    let run = |seed: u64| {
        let rng = AtomicRng::with_seed(seed);
        let mut tiles = prepare_maze(&rng, p);
        gen_maze(&mut tiles, &rng, p);
        gen_rooms(&mut tiles, &rng, p);
        tiles
    };
    assert_eq!(run(5), run(5));
    assert_ne!(run(5), run(6));
}
