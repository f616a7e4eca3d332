use maze::{
    gen_maze, gen_rooms, prepare_maze, solve_maze, Direction, DirectionalBias, Maze, MazeParams,
    SortedTree, Tile, TilePos,
};
use turborand::rng::AtomicRng;
use turborand::SeededCore;

const SIDES: [Direction; 4] = [Direction::Top, Direction::Right, Direction::Bottom, Direction::Left];

fn params(width: u16, height: u16) -> MazeParams {
    MazeParams { width, height, rooms: 0, bias: DirectionalBias::Unbiased }
}

fn inside(p: MazeParams, pos: TilePos) -> bool {
    p.margin_x() <= pos.x
        && pos.x < p.margin_x() + p.width()
        && p.margin_y() <= pos.y
        && pos.y < p.margin_y() + p.height()
}

fn step(pos: TilePos, side: Direction) -> TilePos {
    match side {
        Direction::Top => TilePos { x: pos.x, y: pos.y + 1 },
        Direction::Right => TilePos { x: pos.x + 1, y: pos.y },
        Direction::Bottom => TilePos { x: pos.x, y: pos.y - 1 },
        Direction::Left => TilePos { x: pos.x - 1, y: pos.y },
    }
}

/// A closed maze of the given size in a table of grass.
fn closed(p: MazeParams) -> Vec<Tile> {
    let mut tiles = vec![Tile(0x2f); 128 * 128];
    for x in p.margin_x()..p.margin_x() + p.width() {
        for y in p.margin_y()..p.margin_y() + p.height() {
            tiles[(y * 128 + x) as usize] = Tile(0xff);
        }
    }
    tiles
}

/// Takes down the wall between `pos` and the tile towards `side`, from both sides.
fn connect(tiles: &mut [Tile], pos: TilePos, side: Direction) {
    let next = step(pos, side);
    tiles[(pos.y * 128 + pos.x) as usize].open(side);
    tiles[(next.y * 128 + next.x) as usize].open(-side);
}

/// Breadth-first distances from `start`, by flat index.
fn distances(maze: &Maze, p: MazeParams, start: TilePos) -> Vec<Option<usize>> {
    let mut found = vec![None; 128 * 128];
    let mut queue = std::collections::VecDeque::new();
    found[start.index() as usize] = Some(0);
    queue.push_back(start);
    while let Some(pos) = queue.pop_front() {
        let here = found[pos.index() as usize].unwrap();
        for side in SIDES {
            let next = step(pos, side);
            if inside(p, next) && maze.get(pos).is_open(side) && found[next.index() as usize].is_none() {
                found[next.index() as usize] = Some(here + 1);
                queue.push_back(next);
            }
        }
    }
    found
}

/// The number of parent links between the node at `index` and the root.
fn path_length(tree: &SortedTree<TilePos>, mut index: usize) -> usize {
    let mut steps = 0;
    while let Some(parent) = tree.parent(index) {
        index = parent;
        steps += 1;
        assert!(steps <= tree.len());
    }
    steps
}

fn check_against_oracle(maze: &Maze, p: MazeParams, start: TilePos) {
    let tree = solve_maze(maze, start, p);
    let oracle = distances(maze, p, start);
    let mut linked = 0;
    for x in p.margin_x()..p.margin_x() + p.width() {
        for y in p.margin_y()..p.margin_y() + p.height() {
            let pos = TilePos { x, y };
            match (oracle[pos.index() as usize], tree.search(&pos)) {
                (Some(distance), Some(index)) => {
                    linked += 1;
                    assert_eq!(tree.get(index), Some(&pos));
                    if pos != start {
                        assert_eq!(path_length(&tree, index), distance);
                        let parent = *tree.get(tree.parent(index).unwrap()).unwrap();
                        let side = SIDES.into_iter().find(|&side| step(pos, side) == parent);
                        assert!(maze.get(pos).is_open(side.unwrap()));
                        assert_eq!(oracle[parent.index() as usize], Some(distance - 1));
                    } else {
                        assert!(path_length(&tree, index) <= 1);
                    }
                }
                (None, None) => {}
                (distance, index) => panic!("{pos:?}: distance {distance:?}, node {index:?}"),
            }
        }
    }
    assert_eq!(tree.len(), linked + 1);
    for i in 1..tree.len() {
        assert!(tree.get(i - 1) <= tree.get(i));
    }
    let roots: Vec<usize> = (0..tree.len()).filter(|&i| tree.parent(i).is_none()).collect();
    assert_eq!(roots.len(), 1);
    assert_eq!(tree.get(roots[0]), Some(&start));
}

/// A maze of five by five tiles whose passages wind through it as one corridor, column by
/// column, from the bottom left corner.
fn corridor() -> (Maze, MazeParams, Vec<TilePos>) {
    let p = params(5, 5);
    let mut tiles = closed(p);
    let mut order = Vec::new();
    for column in 0..5u32 {
        for row in 0..5u32 {
            let y = if column % 2 == 0 { 62 + row } else { 66 - row };
            order.push(TilePos { x: 62 + column, y });
        }
    }
    for pair in order.windows(2) {
        let side = SIDES.into_iter().find(|&side| step(pair[0], side) == pair[1]).unwrap();
        connect(&mut tiles, pair[0], side);
    }
    (Maze::new(tiles), p, order)
}

#[test]
fn table_hands_out_tiles_by_position() {
    let mut tiles = vec![Tile(0x0f); 128 * 128];
    tiles[3 * 128 + 5] = Tile(0xa1);
    let maze = Maze::new(tiles);
    assert_eq!(maze.get(TilePos { x: 5, y: 3 }), Tile(0xa1));
    assert_eq!(maze.get(TilePos { x: 3, y: 5 }), Tile(0x0f));
    assert_eq!(maze.tiles.len(), 128 * 128);
}

#[test]
fn corridor_from_its_end() {
    let (maze, p, order) = corridor();
    let tree = solve_maze(&maze, order[0], p);
    assert_eq!(tree.len(), 26);
    for (distance, pos) in order.iter().enumerate().skip(1) {
        let index = tree.search(pos).unwrap();
        assert_eq!(path_length(&tree, index), distance);
        let parent = tree.parent(index).unwrap();
        assert_eq!(tree.get(parent), Some(&order[distance - 1]));
    }
    check_against_oracle(&maze, p, order[0]);
}

#[test]
fn corridor_from_its_middle() {
    let (maze, p, order) = corridor();
    let start = order[12];
    assert_eq!(start, TilePos { x: 64, y: 64 });
    let tree = solve_maze(&maze, start, p);
    for (i, pos) in order.iter().enumerate() {
        if i != 12 {
            let index = tree.search(pos).unwrap();
            assert_eq!(path_length(&tree, index), i.abs_diff(12));
        }
    }
    check_against_oracle(&maze, p, start);
}

#[test]
fn start_is_the_root_and_its_first_child() {
    let (maze, p, order) = corridor();
    let start = order[3];
    let tree = solve_maze(&maze, start, p);
    let holding: Vec<usize> = (0..tree.len()).filter(|&i| tree.get(i) == Some(&start)).collect();
    assert_eq!(holding.len(), 2);
    assert_eq!(holding[1], holding[0] + 1);
    let root = if tree.parent(holding[0]).is_none() { holding[0] } else { holding[1] };
    let child = holding[0] + holding[1] - root;
    assert_eq!(tree.parent(root), None);
    assert_eq!(tree.parent(child), Some(root));
}

#[test]
fn shorter_way_round_is_taken() {
    // A ring around the middle tile of a maze of three by three tiles.
    let p = params(3, 3);
    let mut tiles = closed(p);
    let ring = [(63, 63), (64, 63), (65, 63), (65, 64), (65, 65), (64, 65), (63, 65), (63, 64)];
    for i in 0..8 {
        let (x, y) = ring[i];
        let pos = TilePos { x, y };
        let (nx, ny) = ring[(i + 1) % 8];
        let side = SIDES.into_iter().find(|&s| step(pos, s) == TilePos { x: nx, y: ny }).unwrap();
        connect(&mut tiles, pos, side);
    }
    let maze = Maze::new(tiles);
    let start = TilePos { x: 63, y: 63 };
    let tree = solve_maze(&maze, start, p);
    assert_eq!(tree.len(), 9);
    assert_eq!(tree.search(&TilePos { x: 64, y: 64 }), None);
    let expected = [0, 1, 2, 3, 4, 3, 2, 1];
    for i in 1..8 {
        let (x, y) = ring[i];
        let index = tree.search(&TilePos { x, y }).unwrap();
        assert_eq!(path_length(&tree, index), expected[i]);
    }
    // The far corner is as near by either way: its parent is the first of its neighbors in
    // the order top, right, bottom, left.
    let far = tree.search(&TilePos { x: 65, y: 65 }).unwrap();
    let parent = tree.parent(far).unwrap();
    assert_eq!(tree.get(parent), Some(&TilePos { x: 65, y: 64 }));
    check_against_oracle(&maze, p, start);
}

#[test]
fn closed_maze_gives_only_the_start() {
    let p = params(4, 4);
    let maze = Maze::new(closed(p));
    let start = TilePos { x: 65, y: 64 };
    let tree = solve_maze(&maze, start, p);
    assert_eq!(tree.len(), 2);
    assert_eq!(tree.get(0), Some(&start));
    assert_eq!(tree.get(1), Some(&start));
    assert_eq!(tree.search(&TilePos { x: 64, y: 64 }), None);
    assert!(tree.search(&start).is_some());
}

#[test]
fn tiles_that_cannot_be_reached_are_left_out() {
    let p = params(5, 1);
    let mut tiles = closed(p);
    connect(&mut tiles, TilePos { x: 62, y: 64 }, Direction::Right);
    connect(&mut tiles, TilePos { x: 65, y: 64 }, Direction::Right);
    let maze = Maze::new(tiles);
    let tree = solve_maze(&maze, TilePos { x: 63, y: 64 }, p);
    assert_eq!(tree.len(), 3);
    assert!(tree.search(&TilePos { x: 62, y: 64 }).is_some());
    assert_eq!(tree.search(&TilePos { x: 64, y: 64 }), None);
    assert_eq!(tree.search(&TilePos { x: 65, y: 64 }), None);
    assert_eq!(tree.search(&TilePos { x: 66, y: 64 }), None);
    check_against_oracle(&maze, p, TilePos { x: 63, y: 64 });
}

#[test]
fn open_walls_to_the_surroundings_lead_nowhere() {
    let p = params(2, 2);
    let mut tiles = vec![Tile(0); 128 * 128];
    for (x, y) in [(64, 64), (65, 64), (64, 65), (65, 65)] {
        tiles[y * 128 + x] = Tile(0xf0);
    }
    let maze = Maze::new(tiles);
    let tree = solve_maze(&maze, TilePos { x: 64, y: 64 }, p);
    assert_eq!(tree.len(), 5);
    let far = tree.search(&TilePos { x: 65, y: 65 }).unwrap();
    assert_eq!(path_length(&tree, far), 2);
    assert_eq!(tree.get(tree.parent(far).unwrap()), Some(&TilePos { x: 65, y: 64 }));
}

#[test]
fn wall_open_from_one_side_is_walked_from_that_side_only() {
    let p = params(3, 1);
    let mut tiles = closed(p);
    tiles[64 * 128 + 63].open(Direction::Right);
    tiles[64 * 128 + 64].open(Direction::Right);
    let left = TilePos { x: 63, y: 64 };
    let middle = TilePos { x: 64, y: 64 };
    let right = TilePos { x: 65, y: 64 };
    let maze = Maze::new(tiles);
    let tree = solve_maze(&maze, left, p);
    assert_eq!(tree.len(), 4);
    // No wall of the two tiles is open towards a settled tile: they hang below the root.
    for pos in [middle, right] {
        let index = tree.search(&pos).unwrap();
        assert_eq!(tree.get(tree.parent(index).unwrap()), Some(&left));
    }
    let tree = solve_maze(&maze, right, p);
    assert_eq!(tree.len(), 2);
    assert_eq!(tree.search(&middle), None);
}

#[test]
fn generated_mazes_are_solved_like_the_oracle() {
    for seed in 0..6 {
        for (width, height, rooms) in [(3, 3, 0), (7, 5, 2), (12, 9, 0), (20, 20, 9)] {
            let p = MazeParams { width, height, rooms, bias: DirectionalBias::Unbiased };
            let rng = AtomicRng::with_seed(seed);
            let mut tiles = prepare_maze(&rng, p);
            let exit = gen_maze(&mut tiles, &rng, p);
            gen_rooms(&mut tiles, &rng, p);
            let maze = Maze::new(tiles);
            check_against_oracle(&maze, p, exit);
            check_against_oracle(&maze, p, TilePos { x: 64, y: 64 });
        }
    }
}

#[test]
fn every_tile_of_a_generated_maze_is_in_the_tree() {
    let p = MazeParams { width: 31, height: 17, rooms: 3, bias: DirectionalBias::Horizontal };
    let rng = AtomicRng::with_seed(21);
    let mut tiles = prepare_maze(&rng, p);
    let exit = gen_maze(&mut tiles, &rng, p);
    gen_rooms(&mut tiles, &rng, p);
    let maze = Maze::new(tiles);
    let tree = solve_maze(&maze, exit, p);
    assert_eq!(tree.len(), 31 * 17 + 1);
    // Walking up from the middle tile ends at the exit.
    let mut index = tree.search(&TilePos { x: 64, y: 64 }).unwrap();
    while let Some(parent) = tree.parent(index) {
        index = parent;
    }
    assert_eq!(tree.get(index), Some(&exit));
}

#[test]
fn same_maze_gives_the_same_tree() {
    let p = MazeParams { width: 16, height: 16, rooms: 4, bias: DirectionalBias::Vertical };
    let run = || {
        let rng = AtomicRng::with_seed(13);
        let mut tiles = prepare_maze(&rng, p);
        let exit = gen_maze(&mut tiles, &rng, p);
        gen_rooms(&mut tiles, &rng, p);
        let tree = solve_maze(&Maze::new(tiles), exit, p);
        (0..tree.len()).map(|i| (*tree.get(i).unwrap(), tree.parent(i))).collect::<Vec<_>>()
    };
    assert_eq!(run(), run());
}

#[test]
fn largest_maze_is_solved() {
    let p = MazeParams { width: 100, height: 100, rooms: 20, bias: DirectionalBias::Unbiased };
    let rng = AtomicRng::with_seed(1);
    let mut tiles = prepare_maze(&rng, p);
    let exit = gen_maze(&mut tiles, &rng, p);
    gen_rooms(&mut tiles, &rng, p);
    let maze = Maze::new(tiles);
    let tree = solve_maze(&maze, exit, p);
    assert_eq!(tree.len(), 100 * 100 + 1);
    let oracle = distances(&maze, p, exit);
    for (x, y) in [(15, 15), (114, 15), (64, 64), (15, 114), (114, 114)] {
        let pos = TilePos { x, y };
        let index = tree.search(&pos).unwrap();
        assert_eq!(Some(path_length(&tree, index)), oracle[pos.index() as usize]);
    }
}
