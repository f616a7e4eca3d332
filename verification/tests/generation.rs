use maze::{
    gen_maze, next_maze, prepare_maze, step_pool, Direction, DirectionalBias, MazeParams, Tile,
    TilePos,
};
use turborand::rng::AtomicRng;
use turborand::SeededCore;

const CENTER: TilePos = TilePos { x: 64, y: 64 };

fn params(width: u16, height: u16, bias: DirectionalBias) -> MazeParams {
    MazeParams { width, height, rooms: 0, bias }
}

fn at(tiles: &[Tile], x: u32, y: u32) -> Tile {
    tiles[(y * 128 + x) as usize]
}

fn inside(p: MazeParams, x: u32, y: u32) -> bool {
    p.margin_x() <= x
        && x < p.margin_x() + p.width()
        && p.margin_y() <= y
        && y < p.margin_y() + p.height()
}

/// The passages of the maze as (horizontal, vertical) counts, each wall counted once.
fn passages(tiles: &[Tile], p: MazeParams) -> (usize, usize) {
    let mut horizontal = 0;
    let mut vertical = 0;
    for x in p.margin_x()..p.margin_x() + p.width() {
        for y in p.margin_y()..p.margin_y() + p.height() {
            if inside(p, x + 1, y) && at(tiles, x, y).is_open(Direction::Right) {
                horizontal += 1;
            }
            if inside(p, x, y + 1) && at(tiles, x, y).is_open(Direction::Top) {
                vertical += 1;
            }
        }
    }
    (horizontal, vertical)
}

/// The number of maze tiles that a breadth-first traversal from `from` visits.
fn reached(tiles: &[Tile], p: MazeParams, from: TilePos) -> usize {
    let mut seen = vec![false; 128 * 128];
    let mut queue = std::collections::VecDeque::new();
    seen[(from.y * 128 + from.x) as usize] = true;
    queue.push_back(from);
    let mut count = 0;
    while let Some(pos) = queue.pop_front() {
        count += 1;
        let steps = [
            (Direction::Top, pos.x, pos.y + 1),
            (Direction::Right, pos.x + 1, pos.y),
            (Direction::Bottom, pos.x, pos.y - 1),
            (Direction::Left, pos.x - 1, pos.y),
        ];
        for (side, x, y) in steps {
            if inside(p, x, y) && at(tiles, pos.x, pos.y).is_open(side) {
                let i = (y * 128 + x) as usize;
                if !seen[i] {
                    seen[i] = true;
                    queue.push_back(TilePos { x, y });
                }
            }
        }
    }
    count
}

fn walls_agree(tiles: &[Tile], p: MazeParams) -> bool {
    for x in p.margin_x()..p.margin_x() + p.width() {
        for y in p.margin_y()..p.margin_y() + p.height() {
            if inside(p, x + 1, y)
                && at(tiles, x, y).is_open(Direction::Right)
                    != at(tiles, x + 1, y).is_open(Direction::Left)
            {
                return false;
            }
            if inside(p, x, y + 1)
                && at(tiles, x, y).is_open(Direction::Top)
                    != at(tiles, x, y + 1).is_open(Direction::Bottom)
            {
                return false;
            }
        }
    }
    true
}

fn generate(seed: u64, p: MazeParams) -> (Vec<Tile>, Vec<Tile>, TilePos) {
    let rng = AtomicRng::with_seed(seed);
    let before = prepare_maze(&rng, p);
    let mut tiles = before.clone();
    let exit = gen_maze(&mut tiles, &rng, p);
    (before, tiles, exit)
}

#[test]
fn prepared_table_is_closed_inside_and_grass_outside() {
    let p = params(7, 5, DirectionalBias::Unbiased);
    let rng = AtomicRng::with_seed(1);
    let tiles = prepare_maze(&rng, p);
    assert_eq!(tiles.len(), 128 * 128);
    for y in 0..128 {
        for x in 0..128 {
            let tile = at(&tiles, x, y);
            if inside(p, x, y) {
                assert_eq!(tile, Tile(0xff));
            } else {
                assert!(tile.is_grass());
                assert!(tile.0 >> 4 < 15);
            }
        }
    }
    assert_eq!(passages(&tiles, p), (0, 0));
}

#[test]
fn smallest_maze_has_eight_passages_and_every_tile_is_reached() {
    let p = params(3, 3, DirectionalBias::Unbiased);
    for seed in 0..50 {
        let (_, tiles, _) = generate(seed, p);
        let (horizontal, vertical) = passages(&tiles, p);
        assert_eq!(horizontal + vertical, 8);
        assert_eq!(reached(&tiles, p, CENTER), 9);
    }
}

#[test]
fn generated_maze_is_a_spanning_tree() {
    let sizes = [(1, 1), (1, 5), (6, 1), (2, 2), (7, 5), (10, 12), (25, 31), (40, 40)];
    for (width, height) in sizes {
        for seed in 0..4 {
            let p = params(width, height, DirectionalBias::Unbiased);
            let (_, tiles, _) = generate(seed, p);
            let (horizontal, vertical) = passages(&tiles, p);
            let count = usize::from(width) * usize::from(height);
            assert_eq!(horizontal + vertical, count - 1);
            assert_eq!(reached(&tiles, p, CENTER), count);
            let corner = TilePos { x: p.margin_x(), y: p.margin_y() };
            assert_eq!(reached(&tiles, p, corner), count);
        }
    }
}

#[test]
fn largest_maze_is_a_spanning_tree() {
    let p = params(100, 100, DirectionalBias::Unbiased);
    let (_, tiles, _) = generate(3, p);
    let (horizontal, vertical) = passages(&tiles, p);
    assert_eq!(horizontal + vertical, 100 * 100 - 1);
    assert_eq!(reached(&tiles, p, CENTER), 100 * 100);
}

#[test]
fn every_bias_gives_a_spanning_tree() {
    let biases = [
        DirectionalBias::Unbiased,
        DirectionalBias::Horizontal,
        DirectionalBias::VeryHorizontal,
        DirectionalBias::Vertical,
        DirectionalBias::VeryVertical,
    ];
    for bias in biases {
        let p = params(12, 9, bias);
        let (_, tiles, _) = generate(5, p);
        let (horizontal, vertical) = passages(&tiles, p);
        assert_eq!(horizontal + vertical, 12 * 9 - 1);
        assert_eq!(reached(&tiles, p, CENTER), 12 * 9);
    }
}

#[test]
fn walls_agree_after_generation() {
    for seed in 0..10 {
        let p = params(9, 14, DirectionalBias::Horizontal);
        let (_, tiles, _) = generate(seed, p);
        assert!(walls_agree(&tiles, p));
    }
}

#[test]
fn exit_is_on_the_top_row_and_open() {
    for seed in 0..40 {
        let p = params(7, 5, DirectionalBias::Unbiased);
        let (before, tiles, exit) = generate(seed, p);
        assert_eq!(exit.y, p.margin_y() + p.height() - 1);
        assert!(p.margin_x() <= exit.x && exit.x < p.margin_x() + p.width());
        assert!(at(&tiles, exit.x, exit.y).is_open(Direction::Top));
        let above = at(&tiles, exit.x, exit.y + 1);
        assert!(above.is_open(Direction::Bottom));
        let mut expected = at(&before, exit.x, exit.y + 1);
        expected.open(Direction::Bottom);
        assert_eq!(above, expected);
    }
}

#[test]
fn generation_leaves_the_surroundings_alone() {
    let p = params(7, 5, DirectionalBias::Vertical);
    let (before, tiles, exit) = generate(8, p);
    for y in 0..128 {
        for x in 0..128 {
            let old = at(&before, x, y);
            let new = at(&tiles, x, y);
            assert_eq!(new.0 & 0xf0, old.0 & 0xf0);
            if !inside(p, x, y) && (x, y) != (exit.x, exit.y + 1) {
                assert_eq!(new, old);
            }
        }
    }
}

#[test]
fn exits_are_spread_over_the_top_row() {
    let p = params(5, 3, DirectionalBias::Unbiased);
    let mut seen = [false; 5];
    for seed in 0..200 {
        let (_, _, exit) = generate(seed, p);
        seen[(exit.x - p.margin_x()) as usize] = true;
    }
    assert_eq!(seen, [true; 5]);
}

#[test]
fn same_seed_gives_the_same_maze() {
    let p = params(20, 17, DirectionalBias::VeryVertical);
    let (before_a, tiles_a, exit_a) = generate(77, p);
    let (before_b, tiles_b, exit_b) = generate(77, p);
    assert_eq!(before_a, before_b);
    assert_eq!(tiles_a, tiles_b);
    assert_eq!(exit_a, exit_b);
    let (_, tiles_c, _) = generate(78, p);
    assert_ne!(tiles_a, tiles_c);
}

#[test]
fn strong_horizontal_bias_gives_more_horizontal_passages() {
    let mut plain = (0, 0);
    let mut biased = (0, 0);
    let mut upright = (0, 0);
    for seed in 0..30 {
        let (_, tiles, _) = generate(seed, params(20, 20, DirectionalBias::Unbiased));
        let (h, v) = passages(&tiles, params(20, 20, DirectionalBias::Unbiased));
        plain = (plain.0 + h, plain.1 + v);
        let (_, tiles, _) = generate(seed, params(20, 20, DirectionalBias::VeryHorizontal));
        let (h, v) = passages(&tiles, params(20, 20, DirectionalBias::VeryHorizontal));
        biased = (biased.0 + h, biased.1 + v);
        let (_, tiles, _) = generate(seed, params(20, 20, DirectionalBias::VeryVertical));
        let (h, v) = passages(&tiles, params(20, 20, DirectionalBias::VeryVertical));
        upright = (upright.0 + h, upright.1 + v);
    }
    let ratio = |(h, v): (usize, usize)| h as f64 / v as f64;
    assert!(ratio(biased) > 1.2 * ratio(plain));
    assert!(ratio(upright) < ratio(plain) / 1.2);
}

#[test]
fn pool_without_bias_lists_each_candidate_once() {
    let p = params(5, 5, DirectionalBias::Unbiased);
    let pool = step_pool(CENTER, &[CENTER], p);
    assert_eq!(
        pool,
        vec![
            (TilePos { x: 64, y: 65 }, Direction::Top),
            (TilePos { x: 65, y: 64 }, Direction::Right),
            (TilePos { x: 64, y: 63 }, Direction::Bottom),
            (TilePos { x: 63, y: 64 }, Direction::Left),
        ]
    );
}

#[test]
fn pool_with_bias_repeats_the_favoured_axis() {
    let top = (TilePos { x: 64, y: 65 }, Direction::Top);
    let right = (TilePos { x: 65, y: 64 }, Direction::Right);
    let bottom = (TilePos { x: 64, y: 63 }, Direction::Bottom);
    let left = (TilePos { x: 63, y: 64 }, Direction::Left);
    let all = vec![top, right, bottom, left];

    let pool = step_pool(CENTER, &[CENTER], params(5, 5, DirectionalBias::Horizontal));
    assert_eq!(pool, [vec![right, left], all.clone()].concat());
    let pool = step_pool(CENTER, &[CENTER], params(5, 5, DirectionalBias::Vertical));
    assert_eq!(pool, [vec![top, bottom], all.clone()].concat());
    let pool = step_pool(CENTER, &[CENTER], params(5, 5, DirectionalBias::VeryHorizontal));
    assert_eq!(pool.len(), 12);
    assert_eq!(pool, [vec![right, left, right, left, right, left, right, left], all.clone()].concat());
    let sideways = |step: &&(TilePos, Direction)| matches!(step.1, Direction::Left | Direction::Right);
    assert_eq!(pool.iter().filter(sideways).count(), 10);
    let pool = step_pool(CENTER, &[CENTER], params(5, 5, DirectionalBias::VeryVertical));
    assert_eq!(pool, [vec![top, bottom, top, bottom, top, bottom, top, bottom], all].concat());
}

#[test]
fn pool_leaves_out_visited_tiles_and_the_tile_itself() {
    let p = params(3, 3, DirectionalBias::Horizontal);
    let corner = TilePos { x: 63, y: 63 };
    let visited = [CENTER, TilePos { x: 64, y: 63 }, corner];
    let pool = step_pool(corner, &visited, p);
    assert_eq!(pool, vec![(TilePos { x: 63, y: 64 }, Direction::Top)]);
    let pool = step_pool(CENTER, &visited, p);
    assert_eq!(
        pool,
        vec![
            (TilePos { x: 65, y: 64 }, Direction::Right),
            (TilePos { x: 63, y: 64 }, Direction::Left),
            (TilePos { x: 64, y: 65 }, Direction::Top),
            (TilePos { x: 65, y: 64 }, Direction::Right),
            (TilePos { x: 63, y: 64 }, Direction::Left),
        ]
    );
}

#[test]
fn next_step_leads_to_an_unvisited_neighbor() {
    let p = params(5, 5, DirectionalBias::VeryHorizontal);
    let rng = AtomicRng::with_seed(9);
    let visited = [CENTER, TilePos { x: 64, y: 65 }];
    let mut seen = Vec::new();
    for _ in 0..200 {
        let (next, side) = next_maze(CENTER, &visited, &rng, p).unwrap();
        let expected = match side {
            Direction::Top => unreachable!(),
            Direction::Right => TilePos { x: 65, y: 64 },
            Direction::Bottom => TilePos { x: 64, y: 63 },
            Direction::Left => TilePos { x: 63, y: 64 },
        };
        assert_eq!(next, expected);
        if !seen.contains(&side) {
            seen.push(side);
        }
    }
    assert_eq!(seen.len(), 3);
}

#[test]
fn next_step_is_none_at_a_dead_end() {
    let p = params(3, 3, DirectionalBias::Unbiased);
    let rng = AtomicRng::with_seed(9);
    let corner = TilePos { x: 63, y: 63 };
    let visited = [corner, TilePos { x: 64, y: 63 }, TilePos { x: 63, y: 64 }];
    assert_eq!(next_maze(corner, &visited, &rng, p), None);
    assert_eq!(next_maze(CENTER, &[CENTER], &rng, params(1, 1, DirectionalBias::Unbiased)), None);
}

#[test]
fn exit_is_the_only_breach_in_the_edge_of_the_maze() {
    for seed in 0..10 {
        let p = params(9, 6, DirectionalBias::Unbiased);
        let (_, tiles, exit) = generate(seed, p);
        let (left, bottom) = (p.margin_x(), p.margin_y());
        let (right, top) = (left + p.width() - 1, bottom + p.height() - 1);
        let mut breaches = Vec::new();
        for x in left..=right {
            for y in bottom..=top {
                let tile = at(&tiles, x, y);
                let sides = [
                    (y == top, Direction::Top),
                    (x == right, Direction::Right),
                    (y == bottom, Direction::Bottom),
                    (x == left, Direction::Left),
                ];
                for (on_edge, side) in sides {
                    if on_edge && tile.is_open(side) {
                        breaches.push((TilePos { x, y }, side));
                    }
                }
            }
        }
        assert_eq!(breaches, vec![(exit, Direction::Top)]);
    }
}
