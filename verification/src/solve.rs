//! The solver: shortest walks from a start tile to every tile that can be
//! reached, as a tree that is searched by position.

use crate::carving::{lemma_rank, lemma_tile_count, lemma_unrank, rank};
use crate::distance::{
    distance, earlier, eligible, lemma_distance, lemma_distance_before, lemma_distance_start,
    lemma_distance_step, lemma_passage_back, lemma_parent_side, parent_side, parent_tile, pick,
};
use crate::generate::slot;
use crate::grid::{Direction, TilePos, MAZE_SIZE};
use crate::order::{lemma_tile_pos_eq, lemma_tile_pos_order};
use crate::params::{lemma_neighbor_in_maze, neighbors, sides, MazeParams};
use crate::passages::{canvas, joined, linked, passage, tile_at, walls_agree};
use crate::sorted_tree::{
    lemma_rearranged_paths, lemma_sorted_form_unique, sorted_form, sorts, taken, SortedTree,
};
use crate::table::Maze;
use crate::tile::Tile;
use crate::tree::{arena, depth, is_root, lemma_depth_is_path_length, path_length, Tree};
use vstd::prelude::*;

verus! {

/// Node `i` hangs below the first node that holds its parent tile.
pub open spec fn hangs_below(
    tiles: Seq<Tile>,
    params: MazeParams,
    start: TilePos,
    nodes: Seq<(TilePos, usize)>,
    i: int,
) -> bool {
    let parent = parent_tile(tiles, params, start, nodes[i].0);
    &&& nodes[nodes[i].1 as int].0 == parent
    &&& forall|j: int| 0 <= j < nodes[i].1 ==> (#[trigger] nodes[j]).0 != parent
}

/// `nodes` is the tree of shortest walks from `start`, in the order in which
/// the solver builds it: the root holds the start; after it come the tiles
/// that are linked to the start, each once, the start first, nearer tiles
/// before farther ones; and each hangs below its parent tile.
pub open spec fn shortest_walk_tree(
    tiles: Seq<Tile>,
    params: MazeParams,
    start: TilePos,
    nodes: Seq<(TilePos, usize)>,
) -> bool {
    &&& arena(nodes)
    &&& nodes[0].0 == start
    &&& forall|i: int| 1 <= i < nodes.len() ==> linked(tiles, params, start, (#[trigger] nodes[i]).0)
    &&& forall|i: int, j: int|
        1 <= i < j < nodes.len() ==> earlier(
            tiles,
            params,
            start,
            (#[trigger] nodes[i]).0,
            (#[trigger] nodes[j]).0,
        )
    &&& forall|pos: TilePos| #[trigger]
        linked(tiles, params, start, pos) ==> exists|i: int|
            1 <= i < nodes.len() && (#[trigger] nodes[i]).0 == pos
    &&& forall|i: int| 1 <= i < nodes.len() ==> #[trigger] hangs_below(tiles, params, start, nodes, i)
}

/// `nodes` is the tree of shortest walks from `start` with its nodes sorted
/// by their tiles.
pub open spec fn solved(
    tiles: Seq<Tile>,
    params: MazeParams,
    start: TilePos,
    nodes: Seq<(TilePos, usize)>,
) -> bool {
    exists|built: Seq<(TilePos, usize)>| #[trigger]
        shortest_walk_tree(tiles, params, start, built) && sorted_form(built, nodes)
}

/// One of the first `k` sides of `pos` is a passage to `to`.
pub open spec fn joined_within(
    tiles: Seq<Tile>,
    params: MazeParams,
    pos: TilePos,
    to: TilePos,
    k: int,
) -> bool {
    exists|j: int|
        0 <= j < k && j < 4 && #[trigger] passage(tiles, params, pos, sides()[j])
            && params.neighbor(pos, sides()[j]) == to
}

proof fn lemma_joined_within(tiles: Seq<Tile>, params: MazeParams, pos: TilePos, to: TilePos)
    ensures
        joined_within(tiles, params, pos, to, 4) <==> joined(tiles, params, pos, to),
{
    if joined(tiles, params, pos, to) {
        let side = choose|side: Direction| #[trigger]
            passage(tiles, params, pos, side) && params.neighbor(pos, side) == to;
        let j: int = match side {
            Direction::Top => 0,
            Direction::Right => 1,
            Direction::Bottom => 2,
            Direction::Left => 3,
        };
        assert(sides()[j] == side);
    }
}

/// The walk length that stands for "not reached".
pub open spec fn far_off() -> u32 {
    u32::MAX
}

/// Offers every unsettled tile behind an open wall of `current` the way
/// through `current`, where that is shorter than what it has.
fn relax(maze: &Maze, dist: &mut Vec<u32>, done: &Vec<bool>, current: TilePos, params: MazeParams)
    requires
        maze.wf(),
        params.valid(),
        params.contains(current),
        old(dist)@.len() == MAZE_SIZE * MAZE_SIZE,
        done@.len() == MAZE_SIZE * MAZE_SIZE,
        old(dist)@[current.flat()] < u32::MAX - 1,
    ensures
        relaxed(maze.tiles@, params, old(dist)@, final(dist)@, done@, current),
{
    let tile = maze.get(current);
    let around = neighbors(current, params);
    let d = dist[slot(current)];
    let mut k: usize = 0;
    while k < 4
        invariant
            k <= 4,
            maze.wf(),
            params.valid(),
            params.contains(current),
            tile == tile_at(maze.tiles@, current),
            dist@.len() == MAZE_SIZE * MAZE_SIZE,
            done@.len() == MAZE_SIZE * MAZE_SIZE,
            d == old(dist)@[current.flat()],
            d < u32::MAX - 1,
            forall|j: int|
                0 <= j < 4 ==> #[trigger] around[j] == (
                    params.neighbor(current, sides()[j]),
                    sides()[j],
                ),
            forall|q: TilePos|
                params.contains(q) ==> #[trigger] dist@[q.flat()] == if joined_within(
                    maze.tiles@,
                    params,
                    current,
                    q,
                    k as int,
                ) && !done@[q.flat()] && d + 1 < old(dist)@[q.flat()] {
                    (d + 1) as u32
                } else {
                    old(dist)@[q.flat()]
                },
        decreases 4 - k,
    {
        let (next, side) = around[k];
        let ghost before = dist@;
        proof {
            lemma_neighbor_in_maze(params, current, side);
        }
        if tile.is_open(side) && next != current && !done[slot(next)] && d + 1 < dist[slot(next)] {
            dist[slot(next)] = d + 1;
        }
        proof {
            assert forall|q: TilePos| params.contains(q) implies #[trigger] dist@[q.flat()]
                == if joined_within(maze.tiles@, params, current, q, k + 1) && !done@[q.flat()]
                && d + 1 < old(dist)@[q.flat()] {
                (d + 1) as u32
            } else {
                old(dist)@[q.flat()]
            } by {
                if joined_within(maze.tiles@, params, current, q, k + 1) && !joined_within(
                    maze.tiles@,
                    params,
                    current,
                    q,
                    k as int,
                ) {
                    let j = choose|j: int|
                        0 <= j < k + 1 && j < 4 && #[trigger] passage(
                            maze.tiles@,
                            params,
                            current,
                            sides()[j],
                        ) && params.neighbor(current, sides()[j]) == q;
                    assert(j == k);
                }
                if q == next && passage(maze.tiles@, params, current, side) {
                    assert(passage(maze.tiles@, params, current, sides()[k as int]));
                    assert(joined_within(maze.tiles@, params, current, q, k + 1));
                }
                if joined_within(maze.tiles@, params, current, q, k as int) {
                    let j = choose|j: int|
                        0 <= j < k && j < 4 && #[trigger] passage(
                            maze.tiles@,
                            params,
                            current,
                            sides()[j],
                        ) && params.neighbor(current, sides()[j]) == q;
                    assert(joined_within(maze.tiles@, params, current, q, k + 1));
                }
                if q != next {
                    assert(q.flat() != next.flat());
                    assert(dist@[q.flat()] == before[q.flat()]);
                }
            }
        }
        k += 1;
    }
    proof {
        assert forall|q: TilePos| params.contains(q) implies #[trigger] dist@[q.flat()] == if joined(
            maze.tiles@,
            params,
            current,
            q,
        ) && !done@[q.flat()] && old(dist)@[current.flat()] + 1 < old(dist)@[q.flat()] {
            (old(dist)@[current.flat()] + 1) as u32
        } else {
            old(dist)@[q.flat()]
        } by {
            lemma_joined_within(maze.tiles@, params, current, q);
        }
    }
}

/// The first unsettled maze tile, column by column, among those with the
/// shortest walk length known, if any tile has one.
fn next_unsettled(dist: &Vec<u32>, done: &Vec<bool>, params: MazeParams) -> (r: Option<TilePos>)
    requires
        params.valid(),
        dist@.len() == MAZE_SIZE * MAZE_SIZE,
        done@.len() == MAZE_SIZE * MAZE_SIZE,
    ensures
        r is None ==> forall|q: TilePos|
            params.contains(q) && !done@[q.flat()] ==> #[trigger] dist@[q.flat()] == far_off(),
        r matches Some(pos) ==> first_unsettled(params, dist@, done@, pos),
{
    let left = params.margin_x();
    let bottom = params.margin_y();
    let height = params.height as usize;
    let width = params.width as usize;
    assert(width * height <= 128 * 128) by (nonlinear_arith)
        requires
            width <= 128,
            height <= 128,
    ;
    let total = width * height;
    let mut best: Option<TilePos> = None;
    let mut least: u32 = u32::MAX;
    let mut k: usize = 0;
    while k < total
        invariant
            k <= total,
            params.valid(),
            total == params.width * params.height,
            height == params.height,
            left == params.left(),
            bottom == params.bottom(),
            dist@.len() == MAZE_SIZE * MAZE_SIZE,
            done@.len() == MAZE_SIZE * MAZE_SIZE,
            best is None ==> least == far_off(),
            best is None ==> forall|q: TilePos|
                params.contains(q) && rank(params, q) < k && !done@[q.flat()] ==> #[trigger] dist@[q.flat()]
                    == far_off(),
            best matches Some(pos) ==> {
                &&& params.contains(pos)
                &&& rank(params, pos) < k
                &&& !done@[pos.flat()]
                &&& dist@[pos.flat()] == least
                &&& least != far_off()
                &&& forall|q: TilePos|
                    params.contains(q) && rank(params, q) < k && !done@[q.flat()] ==> least
                        < #[trigger] dist@[q.flat()] || (least == dist@[q.flat()] && rank(
                        params,
                        pos,
                    ) <= rank(params, q))
            },
        decreases total - k,
    {
        let ghost at = lemma_unrank(params, k as int);
        let pos = TilePos { x: left + (k / height) as u32, y: bottom + (k % height) as u32 };
        assert(pos == at);
        let ghost old_best = best;
        let ghost old_least = least;
        if !done[slot(pos)] && dist[slot(pos)] < least {
            best = Some(pos);
            least = dist[slot(pos)];
        }
        proof {
            assert forall|q: TilePos|
                params.contains(q) && rank(params, q) < k + 1 && rank(params, q) >= k implies q
                == pos by {
                lemma_rank(params, q, pos);
            }
            if best is Some {
                let found = best.unwrap();
                assert forall|q: TilePos|
                    params.contains(q) && rank(params, q) < k + 1 && !done@[q.flat()] implies least
                    < #[trigger] dist@[q.flat()] || (least == dist@[q.flat()] && rank(
                    params,
                    found,
                ) <= rank(params, q)) by {
                    if rank(params, q) >= k {
                        assert(q == pos);
                    } else {
                        if old_best is Some {
                            assert(old_least < dist@[q.flat()] || (old_least == dist@[q.flat()]
                                && rank(params, old_best.unwrap()) <= rank(params, q)));
                        } else {
                            assert(dist@[q.flat()] == far_off());
                        }
                    }
                }
            } else {
                assert forall|q: TilePos|
                    params.contains(q) && rank(params, q) < k + 1 && !done@[q.flat()] implies #[trigger] dist@[q.flat()]
                    == far_off() by {
                    if rank(params, q) >= k {
                        assert(q == pos);
                    }
                }
            }
        }
        k += 1;
    }
    proof {
        assert forall|q: TilePos| params.contains(q) implies rank(params, q) < total by {
            lemma_rank(params, q, q);
        }
    }
    best
}

/// The tile below which `current` is to hang: of its settled neighbours
/// behind an open wall the one nearest to the start, the first of several,
/// and the start where there is none.
fn choose_parent(
    maze: &Maze,
    dist: &Vec<u32>,
    done: &Vec<bool>,
    current: TilePos,
    start: TilePos,
    params: MazeParams,
) -> (r: TilePos)
    requires
        maze.wf(),
        params.valid(),
        params.contains(current),
        dist@.len() == MAZE_SIZE * MAZE_SIZE,
        done@.len() == MAZE_SIZE * MAZE_SIZE,
        forall|side: Direction| #[trigger]
            passage(maze.tiles@, params, current, side) ==> (done@[params.neighbor(
                current,
                side,
            ).flat()] <==> eligible(maze.tiles@, params, start, current, side)),
        forall|side: Direction| #[trigger]
            eligible(maze.tiles@, params, start, current, side) ==> dist@[params.neighbor(
                current,
                side,
            ).flat()] == distance(maze.tiles@, params, start, params.neighbor(current, side)),
    ensures
        r == parent_tile(maze.tiles@, params, start, current),
{
    let ghost tiles = maze.tiles@;
    let tile = maze.get(current);
    let around = neighbors(current, params);
    proof {
        lemma_neighbor_in_maze(params, current, Direction::Top);
        lemma_neighbor_in_maze(params, current, Direction::Right);
        lemma_neighbor_in_maze(params, current, Direction::Bottom);
        lemma_neighbor_in_maze(params, current, Direction::Left);
        assert(sides()[0] == Direction::Top);
        assert(sides()[1] == Direction::Right);
        assert(sides()[2] == Direction::Bottom);
        assert(sides()[3] == Direction::Left);
    }
    let mut best: TilePos = start;
    let mut found: bool = false;
    let mut least: u32 = 0;
    let ghost top = pick(tiles, params, start, current, None, Direction::Top);
    let ghost right = pick(tiles, params, start, current, top, Direction::Right);
    let ghost bottom = pick(tiles, params, start, current, right, Direction::Bottom);
    let ghost left = pick(tiles, params, start, current, bottom, Direction::Left);
    let (next, side) = around[0];
    proof {
        let open = passage(tiles, params, current, Direction::Top);
        let fit = eligible(tiles, params, start, current, Direction::Top);
        assert(open == (tile.has_open(side) && next != current));
        assert(fit == (open && done@[next.flat()]));
    }
    if tile.is_open(side) && next != current && done[slot(next)] {
        best = next;
        found = true;
        least = dist[slot(next)];
    }
    assert(found == (top is Some) && (found ==> best == params.neighbor(current, top.unwrap())
        && least == distance(tiles, params, start, best)));
    let (next, side) = around[1];
    proof {
        let open = passage(tiles, params, current, Direction::Right);
        let fit = eligible(tiles, params, start, current, Direction::Right);
        assert(open == (tile.has_open(side) && next != current));
        assert(fit == (open && done@[next.flat()]));
    }
    if tile.is_open(side) && next != current && done[slot(next)] && (!found || dist[slot(next)]
        < least) {
        best = next;
        found = true;
        least = dist[slot(next)];
    }
    assert(found == (right is Some) && (found ==> best == params.neighbor(current, right.unwrap())
        && least == distance(tiles, params, start, best)));
    let (next, side) = around[2];
    proof {
        let open = passage(tiles, params, current, Direction::Bottom);
        let fit = eligible(tiles, params, start, current, Direction::Bottom);
        assert(open == (tile.has_open(side) && next != current));
        assert(fit == (open && done@[next.flat()]));
    }
    if tile.is_open(side) && next != current && done[slot(next)] && (!found || dist[slot(next)]
        < least) {
        best = next;
        found = true;
        least = dist[slot(next)];
    }
    assert(found == (bottom is Some) && (found ==> best == params.neighbor(
        current,
        bottom.unwrap(),
    ) && least == distance(tiles, params, start, best)));
    let (next, side) = around[3];
    proof {
        let open = passage(tiles, params, current, Direction::Left);
        let fit = eligible(tiles, params, start, current, Direction::Left);
        assert(open == (tile.has_open(side) && next != current));
        assert(fit == (open && done@[next.flat()]));
    }
    if tile.is_open(side) && next != current && done[slot(next)] && (!found || dist[slot(next)]
        < least) {
        best = next;
        found = true;
        least = dist[slot(next)];
    }
    assert(found == (left is Some) && (found ==> best == params.neighbor(current, left.unwrap())
        && least == distance(tiles, params, start, best)));
    if found {
        best
    } else {
        start
    }
}

/// What the solver knows when it turns to `current`: the tiles settled
/// before it are exactly the linked tiles that come earlier, their walk
/// lengths are their distances, and every unsettled tile behind an open wall
/// of a settled one has been offered the way through it.
pub open spec fn frontier(
    tiles: Seq<Tile>,
    params: MazeParams,
    start: TilePos,
    dist: Seq<u32>,
    done: Seq<bool>,
    current: TilePos,
) -> bool {
    &&& dist.len() == MAZE_SIZE * MAZE_SIZE
    &&& done.len() == MAZE_SIZE * MAZE_SIZE
    &&& params.contains(current)
    &&& linked(tiles, params, start, current)
    &&& !done[current.flat()]
    &&& dist[current.flat()] == distance(tiles, params, start, current)
    &&& forall|q: TilePos|
        params.contains(q) && #[trigger] done[q.flat()] ==> {
            &&& linked(tiles, params, start, q)
            &&& earlier(tiles, params, start, q, current)
            &&& dist[q.flat()] == distance(tiles, params, start, q)
        }
    &&& forall|q: TilePos| #[trigger]
        linked(tiles, params, start, q) && earlier(tiles, params, start, q, current)
            ==> done[q.flat()]
    &&& forall|q: TilePos|
        params.contains(q) && !done[q.flat()] && #[trigger] dist[q.flat()] != far_off() ==> {
            &&& linked(tiles, params, start, q)
            &&& distance(tiles, params, start, q) <= dist[q.flat()] <= distance(
                tiles,
                params,
                start,
                current,
            ) + 1
        }
    &&& forall|u: TilePos, side: Direction|
        params.contains(u) && done[u.flat()] && #[trigger] passage(tiles, params, u, side)
            && !done[params.neighbor(u, side).flat()] ==> dist[params.neighbor(u, side).flat()]
            <= distance(tiles, params, start, u) + 1
}

/// The walk lengths after `current` has offered its neighbours the way
/// through it.
pub open spec fn relaxed(
    tiles: Seq<Tile>,
    params: MazeParams,
    before: Seq<u32>,
    after: Seq<u32>,
    done: Seq<bool>,
    current: TilePos,
) -> bool {
    &&& after.len() == before.len()
    &&& forall|q: TilePos|
        params.contains(q) ==> #[trigger] after[q.flat()] == if joined(tiles, params, current, q)
            && !done[q.flat()] && before[current.flat()] + 1 < before[q.flat()] {
            (before[current.flat()] + 1) as u32
        } else {
            before[q.flat()]
        }
}

/// `next` is the first unsettled maze tile among those with the shortest
/// walk length known.
pub open spec fn first_unsettled(
    params: MazeParams,
    dist: Seq<u32>,
    done: Seq<bool>,
    next: TilePos,
) -> bool {
    &&& params.contains(next)
    &&& !done[next.flat()]
    &&& dist[next.flat()] != far_off()
    &&& forall|q: TilePos|
        params.contains(q) && !done[q.flat()] ==> dist[next.flat()] < #[trigger] dist[q.flat()] || (
        dist[next.flat()] == dist[q.flat()] && rank(params, next) <= rank(params, q))
}

/// What holds once `current` has offered its neighbours the way through it
/// and has been settled.
spec fn offered(
    tiles: Seq<Tile>,
    params: MazeParams,
    start: TilePos,
    dist: Seq<u32>,
    done: Seq<bool>,
    current: TilePos,
) -> bool {
    let d = distance(tiles, params, start, current);
    &&& dist.len() == MAZE_SIZE * MAZE_SIZE
    &&& done.len() == MAZE_SIZE * MAZE_SIZE
    &&& params.contains(current)
    &&& linked(tiles, params, start, current)
    &&& done[current.flat()]
    &&& d + 1 < far_off()
    &&& forall|q: TilePos|
        params.contains(q) && #[trigger] done[q.flat()] ==> {
            &&& linked(tiles, params, start, q)
            &&& q == current || earlier(tiles, params, start, q, current)
            &&& dist[q.flat()] == distance(tiles, params, start, q)
        }
    &&& forall|q: TilePos| #[trigger]
        linked(tiles, params, start, q) && earlier(tiles, params, start, q, current)
            ==> done[q.flat()]
    &&& forall|q: TilePos|
        params.contains(q) && !done[q.flat()] && #[trigger] dist[q.flat()] != far_off() ==> {
            &&& linked(tiles, params, start, q)
            &&& distance(tiles, params, start, q) <= dist[q.flat()] <= d + 1
        }
    &&& forall|u: TilePos, side: Direction|
        params.contains(u) && done[u.flat()] && #[trigger] passage(tiles, params, u, side)
            && !done[params.neighbor(u, side).flat()] ==> dist[params.neighbor(u, side).flat()]
            <= distance(tiles, params, start, u) + 1
}

proof fn lemma_offered(
    tiles: Seq<Tile>,
    params: MazeParams,
    start: TilePos,
    dist0: Seq<u32>,
    dist1: Seq<u32>,
    done0: Seq<bool>,
    done1: Seq<bool>,
    current: TilePos,
)
    requires
        canvas(tiles),
        params.valid(),
        params.contains(start),
        frontier(tiles, params, start, dist0, done0, current),
        relaxed(tiles, params, dist0, dist1, done0, current),
        done1 == done0.update(current.flat(), true),
        distance(tiles, params, start, current) + 1 < far_off(),
    ensures
        offered(tiles, params, start, dist1, done1, current),
{
    let d = distance(tiles, params, start, current);
    assert(!joined(tiles, params, current, current));
    assert(dist1[current.flat()] == dist0[current.flat()]);
    assert forall|q: TilePos| params.contains(q) && #[trigger] done1[q.flat()] implies {
        &&& linked(tiles, params, start, q)
        &&& q == current || earlier(tiles, params, start, q, current)
        &&& dist1[q.flat()] == distance(tiles, params, start, q)
    } by {
        if q != current {
            assert(q.flat() != current.flat());
            assert(done0[q.flat()]);
            assert(dist1[q.flat()] == dist0[q.flat()]);
        }
    }
    assert forall|q: TilePos| #[trigger]
        linked(tiles, params, start, q) && earlier(
            tiles,
            params,
            start,
            q,
            current,
        ) implies done1[q.flat()] by {
        lemma_distance(tiles, params, start, q);
        assert(done0[q.flat()]);
    }
    assert forall|q: TilePos|
        params.contains(q) && !done1[q.flat()] && #[trigger] dist1[q.flat()]
            != far_off() implies {
        &&& linked(tiles, params, start, q)
        &&& distance(tiles, params, start, q) <= dist1[q.flat()] <= d + 1
    } by {
        assert(q.flat() != current.flat());
        assert(!done0[q.flat()]);
        if dist1[q.flat()] != dist0[q.flat()] {
            let side = choose|side: Direction| #[trigger]
                passage(tiles, params, current, side) && params.neighbor(current, side) == q;
            lemma_distance_step(tiles, params, start, current, side);
        } else {
            assert(dist0[q.flat()] != far_off());
        }
    }
    assert forall|u: TilePos, side: Direction|
        params.contains(u) && done1[u.flat()] && #[trigger] passage(tiles, params, u, side)
            && !done1[params.neighbor(u, side).flat()] implies dist1[params.neighbor(
        u,
        side,
    ).flat()] <= distance(tiles, params, start, u) + 1 by {
        let n = params.neighbor(u, side);
        lemma_neighbor_in_maze(params, u, side);
        assert(n.flat() != current.flat());
        assert(!done0[n.flat()]);
        assert(dist1[n.flat()] <= dist0[n.flat()]);
        if u == current {
            assert(joined(tiles, params, current, n));
        } else {
            assert(u.flat() != current.flat());
            assert(done0[u.flat()]);
        }
    }
}

/// Once `current` is settled, no unsettled linked tile is nearer to the
/// start than it, and one that is as near has that walk length.
proof fn lemma_unsettled(
    tiles: Seq<Tile>,
    params: MazeParams,
    start: TilePos,
    dist: Seq<u32>,
    done: Seq<bool>,
    current: TilePos,
    q: TilePos,
)
    requires
        canvas(tiles),
        params.valid(),
        params.contains(start),
        offered(tiles, params, start, dist, done, current),
        linked(tiles, params, start, q),
        !done[q.flat()],
    ensures
        params.contains(q),
        q != current,
        !earlier(tiles, params, start, q, current),
        earlier(tiles, params, start, current, q),
        distance(tiles, params, start, q) >= distance(tiles, params, start, current),
        distance(tiles, params, start, q) == distance(tiles, params, start, current) ==> dist[q.flat()]
            == distance(tiles, params, start, q),
{
    let d = distance(tiles, params, start, current);
    lemma_distance(tiles, params, start, q);
    lemma_rank(params, q, current);
    if distance(tiles, params, start, q) == d {
        lemma_distance_start(tiles, params, start, q);
        lemma_distance_start(tiles, params, start, current);
        let from = lemma_distance_before(tiles, params, start, q);
        lemma_distance(tiles, params, start, from.0);
        assert(earlier(tiles, params, start, from.0, current));
        assert(done[from.0.flat()]);
        assert(passage(tiles, params, from.0, from.1));
        assert(dist[q.flat()] <= d);
        assert(dist[q.flat()] != far_off());
    }
}

/// Where no unsettled linked tile is as near to the start as `current`, one
/// that is one step farther has that walk length.
proof fn lemma_unsettled_far(
    tiles: Seq<Tile>,
    params: MazeParams,
    start: TilePos,
    dist: Seq<u32>,
    done: Seq<bool>,
    current: TilePos,
    q: TilePos,
)
    requires
        canvas(tiles),
        params.valid(),
        params.contains(start),
        offered(tiles, params, start, dist, done, current),
        forall|p: TilePos| #[trigger]
            linked(tiles, params, start, p) && !done[p.flat()] ==> distance(
                tiles,
                params,
                start,
                p,
            ) != distance(tiles, params, start, current),
        linked(tiles, params, start, q),
        !done[q.flat()],
        distance(tiles, params, start, q) == distance(tiles, params, start, current) + 1,
    ensures
        dist[q.flat()] == distance(tiles, params, start, q),
{
    lemma_distance(tiles, params, start, q);
    lemma_distance_start(tiles, params, start, q);
    let from = lemma_distance_before(tiles, params, start, q);
    lemma_distance(tiles, params, start, from.0);
    assert(linked(tiles, params, start, from.0));
    assert(done[from.0.flat()]);
    assert(passage(tiles, params, from.0, from.1));
    assert(dist[q.flat()] != far_off());
}

/// The tile that the solver turns to next is the next linked tile in its
/// order, and the solver knows of it what it knew of the one before.
proof fn lemma_advance(
    tiles: Seq<Tile>,
    params: MazeParams,
    start: TilePos,
    dist: Seq<u32>,
    done: Seq<bool>,
    current: TilePos,
    next: TilePos,
)
    requires
        canvas(tiles),
        params.valid(),
        params.contains(start),
        offered(tiles, params, start, dist, done, current),
        first_unsettled(params, dist, done, next),
    ensures
        frontier(tiles, params, start, dist, done, next),
        distance(tiles, params, start, next) <= distance(tiles, params, start, current) + 1,
{
    let d = distance(tiles, params, start, current);
    assert(dist[next.flat()] != far_off());
    assert(linked(tiles, params, start, next));
    lemma_unsettled(tiles, params, start, dist, done, current, next);
    let near = exists|p: TilePos| #[trigger]
        linked(tiles, params, start, p) && !done[p.flat()] && distance(tiles, params, start, p)
            == d;
    if near {
        let p = choose|p: TilePos| #[trigger]
            linked(tiles, params, start, p) && !done[p.flat()] && distance(tiles, params, start, p)
                == d;
        lemma_unsettled(tiles, params, start, dist, done, current, p);
        assert(dist[p.flat()] == d);
        assert(dist[next.flat()] <= d);
    } else {
        assert(distance(tiles, params, start, next) == d + 1);
        lemma_unsettled_far(tiles, params, start, dist, done, current, next);
    }
    let dn = distance(tiles, params, start, next);
    assert(dist[next.flat()] == dn);
    assert forall|q: TilePos| params.contains(q) && #[trigger] done[q.flat()] implies {
        &&& linked(tiles, params, start, q)
        &&& earlier(tiles, params, start, q, next)
        &&& dist[q.flat()] == distance(tiles, params, start, q)
    } by {
        assert(q == current || earlier(tiles, params, start, q, current));
    }
    assert forall|q: TilePos| #[trigger]
        linked(tiles, params, start, q) && earlier(
            tiles,
            params,
            start,
            q,
            next,
        ) implies done[q.flat()] by {
        if !done[q.flat()] {
            lemma_unsettled(tiles, params, start, dist, done, current, q);
            let dq = distance(tiles, params, start, q);
            if dq == d {
                assert(dist[q.flat()] == d);
            } else {
                assert(!near);
                assert(dq == d + 1);
                lemma_unsettled_far(tiles, params, start, dist, done, current, q);
            }
            assert(dist[q.flat()] == dq);
            assert(dist[next.flat()] < dist[q.flat()] || (dist[next.flat()] == dist[q.flat()]
                && rank(params, next) <= rank(params, q)));
        }
    }
}

/// Where nothing unsettled is left with a walk length, every linked tile
/// has been settled.
proof fn lemma_finished(
    tiles: Seq<Tile>,
    params: MazeParams,
    start: TilePos,
    dist: Seq<u32>,
    done: Seq<bool>,
    current: TilePos,
    q: TilePos,
    steps: nat,
)
    requires
        canvas(tiles),
        params.valid(),
        params.contains(start),
        offered(tiles, params, start, dist, done, current),
        forall|p: TilePos|
            params.contains(p) && !done[p.flat()] ==> #[trigger] dist[p.flat()] == far_off(),
        linked(tiles, params, start, q),
        distance(tiles, params, start, q) == steps,
    ensures
        done[q.flat()],
    decreases steps,
{
    lemma_distance(tiles, params, start, q);
    lemma_distance_start(tiles, params, start, q);
    lemma_distance_start(tiles, params, start, current);
    if q == start {
        if start != current {
            assert(earlier(tiles, params, start, start, current));
        }
    } else {
        let from = lemma_distance_before(tiles, params, start, q);
        lemma_finished(tiles, params, start, dist, done, current, from.0, (steps - 1) as nat);
        lemma_distance(tiles, params, start, from.0);
        assert(passage(tiles, params, from.0, from.1));
        if !done[q.flat()] {
            assert(from.0 == current || earlier(tiles, params, start, from.0, current));
            assert(dist[q.flat()] <= distance(tiles, params, start, from.0) + 1);
        }
    }
}

/// The tree so far: the root holds the start, and after it come the settled
/// tiles, each once, in the order in which they were settled, each below its
/// parent tile.
pub open spec fn grown(
    tiles: Seq<Tile>,
    params: MazeParams,
    start: TilePos,
    nodes: Seq<(TilePos, usize)>,
    done: Seq<bool>,
) -> bool {
    &&& arena(nodes)
    &&& nodes[0].0 == start
    &&& forall|i: int|
        1 <= i < nodes.len() ==> {
            &&& params.contains((#[trigger] nodes[i]).0)
            &&& done[nodes[i].0.flat()]
            &&& linked(tiles, params, start, nodes[i].0)
        }
    &&& forall|q: TilePos|
        params.contains(q) && #[trigger] done[q.flat()] ==> exists|i: int|
            1 <= i < nodes.len() && (#[trigger] nodes[i]).0 == q
    &&& forall|i: int, j: int|
        1 <= i < j < nodes.len() ==> earlier(
            tiles,
            params,
            start,
            (#[trigger] nodes[i]).0,
            (#[trigger] nodes[j]).0,
        )
    &&& forall|i: int| 1 <= i < nodes.len() ==> #[trigger] hangs_below(tiles, params, start, nodes, i)
}

/// The tiles after the root are maze tiles, each listed once, so the tree
/// has at most one node more than the maze has tiles.
proof fn lemma_tree_size(
    tiles: Seq<Tile>,
    params: MazeParams,
    start: TilePos,
    nodes: Seq<(TilePos, usize)>,
    done: Seq<bool>,
)
    requires
        params.valid(),
        grown(tiles, params, start, nodes, done),
    ensures
        nodes.len() - 1 <= params.width * params.height,
{
    let listed = Seq::new((nodes.len() - 1) as nat, |i: int| nodes[i + 1].0);
    assert forall|i: int, j: int| 0 <= i < listed.len() && 0 <= j < listed.len() && i != j implies listed[i]
        != listed[j] by {
        if i < j {
            assert(earlier(tiles, params, start, nodes[i + 1].0, nodes[j + 1].0));
        } else {
            assert(earlier(tiles, params, start, nodes[j + 1].0, nodes[i + 1].0));
        }
    }
    assert forall|i: int| 0 <= i < listed.len() implies params.contains(#[trigger] listed[i]) by {
        assert(params.contains(nodes[i + 1].0));
    }
    lemma_tile_count(params, listed);
}

/// Hanging the tile that has just been settled below its parent tile keeps
/// the tree in shape.
proof fn lemma_grown(
    tiles: Seq<Tile>,
    params: MazeParams,
    start: TilePos,
    nodes: Seq<(TilePos, usize)>,
    dist: Seq<u32>,
    done: Seq<bool>,
    current: TilePos,
    parent: usize,
)
    requires
        params.valid(),
        grown(tiles, params, start, nodes, done),
        frontier(tiles, params, start, dist, done, current),
        parent < nodes.len(),
        nodes[parent as int].0 == parent_tile(tiles, params, start, current),
        forall|j: int|
            0 <= j < parent ==> (#[trigger] nodes[j]).0 != parent_tile(
                tiles,
                params,
                start,
                current,
            ),
    ensures
        grown(
            tiles,
            params,
            start,
            nodes.push((current, parent)),
            done.update(current.flat(), true),
        ),
{
    let more = nodes.push((current, parent));
    let marked = done.update(current.flat(), true);
    assert forall|i: int| 1 <= i < more.len() implies {
        &&& params.contains((#[trigger] more[i]).0)
        &&& marked[more[i].0.flat()]
        &&& linked(tiles, params, start, more[i].0)
    } by {
        if i < nodes.len() {
            assert(more[i] == nodes[i]);
            assert(done[nodes[i].0.flat()]);
        }
    }
    assert forall|q: TilePos| params.contains(q) && #[trigger] marked[q.flat()] implies exists|
        i: int,
    |
        1 <= i < more.len() && (#[trigger] more[i]).0 == q by {
        if q == current {
            assert(more[nodes.len() as int].0 == q);
        } else {
            assert(q.flat() != current.flat());
            assert(done[q.flat()]);
            let i = choose|i: int| 1 <= i < nodes.len() && (#[trigger] nodes[i]).0 == q;
            assert(more[i].0 == q);
        }
    }
    assert forall|i: int, j: int| 1 <= i < j < more.len() implies earlier(
        tiles,
        params,
        start,
        (#[trigger] more[i]).0,
        (#[trigger] more[j]).0,
    ) by {
        assert(more[i] == nodes[i]);
        if j < nodes.len() {
            assert(more[j] == nodes[j]);
        } else {
            assert(done[nodes[i].0.flat()]);
        }
    }
    assert forall|i: int| 1 <= i < more.len() implies #[trigger] hangs_below(
        tiles,
        params,
        start,
        more,
        i,
    ) by {
        if i < nodes.len() {
            assert(hangs_below(tiles, params, start, nodes, i));
            assert(more[i] == nodes[i]);
            let p = parent_tile(tiles, params, start, nodes[i].0);
            assert(more[nodes[i].1 as int] == nodes[nodes[i].1 as int]);
            assert forall|j: int| 0 <= j < more[i].1 implies (#[trigger] more[j]).0 != p by {
                assert(more[j] == nodes[j]);
            }
        } else {
            assert(more[parent as int] == nodes[parent as int]);
            assert forall|j: int| 0 <= j < more[i].1 implies (#[trigger] more[j]).0 != parent_tile(
                tiles,
                params,
                start,
                current,
            ) by {
                assert(more[j] == nodes[j]);
            }
        }
    }
    assert forall|i: int| 1 <= i < more.len() implies (#[trigger] more[i]).1 < i by {
        if i < nodes.len() {
            assert(more[i] == nodes[i]);
        }
    }
}

/// In the tree of shortest walks the node after the root holds the start
/// again, and no later node does.
pub proof fn lemma_start_comes_first(
    tiles: Seq<Tile>,
    params: MazeParams,
    start: TilePos,
    nodes: Seq<(TilePos, usize)>,
    i: int,
)
    requires
        params.valid(),
        params.contains(start),
        shortest_walk_tree(tiles, params, start, nodes),
        2 <= i < nodes.len(),
    ensures
        nodes[1] == (start, 0usize),
        nodes[i].0 != start,
{
    lemma_distance_start(tiles, params, start, start);
    let at = choose|at: int| 1 <= at < nodes.len() && (#[trigger] nodes[at]).0 == start;
    if at > 1 {
        assert(earlier(tiles, params, start, nodes[1].0, nodes[at].0));
        lemma_distance_start(tiles, params, start, nodes[1].0);
    }
    assert(earlier(tiles, params, start, nodes[1].0, nodes[i].0));
    assert(nodes[1].1 < 1);
}

/// Solver correctness, before the nodes are sorted: in a maze whose walls
/// agree, every node after the first two lies as many parent links below the
/// root as its tile is steps away from the start, and its parent holds a tile
/// behind an open wall of its own tile, one step nearer to the start.
pub proof fn lemma_depth_is_distance(
    tiles: Seq<Tile>,
    params: MazeParams,
    start: TilePos,
    nodes: Seq<(TilePos, usize)>,
    i: int,
)
    requires
        canvas(tiles),
        params.valid(),
        params.contains(start),
        walls_agree(tiles, params),
        shortest_walk_tree(tiles, params, start, nodes),
        2 <= i < nodes.len(),
    ensures
        depth(nodes, i) == distance(tiles, params, start, nodes[i].0),
        joined(tiles, params, nodes[i].0, nodes[nodes[i].1 as int].0),
        distance(tiles, params, start, nodes[nodes[i].1 as int].0) + 1 == distance(
            tiles,
            params,
            start,
            nodes[i].0,
        ),
    decreases i,
{
    let pos = nodes[i].0;
    let d = distance(tiles, params, start, pos);
    lemma_start_comes_first(tiles, params, start, nodes, i);
    assert(linked(tiles, params, start, pos));
    lemma_distance(tiles, params, start, pos);
    let from = lemma_distance_before(tiles, params, start, pos);
    lemma_passage_back(tiles, params, from.0, from.1);
    let back = from.1.opposite();
    assert(eligible(tiles, params, start, pos, back));
    lemma_parent_side(tiles, params, start, pos, back);
    let side = parent_side(tiles, params, start, pos).unwrap();
    let parent = params.neighbor(pos, side);
    assert(eligible(tiles, params, start, pos, side));
    lemma_passage_back(tiles, params, pos, side);
    lemma_distance_step(tiles, params, start, parent, side.opposite());
    assert(distance(tiles, params, start, parent) == d - 1);
    assert(hangs_below(tiles, params, start, nodes, i));
    let up = nodes[i].1 as int;
    assert(nodes[up].0 == parent);
    assert(up < i);
    assert(depth(nodes, i) == 1 + depth(nodes, up));
    if up >= 2 {
        lemma_depth_is_distance(tiles, params, start, nodes, up);
    } else {
        assert(nodes[up].0 == start);
        lemma_distance_start(tiles, params, start, parent);
        if up == 1 {
            assert(nodes[0].0 != parent);
        }
        assert(depth(nodes, 0) == 0);
    }
}

/// Solver correctness: in a maze whose walls agree, the path from the node
/// of any tile but the start up to the root has as many parent links as the
/// tile is steps away from the start on a shortest walk, and each link leads
/// through an open wall of the tile to a tile one step nearer to the start.
pub proof fn lemma_solved_path_length(
    tiles: Seq<Tile>,
    params: MazeParams,
    start: TilePos,
    nodes: Seq<(TilePos, usize)>,
    k: int,
)
    requires
        canvas(tiles),
        params.valid(),
        params.contains(start),
        walls_agree(tiles, params),
        solved(tiles, params, start, nodes),
        0 <= k < nodes.len(),
        nodes[k].0 != start,
    ensures
        linked(tiles, params, start, nodes[k].0),
        path_length(nodes, k, distance(tiles, params, start, nodes[k].0)),
        joined(tiles, params, nodes[k].0, nodes[nodes[k].1 as int].0),
        distance(tiles, params, start, nodes[nodes[k].1 as int].0) + 1 == distance(
            tiles,
            params,
            start,
            nodes[k].0,
        ),
{
    let built = choose|built: Seq<(TilePos, usize)>| #[trigger]
        shortest_walk_tree(tiles, params, start, built) && sorted_form(built, nodes);
    let place = choose|place: Seq<int>| sorts(built, nodes, place);
    assert(taken(place, k));
    let i = choose|i: int| 0 <= i < place.len() && #[trigger] place[i] == k;
    assert(nodes[place[i]].0 == built[i].0);
    if i >= 1 {
        assert(built[1].1 < 1);
    }
    if i >= 2 {
        lemma_start_comes_first(tiles, params, start, built, i);
    } else if i == 1 {
        assert(linked(tiles, params, start, built[1].0));
        lemma_distance_start(tiles, params, start, built[1].0);
        if built.len() > 2 {
            lemma_start_comes_first(tiles, params, start, built, 2);
        } else {
            lemma_distance_start(tiles, params, start, start);
            let at = choose|at: int| 1 <= at < built.len() && (#[trigger] built[at]).0 == start;
            assert(at == 1);
        }
    }
    assert(i >= 2);
    lemma_depth_is_distance(tiles, params, start, built, i);
    lemma_depth_is_path_length(built, i);
    lemma_rearranged_paths(built, nodes, place, i, depth(built, i));
    assert(built[i].1 < i);
    assert(nodes[place[built[i].1 as int]].0 == built[built[i].1 as int].0);
}

/// The solved tree holds every tile that can be walked to from the start and
/// no other tile, and no tile but the start twice.
pub proof fn lemma_solved_tiles(
    tiles: Seq<Tile>,
    params: MazeParams,
    start: TilePos,
    nodes: Seq<(TilePos, usize)>,
    pos: TilePos,
)
    requires
        params.valid(),
        params.contains(start),
        solved(tiles, params, start, nodes),
    ensures
        linked(tiles, params, start, pos) <==> exists|k: int|
            0 <= k < nodes.len() && (#[trigger] nodes[k]).0 == pos,
        forall|a: int, b: int|
            0 <= a < nodes.len() && 0 <= b < nodes.len() && a != b && (#[trigger] nodes[a]).0
                == pos && (#[trigger] nodes[b]).0 == pos ==> pos == start,
{
    let built = choose|built: Seq<(TilePos, usize)>| #[trigger]
        shortest_walk_tree(tiles, params, start, built) && sorted_form(built, nodes);
    let place = choose|place: Seq<int>| sorts(built, nodes, place);
    lemma_distance_start(tiles, params, start, start);
    if linked(tiles, params, start, pos) {
        let i = choose|i: int| 1 <= i < built.len() && (#[trigger] built[i]).0 == pos;
        assert(nodes[place[i]].0 == built[i].0);
    }
    if exists|k: int| 0 <= k < nodes.len() && (#[trigger] nodes[k]).0 == pos {
        let k = choose|k: int| 0 <= k < nodes.len() && (#[trigger] nodes[k]).0 == pos;
        assert(taken(place, k));
        let i = choose|i: int| 0 <= i < place.len() && #[trigger] place[i] == k;
        assert(nodes[place[i]].0 == built[i].0);
        if i >= 1 {
            assert(linked(tiles, params, start, built[i].0));
        }
    }
    assert forall|a: int, b: int|
        0 <= a < nodes.len() && 0 <= b < nodes.len() && a != b && (#[trigger] nodes[a]).0 == pos
            && (#[trigger] nodes[b]).0 == pos implies pos == start by {
        assert(taken(place, a));
        assert(taken(place, b));
        let i = choose|i: int| 0 <= i < place.len() && #[trigger] place[i] == a;
        let j = choose|j: int| 0 <= j < place.len() && #[trigger] place[j] == b;
        assert(nodes[place[i]].0 == built[i].0);
        assert(nodes[place[j]].0 == built[j].0);
        if i >= 1 && j >= 1 {
            if i < j {
                assert(earlier(tiles, params, start, built[i].0, built[j].0));
            } else {
                assert(earlier(tiles, params, start, built[j].0, built[i].0));
            }
        }
    }
}

proof fn lemma_same_tile(
    tiles: Seq<Tile>,
    params: MazeParams,
    start: TilePos,
    a: Seq<(TilePos, usize)>,
    b: Seq<(TilePos, usize)>,
    i: int,
)
    requires
        params.valid(),
        params.contains(start),
        shortest_walk_tree(tiles, params, start, a),
        shortest_walk_tree(tiles, params, start, b),
        1 <= i < a.len(),
    ensures
        i < b.len(),
        b[i].0 == a[i].0,
    decreases i,
{
    let tile = a[i].0;
    assert(linked(tiles, params, start, tile));
    let j = choose|j: int| 1 <= j < b.len() && (#[trigger] b[j]).0 == tile;
    if j < i {
        lemma_same_tile(tiles, params, start, b, a, j);
        assert(earlier(tiles, params, start, a[j].0, a[i].0));
    } else if j > i {
        let other = b[i].0;
        assert(linked(tiles, params, start, other));
        assert(earlier(tiles, params, start, b[i].0, b[j].0));
        let m = choose|m: int| 1 <= m < a.len() && (#[trigger] a[m]).0 == other;
        if m < i {
            lemma_same_tile(tiles, params, start, a, b, m);
            assert(earlier(tiles, params, start, b[m].0, b[i].0));
        } else {
            assert(m > i);
            assert(earlier(tiles, params, start, a[i].0, a[m].0));
        }
    }
}

/// The tree of shortest walks is one: the maze and the start settle every
/// node of it.
pub proof fn lemma_walk_tree_unique(
    tiles: Seq<Tile>,
    params: MazeParams,
    start: TilePos,
    a: Seq<(TilePos, usize)>,
    b: Seq<(TilePos, usize)>,
)
    requires
        params.valid(),
        params.contains(start),
        shortest_walk_tree(tiles, params, start, a),
        shortest_walk_tree(tiles, params, start, b),
    ensures
        a == b,
{
    if a.len() < b.len() {
        let tile = b[a.len() as int].0;
        assert(linked(tiles, params, start, tile));
        let m = choose|m: int| 1 <= m < a.len() && (#[trigger] a[m]).0 == tile;
        lemma_same_tile(tiles, params, start, a, b, m);
        assert(earlier(tiles, params, start, b[m].0, b[a.len() as int].0));
    }
    if b.len() < a.len() {
        let tile = a[b.len() as int].0;
        assert(linked(tiles, params, start, tile));
        let m = choose|m: int| 1 <= m < b.len() && (#[trigger] b[m]).0 == tile;
        lemma_same_tile(tiles, params, start, b, a, m);
        assert(earlier(tiles, params, start, a[m].0, a[b.len() as int].0));
    }
    assert forall|i: int| 0 <= i < a.len() implies a[i] == b[i] by {
        if i >= 1 {
            lemma_same_tile(tiles, params, start, a, b, i);
            assert(hangs_below(tiles, params, start, a, i));
            assert(hangs_below(tiles, params, start, b, i));
            let up_a = a[i].1 as int;
            let up_b = b[i].1 as int;
            assert(up_a < i && up_b < i);
            if up_a >= 1 {
                lemma_same_tile(tiles, params, start, a, b, up_a);
            }
            if up_b >= 1 {
                lemma_same_tile(tiles, params, start, a, b, up_b);
            }
            assert(a[up_a].0 == b[up_a].0);
            assert(a[up_b].0 == b[up_b].0);
        }
    }
    assert(a =~= b);
}

/// The solved tree has one root, which holds the start, and a child of the
/// root that holds the start once more.
pub proof fn lemma_solved_root(
    tiles: Seq<Tile>,
    params: MazeParams,
    start: TilePos,
    nodes: Seq<(TilePos, usize)>,
) -> (at: (int, int))
    requires
        params.valid(),
        params.contains(start),
        solved(tiles, params, start, nodes),
    ensures
        0 <= at.0 < nodes.len(),
        0 <= at.1 < nodes.len(),
        nodes[at.0] == (start, at.0 as usize),
        nodes[at.1] == (start, at.0 as usize),
        at.1 != at.0,
        forall|k: int| 0 <= k < nodes.len() && is_root(nodes, k) ==> k == at.0,
{
    let built = choose|built: Seq<(TilePos, usize)>| #[trigger]
        shortest_walk_tree(tiles, params, start, built) && sorted_form(built, nodes);
    let place = choose|place: Seq<int>| sorts(built, nodes, place);
    lemma_distance_start(tiles, params, start, start);
    let first = choose|first: int| 1 <= first < built.len() && (#[trigger] built[first]).0 == start;
    if first > 1 {
        assert(earlier(tiles, params, start, built[1].0, built[first].0));
        assert(linked(tiles, params, start, built[1].0));
        lemma_distance_start(tiles, params, start, built[1].0);
    }
    assert(built[1].1 < 1);
    assert(nodes[place[0]].0 == built[0].0);
    assert(nodes[place[1]].0 == built[1].0);
    assert(place[0] != place[1]);
    assert forall|k: int| 0 <= k < nodes.len() && is_root(nodes, k) implies k == place[0] by {
        assert(taken(place, k));
        let i = choose|i: int| 0 <= i < place.len() && #[trigger] place[i] == k;
        lemma_rearranged_paths(built, nodes, place, i, 0);
        if i >= 1 {
            assert(built[i].1 < i);
        }
    }
    (place[0], place[1])
}

/// The solver has one outcome: the maze and the start settle every node of
/// the solved tree.
pub proof fn lemma_solved_unique(
    tiles: Seq<Tile>,
    params: MazeParams,
    start: TilePos,
    a: Seq<(TilePos, usize)>,
    b: Seq<(TilePos, usize)>,
)
    requires
        params.valid(),
        params.contains(start),
        solved(tiles, params, start, a),
        solved(tiles, params, start, b),
    ensures
        a == b,
{
    let built_a = choose|built: Seq<(TilePos, usize)>| #[trigger]
        shortest_walk_tree(tiles, params, start, built) && sorted_form(built, a);
    let built_b = choose|built: Seq<(TilePos, usize)>| #[trigger]
        shortest_walk_tree(tiles, params, start, built) && sorted_form(built, b);
    lemma_walk_tree_unique(tiles, params, start, built_a, built_b);
    lemma_tile_pos_order();
    lemma_sorted_form_unique(built_a, a, b);
}

/// Solve the given maze, returning a minimum-distance tree with `start` as
/// the root node.
pub fn solve_maze(maze: &Maze, start: TilePos, params: MazeParams) -> (r: SortedTree<TilePos>)
    requires
        maze.wf(),
        params.valid(),
        params.contains(start),
    ensures
        r.wf(),
        solved(maze.tiles@, params, start, r@),
{
    let ghost tiles = maze.tiles@;
    let mut tree = Tree::new(start);
    let mut dist: Vec<u32> = Vec::new();
    let mut done: Vec<bool> = Vec::new();
    while dist.len() < (MAZE_SIZE * MAZE_SIZE) as usize
        invariant
            dist@.len() == done@.len(),
            dist@.len() <= MAZE_SIZE * MAZE_SIZE,
            forall|i: int| 0 <= i < dist@.len() ==> dist@[i] == far_off() && !done@[i],
        decreases MAZE_SIZE * MAZE_SIZE - dist@.len(),
    {
        dist.push(u32::MAX);
        done.push(false);
    }
    dist[slot(start)] = 0;
    let mut current = start;
    proof {
        lemma_distance_start(tiles, params, start, start);
        assert forall|q: TilePos| #[trigger]
            linked(tiles, params, start, q) && earlier(
                tiles,
                params,
                start,
                q,
                start,
            ) implies done@[q.flat()] by {
            lemma_distance_start(tiles, params, start, q);
            lemma_distance(tiles, params, start, q);
        }
        assert forall|q: TilePos|
            params.contains(q) && !done@[q.flat()] && #[trigger] dist@[q.flat()]
                != far_off() implies q == start by {
            if q != start {
                assert(q.flat() != start.flat());
            }
        }
        assert(frontier(tiles, params, start, dist@, done@, current));
        assert(grown(tiles, params, start, tree@, done@));
    }
    loop
        invariant_except_break
            frontier(tiles, params, start, dist@, done@, current),
            distance(tiles, params, start, current) <= tree@.len() - 1,
        invariant
            tiles == maze.tiles@,
            maze.wf(),
            params.valid(),
            params.contains(start),
            tree.wf(),
            grown(tiles, params, start, tree@, done@),
            dist@.len() == MAZE_SIZE * MAZE_SIZE,
            done@.len() == MAZE_SIZE * MAZE_SIZE,
            tree@.len() - 1 <= params.width * params.height,
        ensures
            forall|q: TilePos| #[trigger] linked(tiles, params, start, q) ==> done@[q.flat()],
        decreases params.width * params.height + 1 - tree@.len(),
    {
        let ghost dist0 = dist@;
        let ghost done0 = done@;
        let ghost nodes0 = tree@;
        proof {
            assert(params.width * params.height <= 128 * 128) by (nonlinear_arith)
                requires
                    params.width <= 128,
                    params.height <= 128,
            ;
        }
        relax(maze, &mut dist, &done, current, params);
        done[slot(current)] = true;
        proof {
            lemma_offered(tiles, params, start, dist0, dist@, done0, done@, current);
            assert forall|side: Direction| #[trigger]
                passage(tiles, params, current, side) implies (done@[params.neighbor(
                current,
                side,
            ).flat()] <==> eligible(tiles, params, start, current, side)) by {
                let n = params.neighbor(current, side);
                lemma_neighbor_in_maze(params, current, side);
                if done@[n.flat()] {
                    assert(n == current || earlier(tiles, params, start, n, current));
                }
            }
            assert forall|side: Direction| #[trigger]
                eligible(tiles, params, start, current, side) implies dist@[params.neighbor(
                current,
                side,
            ).flat()] == distance(tiles, params, start, params.neighbor(current, side)) by {
                let n = params.neighbor(current, side);
                lemma_neighbor_in_maze(params, current, side);
                assert(done@[n.flat()]);
            }
        }
        let parent = choose_parent(maze, &dist, &done, current, start, params);
        proof {
            lemma_tile_pos_eq();
            if parent != start {
                let side = parent_side(tiles, params, start, current).unwrap();
                lemma_parent_side(tiles, params, start, current, side);
                lemma_neighbor_in_maze(params, current, side);
                assert(done0[parent.flat()]);
                let i = choose|i: int| 1 <= i < nodes0.len() && (#[trigger] nodes0[i]).0 == parent;
            }
        }
        let index = match tree.search(&parent) {
            Some(i) => i,
            None => 0,
        };
        proof {
            lemma_grown(tiles, params, start, nodes0, dist0, done0, current, index);
        }
        tree.append(current, index);
        proof {
            lemma_tree_size(tiles, params, start, tree@, done@);
        }
        match next_unsettled(&dist, &done, params) {
            Some(next) => {
                proof {
                    lemma_advance(tiles, params, start, dist@, done@, current, next);
                }
                current = next;
            },
            None => {
                proof {
                    assert forall|q: TilePos| #[trigger]
                        linked(tiles, params, start, q) implies done@[q.flat()] by {
                        lemma_finished(
                            tiles,
                            params,
                            start,
                            dist@,
                            done@,
                            current,
                            q,
                            distance(tiles, params, start, q),
                        );
                    }
                }
                break ;
            },
        }
    }
    proof {
        lemma_tile_pos_order();
        assert forall|pos: TilePos| #[trigger] linked(tiles, params, start, pos) implies exists|
            i: int,
        |
            1 <= i < tree@.len() && (#[trigger] tree@[i]).0 == pos by {
            lemma_distance(tiles, params, start, pos);
        }
        assert(shortest_walk_tree(tiles, params, start, tree@));
    }
    SortedTree::new(tree)
}

} // verus!
