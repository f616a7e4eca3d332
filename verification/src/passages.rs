//! The graph that the open walls of a tile table draw on the maze.

use crate::grid::{Direction, TilePos, MAZE_SIZE};
use crate::params::MazeParams;
use crate::tile::Tile;
use vstd::prelude::*;

verus! {

/// The table holds one tile for every position of the canvas.
pub open spec fn canvas(tiles: Seq<Tile>) -> bool {
    tiles.len() == MAZE_SIZE * MAZE_SIZE
}

/// The tile at `pos`.
pub open spec fn tile_at(tiles: Seq<Tile>, pos: TilePos) -> Tile {
    tiles[pos.flat()]
}

/// The maze can be left from `pos` towards `side`: the wall is open and
/// another maze tile lies behind it.
pub open spec fn passage(tiles: Seq<Tile>, params: MazeParams, pos: TilePos, side: Direction) -> bool {
    &&& params.contains(pos)
    &&& params.neighbor(pos, side) != pos
    &&& tile_at(tiles, pos).has_open(side)
}

/// One step through an open wall of `a` leads to `b`.
pub open spec fn joined(tiles: Seq<Tile>, params: MazeParams, a: TilePos, b: TilePos) -> bool {
    exists|side: Direction| #[trigger] passage(tiles, params, a, side) && params.neighbor(a, side) == b
}

/// A walk through the maze: each tile of `path` is left through an open wall
/// towards the next.
pub open spec fn walk(tiles: Seq<Tile>, params: MazeParams, path: Seq<TilePos>) -> bool {
    &&& path.len() >= 1
    &&& params.contains(path[0])
    &&& forall|i: int|
        0 <= i < path.len() - 1 ==> joined(tiles, params, #[trigger] path[i], path[i + 1])
}

/// A walk of `steps` steps leads from `a` to `b`.
pub open spec fn reaches(
    tiles: Seq<Tile>,
    params: MazeParams,
    a: TilePos,
    b: TilePos,
    steps: nat,
) -> bool {
    exists|path: Seq<TilePos>|
        #[trigger] walk(tiles, params, path) && path.len() == steps + 1 && path[0] == a
            && path.last() == b
}

/// Some walk leads from `a` to `b`.
pub open spec fn linked(tiles: Seq<Tile>, params: MazeParams, a: TilePos, b: TilePos) -> bool {
    exists|steps: nat| reaches(tiles, params, a, b, steps)
}

/// The passages of the maze, each counted once: from the tile below or to the
/// left of the wall.
pub open spec fn passages(tiles: Seq<Tile>, params: MazeParams) -> Set<(TilePos, Direction)> {
    Set::new(
        |e: (TilePos, Direction)|
            (e.1 == Direction::Top || e.1 == Direction::Right) && passage(tiles, params, e.0, e.1),
    )
}

/// Every wall between two maze tiles is open from both sides or from
/// neither.
pub open spec fn walls_agree(tiles: Seq<Tile>, params: MazeParams) -> bool {
    forall|pos: TilePos, side: Direction|
        params.contains(pos) && params.neighbor(pos, side) != pos ==> (#[trigger] tile_at(
            tiles,
            pos,
        ).has_open(side) <==> tile_at(tiles, params.neighbor(pos, side)).has_open(side.opposite()))
}

/// No wall between two maze tiles is open.
pub open spec fn sealed(tiles: Seq<Tile>, params: MazeParams) -> bool {
    forall|pos: TilePos, side: Direction| !#[trigger] passage(tiles, params, pos, side)
}

/// Every tile of the maze can be walked to from the middle.
pub open spec fn connected(tiles: Seq<Tile>, params: MazeParams) -> bool {
    forall|pos: TilePos|
        params.contains(pos) ==> #[trigger] linked(tiles, params, MazeParams::center(), pos)
}

/// The passages form a spanning tree of the maze: every tile can be walked to
/// from the middle, and there is one passage fewer than there are tiles.
pub open spec fn spanning_tree(tiles: Seq<Tile>, params: MazeParams) -> bool {
    &&& connected(tiles, params)
    &&& passages(tiles, params).finite()
    &&& passages(tiles, params).len() == params.width * params.height - 1
}

/// A walk can be continued through an open wall.
pub proof fn lemma_reaches_step(
    tiles: Seq<Tile>,
    params: MazeParams,
    a: TilePos,
    b: TilePos,
    c: TilePos,
    steps: nat,
)
    requires
        reaches(tiles, params, a, b, steps),
        joined(tiles, params, b, c),
    ensures
        reaches(tiles, params, a, c, steps + 1),
{
    let path = choose|path: Seq<TilePos>|
        #[trigger] walk(tiles, params, path) && path.len() == steps + 1 && path[0] == a
            && path.last() == b;
    let longer = path.push(c);
    assert forall|i: int| 0 <= i < longer.len() - 1 implies joined(
        tiles,
        params,
        #[trigger] longer[i],
        longer[i + 1],
    ) by {
        if i < path.len() - 1 {
            assert(longer[i] == path[i]);
            assert(longer[i + 1] == path[i + 1]);
        }
    }
    assert(walk(tiles, params, longer));
}

/// Every maze tile is reached from itself in no steps.
pub proof fn lemma_reaches_self(tiles: Seq<Tile>, params: MazeParams, a: TilePos)
    requires
        params.contains(a),
    ensures
        reaches(tiles, params, a, a, 0),
{
    assert(walk(tiles, params, seq![a]));
}

/// A walk stays a walk when walls are only taken down.
pub proof fn lemma_reaches_monotone(
    before: Seq<Tile>,
    after: Seq<Tile>,
    params: MazeParams,
    a: TilePos,
    b: TilePos,
    steps: nat,
)
    requires
        reaches(before, params, a, b, steps),
        forall|pos: TilePos, side: Direction| #[trigger]
            passage(before, params, pos, side) ==> passage(after, params, pos, side),
    ensures
        reaches(after, params, a, b, steps),
{
    let path = choose|path: Seq<TilePos>|
        #[trigger] walk(before, params, path) && path.len() == steps + 1 && path[0] == a
            && path.last() == b;
    assert forall|i: int| 0 <= i < path.len() - 1 implies joined(
        after,
        params,
        #[trigger] path[i],
        path[i + 1],
    ) by {
        assert(joined(before, params, path[i], path[i + 1]));
        let side = choose|side: Direction| #[trigger]
            passage(before, params, path[i], side) && params.neighbor(path[i], side) == path[i + 1];
        assert(passage(after, params, path[i], side));
    }
    assert(walk(after, params, path));
}

/// A walk of at least one step ends with a step through an open wall.
pub proof fn lemma_reaches_last(
    tiles: Seq<Tile>,
    params: MazeParams,
    a: TilePos,
    b: TilePos,
    steps: nat,
) -> (from: TilePos)
    requires
        reaches(tiles, params, a, b, steps),
        steps >= 1,
    ensures
        reaches(tiles, params, a, from, (steps - 1) as nat),
        joined(tiles, params, from, b),
{
    let path = choose|path: Seq<TilePos>|
        #[trigger] walk(tiles, params, path) && path.len() == steps + 1 && path[0] == a
            && path.last() == b;
    let shorter = path.drop_last();
    assert(joined(tiles, params, path[steps - 1], path[steps - 1 + 1]));
    assert forall|i: int| 0 <= i < shorter.len() - 1 implies joined(
        tiles,
        params,
        #[trigger] shorter[i],
        shorter[i + 1],
    ) by {
        assert(joined(tiles, params, path[i], path[i + 1]));
    }
    assert(walk(tiles, params, shorter));
    path[steps - 1]
}

/// Two walks, one after the other, are a walk.
pub proof fn lemma_reaches_join(
    tiles: Seq<Tile>,
    params: MazeParams,
    a: TilePos,
    b: TilePos,
    c: TilePos,
    first: nat,
    second: nat,
)
    requires
        reaches(tiles, params, a, b, first),
        reaches(tiles, params, b, c, second),
    ensures
        reaches(tiles, params, a, c, first + second),
    decreases second,
{
    if second == 0 {
        let path = choose|path: Seq<TilePos>|
            #[trigger] walk(tiles, params, path) && path.len() == 1 && path[0] == b && path.last()
                == c;
        assert(c == b);
    } else {
        let from = lemma_reaches_last(tiles, params, b, c, second);
        lemma_reaches_join(tiles, params, a, b, from, first, (second - 1) as nat);
        lemma_reaches_step(tiles, params, a, from, c, (first + second - 1) as nat);
    }
}

/// Where walls agree, a walk can be walked back.
pub proof fn lemma_reaches_back(
    tiles: Seq<Tile>,
    params: MazeParams,
    a: TilePos,
    b: TilePos,
    steps: nat,
)
    requires
        params.valid(),
        walls_agree(tiles, params),
        reaches(tiles, params, a, b, steps),
    ensures
        reaches(tiles, params, b, a, steps),
    decreases steps,
{
    if steps == 0 {
        let path = choose|path: Seq<TilePos>|
            #[trigger] walk(tiles, params, path) && path.len() == 1 && path[0] == a && path.last()
                == b;
        assert(b == a);
    } else {
        let from = lemma_reaches_last(tiles, params, a, b, steps);
        lemma_reaches_back(tiles, params, a, from, (steps - 1) as nat);
        let side = choose|side: Direction| #[trigger]
            passage(tiles, params, from, side) && params.neighbor(from, side) == b;
        crate::params::lemma_neighbor_in_maze(params, from, side);
        assert(tile_at(tiles, from).has_open(side));
        assert(passage(tiles, params, b, side.opposite()));
        lemma_reaches_self(tiles, params, b);
        lemma_reaches_step(tiles, params, b, b, from, 0);
        lemma_reaches_join(tiles, params, b, from, a, 1, (steps - 1) as nat);
    }
}

/// In a maze whose walls agree and whose tiles can all be walked to from the
/// middle, every tile can be walked to from every tile.
pub proof fn lemma_connected_from_any_tile(
    tiles: Seq<Tile>,
    params: MazeParams,
    a: TilePos,
    b: TilePos,
)
    requires
        params.valid(),
        walls_agree(tiles, params),
        connected(tiles, params),
        params.contains(a),
        params.contains(b),
    ensures
        linked(tiles, params, a, b),
{
    let middle = MazeParams::center();
    assert(linked(tiles, params, middle, a));
    assert(linked(tiles, params, middle, b));
    let there = choose|steps: nat| reaches(tiles, params, middle, a, steps);
    let on = choose|steps: nat| reaches(tiles, params, middle, b, steps);
    lemma_reaches_back(tiles, params, middle, a, there);
    lemma_reaches_join(tiles, params, a, middle, b, there, on);
}

/// What is linked stays linked through one more open wall.
pub proof fn lemma_linked_step(
    tiles: Seq<Tile>,
    params: MazeParams,
    a: TilePos,
    b: TilePos,
    side: Direction,
)
    requires
        linked(tiles, params, a, b),
        passage(tiles, params, b, side),
    ensures
        linked(tiles, params, a, params.neighbor(b, side)),
{
    let steps = choose|steps: nat| reaches(tiles, params, a, b, steps);
    lemma_reaches_step(tiles, params, a, b, params.neighbor(b, side), steps);
}

/// What is linked stays linked when walls are only taken down.
pub proof fn lemma_linked_monotone(
    before: Seq<Tile>,
    after: Seq<Tile>,
    params: MazeParams,
    a: TilePos,
    b: TilePos,
)
    requires
        linked(before, params, a, b),
        forall|pos: TilePos, side: Direction| #[trigger]
            passage(before, params, pos, side) ==> passage(after, params, pos, side),
    ensures
        linked(after, params, a, b),
{
    let steps = choose|steps: nat| reaches(before, params, a, b, steps);
    lemma_reaches_monotone(before, after, params, a, b, steps);
}

} // verus!
