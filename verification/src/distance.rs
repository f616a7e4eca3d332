//! Shortest walks through the maze, and the order in which the solver
//! settles the tiles.

use crate::carving::rank;
use crate::grid::{Direction, TilePos};
use crate::params::{lemma_neighbor_in_maze, MazeParams};
use crate::passages::{
    joined, lemma_reaches_last, lemma_reaches_self, lemma_reaches_step, linked, passage, reaches,
    tile_at,
    walk, walls_agree,
};
use crate::tile::Tile;
use vstd::prelude::*;

verus! {

/// A walk of `steps` steps leads from `start` to `pos`, and no shorter one.
pub open spec fn shortest(
    tiles: Seq<Tile>,
    params: MazeParams,
    start: TilePos,
    pos: TilePos,
    steps: nat,
) -> bool {
    &&& reaches(tiles, params, start, pos, steps)
    &&& forall|fewer: nat| fewer < steps ==> !reaches(tiles, params, start, pos, fewer)
}

/// The number of steps of a shortest walk from `start` to `pos`, where there
/// is a walk at all.
pub open spec fn distance(tiles: Seq<Tile>, params: MazeParams, start: TilePos, pos: TilePos) -> nat {
    choose|steps: nat| shortest(tiles, params, start, pos, steps)
}

proof fn lemma_least(tiles: Seq<Tile>, params: MazeParams, start: TilePos, pos: TilePos, steps: nat)
    requires
        reaches(tiles, params, start, pos, steps),
    ensures
        exists|least: nat| shortest(tiles, params, start, pos, least),
    decreases steps,
{
    if exists|fewer: nat| fewer < steps && reaches(tiles, params, start, pos, fewer) {
        let fewer = choose|fewer: nat| fewer < steps && reaches(tiles, params, start, pos, fewer);
        lemma_least(tiles, params, start, pos, fewer);
    } else {
        assert(shortest(tiles, params, start, pos, steps));
    }
}

/// Among the walks to a linked tile there is a shortest, and the distance is
/// its length.
pub proof fn lemma_distance(tiles: Seq<Tile>, params: MazeParams, start: TilePos, pos: TilePos)
    requires
        params.valid(),
        linked(tiles, params, start, pos),
    ensures
        shortest(tiles, params, start, pos, distance(tiles, params, start, pos)),
        params.contains(pos),
{
    let steps = choose|steps: nat| reaches(tiles, params, start, pos, steps);
    lemma_least(tiles, params, start, pos, steps);
    lemma_walk_in_maze(tiles, params, start, pos, steps);
}

/// Every tile of a walk is a maze tile.
pub proof fn lemma_walk_in_maze(
    tiles: Seq<Tile>,
    params: MazeParams,
    start: TilePos,
    pos: TilePos,
    steps: nat,
)
    requires
        params.valid(),
        reaches(tiles, params, start, pos, steps),
    ensures
        params.contains(start),
        params.contains(pos),
        steps == 0 ==> pos == start,
{
    let path = choose|path: Seq<TilePos>|
        #[trigger] walk(tiles, params, path) && path.len() == steps + 1 && path[0] == start
            && path.last() == pos;
    if steps > 0 {
        let from = path[steps - 1];
        assert(joined(tiles, params, path[steps - 1], path[steps - 1 + 1]));
        let side = choose|side: Direction| #[trigger]
            passage(tiles, params, from, side) && params.neighbor(from, side) == pos;
        lemma_neighbor_in_maze(params, from, side);
    }
}

/// The distance of a tile is at most the length of any walk to it.
pub proof fn lemma_distance_least(
    tiles: Seq<Tile>,
    params: MazeParams,
    start: TilePos,
    pos: TilePos,
    steps: nat,
)
    requires
        params.valid(),
        reaches(tiles, params, start, pos, steps),
    ensures
        linked(tiles, params, start, pos),
        distance(tiles, params, start, pos) <= steps,
{
    lemma_distance(tiles, params, start, pos);
}

/// The start is linked to itself, at distance 0, and it is the only such
/// tile.
pub proof fn lemma_distance_start(tiles: Seq<Tile>, params: MazeParams, start: TilePos, pos: TilePos)
    requires
        params.valid(),
        params.contains(start),
    ensures
        linked(tiles, params, start, start),
        distance(tiles, params, start, start) == 0,
        linked(tiles, params, start, pos) && distance(tiles, params, start, pos) == 0 ==> pos
            == start,
{
    lemma_reaches_self(tiles, params, start);
    lemma_distance_least(tiles, params, start, start, 0);
    if linked(tiles, params, start, pos) && distance(tiles, params, start, pos) == 0 {
        lemma_distance(tiles, params, start, pos);
        lemma_walk_in_maze(tiles, params, start, pos, 0);
    }
}

/// A tile behind an open wall of a linked tile is linked, at most one step
/// further away.
pub proof fn lemma_distance_step(
    tiles: Seq<Tile>,
    params: MazeParams,
    start: TilePos,
    pos: TilePos,
    side: Direction,
)
    requires
        params.valid(),
        linked(tiles, params, start, pos),
        passage(tiles, params, pos, side),
    ensures
        linked(tiles, params, start, params.neighbor(pos, side)),
        distance(tiles, params, start, params.neighbor(pos, side)) <= distance(
            tiles,
            params,
            start,
            pos,
        ) + 1,
{
    lemma_distance(tiles, params, start, pos);
    let d = distance(tiles, params, start, pos);
    lemma_reaches_step(tiles, params, start, pos, params.neighbor(pos, side), d);
    lemma_distance_least(tiles, params, start, params.neighbor(pos, side), d + 1);
}

/// A linked tile other than the start lies behind an open wall of a linked
/// tile that is one step nearer to the start.
pub proof fn lemma_distance_before(
    tiles: Seq<Tile>,
    params: MazeParams,
    start: TilePos,
    pos: TilePos,
) -> (from: (TilePos, Direction))
    requires
        params.valid(),
        linked(tiles, params, start, pos),
        pos != start,
    ensures
        linked(tiles, params, start, from.0),
        passage(tiles, params, from.0, from.1),
        params.neighbor(from.0, from.1) == pos,
        distance(tiles, params, start, from.0) + 1 == distance(tiles, params, start, pos),
{
    lemma_distance(tiles, params, start, pos);
    let d = distance(tiles, params, start, pos);
    lemma_walk_in_maze(tiles, params, start, pos, d);
    let u = lemma_reaches_last(tiles, params, start, pos, d);
    let side = choose|side: Direction| #[trigger]
        passage(tiles, params, u, side) && params.neighbor(u, side) == pos;
    lemma_distance_least(tiles, params, start, u, (d - 1) as nat);
    lemma_distance_step(tiles, params, start, u, side);
    (u, side)
}

/// Where walls agree, a passage can be walked back.
pub proof fn lemma_passage_back(tiles: Seq<Tile>, params: MazeParams, pos: TilePos, side: Direction)
    requires
        params.valid(),
        walls_agree(tiles, params),
        passage(tiles, params, pos, side),
    ensures
        passage(tiles, params, params.neighbor(pos, side), side.opposite()),
        params.neighbor(params.neighbor(pos, side), side.opposite()) == pos,
{
    lemma_neighbor_in_maze(params, pos, side);
    assert(tile_at(tiles, pos).has_open(side));
}

/// The solver settles `a` before `b`: tiles nearer to the start come first,
/// and tiles equally far in the order of their columns, then of their rows.
pub open spec fn earlier(
    tiles: Seq<Tile>,
    params: MazeParams,
    start: TilePos,
    a: TilePos,
    b: TilePos,
) -> bool {
    let da = distance(tiles, params, start, a);
    let db = distance(tiles, params, start, b);
    da < db || (da == db && rank(params, a) < rank(params, b))
}

/// The neighbour of `pos` towards `side` can become its parent in the tree:
/// the wall is open, and the neighbour is linked to the start and settled
/// before `pos`.
pub open spec fn eligible(
    tiles: Seq<Tile>,
    params: MazeParams,
    start: TilePos,
    pos: TilePos,
    side: Direction,
) -> bool {
    &&& passage(tiles, params, pos, side)
    &&& linked(tiles, params, start, params.neighbor(pos, side))
    &&& earlier(tiles, params, start, params.neighbor(pos, side), pos)
}

/// The better of the parent found so far and the neighbour towards `side`:
/// the neighbour where it is eligible and strictly nearer to the start.
pub open spec fn pick(
    tiles: Seq<Tile>,
    params: MazeParams,
    start: TilePos,
    pos: TilePos,
    best: Option<Direction>,
    side: Direction,
) -> Option<Direction> {
    if eligible(tiles, params, start, pos, side) && (best is None || distance(
        tiles,
        params,
        start,
        params.neighbor(pos, side),
    ) < distance(tiles, params, start, params.neighbor(pos, best.unwrap()))) {
        Some(side)
    } else {
        best
    }
}

/// The side of `pos` behind which its parent lies: of the eligible
/// neighbours the one nearest to the start, and of several such the first in
/// the order top, right, bottom, left.
pub open spec fn parent_side(
    tiles: Seq<Tile>,
    params: MazeParams,
    start: TilePos,
    pos: TilePos,
) -> Option<Direction> {
    let top = pick(tiles, params, start, pos, None, Direction::Top);
    let right = pick(tiles, params, start, pos, top, Direction::Right);
    let bottom = pick(tiles, params, start, pos, right, Direction::Bottom);
    pick(tiles, params, start, pos, bottom, Direction::Left)
}

/// The tile below which `pos` hangs in the tree: the start where no
/// neighbour is eligible.
pub open spec fn parent_tile(
    tiles: Seq<Tile>,
    params: MazeParams,
    start: TilePos,
    pos: TilePos,
) -> TilePos {
    match parent_side(tiles, params, start, pos) {
        Some(side) => params.neighbor(pos, side),
        None => start,
    }
}

/// The parent side is eligible and no eligible neighbour is nearer to the
/// start; there is one wherever a neighbour is eligible.
pub proof fn lemma_parent_side(
    tiles: Seq<Tile>,
    params: MazeParams,
    start: TilePos,
    pos: TilePos,
    side: Direction,
)
    ensures
        parent_side(tiles, params, start, pos) matches Some(best) ==> eligible(
            tiles,
            params,
            start,
            pos,
            best,
        ),
        eligible(tiles, params, start, pos, side) ==> parent_side(tiles, params, start, pos)
            is Some && distance(
            tiles,
            params,
            start,
            params.neighbor(pos, parent_side(tiles, params, start, pos).unwrap()),
        ) <= distance(tiles, params, start, params.neighbor(pos, side)),
{
}

} // verus!
