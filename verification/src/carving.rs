//! What taking down a wall does to the passages of the maze, and how many
//! tiles a maze holds.

use crate::grid::{Direction, TilePos, MAZE_SIZE};
use crate::params::{lemma_center_in_maze, lemma_neighbor_in_maze, MazeParams};
use crate::passages::{canvas, passage, passages, tile_at, walls_agree};
use crate::tile::{lemma_opened, Tile};
use vstd::prelude::*;

verus! {

/// The table after the wall on `side` of the tile at `pos` has been taken
/// down.
pub open spec fn with_open(tiles: Seq<Tile>, pos: TilePos, side: Direction) -> Seq<Tile> {
    tiles.update(pos.flat(), tile_at(tiles, pos).opened(side))
}

/// `after` is `before` with some walls taken down, and nothing else changed.
pub open spec fn lowered(before: Tile, after: Tile) -> bool {
    &&& after.0 & 0b1111_0000 == before.0 & 0b1111_0000
    &&& forall|side: Direction| before.has_open(side) ==> #[trigger] after.has_open(side)
}

/// The tile above `pos`.
pub open spec fn above(pos: TilePos) -> TilePos {
    TilePos { x: pos.x, y: (pos.y + 1) as u32 }
}

/// Taking down one wall changes one tile, and on that tile one side.
pub proof fn lemma_with_open(tiles: Seq<Tile>, pos: TilePos, side: Direction)
    requires
        canvas(tiles),
        pos.on_canvas(),
    ensures
        canvas(with_open(tiles, pos, side)),
        forall|q: TilePos|
            q.on_canvas() && q != pos ==> #[trigger] tile_at(with_open(tiles, pos, side), q)
                == tile_at(tiles, q),
        tile_at(with_open(tiles, pos, side), pos) == tile_at(tiles, pos).opened(side),
        forall|q: TilePos, s: Direction|
            q.on_canvas() ==> (#[trigger] tile_at(with_open(tiles, pos, side), q).has_open(s) <==> (
            tile_at(tiles, q).has_open(s) || (q == pos && s == side))),
        forall|q: TilePos|
            q.on_canvas() ==> lowered(tile_at(tiles, q), #[trigger] tile_at(with_open(tiles, pos, side), q)),
{
    let after = with_open(tiles, pos, side);
    assert forall|q: TilePos, s: Direction| q.on_canvas() implies (#[trigger] tile_at(
        after,
        q,
    ).has_open(s) <==> (tile_at(tiles, q).has_open(s) || (q == pos && s == side))) by {
        if q == pos {
            lemma_opened(tile_at(tiles, pos), side, s);
        } else {
            assert(q.flat() != pos.flat());
        }
    }
    assert forall|q: TilePos| q.on_canvas() implies lowered(
        tile_at(tiles, q),
        #[trigger] tile_at(after, q),
    ) by {
        if q == pos {
            lemma_opened(tile_at(tiles, pos), side, side);
            assert forall|s: Direction| tile_at(tiles, q).has_open(s) implies #[trigger] tile_at(
                after,
                q,
            ).has_open(s) by {
                lemma_opened(tile_at(tiles, pos), side, s);
            }
        } else {
            assert(q.flat() != pos.flat());
        }
    }
}

/// Taking down the wall between `pos` and its neighbour towards `side`, from
/// both sides, adds the passage between the two and changes no other.
pub proof fn lemma_carve(tiles: Seq<Tile>, params: MazeParams, pos: TilePos, side: Direction)
    requires
        canvas(tiles),
        params.valid(),
        params.contains(pos),
        params.neighbor(pos, side) != pos,
    ensures
        ({
            let next = params.neighbor(pos, side);
            let after = with_open(with_open(tiles, pos, side), next, side.opposite());
            &&& canvas(after)
            &&& forall|q: TilePos, s: Direction| #[trigger]
                passage(after, params, q, s) <==> (passage(tiles, params, q, s) || (q == pos && s
                    == side) || (q == next && s == side.opposite()))
            &&& forall|q: TilePos, s: Direction|
                params.contains(q) && params.neighbor(q, s) == q ==> (#[trigger] tile_at(
                    after,
                    q,
                ).has_open(s) <==> tile_at(tiles, q).has_open(s))
            &&& forall|q: TilePos|
                q.on_canvas() ==> lowered(tile_at(tiles, q), #[trigger] tile_at(after, q))
            &&& forall|q: TilePos|
                q.on_canvas() && !params.contains(q) ==> #[trigger] tile_at(after, q) == tile_at(
                    tiles,
                    q,
                )
            &&& walls_agree(tiles, params) ==> walls_agree(after, params)
        }),
{
    let next = params.neighbor(pos, side);
    let back = side.opposite();
    let mid = with_open(tiles, pos, side);
    let after = with_open(mid, next, back);
    lemma_neighbor_in_maze(params, pos, side);
    lemma_with_open(tiles, pos, side);
    lemma_with_open(mid, next, back);
    assert forall|q: TilePos, s: Direction| #[trigger]
        passage(after, params, q, s) <==> (passage(tiles, params, q, s) || (q == pos && s == side)
            || (q == next && s == back)) by {
        if params.contains(q) {
            assert(tile_at(after, q).has_open(s) <==> (tile_at(mid, q).has_open(s) || (q == next
                && s == back)));
            assert(tile_at(mid, q).has_open(s) <==> (tile_at(tiles, q).has_open(s) || (q == pos
                && s == side)));
        }
    }
    assert forall|q: TilePos, s: Direction|
        params.contains(q) && params.neighbor(q, s) == q implies (#[trigger] tile_at(
            after,
            q,
        ).has_open(s) <==> tile_at(tiles, q).has_open(s)) by {
        assert(tile_at(after, q).has_open(s) <==> (tile_at(mid, q).has_open(s) || (q == next && s
            == back)));
        assert(tile_at(mid, q).has_open(s) <==> (tile_at(tiles, q).has_open(s) || (q == pos && s
            == side)));
    }
    assert forall|q: TilePos| q.on_canvas() implies lowered(
        tile_at(tiles, q),
        #[trigger] tile_at(after, q),
    ) by {
        assert(lowered(tile_at(tiles, q), tile_at(mid, q)));
        assert(lowered(tile_at(mid, q), tile_at(after, q)));
        assert forall|s: Direction| tile_at(tiles, q).has_open(s) implies #[trigger] tile_at(
            after,
            q,
        ).has_open(s) by {
            assert(tile_at(mid, q).has_open(s));
        }
    }
    if walls_agree(tiles, params) {
        assert forall|q: TilePos, s: Direction|
            params.contains(q) && params.neighbor(q, s) != q implies (#[trigger] tile_at(
                after,
                q,
            ).has_open(s) <==> tile_at(after, params.neighbor(q, s)).has_open(s.opposite())) by {
            let n = params.neighbor(q, s);
            lemma_neighbor_in_maze(params, q, s);
            assert(tile_at(tiles, q).has_open(s) <==> tile_at(tiles, n).has_open(s.opposite()));
            assert(tile_at(after, q).has_open(s) <==> (tile_at(mid, q).has_open(s) || (q == next
                && s == back)));
            assert(tile_at(mid, q).has_open(s) <==> (tile_at(tiles, q).has_open(s) || (q == pos
                && s == side)));
            assert(tile_at(after, n).has_open(s.opposite()) <==> (tile_at(mid, n).has_open(
                s.opposite(),
            ) || (n == next && s.opposite() == back)));
            assert(tile_at(mid, n).has_open(s.opposite()) <==> (tile_at(tiles, n).has_open(
                s.opposite(),
            ) || (n == pos && s.opposite() == side)));
        }
    }
}

/// A new passage makes the passages one more.
pub proof fn lemma_one_more_passage(
    before: Seq<Tile>,
    after: Seq<Tile>,
    params: MazeParams,
    pos: TilePos,
    side: Direction,
)
    requires
        params.valid(),
        params.contains(pos),
        params.neighbor(pos, side) != pos,
        passages(before, params).finite(),
        !passage(before, params, pos, side),
        !passage(before, params, params.neighbor(pos, side), side.opposite()),
        forall|q: TilePos, s: Direction| #[trigger]
            passage(after, params, q, s) <==> (passage(before, params, q, s) || (q == pos && s
                == side) || (q == params.neighbor(pos, side) && s == side.opposite())),
    ensures
        passages(after, params).finite(),
        passages(after, params).len() == passages(before, params).len() + 1,
{
    let next = params.neighbor(pos, side);
    lemma_neighbor_in_maze(params, pos, side);
    let edge = if side == Direction::Top || side == Direction::Right {
        (pos, side)
    } else {
        (next, side.opposite())
    };
    assert(!passages(before, params).contains(edge));
    assert forall|e: (TilePos, Direction)|
        passages(after, params).contains(e) <==> passages(before, params).insert(edge).contains(
            e,
        ) by {
        assert(passage(after, params, e.0, e.1) <==> (passage(before, params, e.0, e.1) || (e.0
            == pos && e.1 == side) || (e.0 == next && e.1 == side.opposite())));
    }
    assert(passages(after, params) =~= passages(before, params).insert(edge));
}

/// Where nothing but walls that are no passages changes, the passages stay.
pub proof fn lemma_same_passages(before: Seq<Tile>, after: Seq<Tile>, params: MazeParams)
    requires
        forall|q: TilePos, s: Direction| #[trigger]
            passage(after, params, q, s) <==> passage(before, params, q, s),
    ensures
        passages(after, params) == passages(before, params),
{
    assert(passages(after, params) =~= passages(before, params));
}

/// A set of maze tiles that holds the middle tile, and with each tile its
/// four neighbours, holds every tile of the maze.
pub proof fn lemma_closed_is_whole(params: MazeParams, visited: Seq<TilePos>, pos: TilePos)
    requires
        params.valid(),
        visited.contains(MazeParams::center()),
        forall|q: TilePos, s: Direction|
            visited.contains(q) && params.contains(q) ==> visited.contains(
                #[trigger] params.neighbor(q, s),
            ),
        params.contains(pos),
    ensures
        visited.contains(pos),
    decreases
            (if pos.x >= MAZE_SIZE / 2 {
                pos.x - MAZE_SIZE / 2
            } else {
                MAZE_SIZE / 2 - pos.x
            }) + (if pos.y >= MAZE_SIZE / 2 {
                pos.y - MAZE_SIZE / 2
            } else {
                MAZE_SIZE / 2 - pos.y
            }),
{
    lemma_center_in_maze(params);
    let mid = MAZE_SIZE / 2;
    if pos.x > mid {
        let from = TilePos { x: (pos.x - 1) as u32, y: pos.y };
        lemma_closed_is_whole(params, visited, from);
        assert(params.neighbor(from, Direction::Right) == pos);
    } else if pos.x < mid {
        let from = TilePos { x: (pos.x + 1) as u32, y: pos.y };
        lemma_closed_is_whole(params, visited, from);
        assert(params.neighbor(from, Direction::Left) == pos);
    } else if pos.y > mid {
        let from = TilePos { x: pos.x, y: (pos.y - 1) as u32 };
        lemma_closed_is_whole(params, visited, from);
        assert(params.neighbor(from, Direction::Top) == pos);
    } else if pos.y < mid {
        let from = TilePos { x: pos.x, y: (pos.y + 1) as u32 };
        lemma_closed_is_whole(params, visited, from);
        assert(params.neighbor(from, Direction::Bottom) == pos);
    } else {
        assert(pos == MazeParams::center());
    }
}

/// The place of a maze tile when the tiles are counted column by column.
pub open spec fn rank(params: MazeParams, pos: TilePos) -> int {
    (pos.x - params.left()) * params.height + (pos.y - params.bottom())
}

/// Maze tiles have distinct ranks, below the number of tiles.
pub proof fn lemma_rank(params: MazeParams, a: TilePos, b: TilePos)
    requires
        params.valid(),
        params.contains(a),
        params.contains(b),
    ensures
        0 <= rank(params, a) < params.width * params.height,
        rank(params, a) == rank(params, b) ==> a == b,
{
    let h = params.height as int;
    let w = params.width as int;
    let ax = a.x - params.left();
    let ay = a.y - params.bottom();
    let bx = b.x - params.left();
    let by = b.y - params.bottom();
    assert(0 <= ax * h + ay < w * h) by (nonlinear_arith)
        requires
            0 <= ax < w,
            0 <= ay < h,
    ;
    assert(ax * h + ay == bx * h + by ==> ax == bx) by (nonlinear_arith)
        requires
            0 <= ax,
            0 <= bx,
            0 <= ay < h,
            0 <= by < h,
    ;
}

/// Every number below the number of tiles is the rank of a maze tile.
pub proof fn lemma_unrank(params: MazeParams, k: int) -> (pos: TilePos)
    requires
        params.valid(),
        0 <= k < params.width * params.height,
    ensures
        params.contains(pos),
        rank(params, pos) == k,
        pos.x == params.left() + k / (params.height as int),
        pos.y == params.bottom() + k % (params.height as int),
{
    let h = params.height as int;
    let w = params.width as int;
    let col = k / h;
    let row = k % h;
    assert(0 <= col < w && 0 <= row < h && col * h + row == k) by (nonlinear_arith)
        requires
            0 <= k < w * h,
            0 < h,
            col == k / h,
            row == k % h,
    ;
    TilePos { x: (params.left() + col) as u32, y: (params.bottom() + row) as u32 }
}

/// Maze tiles listed without repetition are at most as many as the maze has
/// tiles, and exactly as many where no tile is left out.
pub proof fn lemma_tile_count(params: MazeParams, visited: Seq<TilePos>)
    requires
        params.valid(),
        visited.no_duplicates(),
        forall|i: int| 0 <= i < visited.len() ==> params.contains(#[trigger] visited[i]),
    ensures
        visited.len() <= params.width * params.height,
        (forall|pos: TilePos| params.contains(pos) ==> visited.contains(pos)) ==> visited.len()
            == params.width * params.height,
{
    let total = params.width * params.height;
    let ranks = visited.map_values(|pos: TilePos| rank(params, pos));
    assert forall|i: int, j: int| 0 <= i < ranks.len() && 0 <= j < ranks.len() && i != j implies ranks[i]
        != ranks[j] by {
        lemma_rank(params, visited[i], visited[j]);
    }
    ranks.unique_seq_to_set();
    assert(total >= 0) by (nonlinear_arith)
        requires
            total == params.width * params.height,
    ;
    vstd::set_lib::lemma_int_range(0, total);
    let whole = vstd::set_lib::set_int_range(0, total);
    assert forall|k: int| ranks.to_set().contains(k) implies whole.contains(k) by {
        let i = choose|i: int| 0 <= i < ranks.len() && ranks[i] == k;
        lemma_rank(params, visited[i], visited[i]);
    }
    vstd::set_lib::lemma_len_subset(ranks.to_set(), whole);
    if forall|pos: TilePos| params.contains(pos) ==> visited.contains(pos) {
        assert forall|k: int| whole.contains(k) implies ranks.to_set().contains(k) by {
            let pos = lemma_unrank(params, k);
            assert(visited.contains(pos));
            let i = choose|i: int| 0 <= i < visited.len() && visited[i] == pos;
            assert(ranks[i] == k);
        }
        assert(ranks.to_set() =~= whole);
    }
}

} // verus!
