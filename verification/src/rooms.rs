//! The room carver: opens whole tiles, at random places inside the maze and
//! at its middle.

use crate::carving::{lemma_with_open, with_open};
use crate::generate::slot;
use crate::grid::{Direction, TilePos, MAZE_SIZE};
use crate::params::{lemma_center_in_maze, lemma_neighbor_in_maze, neighbors, sides, MazeParams};
use crate::passages::{canvas, tile_at, walls_agree};
use crate::random::sample_indices;
use crate::tile::Tile;
use core::ops::Neg;
use turborand::rng::AtomicRng;
use vstd::prelude::*;

verus! {

/// A room at `room` takes down the wall on `side` of the tile at `pos`: every
/// wall of the room's own tile, and the wall that faces the room on each of
/// its neighbours.
pub open spec fn opened_by(params: MazeParams, room: TilePos, pos: TilePos, side: Direction) -> bool {
    pos == room || pos == params.neighbor(room, side.opposite())
}

/// One of `rooms` takes down the wall on `side` of the tile at `pos`.
pub open spec fn opened_by_rooms(
    params: MazeParams,
    rooms: Seq<TilePos>,
    pos: TilePos,
    side: Direction,
) -> bool {
    exists|i: int| 0 <= i < rooms.len() && opened_by(params, #[trigger] rooms[i], pos, side)
}

/// `after` is `before` with rooms at `rooms`: the walls that the rooms take
/// down are open, and nothing else has changed.
pub open spec fn rooms_opened(
    before: Seq<Tile>,
    after: Seq<Tile>,
    params: MazeParams,
    rooms: Seq<TilePos>,
) -> bool {
    &&& canvas(after)
    &&& forall|q: TilePos|
        q.on_canvas() ==> (#[trigger] tile_at(after, q)).0 & 0b1111_0000 == tile_at(before, q).0
            & 0b1111_0000
    &&& forall|q: TilePos|
        q.on_canvas() && !params.contains(q) ==> #[trigger] tile_at(after, q) == tile_at(before, q)
    &&& forall|q: TilePos, s: Direction|
        q.on_canvas() ==> (#[trigger] tile_at(after, q).has_open(s) <==> (tile_at(
            before,
            q,
        ).has_open(s) || opened_by_rooms(params, rooms, q, s)))
}

/// The tile at `room` is a room: all four of its walls are open, and each of
/// its neighbours has the wall that faces it open.
pub open spec fn room_at(tiles: Seq<Tile>, params: MazeParams, room: TilePos) -> bool {
    forall|side: Direction|
        #![trigger tile_at(tiles, room).has_open(side)]
        tile_at(tiles, room).has_open(side) && tile_at(tiles, params.neighbor(room, side)).has_open(
            side.opposite(),
        )
}

/// Whether `pos` is a maze tile off the outermost ring of the maze.
pub open spec fn interior(params: MazeParams, pos: TilePos) -> bool {
    &&& params.left() + 1 <= pos.x < params.left() + params.width - 1
    &&& params.bottom() + 1 <= pos.y < params.bottom() + params.height - 1
}

/// The number of maze tiles off the outermost ring.
pub open spec fn interior_count(params: MazeParams) -> int {
    if params.width >= 2 && params.height >= 2 {
        (params.width - 2) * (params.height - 2)
    } else {
        0
    }
}

/// `rooms` is a choice of rooms that the parameters allow: distinct tiles off
/// the outermost ring, one fewer than the number of rooms asked for (or all
/// there are), and then the middle tile.
pub open spec fn room_choice(params: MazeParams, rooms: Seq<TilePos>) -> bool {
    &&& rooms.len() >= 1
    &&& rooms.last() == MazeParams::center()
    &&& rooms.len() - 1 == if params.rooms - 1 <= interior_count(params) {
        params.rooms - 1
    } else {
        interior_count(params)
    }
    &&& rooms.drop_last().no_duplicates()
    &&& forall|i: int| 0 <= i < rooms.len() - 1 ==> interior(params, #[trigger] rooms[i])
}

/// The table after a room has been opened at `room`.
pub open spec fn with_room(tiles: Seq<Tile>, params: MazeParams, room: TilePos) -> Seq<Tile> {
    let t1 = with_open(tiles, room, Direction::Top);
    let t2 = with_open(t1, room, Direction::Right);
    let t3 = with_open(t2, room, Direction::Bottom);
    let t4 = with_open(t3, room, Direction::Left);
    let t5 = with_open(t4, params.neighbor(room, Direction::Top), Direction::Bottom);
    let t6 = with_open(t5, params.neighbor(room, Direction::Right), Direction::Left);
    let t7 = with_open(t6, params.neighbor(room, Direction::Bottom), Direction::Top);
    with_open(t7, params.neighbor(room, Direction::Left), Direction::Right)
}

/// Opening a room takes down exactly the walls that the room asks for.
pub proof fn lemma_with_room(tiles: Seq<Tile>, params: MazeParams, room: TilePos)
    requires
        canvas(tiles),
        params.valid(),
        params.contains(room),
    ensures
        canvas(with_room(tiles, params, room)),
        forall|q: TilePos|
            q.on_canvas() ==> (#[trigger] tile_at(with_room(tiles, params, room), q)).0
                & 0b1111_0000 == tile_at(tiles, q).0 & 0b1111_0000,
        forall|q: TilePos|
            q.on_canvas() && !params.contains(q) ==> #[trigger] tile_at(
                with_room(tiles, params, room),
                q,
            ) == tile_at(tiles, q),
        forall|q: TilePos, s: Direction|
            q.on_canvas() ==> (#[trigger] tile_at(with_room(tiles, params, room), q).has_open(s)
                <==> (tile_at(tiles, q).has_open(s) || opened_by(params, room, q, s))),
{
    let top = params.neighbor(room, Direction::Top);
    let right = params.neighbor(room, Direction::Right);
    let bottom = params.neighbor(room, Direction::Bottom);
    let left = params.neighbor(room, Direction::Left);
    lemma_neighbor_in_maze(params, room, Direction::Top);
    lemma_neighbor_in_maze(params, room, Direction::Right);
    lemma_neighbor_in_maze(params, room, Direction::Bottom);
    lemma_neighbor_in_maze(params, room, Direction::Left);
    let t1 = with_open(tiles, room, Direction::Top);
    let t2 = with_open(t1, room, Direction::Right);
    let t3 = with_open(t2, room, Direction::Bottom);
    let t4 = with_open(t3, room, Direction::Left);
    let t5 = with_open(t4, top, Direction::Bottom);
    let t6 = with_open(t5, right, Direction::Left);
    let t7 = with_open(t6, bottom, Direction::Top);
    let t8 = with_open(t7, left, Direction::Right);
    lemma_with_open(tiles, room, Direction::Top);
    lemma_with_open(t1, room, Direction::Right);
    lemma_with_open(t2, room, Direction::Bottom);
    lemma_with_open(t3, room, Direction::Left);
    lemma_with_open(t4, top, Direction::Bottom);
    lemma_with_open(t5, right, Direction::Left);
    lemma_with_open(t6, bottom, Direction::Top);
    lemma_with_open(t7, left, Direction::Right);
    assert forall|q: TilePos| q.on_canvas() implies (#[trigger] tile_at(t8, q)).0 & 0b1111_0000
        == tile_at(tiles, q).0 & 0b1111_0000 by {
        assert(crate::carving::lowered(tile_at(tiles, q), tile_at(t1, q)));
        assert(crate::carving::lowered(tile_at(t1, q), tile_at(t2, q)));
        assert(crate::carving::lowered(tile_at(t2, q), tile_at(t3, q)));
        assert(crate::carving::lowered(tile_at(t3, q), tile_at(t4, q)));
        assert(crate::carving::lowered(tile_at(t4, q), tile_at(t5, q)));
        assert(crate::carving::lowered(tile_at(t5, q), tile_at(t6, q)));
        assert(crate::carving::lowered(tile_at(t6, q), tile_at(t7, q)));
        assert(crate::carving::lowered(tile_at(t7, q), tile_at(t8, q)));
    }
    assert forall|q: TilePos| q.on_canvas() && !params.contains(q) implies #[trigger] tile_at(
        t8,
        q,
    ) == tile_at(tiles, q) by {
        assert(tile_at(t1, q) == tile_at(tiles, q));
        assert(tile_at(t2, q) == tile_at(t1, q));
        assert(tile_at(t3, q) == tile_at(t2, q));
        assert(tile_at(t4, q) == tile_at(t3, q));
        assert(tile_at(t5, q) == tile_at(t4, q));
        assert(tile_at(t6, q) == tile_at(t5, q));
        assert(tile_at(t7, q) == tile_at(t6, q));
        assert(tile_at(t8, q) == tile_at(t7, q));
    }
    assert forall|q: TilePos, s: Direction| q.on_canvas() implies (#[trigger] tile_at(
        t8,
        q,
    ).has_open(s) <==> (tile_at(tiles, q).has_open(s) || opened_by(params, room, q, s))) by {
        assert(tile_at(t1, q).has_open(s) <==> (tile_at(tiles, q).has_open(s) || (q == room && s
            == Direction::Top)));
        assert(tile_at(t2, q).has_open(s) <==> (tile_at(t1, q).has_open(s) || (q == room && s
            == Direction::Right)));
        assert(tile_at(t3, q).has_open(s) <==> (tile_at(t2, q).has_open(s) || (q == room && s
            == Direction::Bottom)));
        assert(tile_at(t4, q).has_open(s) <==> (tile_at(t3, q).has_open(s) || (q == room && s
            == Direction::Left)));
        assert(tile_at(t5, q).has_open(s) <==> (tile_at(t4, q).has_open(s) || (q == top && s
            == Direction::Bottom)));
        assert(tile_at(t6, q).has_open(s) <==> (tile_at(t5, q).has_open(s) || (q == right && s
            == Direction::Left)));
        assert(tile_at(t7, q).has_open(s) <==> (tile_at(t6, q).has_open(s) || (q == bottom && s
            == Direction::Top)));
        assert(tile_at(t8, q).has_open(s) <==> (tile_at(t7, q).has_open(s) || (q == left && s
            == Direction::Right)));
    }
}

/// Opens a room at `room`.
fn open_room(maze: &mut [Tile], room: TilePos, params: MazeParams)
    requires
        canvas(old(maze)@),
        params.valid(),
        params.contains(room),
    ensures
        final(maze)@ == with_room(old(maze)@, params, room),
{
    proof {
        lemma_neighbor_in_maze(params, room, Direction::Top);
        lemma_neighbor_in_maze(params, room, Direction::Right);
        lemma_neighbor_in_maze(params, room, Direction::Bottom);
        lemma_neighbor_in_maze(params, room, Direction::Left);
        assert(sides()[0] == Direction::Top);
        assert(sides()[1] == Direction::Right);
        assert(sides()[2] == Direction::Bottom);
        assert(sides()[3] == Direction::Left);
    }
    let at = slot(room);
    maze[at].open(Direction::Top);
    maze[at].open(Direction::Right);
    maze[at].open(Direction::Bottom);
    maze[at].open(Direction::Left);
    let around = neighbors(room, params);
    maze[slot(around[0].0)].open(around[0].1.neg());
    maze[slot(around[1].0)].open(around[1].1.neg());
    maze[slot(around[2].0)].open(around[2].1.neg());
    maze[slot(around[3].0)].open(around[3].1.neg());
}

/// Opens a room at each of `rooms`.
pub fn open_rooms(maze: &mut [Tile], rooms: &Vec<TilePos>, params: MazeParams)
    requires
        canvas(old(maze)@),
        params.valid(),
        forall|i: int| 0 <= i < rooms@.len() ==> params.contains(#[trigger] rooms@[i]),
    ensures
        rooms_opened(old(maze)@, final(maze)@, params, rooms@),
        forall|i: int| 0 <= i < rooms@.len() ==> room_at(final(maze)@, params, #[trigger] rooms@[i]),
        walls_agree(old(maze)@, params) ==> walls_agree(final(maze)@, params),
{
    let ghost before = maze@;
    let mut i: usize = 0;
    while i < rooms.len()
        invariant
            i <= rooms@.len(),
            params.valid(),
            canvas(before),
            forall|j: int| 0 <= j < rooms@.len() ==> params.contains(#[trigger] rooms@[j]),
            rooms_opened(before, maze@, params, rooms@.subrange(0, i as int)),
        decreases rooms@.len() - i,
    {
        let ghost t0 = maze@;
        let ghost done = rooms@.subrange(0, i as int);
        let ghost more = rooms@.subrange(0, i + 1);
        open_room(maze, rooms[i], params);
        proof {
            lemma_with_room(t0, params, rooms@[i as int]);
            assert forall|q: TilePos, s: Direction| q.on_canvas() implies (#[trigger] tile_at(
                maze@,
                q,
            ).has_open(s) <==> (tile_at(before, q).has_open(s) || opened_by_rooms(
                params,
                more,
                q,
                s,
            ))) by {
                assert(tile_at(maze@, q).has_open(s) <==> (tile_at(t0, q).has_open(s) || opened_by(
                    params,
                    rooms@[i as int],
                    q,
                    s,
                )));
                assert(tile_at(t0, q).has_open(s) <==> (tile_at(before, q).has_open(s)
                    || opened_by_rooms(params, done, q, s)));
                if opened_by_rooms(params, done, q, s) {
                    let j = choose|j: int|
                        0 <= j < done.len() && opened_by(params, #[trigger] done[j], q, s);
                    assert(more[j] == done[j]);
                }
                if opened_by(params, rooms@[i as int], q, s) {
                    assert(more[i as int] == rooms@[i as int]);
                }
                if opened_by_rooms(params, more, q, s) {
                    let j = choose|j: int|
                        0 <= j < more.len() && opened_by(params, #[trigger] more[j], q, s);
                    if j < i {
                        assert(done[j] == more[j]);
                    }
                }
            }
            assert forall|q: TilePos| q.on_canvas() implies (#[trigger] tile_at(maze@, q)).0
                & 0b1111_0000 == tile_at(before, q).0 & 0b1111_0000 by {
                assert(tile_at(t0, q).0 & 0b1111_0000 == tile_at(before, q).0 & 0b1111_0000);
            }
            assert forall|q: TilePos| q.on_canvas() && !params.contains(q) implies #[trigger] tile_at(
                maze@,
                q,
            ) == tile_at(before, q) by {
                assert(tile_at(t0, q) == tile_at(before, q));
            }
        }
        i += 1;
    }
    proof {
        assert(rooms@.subrange(0, rooms@.len() as int) =~= rooms@);
        lemma_rooms(before, maze@, params, rooms@);
    }
}

/// Where rooms have been opened, each of them is a room, and walls that
/// agreed still agree.
pub proof fn lemma_rooms(
    before: Seq<Tile>,
    after: Seq<Tile>,
    params: MazeParams,
    rooms: Seq<TilePos>,
)
    requires
        canvas(before),
        params.valid(),
        forall|i: int| 0 <= i < rooms.len() ==> params.contains(#[trigger] rooms[i]),
        rooms_opened(before, after, params, rooms),
    ensures
        forall|i: int| 0 <= i < rooms.len() ==> room_at(after, params, #[trigger] rooms[i]),
        walls_agree(before, params) ==> walls_agree(after, params),
{
    assert forall|i: int| 0 <= i < rooms.len() implies room_at(after, params, #[trigger] rooms[i]) by {
        let room = rooms[i];
        assert forall|side: Direction|
            #![trigger tile_at(after, room).has_open(side)]
            tile_at(after, room).has_open(side) && tile_at(
                after,
                params.neighbor(room, side),
            ).has_open(side.opposite()) by {
            lemma_neighbor_in_maze(params, room, side);
            assert(opened_by(params, rooms[i], room, side));
            assert(opened_by(params, rooms[i], params.neighbor(room, side), side.opposite()));
        }
    }
    if walls_agree(before, params) {
        assert forall|q: TilePos, s: Direction|
            params.contains(q) && params.neighbor(q, s) != q implies (#[trigger] tile_at(
                after,
                q,
            ).has_open(s) <==> tile_at(after, params.neighbor(q, s)).has_open(s.opposite())) by {
            let n = params.neighbor(q, s);
            lemma_neighbor_in_maze(params, q, s);
            assert(tile_at(before, q).has_open(s) <==> tile_at(before, n).has_open(s.opposite()));
            if opened_by_rooms(params, rooms, q, s) {
                let j = choose|j: int|
                    0 <= j < rooms.len() && opened_by(params, #[trigger] rooms[j], q, s);
                lemma_neighbor_in_maze(params, rooms[j], s.opposite());
                if q == rooms[j] {
                    assert(opened_by(params, rooms[j], n, s.opposite()));
                } else {
                    assert(n == rooms[j]);
                    assert(opened_by(params, rooms[j], n, s.opposite()));
                }
            }
            if opened_by_rooms(params, rooms, n, s.opposite()) {
                let j = choose|j: int|
                    0 <= j < rooms.len() && opened_by(params, #[trigger] rooms[j], n, s.opposite());
                lemma_neighbor_in_maze(params, rooms[j], s);
                if n == rooms[j] {
                    assert(opened_by(params, rooms[j], q, s));
                } else {
                    assert(q == rooms[j]);
                    assert(opened_by(params, rooms[j], q, s));
                }
            }
        }
    }
}

/// Generate the maze's rooms: none where no room is asked for, and otherwise
/// rooms at random tiles off the outermost ring, one fewer than asked for,
/// and a room at the middle tile.
pub fn gen_rooms(maze: &mut [Tile], rng: &AtomicRng, params: MazeParams)
    requires
        canvas(old(maze)@),
        params.valid(),
    ensures
        params.rooms == 0 ==> final(maze)@ == old(maze)@,
        params.rooms > 0 ==> exists|rooms: Seq<TilePos>|
            {
                &&& room_choice(params, rooms)
                &&& #[trigger] rooms_opened(old(maze)@, final(maze)@, params, rooms)
                &&& forall|i: int|
                    0 <= i < rooms.len() ==> room_at(final(maze)@, params, #[trigger] rooms[i])
            },
        walls_agree(old(maze)@, params) ==> walls_agree(final(maze)@, params),
{
    if params.rooms == 0 {
        return ;
    }
    let columns: usize = if params.width >= 2 {
        (params.width - 2) as usize
    } else {
        0
    };
    let rows: usize = if params.height >= 2 {
        (params.height - 2) as usize
    } else {
        0
    };
    assert(columns * rows <= 128 * 128) by (nonlinear_arith)
        requires
            columns <= 128,
            rows <= 128,
    ;
    let count = columns * rows;
    let picks = sample_indices(rng, count, (params.rooms - 1) as usize);
    let left = params.margin_x();
    let bottom = params.margin_y();
    let mut rooms: Vec<TilePos> = Vec::new();
    let mut i: usize = 0;
    while i < picks.len()
        invariant
            i <= picks@.len(),
            params.valid(),
            count == columns * rows,
            count == interior_count(params),
            columns + 2 == params.width || columns == 0,
            rows + 2 == params.height || rows == 0,
            left == params.left(),
            bottom == params.bottom(),
            rooms@.len() == i,
            forall|j: int| 0 <= j < picks@.len() ==> #[trigger] picks@[j] < count,
            forall|j: int|
                0 <= j < i ==> {
                    &&& (#[trigger] rooms@[j]).x == left + 1 + picks@[j] / rows
                    &&& rooms@[j].y == bottom + 1 + picks@[j] % rows
                    &&& interior(params, rooms@[j])
                },
        decreases picks@.len() - i,
    {
        let k = picks[i];
        assert(rows > 0 && k / rows < columns) by (nonlinear_arith)
            requires
                k < columns * rows,
        ;
        rooms.push(TilePos { x: left + 1 + (k / rows) as u32, y: bottom + 1 + (k % rows) as u32 });
        i += 1;
    }
    rooms.push(TilePos { x: MAZE_SIZE / 2, y: MAZE_SIZE / 2 });
    proof {
        lemma_center_in_maze(params);
        let chosen = rooms@.drop_last();
        assert forall|a: int, b: int| 0 <= a < chosen.len() && 0 <= b < chosen.len() && a != b implies chosen[a]
            != chosen[b] by {
            let ka = picks@[a] as int;
            let kb = picks@[b] as int;
            let r = rows as int;
            assert(ka != kb);
            assert(ka == r * (ka / r) + ka % r && kb == r * (kb / r) + kb % r) by (nonlinear_arith)
                requires
                    r > 0,
            ;
        }
    }
    open_rooms(maze, &rooms, params);
}

} // verus!
