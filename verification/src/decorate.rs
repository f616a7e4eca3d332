//! The table before generation, and the decoration bits that are worked out
//! once the maze stands.

use crate::carving::{lemma_rank, lemma_unrank, rank};
use crate::generate::slot;
use crate::grid::{Direction, TilePos, MAZE_SIZE};
use crate::params::MazeParams;
use crate::passages::{canvas, passage, sealed, tile_at};
use crate::tile::{lemma_closed_and_open, lemma_open_is_clear_flag, wall_bit, Tile};
use turborand::rng::AtomicRng;
use vstd::prelude::*;

verus! {

/// A table to generate a maze in: fully closed tiles where the maze will be,
/// and grass of random variants around it.
pub fn prepare_maze(rng: &AtomicRng, params: MazeParams) -> (r: Vec<Tile>)
    requires
        params.valid(),
    ensures
        canvas(r@),
        forall|pos: TilePos|
            params.contains(pos) ==> #[trigger] tile_at(r@, pos) == Tile(0b1111_1111),
        forall|pos: TilePos|
            pos.on_canvas() && !params.contains(pos) ==> (#[trigger] tile_at(r@, pos)).grassy()
                && tile_at(r@, pos).0 >> 4 < 15,
        sealed(r@, params),
{
    let mut maze: Vec<Tile> = Vec::new();
    while maze.len() < (MAZE_SIZE * MAZE_SIZE) as usize
        invariant
            maze@.len() <= MAZE_SIZE * MAZE_SIZE,
            forall|i: int| 0 <= i < maze@.len() ==> (#[trigger] maze@[i]).grassy() && maze@[i].0 >> 4 < 15,
        decreases MAZE_SIZE * MAZE_SIZE - maze@.len(),
    {
        maze.push(Tile::grass(rng));
    }
    let left = params.margin_x();
    let bottom = params.margin_y();
    let height = params.height as usize;
    let width = params.width as usize;
    assert(width * height <= 128 * 128) by (nonlinear_arith)
        requires
            width <= 128,
            height <= 128,
    ;
    let total = width * height;
    let mut k: usize = 0;
    while k < total
        invariant
            k <= total,
            params.valid(),
            total == params.width * params.height,
            height == params.height,
            left == params.left(),
            bottom == params.bottom(),
            canvas(maze@),
            forall|pos: TilePos|
                params.contains(pos) && rank(params, pos) < k ==> #[trigger] tile_at(maze@, pos)
                    == Tile(0b1111_1111),
            forall|pos: TilePos|
                pos.on_canvas() && !(params.contains(pos) && rank(params, pos) < k) ==> (
                #[trigger] tile_at(maze@, pos)).grassy() && tile_at(maze@, pos).0 >> 4 < 15,
        decreases total - k,
    {
        let ghost at = lemma_unrank(params, k as int);
        let pos = TilePos { x: left + (k / height) as u32, y: bottom + (k % height) as u32 };
        assert(pos == at);
        let ghost before = maze@;
        maze[slot(pos)] = Tile::fully_closed();
        proof {
            assert forall|q: TilePos|
                params.contains(q) && rank(params, q) < k + 1 implies #[trigger] tile_at(maze@, q)
                == Tile(0b1111_1111) by {
                lemma_rank(params, q, pos);
                if q != pos {
                    assert(q.flat() != pos.flat());
                    assert(tile_at(maze@, q) == tile_at(before, q));
                }
            }
            assert forall|q: TilePos|
                q.on_canvas() && !(params.contains(q) && rank(params, q) < k + 1) implies (
            #[trigger] tile_at(maze@, q)).grassy() && tile_at(maze@, q).0 >> 4 < 15 by {
                assert(q != pos);
                assert(q.flat() != pos.flat());
                assert(tile_at(maze@, q) == tile_at(before, q));
            }
        }
        k += 1;
    }
    proof {
        assert forall|q: TilePos| params.contains(q) implies rank(params, q) < total by {
            lemma_rank(params, q, q);
        }
        assert forall|q: TilePos, side: Direction| !#[trigger] passage(
            maze@,
            params,
            q,
            side,
        ) by {
            lemma_closed_and_open(side);
        }
    }
    maze
}

/// The tile at place `i` of the table lies on the outermost ring of the
/// canvas.
pub open spec fn on_rim(i: int) -> bool {
    ||| i < MAZE_SIZE
    ||| i > (MAZE_SIZE - 1) * MAZE_SIZE
    ||| i % (MAZE_SIZE as int) == 0
    ||| i % (MAZE_SIZE as int) == MAZE_SIZE - 1
}

/// The byte of the tile at place `i` with its corner bits worked out. Grass
/// keeps its byte. Any other tile keeps its four wall flags, and off the rim
/// of the canvas each of its four high bits is set where one of the two
/// tiles next to that corner has a closed wall that runs into it: bit 7 for
/// the tile before it and the tile a row further, bit 6 for the tile after
/// it and the tile a row further, bit 5 for the tile before it and the tile
/// a row back, bit 4 for the tile after it and the tile a row back.
pub open spec fn decoration(tiles: Seq<Tile>, i: int) -> u8 {
    let tile = tiles[i];
    let row = MAZE_SIZE as int;
    let flags = tile.0 & 0b1111;
    if tile.grassy() {
        tile.0
    } else if on_rim(i) {
        flags
    } else {
        let first = if !tiles[i - 1].has_open(Direction::Top) || !tiles[i + row].has_open(
            Direction::Left,
        ) {
            flags | 0b1000_0000
        } else {
            flags
        };
        let second = if !tiles[i + 1].has_open(Direction::Top) || !tiles[i + row].has_open(
            Direction::Right,
        ) {
            first | 0b0100_0000
        } else {
            first
        };
        let third = if !tiles[i - 1].has_open(Direction::Bottom) || !tiles[i - row].has_open(
            Direction::Left,
        ) {
            second | 0b0010_0000
        } else {
            second
        };
        if !tiles[i + 1].has_open(Direction::Bottom) || !tiles[i - row].has_open(Direction::Right) {
            third | 0b0001_0000
        } else {
            third
        }
    }
}

/// The byte of the tile at place `i` with its corner bits worked out.
pub fn tile_bits(i: usize, maze: &[Tile]) -> (r: u8)
    requires
        canvas(maze@),
        i < maze@.len(),
    ensures
        r == decoration(maze@, i as int),
{
    let tile = maze[i];
    if tile.is_grass() {
        return tile.0;
    }
    let row = MAZE_SIZE as usize;
    let on_rim = i < row || i > (row - 1) * row || i % row == 0 || i % row == row - 1;
    let mut res = tile.0 & 0b1111;
    if !on_rim {
        if maze[i - 1].is_closed(Direction::Top) || maze[i + row].is_closed(Direction::Left) {
            res |= 0b1000_0000;
        }
        if maze[i + 1].is_closed(Direction::Top) || maze[i + row].is_closed(Direction::Right) {
            res |= 0b0100_0000;
        }
        if maze[i - 1].is_closed(Direction::Bottom) || maze[i - row].is_closed(Direction::Left) {
            res |= 0b0010_0000;
        }
        if maze[i + 1].is_closed(Direction::Bottom) || maze[i - row].is_closed(Direction::Right) {
            res |= 0b0001_0000;
        }
    }
    res
}

/// Working out the corner bits changes no wall: every side is open after it
/// exactly when it was open before.
pub proof fn lemma_decoration_keeps_walls(tiles: Seq<Tile>, i: int, side: Direction)
    requires
        0 <= i < tiles.len(),
    ensures
        Tile(decoration(tiles, i)).has_open(side) == tiles[i].has_open(side),
        decoration(tiles, i) & 0b1111 == tiles[i].0 & 0b1111,
{
    let b = tiles[i].0;
    let d = decoration(tiles, i);
    let row = MAZE_SIZE as int;
    let flags = b & 0b1111;
    assert(flags & 0b1111 == b & 0b1111) by (bit_vector)
        requires
            flags == b & 0b1111,
    ;
    if !tiles[i].grassy() && !on_rim(i) {
        let first = if !tiles[i - 1].has_open(Direction::Top) || !tiles[i + row].has_open(
            Direction::Left,
        ) {
            flags | 0b1000_0000
        } else {
            flags
        };
        let second = if !tiles[i + 1].has_open(Direction::Top) || !tiles[i + row].has_open(
            Direction::Right,
        ) {
            first | 0b0100_0000
        } else {
            first
        };
        let third = if !tiles[i - 1].has_open(Direction::Bottom) || !tiles[i - row].has_open(
            Direction::Left,
        ) {
            second | 0b0010_0000
        } else {
            second
        };
        assert((flags | 0b1000_0000) & 0b1111 == flags & 0b1111) by (bit_vector);
        assert((first | 0b0100_0000) & 0b1111 == first & 0b1111) by (bit_vector);
        assert((second | 0b0010_0000) & 0b1111 == second & 0b1111) by (bit_vector);
        assert((third | 0b0001_0000) & 0b1111 == third & 0b1111) by (bit_vector);
    }
    assert(d & 0b1111 == b & 0b1111);
    lemma_open_is_clear_flag(Tile(d), side);
    lemma_open_is_clear_flag(tiles[i], side);
    let m = wall_bit(side);
    assert((m == 1 || m == 2 || m == 4 || m == 8) && d & 0b1111 == b & 0b1111 ==> (d & m == 0 <==> b
        & m == 0)) by (bit_vector);
}

/// The position of the tile at place `i` of the table.
pub open spec fn place(i: int) -> TilePos {
    TilePos { x: (i % (MAZE_SIZE as int)) as u32, y: (i / (MAZE_SIZE as int)) as u32 }
}

/// `pos` lies in the row of border tiles above the maze.
pub open spec fn above_maze(params: MazeParams, pos: TilePos) -> bool {
    params.left() - 1 <= pos.x <= params.left() + params.width && pos.y == params.bottom()
        + params.height
}

/// `pos` lies in the row of border tiles below the maze.
pub open spec fn below_maze(params: MazeParams, pos: TilePos) -> bool {
    params.left() - 1 <= pos.x <= params.left() + params.width && pos.y == params.bottom() - 1
}

/// `pos` lies in the column of border tiles to the right of the maze.
pub open spec fn right_of_maze(params: MazeParams, pos: TilePos) -> bool {
    params.bottom() - 1 <= pos.y <= params.bottom() + params.height && pos.x == params.left()
        + params.width
}

/// `pos` lies in the column of border tiles to the left of the maze.
pub open spec fn left_of_maze(params: MazeParams, pos: TilePos) -> bool {
    params.bottom() - 1 <= pos.y <= params.bottom() + params.height && pos.x == params.left() - 1
}

/// A tile of the border rows with its walls away from the maze and along the
/// border taken down; any other tile as it is.
pub open spec fn open_rows(tile: Tile, params: MazeParams, pos: TilePos) -> Tile {
    let upper = if above_maze(params, pos) {
        tile.opened(Direction::Top).opened(Direction::Left).opened(Direction::Right)
    } else {
        tile
    };
    if below_maze(params, pos) {
        upper.opened(Direction::Bottom).opened(Direction::Left).opened(Direction::Right)
    } else {
        upper
    }
}

/// A tile of the border columns with its walls away from the maze and along
/// the border taken down; any other tile as it is.
pub open spec fn open_columns(tile: Tile, params: MazeParams, pos: TilePos) -> Tile {
    let right = if right_of_maze(params, pos) {
        tile.opened(Direction::Top).opened(Direction::Bottom).opened(Direction::Right)
    } else {
        tile
    };
    if left_of_maze(params, pos) {
        right.opened(Direction::Top).opened(Direction::Bottom).opened(Direction::Left)
    } else {
        right
    }
}

/// A tile of the border rows without the corner bits on its side away from
/// the maze; any other tile as it is.
pub open spec fn mask_rows(tile: Tile, params: MazeParams, pos: TilePos) -> Tile {
    let upper = if above_maze(params, pos) {
        Tile(tile.0 & 0b0011_1111)
    } else {
        tile
    };
    if below_maze(params, pos) {
        Tile(upper.0 & 0b1100_1111)
    } else {
        upper
    }
}

/// A tile of the border columns without the corner bits on its side away
/// from the maze; any other tile as it is.
pub open spec fn mask_columns(tile: Tile, params: MazeParams, pos: TilePos) -> Tile {
    let right = if right_of_maze(params, pos) {
        Tile(tile.0 & 0b1010_1111)
    } else {
        tile
    };
    if left_of_maze(params, pos) {
        Tile(right.0 & 0b0101_1111)
    } else {
        right
    }
}

/// The table with the border around the maze opened.
pub open spec fn open_border(tiles: Seq<Tile>, params: MazeParams) -> Seq<Tile> {
    Seq::new(
        tiles.len(),
        |i: int| open_columns(open_rows(tiles[i], params, place(i)), params, place(i)),
    )
}

/// The table with the corner bits of every tile worked out.
pub open spec fn decorated(tiles: Seq<Tile>) -> Seq<Tile> {
    Seq::new(tiles.len(), |i: int| Tile(decoration(tiles, i)))
}

/// The table with the outer corner bits of the border taken off.
pub open spec fn masked_border(tiles: Seq<Tile>, params: MazeParams) -> Seq<Tile> {
    Seq::new(
        tiles.len(),
        |i: int| mask_columns(mask_rows(tiles[i], params, place(i)), params, place(i)),
    )
}

/// Applies `open_rows` or `mask_rows` to the two border tiles of column `x`.
fn adjust_rows(maze: &mut [Tile], params: MazeParams, x: u32, mask: bool)
    requires
        canvas(old(maze)@),
        params.valid(),
        params.left() - 1 <= x <= params.left() + params.width,
    ensures
        canvas(final(maze)@),
        forall|i: int|
            0 <= i < final(maze)@.len() ==> #[trigger] final(maze)@[i] == if place(i).x == x {
                if mask {
                    mask_rows(old(maze)@[i], params, place(i))
                } else {
                    open_rows(old(maze)@[i], params, place(i))
                }
            } else {
                old(maze)@[i]
            },
{
    let upper = TilePos { x, y: params.margin_y() + params.height() };
    let lower = TilePos { x, y: params.margin_y() - 1 };
    let up = slot(upper);
    let low = slot(lower);
    if mask {
        let bits = maze[up].0 & 0b0011_1111;
        maze[up] = Tile(bits);
        let bits = maze[low].0 & 0b1100_1111;
        maze[low] = Tile(bits);
    } else {
        maze[up].open(Direction::Top);
        maze[up].open(Direction::Left);
        maze[up].open(Direction::Right);
        maze[low].open(Direction::Bottom);
        maze[low].open(Direction::Left);
        maze[low].open(Direction::Right);
    }
    proof {
        assert(place(up as int) == upper);
        assert(place(low as int) == lower);
        assert forall|i: int| 0 <= i < maze@.len() && place(i).x == x && i != up && i
            != low implies !above_maze(params, place(i)) && !below_maze(params, place(i)) by {}
    }
}

/// Applies `open_columns` or `mask_columns` to the two border tiles of row
/// `y`.
fn adjust_columns(maze: &mut [Tile], params: MazeParams, y: u32, mask: bool)
    requires
        canvas(old(maze)@),
        params.valid(),
        params.bottom() - 1 <= y <= params.bottom() + params.height,
    ensures
        canvas(final(maze)@),
        forall|i: int|
            0 <= i < final(maze)@.len() ==> #[trigger] final(maze)@[i] == if place(i).y == y {
                if mask {
                    mask_columns(old(maze)@[i], params, place(i))
                } else {
                    open_columns(old(maze)@[i], params, place(i))
                }
            } else {
                old(maze)@[i]
            },
{
    let right = TilePos { x: params.margin_x() + params.width(), y };
    let left = TilePos { x: params.margin_x() - 1, y };
    let to_right = slot(right);
    let to_left = slot(left);
    if mask {
        let bits = maze[to_right].0 & 0b1010_1111;
        maze[to_right] = Tile(bits);
        let bits = maze[to_left].0 & 0b0101_1111;
        maze[to_left] = Tile(bits);
    } else {
        maze[to_right].open(Direction::Top);
        maze[to_right].open(Direction::Bottom);
        maze[to_right].open(Direction::Right);
        maze[to_left].open(Direction::Top);
        maze[to_left].open(Direction::Bottom);
        maze[to_left].open(Direction::Left);
    }
    proof {
        assert(place(to_right as int) == right);
        assert(place(to_left as int) == left);
        assert forall|i: int| 0 <= i < maze@.len() && place(i).y == y && i != to_right && i
            != to_left implies !right_of_maze(params, place(i)) && !left_of_maze(
            params,
            place(i),
        ) by {}
    }
}

/// Applies `open_rows` and `open_columns`, or `mask_rows` and
/// `mask_columns`, to every tile of the border around the maze.
fn adjust_border(maze: &mut [Tile], params: MazeParams, mask: bool)
    requires
        canvas(old(maze)@),
        params.valid(),
    ensures
        final(maze)@ == if mask {
            masked_border(old(maze)@, params)
        } else {
            open_border(old(maze)@, params)
        },
{
    let ghost before = maze@;
    let mut x = params.margin_x() - 1;
    let last = params.margin_x() + params.width();
    while x <= last
        invariant
            params.valid(),
            canvas(maze@),
            canvas(before),
            last == params.left() + params.width,
            params.left() - 1 <= x <= last + 1,
            forall|i: int|
                0 <= i < maze@.len() ==> #[trigger] maze@[i] == if place(i).x < x {
                    if mask {
                        mask_rows(before[i], params, place(i))
                    } else {
                        open_rows(before[i], params, place(i))
                    }
                } else {
                    before[i]
                },
        decreases last + 1 - x,
    {
        adjust_rows(maze, params, x, mask);
        x += 1;
    }
    let ghost rows = maze@;
    let mut y = params.margin_y() - 1;
    let last = params.margin_y() + params.height();
    while y <= last
        invariant
            params.valid(),
            canvas(maze@),
            canvas(rows),
            last == params.bottom() + params.height,
            params.bottom() - 1 <= y <= last + 1,
            forall|i: int|
                0 <= i < maze@.len() ==> #[trigger] maze@[i] == if place(i).y < y {
                    if mask {
                        mask_columns(rows[i], params, place(i))
                    } else {
                        open_columns(rows[i], params, place(i))
                    }
                } else {
                    rows[i]
                },
        decreases last + 1 - y,
    {
        adjust_columns(maze, params, y, mask);
        y += 1;
    }
    proof {
        if mask {
            assert(maze@ =~= masked_border(before, params));
        } else {
            assert(maze@ =~= open_border(before, params));
        }
    }
}

/// The table as it is drawn: the border around the maze is opened, the
/// corner bits of every tile are worked out, and the outer corner bits of
/// the border are taken off again.
pub open spec fn adjusted(tiles: Seq<Tile>, params: MazeParams) -> Seq<Tile> {
    masked_border(decorated(open_border(tiles, params)), params)
}

/// Opens the border around the maze and works out the corner bits of every
/// tile.
pub fn adjust_maze_textures(maze: &mut [Tile], params: MazeParams)
    requires
        canvas(old(maze)@),
        params.valid(),
    ensures
        final(maze)@ == adjusted(old(maze)@, params),
{
    adjust_border(maze, params, false);
    let ghost opened = maze@;
    let mut i: usize = 0;
    while i < maze.len()
        invariant
            i <= maze@.len(),
            canvas(maze@),
            canvas(opened),
            forall|j: int| 0 <= j < i ==> #[trigger] maze@[j] == Tile(decoration(opened, j)),
            forall|j: int| i <= j < maze@.len() ==> #[trigger] maze@[j] == opened[j],
        decreases maze@.len() - i,
    {
        let bits = tile_bits(i, maze);
        proof {
            let row = MAZE_SIZE as int;
            if !on_rim(i as int) {
                lemma_decoration_keeps_walls(opened, i - 1, Direction::Top);
                lemma_decoration_keeps_walls(opened, i - 1, Direction::Bottom);
                lemma_decoration_keeps_walls(opened, i - row, Direction::Left);
                lemma_decoration_keeps_walls(opened, i - row, Direction::Right);
                assert(maze@[i - 1] == Tile(decoration(opened, i - 1)));
                assert(maze@[i - row] == Tile(decoration(opened, i - row)));
                assert(maze@[i + 1] == opened[i + 1]);
                assert(maze@[i + row] == opened[i + row]);
            }
            assert(maze@[i as int] == opened[i as int]);
            assert(bits == decoration(opened, i as int));
        }
        maze[i] = Tile(bits);
        i += 1;
    }
    proof {
        assert(maze@ =~= decorated(opened));
    }
    adjust_border(maze, params, true);
}

} // verus!
