//! Generation parameters and the neighbours of a tile inside the maze.

use crate::grid::{Direction, TilePos, MAX_MAZE_SIZE, MAZE_SIZE, MIN_MAZE_SIZE};
use vstd::prelude::*;

verus! {

/// The directional bias of passages in the maze.
#[derive(Debug, Copy, Clone, PartialEq, Eq, Structural)]
pub enum DirectionalBias {
    /// No bias, all directions are equally likely.
    Unbiased,
    /// Horizontal bias, horizontal directions are twice as likely.
    Horizontal,
    /// Strong horizontal bias, horizontal directions are five times as likely.
    VeryHorizontal,
    /// Vertical bias, vertical directions are twice as likely.
    Vertical,
    /// Strong vertical bias, vertical directions are five times as likely.
    VeryVertical,
}

/// Maze generation parameters.
#[derive(Debug, Copy, Clone)]
pub struct MazeParams {
    /// The width of the maze in tiles.
    pub width: u16,
    /// The height of the maze in tiles.
    pub height: u16,
    /// The number of fully-open rooms in the maze.
    pub rooms: u16,
    /// The directional bias of passages in the maze.
    pub bias: DirectionalBias,
}

impl MazeParams {
    /// The first column of the maze: it is centred on the canvas, behind a
    /// border of one tile.
    pub open spec fn left(self) -> int {
        (MAZE_SIZE - self.width) / 2 + 1
    }

    /// The first row of the maze.
    pub open spec fn bottom(self) -> int {
        (MAZE_SIZE - self.height) / 2 + 1
    }

    /// The maze is not empty and leaves a border of one tile free on every
    /// side of the canvas.
    pub open spec fn valid(self) -> bool {
        &&& 1 <= self.width
        &&& 1 <= self.height
        &&& self.left() + self.width <= MAZE_SIZE - 1
        &&& self.bottom() + self.height <= MAZE_SIZE - 1
    }

    /// Whether `pos` is a tile of the maze.
    pub open spec fn contains(self, pos: TilePos) -> bool {
        &&& self.left() <= pos.x < self.left() + self.width
        &&& self.bottom() <= pos.y < self.bottom() + self.height
    }

    /// The tile at the middle of the canvas, where generation starts.
    pub open spec fn center() -> TilePos {
        TilePos { x: MAZE_SIZE / 2, y: MAZE_SIZE / 2 }
    }

    /// The tile reached from `pos` by one step towards `side`, held back at
    /// the edge of the maze.
    pub open spec fn neighbor(self, pos: TilePos, side: Direction) -> TilePos {
        let top = self.bottom() + self.height - 1;
        let right = self.left() + self.width - 1;
        match side {
            Direction::Top => TilePos {
                x: pos.x,
                y: (if pos.y + 1 <= top { pos.y + 1 } else { top }) as u32,
            },
            Direction::Right => TilePos {
                x: (if pos.x + 1 <= right { pos.x + 1 } else { right }) as u32,
                y: pos.y,
            },
            Direction::Bottom => TilePos {
                x: pos.x,
                y: (if pos.y - 1 >= self.bottom() { pos.y - 1 } else { self.bottom() }) as u32,
            },
            Direction::Left => TilePos {
                x: (if pos.x - 1 >= self.left() { pos.x - 1 } else { self.left() }) as u32,
                y: pos.y,
            },
        }
    }

    /// Whether the maze is not empty and leaves a border of one tile free on
    /// every side of the canvas.
    pub fn is_valid(self) -> (r: bool)
        ensures
            r == self.valid(),
    {
        1 <= self.width && self.width as u32 <= MAZE_SIZE - 3 && 1 <= self.height
            && self.height as u32 <= MAZE_SIZE - 3
    }

    /// Whether `pos` is a tile of the maze.
    pub fn includes(self, pos: TilePos) -> (r: bool)
        requires
            self.valid(),
        ensures
            r == self.contains(pos),
    {
        let left = self.margin_x();
        let bottom = self.margin_y();
        left <= pos.x && pos.x < left + self.width() && bottom <= pos.y && pos.y < bottom
            + self.height()
    }

    /// Get the margin (distance between the edge of the world and the maze)
    /// in the x axis.
    pub fn margin_x(self) -> (r: u32)
        requires
            self.width <= MAZE_SIZE,
        ensures
            r == self.left(),
    {
        (MAZE_SIZE - self.width as u32) / 2 + 1
    }

    /// Get the margin (distance between the edge of the world and the maze)
    /// in the y axis.
    pub fn margin_y(self) -> (r: u32)
        requires
            self.height <= MAZE_SIZE,
        ensures
            r == self.bottom(),
    {
        (MAZE_SIZE - self.height as u32) / 2 + 1
    }

    /// Get the width of the maze as a `u32`.
    pub fn width(self) -> (r: u32)
        ensures
            r == self.width,
    {
        self.width as u32
    }

    /// Get the height of the maze as a `u32`.
    pub fn height(self) -> (r: u32)
        ensures
            r == self.height,
    {
        self.height as u32
    }
}

impl Default for MazeParams {
    /// A maze of seven by five tiles with two rooms and no bias.
    fn default() -> (r: MazeParams)
        ensures
            r.width == 7,
            r.height == 5,
            r.rooms == 2,
            r.bias == DirectionalBias::Unbiased,
    {
        MazeParams { width: 7, height: 5, rooms: 2, bias: DirectionalBias::Unbiased }
    }
}

/// The width or height nearest to `size` that is offered to a player.
pub fn clamp_size(size: u16) -> (r: u16)
    ensures
        MIN_MAZE_SIZE <= r <= MAX_MAZE_SIZE,
        MIN_MAZE_SIZE <= size <= MAX_MAZE_SIZE ==> r == size,
        size < MIN_MAZE_SIZE ==> r == MIN_MAZE_SIZE,
        size > MAX_MAZE_SIZE ==> r == MAX_MAZE_SIZE,
{
    if size < MIN_MAZE_SIZE {
        MIN_MAZE_SIZE
    } else if size > MAX_MAZE_SIZE {
        MAX_MAZE_SIZE
    } else {
        size
    }
}

/// The four sides in the order in which neighbours are listed.
pub open spec fn sides() -> Seq<Direction> {
    seq![Direction::Top, Direction::Right, Direction::Bottom, Direction::Left]
}

/// Get the neighbors of a tile, along with the direction towards which they
/// are from the input tile position. The returned values may include the
/// input value if movement in a direction is not possible.
pub fn neighbors(pos: TilePos, params: MazeParams) -> (r: [(TilePos, Direction); 4])
    requires
        params.width <= MAZE_SIZE,
        params.height <= MAZE_SIZE,
        1 <= pos.x < u32::MAX,
        1 <= pos.y < u32::MAX,
    ensures
        forall|k: int|
            0 <= k < 4 ==> #[trigger] r[k] == (params.neighbor(pos, sides()[k]), sides()[k]),
{
    let mx = params.margin_x();
    let my = params.margin_y();
    let h = params.height();
    let w = params.width();
    let top = my + h - 1;
    let right = mx + w - 1;
    [
        (TilePos { x: pos.x, y: if pos.y + 1 <= top { pos.y + 1 } else { top } }, Direction::Top),
        (
            TilePos { x: if pos.x + 1 <= right { pos.x + 1 } else { right }, y: pos.y },
            Direction::Right,
        ),
        (TilePos { x: pos.x, y: if pos.y - 1 >= my { pos.y - 1 } else { my } }, Direction::Bottom),
        (TilePos { x: if pos.x - 1 >= mx { pos.x - 1 } else { mx }, y: pos.y }, Direction::Left),
    ]
}

/// A neighbour of a maze tile is again a maze tile: either the tile itself, at
/// the edge, or the adjacent tile, from which the opposite step leads back.
pub proof fn lemma_neighbor_in_maze(params: MazeParams, pos: TilePos, side: Direction)
    requires
        params.valid(),
        params.contains(pos),
    ensures
        params.contains(params.neighbor(pos, side)),
        params.neighbor(pos, side) != pos ==> {
            &&& pos.step(side) == (
                params.neighbor(pos, side).x as int,
                params.neighbor(pos, side).y as int,
            )
            &&& params.neighbor(params.neighbor(pos, side), side.opposite()) == pos
        },
{
}

/// The middle of the canvas is a tile of every valid maze.
pub proof fn lemma_center_in_maze(params: MazeParams)
    requires
        params.valid(),
    ensures
        params.contains(MazeParams::center()),
{
}

} // verus!
