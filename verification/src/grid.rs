//! Compass directions and tile coordinates on the canvas.

use vstd::prelude::*;

verus! {

/// Side length of the square canvas, in tiles.
pub const MAZE_SIZE: u32 = 128;

/// Smallest maze width or height offered to a player.
pub const MIN_MAZE_SIZE: u16 = 3;

/// Largest maze width or height offered to a player.
pub const MAX_MAZE_SIZE: u16 = 100;

/// One of the four sides of a tile.
#[derive(Debug, Clone, Copy, PartialEq, Eq, Structural)]
pub enum Direction {
    Top,
    Right,
    Bottom,
    Left,
}

impl Direction {
    /// The side facing this one.
    pub open spec fn opposite(self) -> Direction {
        match self {
            Direction::Top => Direction::Bottom,
            Direction::Right => Direction::Left,
            Direction::Bottom => Direction::Top,
            Direction::Left => Direction::Right,
        }
    }

}

impl core::ops::Neg for Direction {
    type Output = Direction;

    /// Turns a side into the one facing it.
    fn neg(self) -> (r: Direction) {
        match self {
            Direction::Top => Direction::Bottom,
            Direction::Right => Direction::Left,
            Direction::Bottom => Direction::Top,
            Direction::Left => Direction::Right,
        }
    }
}

impl vstd::std_specs::ops::NegSpecImpl for Direction {
    open spec fn obeys_neg_spec() -> bool {
        true
    }

    open spec fn neg_req(self) -> bool {
        true
    }

    open spec fn neg_spec(self) -> Direction {
        self.opposite()
    }
}

/// Turning a side round twice gives the side back.
pub proof fn lemma_opposite_involution(side: Direction)
    ensures
        side.opposite().opposite() == side,
        side.opposite() != side,
{
}

/// The coordinates of a tile on the canvas.
#[derive(Debug, Clone, Copy, Eq, Ord, Hash)]
pub struct TilePos {
    pub x: u32,
    pub y: u32,
}

impl TilePos {
    /// The row-major position of this tile in a flat table of the canvas.
    pub open spec fn flat(self) -> int {
        self.y * MAZE_SIZE + self.x
    }

    /// Whether this tile lies on the canvas.
    pub open spec fn on_canvas(self) -> bool {
        self.x < MAZE_SIZE && self.y < MAZE_SIZE
    }

    /// The tile one step from this one towards `side`.
    pub open spec fn step(self, side: Direction) -> (int, int) {
        match side {
            Direction::Top => (self.x as int, self.y + 1),
            Direction::Right => (self.x + 1, self.y as int),
            Direction::Bottom => (self.x as int, self.y - 1),
            Direction::Left => (self.x - 1, self.y as int),
        }
    }

    /// The row-major index of this tile in a flat table of the canvas.
    pub fn index(self) -> (r: u32)
        requires
            self.flat() <= u32::MAX,
        ensures
            r == self.flat(),
    {
        self.y * MAZE_SIZE + self.x
    }
}

} // verus!
