//! The tile table of a maze.

use crate::grid::{TilePos, MAZE_SIZE};
use crate::passages::{canvas, tile_at};
use crate::tile::Tile;
use vstd::prelude::*;

verus! {

/// A maze: one tile for every position of the canvas, row by row.
#[derive(Debug, Clone)]
pub struct Maze {
    pub tiles: Vec<Tile>,
}

impl Maze {
    /// The table holds one tile for every position of the canvas.
    pub open spec fn wf(&self) -> bool {
        canvas(self.tiles@)
    }

    /// Create a new `Maze` from a table of the canvas's size.
    pub fn new(tiles: Vec<Tile>) -> (r: Maze)
        requires
            canvas(tiles@),
        ensures
            r.tiles == tiles,
            r.wf(),
    {
        Maze { tiles }
    }

    /// Get the tile at the given position.
    pub fn get(&self, pos: TilePos) -> (r: Tile)
        requires
            self.wf(),
            pos.on_canvas(),
        ensures
            r == tile_at(self.tiles@, pos),
    {
        self.tiles[(pos.y * MAZE_SIZE + pos.x) as usize]
    }
}

} // verus!
