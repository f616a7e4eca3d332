//! Maze generation and solving on a fixed square canvas of tiles.
//!
//! A maze occupies a centred rectangle of the canvas. Each tile packs its four
//! wall flags into one byte. The generator carves a spanning tree of passages
//! with a randomised backtracking walk, the room carver opens whole tiles, and
//! the solver builds a shortest-path tree that can be searched by position.

pub mod carving;
pub mod decorate;
pub mod distance;
pub mod generate;
pub mod grid;
pub mod order;
pub mod params;
pub mod passages;
pub mod random;
pub mod rooms;
pub mod solve;
pub mod sorted_tree;
pub mod table;
pub mod tile;
pub mod tree;

pub use grid::{Direction, TilePos, MAX_MAZE_SIZE, MAZE_SIZE, MIN_MAZE_SIZE};
pub use tile::Tile;
pub use params::{clamp_size, neighbors, DirectionalBias, MazeParams};
pub use tree::Tree;
pub use sorted_tree::SortedTree;
pub use generate::{gen_maze, next_maze, step_pool};
pub use rooms::{gen_rooms, open_rooms};
pub use table::Maze;
pub use solve::solve_maze;
pub use decorate::prepare_maze;
pub use decorate::{adjust_maze_textures, tile_bits};
