//! Solver core for a grid-based tile-matching puzzle: a 7-column, 9-row board
//! of colored file and bomb tiles, a movable cursor with a single held slot,
//! and a breadth-first search over the four legal cursor actions that looks
//! for the shortest action sequence producing a matched group.

pub mod board;
pub mod conservation;
pub mod heuristics;
pub mod matching;
pub mod search;

pub use board::{make_board, Board, Color, Item, Move, GRID_CELLS, MAX_COLS, MAX_ROWS};
pub use search::find_path;
