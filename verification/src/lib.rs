//! An exact-cover solver with dancing links, with unique columns, columns
//! of groups that may leave a number of holes, and constraint columns; and
//! two puzzles that it solves: the calendar puzzle and Sudoku.

pub mod branch;
pub mod calendar;
pub mod chain;
pub mod chained;
pub mod construct;
pub mod cover;
pub mod dancing_links;
pub mod dates;
pub mod emit;
pub mod exact;
pub mod laws;
pub mod lead;
pub mod measure;
pub mod order;
pub mod pairs;
pub mod pending;
pub mod pick;
pub mod query;
pub mod render;
pub mod report;
pub mod search;
pub mod select;
pub mod splice;
pub mod sudoku;
pub mod text;
pub mod tile;

pub use dancing_links::{Column, ColumnType, PuzzleSolver};
pub use search::SolverIterator;
