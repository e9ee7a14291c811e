//! The rules of Minesweeper, verified.
//!
//! - `tile` and `grid`: the cells and the rectangle they form, with its model.
//! - `neighbourhood`: the up to eight cells around a cell.
//! - `generator`: laying the mines at random, fairly for a chosen start.
//! - `reveal_engine`: the reveal of a cell, the flood and the chord.
//! - `regions`: the shape of what these reveal, and the round of floods.
//! - `solver`: one pass of local deductions.
//! - `board`: the game from the first click to a win or a loss.
//! - `error`: the ways in which a configuration is refused.

pub mod board;
pub mod error;
pub mod generator;
pub mod grid;
pub mod neighbourhood;
pub mod regions;
pub mod reveal_engine;
pub mod solver;
pub mod tile;
