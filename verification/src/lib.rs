//! A verified Minesweeper engine.
//!
//! The engine keeps two grids of the same dimensions: a hidden grid of
//! [`tiles::Tile`] values (the ground truth: empty, numbered, or mine) and a
//! shown grid of [`tiles::TileState`] values (what the player sees). Mines
//! are placed at random positions and every non-mine cell records how many
//! of its eight neighbours are mines; revealing an empty cell floods the
//! maximal 4-connected empty region together with its bordering numbered
//! cells; flags toggle on unrevealed cells; the game is won once every
//! non-mine cell is revealed.

pub mod field;
pub mod generate;
pub mod sweep;
pub mod tiles;
