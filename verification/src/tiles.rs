//! The two per-cell value kinds of the minefield: the hidden ground truth
//! ([`Tile`]) and the visibility state shown to the player ([`TileState`]).

use vstd::prelude::*;

verus! {

/// Ground-truth content of one cell.
#[derive(Debug, Clone, Copy, PartialEq, Eq, Structural)]
pub enum Tile {
    /// No mine here and no mine among the eight neighbours.
    Empty,
    /// No mine here; the payload counts the mines among the eight
    /// neighbours and is always in `1..=8`.
    Number(u8),
    /// A mine.
    Mine,
}

/// Visibility of one cell.
#[derive(Debug, Clone, Copy, PartialEq, Eq, Structural)]
pub enum TileState {
    /// Not yet revealed; the payload is the flag mark.
    Unknown(bool),
    /// Revealed: the underlying tile is visible.
    Known,
}

impl Default for Tile {
    /// A fresh cell is empty.
    fn default() -> (r: Self)
        ensures
            r == Tile::Empty,
    {
        Tile::Empty
    }
}

impl Default for TileState {
    /// A fresh cell is unrevealed and unflagged.
    fn default() -> (r: Self)
        ensures
            r == TileState::Unknown(false),
    {
        TileState::Unknown(false)
    }
}

/// The tile an undisturbed cell holds when `n` of its neighbours are mines.
pub open spec fn tile_of_count(n: int) -> Tile {
    if n == 0 {
        Tile::Empty
    } else {
        Tile::Number(n as u8)
    }
}

/// How a non-mine tile changes when one more neighbouring mine is placed.
pub open spec fn bump_tile(t: Tile) -> Tile {
    match t {
        Tile::Empty => Tile::Number(1),
        Tile::Number(n) => Tile::Number((n + 1) as u8),
        Tile::Mine => Tile::Mine,
    }
}

} // verus!
