//! Behavioural tests of the minefield engine: construction, revealing,
//! flagging and win detection on small hand-placed boards.

use minesweeper::field::Minefield;
use minesweeper::tiles::{Tile, TileState};

/// A field with mines placed at the given flat indices (row-major).
fn board(width: usize, height: usize, mines: &[usize]) -> Minefield {
    let mut f = Minefield::new(width, height);
    let idx: Vec<usize> = mines.to_vec();
    f.place_mines(&idx);
    f
}

#[test]
fn new_field_is_blank() {
    let f = Minefield::new(4, 3);
    assert_eq!(f.width(), 4);
    assert_eq!(f.height(), 3);
    assert_eq!(f.hidden_field.len(), 3);
    assert_eq!(f.shown_field.len(), 3);
    for y in 0..3 {
        assert_eq!(f.hidden_field[y].len(), 4);
        assert_eq!(f.shown_field[y].len(), 4);
        for x in 0..4 {
            assert_eq!(f.hidden_field[y][x], Tile::Empty);
            assert_eq!(f.shown_field[y][x], TileState::Unknown(false));
        }
    }
}

#[test]
fn reveal_number_marks_single_cell() {
    // 3x1 row: mine, number 1, empty.
    let mut f = board(3, 1, &[0]);
    assert_eq!(f.hidden_field[0][1], Tile::Number(1));
    let r = f.sweep_at(1, 0);
    assert_eq!(r, Some(Tile::Number(1)));
    assert_eq!(f.shown_field[0][1], TileState::Known);
    assert_eq!(f.shown_field[0][0], TileState::Unknown(false));
    assert_eq!(f.shown_field[0][2], TileState::Unknown(false));
}

#[test]
fn reveal_mine_marks_single_cell_and_returns_it() {
    let mut f = board(3, 1, &[0]);
    let r = f.sweep_at(0, 0);
    assert_eq!(r, Some(Tile::Mine));
    assert_eq!(f.shown_field[0][0], TileState::Known);
    assert_eq!(f.shown_field[0][1], TileState::Unknown(false));
    assert_eq!(f.shown_field[0][2], TileState::Unknown(false));
}

#[test]
fn reveal_empty_floods_row() {
    // The 1x3 scenario: mine at x=0, so x=1 is Number(1) and x=2 is empty.
    // Revealing (2,0) floods to (1,0), which becomes known as Number(1),
    // and stops: the mine is never revealed.
    let mut f = board(3, 1, &[0]);
    assert_eq!(f.hidden_field[0][0], Tile::Mine);
    assert_eq!(f.hidden_field[0][1], Tile::Number(1));
    assert_eq!(f.hidden_field[0][2], Tile::Empty);
    let r = f.sweep_at(2, 0);
    assert_eq!(r, Some(Tile::Empty));
    assert_eq!(f.shown_field[0][2], TileState::Known);
    assert_eq!(f.shown_field[0][1], TileState::Known);
    assert_eq!(f.shown_field[0][0], TileState::Unknown(false));
}

#[test]
fn flood_reveals_maximal_region_and_border() {
    // 4x3 board, mines in the left column at (0,0) and (0,2):
    //   X 1 E E
    //   2 2 E E
    //   X 1 E E
    // Revealing (3,1) must reveal the whole empty block and the numbered
    // border column x=1, but neither mine nor the numbered cell (0,1).
    let mut f = board(4, 3, &[0, 8]);
    assert_eq!(f.hidden_field[0][0], Tile::Mine);
    assert_eq!(f.hidden_field[2][0], Tile::Mine);
    assert_eq!(f.hidden_field[1][0], Tile::Number(2));
    assert_eq!(f.hidden_field[0][1], Tile::Number(1));
    assert_eq!(f.hidden_field[1][1], Tile::Number(2));
    assert_eq!(f.hidden_field[2][1], Tile::Number(1));
    let r = f.sweep_at(3, 1);
    assert_eq!(r, Some(Tile::Empty));
    for y in 0..3 {
        for x in 2..4 {
            assert_eq!(f.shown_field[y][x], TileState::Known);
        }
        // The numbered border column is revealed too.
        assert_eq!(f.shown_field[y][1], TileState::Known);
        // The left column is untouched.
        assert_eq!(f.shown_field[y][0], TileState::Unknown(false));
    }
}

#[test]
fn flood_does_not_cross_number_barrier() {
    // 5x1 row with a mine in the middle: E 1 X 1 E.
    // Revealing (0,0) reveals (0,0) and the border number (1,0) only.
    let mut f = board(5, 1, &[2]);
    assert_eq!(f.hidden_field[0][0], Tile::Empty);
    assert_eq!(f.hidden_field[0][1], Tile::Number(1));
    assert_eq!(f.hidden_field[0][3], Tile::Number(1));
    assert_eq!(f.hidden_field[0][4], Tile::Empty);
    let r = f.sweep_at(0, 0);
    assert_eq!(r, Some(Tile::Empty));
    assert_eq!(f.shown_field[0][0], TileState::Known);
    assert_eq!(f.shown_field[0][1], TileState::Known);
    assert_eq!(f.shown_field[0][2], TileState::Unknown(false));
    assert_eq!(f.shown_field[0][3], TileState::Unknown(false));
    assert_eq!(f.shown_field[0][4], TileState::Unknown(false));
}

#[test]
fn reveal_out_of_bounds_is_noop() {
    let mut f = board(3, 2, &[0]);
    assert_eq!(f.sweep_at(3, 0), None);
    assert_eq!(f.sweep_at(0, 2), None);
    assert_eq!(f.sweep_at(17, 29), None);
    for y in 0..2 {
        for x in 0..3 {
            assert_eq!(f.shown_field[y][x], TileState::Unknown(false));
        }
    }
}

#[test]
fn reveal_flagged_cell_is_noop() {
    let mut f = board(3, 1, &[0]);
    f.toggle_flag(2, 0);
    assert_eq!(f.shown_field[0][2], TileState::Unknown(true));
    let r = f.sweep_at(2, 0);
    assert_eq!(r, None);
    assert_eq!(f.shown_field[0][2], TileState::Unknown(true));
    assert_eq!(f.shown_field[0][1], TileState::Unknown(false));
    assert_eq!(f.shown_field[0][0], TileState::Unknown(false));
}

#[test]
fn toggle_flag_flips_and_restores() {
    let mut f = board(2, 2, &[0]);
    assert_eq!(f.shown_field[1][1], TileState::Unknown(false));
    f.toggle_flag(1, 1);
    assert_eq!(f.shown_field[1][1], TileState::Unknown(true));
    f.toggle_flag(1, 1);
    assert_eq!(f.shown_field[1][1], TileState::Unknown(false));
}

#[test]
fn toggle_flag_out_of_bounds_is_noop() {
    let mut f = board(2, 2, &[0]);
    let before_hidden = f.hidden_field.clone();
    let before_shown = f.shown_field.clone();
    f.toggle_flag(2, 0);
    f.toggle_flag(0, 2);
    f.toggle_flag(1000, 1000);
    assert_eq!(f.hidden_field, before_hidden);
    assert_eq!(f.shown_field, before_shown);
}

#[test]
fn toggle_flag_on_known_cell_is_noop() {
    let mut f = board(3, 1, &[0]);
    f.sweep_at(1, 0);
    assert_eq!(f.shown_field[0][1], TileState::Known);
    f.toggle_flag(1, 0);
    assert_eq!(f.shown_field[0][1], TileState::Known);
}

#[test]
fn check_win_iff_all_safe_cells_known() {
    // 2x2 with one mine at (0,0): the three other cells are safe.
    let mut f = board(2, 2, &[0]);
    assert!(!f.check_win());
    f.sweep_at(1, 0);
    assert!(!f.check_win());
    f.sweep_at(0, 1);
    assert!(!f.check_win());
    f.sweep_at(1, 1);
    assert!(f.check_win());
}

#[test]
fn check_win_ignores_flags_on_mines() {
    // Winning needs no flag on the mine, and a flagged safe cell is not won.
    let mut f = board(2, 1, &[0]);
    f.sweep_at(1, 0);
    assert!(f.check_win());
    let mut g = board(2, 1, &[0]);
    g.toggle_flag(1, 0);
    assert!(!g.check_win());
}

#[test]
fn check_win_on_all_mine_board() {
    // Every cell is a mine: there is nothing safe to reveal.
    let f = board(2, 2, &[0, 1, 2, 3]);
    assert!(f.check_win());
}
