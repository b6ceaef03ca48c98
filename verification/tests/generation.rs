//! Tests of mine placement: the deterministic placement from given indices
//! and the random generation built on it.

use minesweeper::field::Minefield;
use minesweeper::tiles::{Tile, TileState};

/// Mines among the eight neighbours of `(x, y)`.
fn neighbour_mines(f: &Minefield, x: usize, y: usize) -> u8 {
    let mut n: u8 = 0;
    for dy in -1i64..=1 {
        for dx in -1i64..=1 {
            if dx == 0 && dy == 0 {
                continue;
            }
            let nx = x as i64 + dx;
            let ny = y as i64 + dy;
            if nx >= 0 && (nx as usize) < f.width() && ny >= 0 && (ny as usize) < f.height() {
                if f.hidden_field[ny as usize][nx as usize] == Tile::Mine {
                    n += 1;
                }
            }
        }
    }
    n
}

/// The adjacency-count invariant: mines exactly where expected, and every
/// non-mine cell an exact count of its neighbouring mines.
fn assert_consistent(f: &Minefield, expected_mines: usize) {
    let mut mines = 0;
    for y in 0..f.height() {
        for x in 0..f.width() {
            match f.hidden_field[y][x] {
                Tile::Mine => mines += 1,
                Tile::Empty => assert_eq!(neighbour_mines(f, x, y), 0),
                Tile::Number(n) => {
                    assert!((1..=8).contains(&n));
                    assert_eq!(n, neighbour_mines(f, x, y));
                }
            }
        }
    }
    assert_eq!(mines, expected_mines);
}

#[test]
fn place_mines_exact_grid() {
    // 3x3 with mines in two opposite corners:
    //   X 1 E
    //   1 2 1
    //   E 1 X
    let mut f = Minefield::new(3, 3);
    f.place_mines(&vec![0, 8]);
    let e = Tile::Empty;
    let x = Tile::Mine;
    let n1 = Tile::Number(1);
    let n2 = Tile::Number(2);
    assert_eq!(f.hidden_field[0], vec![x, n1, e]);
    assert_eq!(f.hidden_field[1], vec![n1, n2, n1]);
    assert_eq!(f.hidden_field[2], vec![e, n1, x]);
    assert_consistent(&f, 2);
}

#[test]
fn place_mines_center_surround() {
    // A single central mine on 3x3 numbers every other cell 1.
    let mut f = Minefield::new(3, 3);
    f.place_mines(&vec![4]);
    for y in 0..3 {
        for x in 0..3 {
            if (x, y) == (1, 1) {
                assert_eq!(f.hidden_field[y][x], Tile::Mine);
            } else {
                assert_eq!(f.hidden_field[y][x], Tile::Number(1));
            }
        }
    }
    assert_consistent(&f, 1);
}

#[test]
fn place_mines_order_does_not_matter() {
    let mut a = Minefield::new(4, 4);
    a.place_mines(&vec![1, 6, 11, 12]);
    let mut b = Minefield::new(4, 4);
    b.place_mines(&vec![12, 1, 11, 6]);
    assert_eq!(a.hidden_field, b.hidden_field);
    assert_consistent(&a, 4);
}

#[test]
fn generate_mines_counts_match() {
    // Random placement: whatever cells were drawn, there are exactly as
    // many mines as asked for and every count is exact.
    let mut f = Minefield::new(8, 5);
    f.generate_mines(7);
    assert_consistent(&f, 7);
    for y in 0..5 {
        for x in 0..8 {
            assert_eq!(f.shown_field[y][x], TileState::Unknown(false));
        }
    }
}

#[test]
fn generate_mines_zero_and_full() {
    let mut none = Minefield::new(3, 3);
    none.generate_mines(0);
    assert_consistent(&none, 0);
    let mut full = Minefield::new(3, 3);
    full.generate_mines(9);
    assert_consistent(&full, 9);
    for y in 0..3 {
        for x in 0..3 {
            assert_eq!(full.hidden_field[y][x], Tile::Mine);
        }
    }
}
