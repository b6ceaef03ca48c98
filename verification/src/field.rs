//! The minefield itself: the pair of grids, construction, flag toggling and
//! win detection.

use vstd::prelude::*;

use crate::tiles::{Tile, TileState};

verus! {

/// A rectangular minefield: a hidden grid of ground-truth tiles and a shown
/// grid of visibility states, both `height` rows of `width` cells, indexed
/// by `(x, y)` with `0 <= x < width` and `0 <= y < height`.
#[derive(Debug)]
pub struct Minefield {
    /// Ground truth, row-major: `hidden_field[y][x]`.
    pub hidden_field: Vec<Vec<Tile>>,
    /// What the player sees, row-major: `shown_field[y][x]`.
    pub shown_field: Vec<Vec<TileState>>,
    /// Cells per row.
    pub width: usize,
    /// Number of rows.
    pub height: usize,
}

impl Minefield {
    /// Both grids have exactly `height` rows of `width` cells, the
    /// dimensions are positive, and the cell count fits in `usize`.
    pub open spec fn wf(self) -> bool {
        &&& self.width >= 1
        &&& self.height >= 1
        &&& self.width * self.height <= usize::MAX
        &&& self.hidden_field@.len() == self.height
        &&& forall|y: int|
            0 <= y < self.height ==> (#[trigger] self.hidden_field@[y])@.len() == self.width
        &&& self.shown_field@.len() == self.height
        &&& forall|y: int|
            0 <= y < self.height ==> (#[trigger] self.shown_field@[y])@.len() == self.width
    }

    pub open spec fn spec_width(self) -> usize {
        self.width
    }

    pub open spec fn spec_height(self) -> usize {
        self.height
    }

    pub open spec fn in_bounds(self, x: int, y: int) -> bool {
        0 <= x < self.width && 0 <= y < self.height
    }

    /// The hidden tile at `(x, y)`.
    pub open spec fn tile_at(self, x: int, y: int) -> Tile {
        self.hidden_field@[y]@[x]
    }

    /// The shown state at `(x, y)`.
    pub open spec fn state_at(self, x: int, y: int) -> TileState {
        self.shown_field@[y]@[x]
    }

    /// The hidden grid as a mathematical sequence of rows.
    pub open spec fn hidden(self) -> Seq<Seq<Tile>> {
        Seq::new(self.hidden_field@.len(), |y: int| self.hidden_field@[y]@)
    }

    /// The shown grid as a mathematical sequence of rows.
    pub open spec fn shown(self) -> Seq<Seq<TileState>> {
        Seq::new(self.shown_field@.len(), |y: int| self.shown_field@[y]@)
    }

    /// A freshly constructed field: nothing placed, nothing revealed.
    pub fn new(width: usize, height: usize) -> (r: Self)
        requires
            width >= 1,
            height >= 1,
            width * height <= usize::MAX,
        ensures
            r.wf(),
            r.spec_width() == width,
            r.spec_height() == height,
            forall|x: int, y: int| r.in_bounds(x, y) ==> #[trigger] r.tile_at(x, y) == Tile::Empty,
            forall|x: int, y: int|
                r.in_bounds(x, y) ==> #[trigger] r.state_at(x, y) == TileState::Unknown(false),
    {
        Self {
            hidden_field: filled_grid(width, height, Tile::Empty),
            shown_field: filled_grid(width, height, TileState::Unknown(false)),
            width,
            height,
        }
    }

    pub fn width(&self) -> (r: usize)
        ensures
            r == self.spec_width(),
    {
        self.width
    }

    pub fn height(&self) -> (r: usize)
        ensures
            r == self.spec_height(),
    {
        self.height
    }

    /// The whole field is won: every cell that is not a mine is revealed.
    pub open spec fn win_spec(self) -> bool {
        forall|x: int, y: int|
            self.in_bounds(x, y) && self.tile_at(x, y) != Tile::Mine ==> #[trigger] self.state_at(
                x,
                y,
            ) == TileState::Known
    }

    /// True exactly when every non-mine cell is revealed; equivalently, when
    /// every still-unrevealed cell hides a mine.
    pub fn check_win(&self) -> (r: bool)
        requires
            self.wf(),
        ensures
            r == self.win_spec(),
    {
        let mut y: usize = 0;
        while y < self.height
            invariant
                self.wf(),
                y <= self.height,
                forall|a: int, b: int|
                    0 <= b < y && 0 <= a < self.spec_width() && self.tile_at(a, b) != Tile::Mine
                        ==> #[trigger] self.state_at(a, b) == TileState::Known,
            decreases self.height - y,
        {
            let mut x: usize = 0;
            while x < self.width
                invariant
                    self.wf(),
                    y < self.spec_height(),
                    x <= self.spec_width(),
                    forall|a: int, b: int|
                        0 <= b < y && 0 <= a < self.spec_width() && self.tile_at(a, b) != Tile::Mine
                            ==> #[trigger] self.state_at(a, b) == TileState::Known,
                    forall|a: int|
                        0 <= a < x && self.tile_at(a, y as int) != Tile::Mine
                            ==> #[trigger] self.state_at(a, y as int) == TileState::Known,
                decreases self.width - x,
            {
                if matches!(self.shown_field[y][x], TileState::Unknown(_)) {
                    if !matches!(self.hidden_field[y][x], Tile::Mine) {
                        assert(self.state_at(x as int, y as int) != TileState::Known
                            && self.tile_at(x as int, y as int) != Tile::Mine);
                        return false;
                    }
                }
                x = x + 1;
            }
            y = y + 1;
        }
        true
    }

    /// The shown grid after one flag toggle at `(x, y)`: out of bounds or on
    /// a revealed cell nothing changes; on an unrevealed cell the flag mark
    /// flips.
    pub open spec fn toggle_spec(s: Seq<Seq<TileState>>, x: int, y: int) -> Seq<Seq<TileState>> {
        if 0 <= y < s.len() && 0 <= x < s[y].len() {
            match s[y][x] {
                TileState::Unknown(f) => s.update(y, s[y].update(x, TileState::Unknown(!f))),
                TileState::Known => s,
            }
        } else {
            s
        }
    }

    /// Flip the flag mark at `(x, y)`. Out of bounds, or on a revealed
    /// cell, this is a no-op; the hidden grid and the dimensions never
    /// change.
    pub fn toggle_flag(&mut self, x: usize, y: usize)
        requires
            old(self).wf(),
        ensures
            final(self).wf(),
            final(self).spec_width() == old(self).spec_width(),
            final(self).spec_height() == old(self).spec_height(),
            final(self).hidden_field == old(self).hidden_field,
            final(self).shown() == Self::toggle_spec(old(self).shown(), x as int, y as int),
            !old(self).in_bounds(x as int, y as int) ==> *final(self) == *old(self),
    {
        if x >= self.width || y >= self.height {
            assert(self.shown() =~~= Self::toggle_spec(self.shown(), x as int, y as int));
            return ;
        }
        match self.shown_field[y][x] {
            TileState::Unknown(f) => {
                self.shown_field[y][x] = TileState::Unknown(!f);
                assert(self.shown() =~~= Self::toggle_spec(old(self).shown(), x as int, y as int));
            },
            TileState::Known => {
                assert(self.shown() =~~= Self::toggle_spec(self.shown(), x as int, y as int));
            },
        }
    }
}

/// Toggling the flag at the same coordinate twice restores the shown grid
/// exactly, whatever the coordinate and the grid: the toggle is its own
/// inverse.
pub proof fn lemma_toggle_twice(s: Seq<Seq<TileState>>, x: int, y: int)
    ensures
        Minefield::toggle_spec(Minefield::toggle_spec(s, x, y), x, y) == s,
{
    let s1 = Minefield::toggle_spec(s, x, y);
    assert(Minefield::toggle_spec(s1, x, y) =~~= s);
}

/// A vector of `n` copies of `v`.
fn filled_vec<T: Copy>(n: usize, v: T) -> (r: Vec<T>)
    ensures
        r@.len() == n,
        forall|i: int| 0 <= i < n ==> r@[i] == v,
{
    let mut r: Vec<T> = Vec::new();
    let mut i: usize = 0;
    while i < n
        invariant
            i <= n,
            r@.len() == i,
            forall|j: int| 0 <= j < i ==> r@[j] == v,
        decreases n - i,
    {
        r.push(v);
        i = i + 1;
    }
    r
}

/// A grid of `height` rows, each `width` copies of `v`.
pub(crate) fn filled_grid<T: Copy>(width: usize, height: usize, v: T) -> (r: Vec<Vec<T>>)
    ensures
        r@.len() == height,
        forall|y: int| 0 <= y < height ==> (#[trigger] r@[y])@.len() == width,
        forall|x: int, y: int| 0 <= y < height && 0 <= x < width ==> (#[trigger] r@[y]@[x]) == v,
{
    let mut r: Vec<Vec<T>> = Vec::new();
    let mut y: usize = 0;
    while y < height
        invariant
            y <= height,
            r@.len() == y,
            forall|j: int| 0 <= j < y ==> (#[trigger] r@[j])@.len() == width,
            forall|x: int, j: int| 0 <= j < y && 0 <= x < width ==> (#[trigger] r@[j]@[x]) == v,
        decreases height - y,
    {
        r.push(filled_vec(width, v));
        y = y + 1;
    }
    r
}


} // verus!
