//! Mine placement: random selection of distinct cells, setting the mines and
//! the neighbour counts, and the proof that the finished grid matches its
//! declarative description.
//!
//! Mine positions are modelled as flat row-major indices `i == y * width + x`
//! in a sequence without duplicates. The grid a placement produces is pinned
//! down by [`Minefield::mines_match`]: a cell holds a mine exactly when its
//! index was selected, and every other cell holds the count of selected
//! indices among its eight neighbours.

use vstd::arithmetic::div_mod::{
    lemma_div_pos_is_pos, lemma_fundamental_div_mod, lemma_mod_bound,
};
use vstd::arithmetic::mul::lemma_mul_inequality;
use vstd::prelude::*;

use crate::field::Minefield;
use crate::tiles::{bump_tile, tile_of_count, Tile};

verus! {

/// Splitting a flat row-major index on a `w` by `h` grid gives an in-bounds
/// coordinate pair.
proof fn lemma_flat_decompose(i: int, w: int, h: int)
    requires
        w >= 1,
        h >= 1,
        0 <= i < w * h,
    ensures
        0 <= i % w < w,
        0 <= i / w < h,
        i == (i / w) * w + (i % w),
{
    lemma_fundamental_div_mod(i, w);
    lemma_mod_bound(i, w);
    lemma_div_pos_is_pos(i, w);
    assert(w * (i / w) == (i / w) * w) by (nonlinear_arith);
    if i / w >= h {
        lemma_mul_inequality(h, i / w, w);
        assert(h * w == w * h) by (nonlinear_arith);
        assert(false);
    }
}

/// Distinct in-bounds coordinates have distinct flat indices.
proof fn lemma_flat_injective(w: int, x1: int, y1: int, x2: int, y2: int)
    requires
        0 <= x1 < w,
        0 <= x2 < w,
        y1 * w + x1 == y2 * w + x2,
    ensures
        x1 == x2,
        y1 == y2,
{
    if y1 < y2 {
        lemma_mul_inequality(y1 + 1, y2, w);
        assert((y1 + 1) * w == y1 * w + w) by (nonlinear_arith);
        assert(false);
    }
    if y2 < y1 {
        lemma_mul_inequality(y2 + 1, y1, w);
        assert((y2 + 1) * w == y2 * w + w) by (nonlinear_arith);
        assert(false);
    }
}

/// Appending one index to a mine sequence raises the per-cell indicator at
/// exactly the cell of that index.
proof fn lemma_mine_ind_push(m: Seq<int>, w: int, h: int, i: int, mx: int, my: int, x: int, y: int)
    requires
        0 <= mx < w,
        0 <= my < h,
        i == my * w + mx,
        !m.contains(i),
    ensures
        mine_ind(m.push(i), w, h, x, y) == mine_ind(m, w, h, x, y) + (if x == mx && y == my {
            1int
        } else {
            0int
        }),
{
    if 0 <= x < w && 0 <= y < h {
        let fi = y * w + x;
        assert forall|z: int| m.push(i).contains(z) implies m.contains(z) || z == i by {
            let k = choose|k: int| 0 <= k < m.push(i).len() && m.push(i)[k] == z;
            if k < m.len() {
                assert(m[k] == z);
            }
        }
        assert forall|z: int| m.contains(z) implies m.push(i).contains(z) by {
            let k = choose|k: int| 0 <= k < m.len() && m[k] == z;
            assert(m.push(i)[k] == z);
        }
        assert(m.push(i)[m.len() as int] == i);
        assert(m.push(i).contains(i));
        if fi == i {
            lemma_flat_injective(w, x, y, mx, my);
        }
    } else {
        assert(!(x == mx && y == my));
    }
}

/// Appending one index to a mine sequence raises the neighbour count of
/// exactly the cells surrounding that index.
proof fn lemma_nbr_count_push(
    m: Seq<int>,
    w: int,
    h: int,
    i: int,
    mx: int,
    my: int,
    x: int,
    y: int,
)
    requires
        0 <= mx < w,
        0 <= my < h,
        i == my * w + mx,
        !m.contains(i),
    ensures
        nbr_mine_count(m.push(i), w, h, x, y) == nbr_mine_count(m, w, h, x, y) + (if adj8(
            mx,
            my,
            x,
            y,
        ) {
            1int
        } else {
            0int
        }),
{
    lemma_mine_ind_push(m, w, h, i, mx, my, x - 1, y - 1);
    lemma_mine_ind_push(m, w, h, i, mx, my, x, y - 1);
    lemma_mine_ind_push(m, w, h, i, mx, my, x + 1, y - 1);
    lemma_mine_ind_push(m, w, h, i, mx, my, x - 1, y);
    lemma_mine_ind_push(m, w, h, i, mx, my, x + 1, y);
    lemma_mine_ind_push(m, w, h, i, mx, my, x - 1, y + 1);
    lemma_mine_ind_push(m, w, h, i, mx, my, x, y + 1);
    lemma_mine_ind_push(m, w, h, i, mx, my, x + 1, y + 1);
}

/// `(x2, y2)` is one of the eight cells surrounding `(x1, y1)`.
pub open spec fn adj8(x1: int, y1: int, x2: int, y2: int) -> bool {
    &&& !(x1 == x2 && y1 == y2)
    &&& -1 <= x2 - x1 <= 1
    &&& -1 <= y2 - y1 <= 1
}

/// 1 when `(x, y)` lies on a `w` by `h` grid and its flat index was
/// selected as a mine, else 0.
pub open spec fn mine_ind(m: Seq<int>, w: int, h: int, x: int, y: int) -> int {
    if 0 <= x < w && 0 <= y < h && m.contains(y * w + x) {
        1
    } else {
        0
    }
}

/// How many of the eight neighbours of `(x, y)` are selected mines.
pub open spec fn nbr_mine_count(m: Seq<int>, w: int, h: int, x: int, y: int) -> int {
    mine_ind(m, w, h, x - 1, y - 1) + mine_ind(m, w, h, x, y - 1) + mine_ind(m, w, h, x + 1, y - 1)
        + mine_ind(m, w, h, x - 1, y) + mine_ind(m, w, h, x + 1, y) + mine_ind(
        m,
        w,
        h,
        x - 1,
        y + 1,
    ) + mine_ind(m, w, h, x, y + 1) + mine_ind(m, w, h, x + 1, y + 1)
}

/// The tile cell `(x, y)` holds once exactly the indices in `m` have been
/// placed as mines on a grid that started all empty.
pub open spec fn expected_tile(m: Seq<int>, w: int, h: int, x: int, y: int) -> Tile {
    if m.contains(y * w + x) {
        Tile::Mine
    } else {
        tile_of_count(nbr_mine_count(m, w, h, x, y))
    }
}

impl Minefield {
    /// The hidden grid is exactly the one that placing the mine indices `m`
    /// on an initially empty grid produces.
    pub open spec fn mines_match(self, m: Seq<int>) -> bool {
        forall|x: int, y: int|
            self.in_bounds(x, y) ==> #[trigger] self.tile_at(x, y) == expected_tile(
                m,
                self.spec_width() as int,
                self.spec_height() as int,
                x,
                y,
            )
    }

    /// Overwrite the hidden tile at `(x, y)`.
    fn set_tile(&mut self, x: usize, y: usize, t: Tile)
        requires
            old(self).wf(),
            old(self).in_bounds(x as int, y as int),
        ensures
            final(self).wf(),
            final(self).spec_width() == old(self).spec_width(),
            final(self).spec_height() == old(self).spec_height(),
            final(self).shown_field == old(self).shown_field,
            final(self).tile_at(x as int, y as int) == t,
            forall|a: int, b: int|
                old(self).in_bounds(a, b) && !(a == x && b == y) ==> #[trigger] final(self).tile_at(a, b) == old(self).tile_at(a, b),
    {
        self.hidden_field[y][x] = t;
    }

    /// Raise the neighbour count at `(x, y)` by one, unless the cell holds a
    /// mine, which is left untouched.
    fn bump_cell(&mut self, x: usize, y: usize)
        requires
            old(self).wf(),
            old(self).in_bounds(x as int, y as int),
            old(self).tile_at(x as int, y as int) matches Tile::Number(n) ==> n < 8,
        ensures
            final(self).wf(),
            final(self).spec_width() == old(self).spec_width(),
            final(self).spec_height() == old(self).spec_height(),
            final(self).shown_field == old(self).shown_field,
            final(self).tile_at(x as int, y as int) == bump_tile(
                old(self).tile_at(x as int, y as int),
            ),
            forall|a: int, b: int|
                old(self).in_bounds(a, b) && !(a == x && b == y) ==> #[trigger] final(self).tile_at(a, b) == old(self).tile_at(a, b),
    {
        match self.hidden_field[y][x] {
            Tile::Empty => self.set_tile(x, y, Tile::Number(1)),
            Tile::Number(n) => self.set_tile(x, y, Tile::Number(n + 1)),
            Tile::Mine => (),
        }
    }

    /// Place one mine at `(mx, my)`: the cell itself becomes a mine and the
    /// count of every surrounding non-mine cell rises by one.
    fn place_one(&mut self, mx: usize, my: usize)
        requires
            old(self).wf(),
            old(self).in_bounds(mx as int, my as int),
            forall|a: int, b: int|
                old(self).in_bounds(a, b) && adj8(mx as int, my as int, a, b) ==> ((#[trigger] old(self).tile_at(a, b)) matches Tile::Number(n) ==> n < 8),
        ensures
            final(self).wf(),
            final(self).spec_width() == old(self).spec_width(),
            final(self).spec_height() == old(self).spec_height(),
            final(self).shown_field == old(self).shown_field,
            forall|a: int, b: int|
                old(self).in_bounds(a, b) ==> #[trigger] final(self).tile_at(a, b) == (if a == mx as int && b
                    == my as int {
                    Tile::Mine
                } else if adj8(mx as int, my as int, a, b) {
                    bump_tile(old(self).tile_at(a, b))
                } else {
                    old(self).tile_at(a, b)
                }),
    {
        self.set_tile(mx, my, Tile::Mine);
        if mx > 0 {
            self.bump_cell(mx - 1, my);
            if my > 0 {
                self.bump_cell(mx - 1, my - 1);
            }
            if my + 1 < self.height {
                self.bump_cell(mx - 1, my + 1);
            }
        }
        if my > 0 {
            self.bump_cell(mx, my - 1);
        }
        if my + 1 < self.height {
            self.bump_cell(mx, my + 1);
        }
        if mx + 1 < self.width {
            self.bump_cell(mx + 1, my);
            if my > 0 {
                self.bump_cell(mx + 1, my - 1);
            }
            if my + 1 < self.height {
                self.bump_cell(mx + 1, my + 1);
            }
        }
    }

    /// Place a mine at every flat index in `mines`, on a field whose hidden
    /// grid is still all empty. Afterwards the hidden grid is exactly the
    /// declarative one: mines at the given indices and every other cell
    /// counting the mines around it. Placement order never matters, because
    /// the result is pinned to the index sequence alone.
    pub fn place_mines(&mut self, mines: &Vec<usize>)
        requires
            old(self).wf(),
            mines@.no_duplicates(),
            forall|k: int|
                0 <= k < mines@.len() ==> (#[trigger] mines@[k]) < old(self).spec_width() * old(
                    self,
                ).spec_height(),
            forall|x: int, y: int|
                old(self).in_bounds(x, y) ==> #[trigger] old(self).tile_at(x, y) == Tile::Empty,
        ensures
            final(self).wf(),
            final(self).spec_width() == old(self).spec_width(),
            final(self).spec_height() == old(self).spec_height(),
            final(self).shown_field == old(self).shown_field,
            final(self).mines_match(mines@.map_values(|u: usize| u as int)),
    {
        let ghost ms = mines@.map_values(|u: usize| u as int);
        let w = self.width;
        let h = self.height;
        proof {
            assert forall|x: int, y: int| self.in_bounds(x, y) implies #[trigger] self.tile_at(
                x,
                y,
            ) == expected_tile(ms.take(0), w as int, h as int, x, y) by {
                assert(!ms.take(0).contains(y * (w as int) + x));
            }
        }
        let mut k: usize = 0;
        while k < mines.len()
            invariant
                self.wf(),
                w == self.spec_width(),
                h == self.spec_height(),
                w == old(self).spec_width(),
                h == old(self).spec_height(),
                self.shown_field == old(self).shown_field,
                k <= mines@.len(),
                ms == mines@.map_values(|u: usize| u as int),
                mines@.no_duplicates(),
                forall|j: int| 0 <= j < mines@.len() ==> (#[trigger] mines@[j]) < w * h,
                self.mines_match(ms.take(k as int)),
            decreases mines@.len() - k,
        {
            let i = mines[k];
            let my = i / w;
            let mx = i % w;
            let ghost prefix = ms.take(k as int);
            proof {
                lemma_flat_decompose(i as int, w as int, h as int);
                if prefix.contains(i as int) {
                    let j = choose|j: int| 0 <= j < prefix.len() && prefix[j] == i as int;
                    assert(mines@[j] == i);
                    assert(false);
                }
                assert(mine_ind(prefix, w as int, h as int, mx as int, my as int) == 0);
                assert forall|a: int, b: int|
                    self.in_bounds(a, b) && adj8(mx as int, my as int, a, b) implies ((
                #[trigger] self.tile_at(a, b)) matches Tile::Number(n) ==> n < 8) by {
                    assert(self.tile_at(a, b) == expected_tile(prefix, w as int, h as int, a, b));
                    assert(nbr_mine_count(prefix, w as int, h as int, a, b) <= 7);
                }
            }
            self.place_one(mx, my);
            proof {
                let prefix2 = ms.take(k + 1);
                assert(prefix2 =~= prefix.push(i as int));
                assert forall|x: int, y: int| self.in_bounds(x, y) implies #[trigger] self.tile_at(
                    x,
                    y,
                ) == expected_tile(prefix2, w as int, h as int, x, y) by {
                    lemma_mine_ind_push(
                        prefix,
                        w as int,
                        h as int,
                        i as int,
                        mx as int,
                        my as int,
                        x,
                        y,
                    );
                    lemma_nbr_count_push(
                        prefix,
                        w as int,
                        h as int,
                        i as int,
                        mx as int,
                        my as int,
                        x,
                        y,
                    );
                    if !prefix.contains(y * (w as int) + x) && adj8(
                        mx as int,
                        my as int,
                        x,
                        y,
                    ) {
                        assert(nbr_mine_count(prefix, w as int, h as int, x, y) <= 7);
                    }
                }
            }
            k = k + 1;
        }
        proof {
            assert(ms.take(ms.len() as int) =~= ms);
        }
    }

    /// Randomly place `num_mines` mines: that many distinct cells, drawn
    /// uniformly without replacement over the whole grid, become mines, and
    /// every other cell counts the mines among its eight neighbours. Which
    /// cells are drawn is up to the random source; the counts are not.
    pub fn generate_mines(&mut self, num_mines: usize)
        requires
            old(self).wf(),
            num_mines <= old(self).spec_width() * old(self).spec_height(),
            forall|x: int, y: int|
                old(self).in_bounds(x, y) ==> #[trigger] old(self).tile_at(x, y) == Tile::Empty,
        ensures
            final(self).wf(),
            final(self).spec_width() == old(self).spec_width(),
            final(self).spec_height() == old(self).spec_height(),
            final(self).shown_field == old(self).shown_field,
            grid_mines(final(self).hidden()) == num_mines,
            forall|x: int, y: int|
                final(self).in_bounds(x, y) ==> ((#[trigger] final(self).tile_at(x, y)) matches
                    Tile::Number(n) ==> 1 <= n <= 8 && n == live_nbr_mines(*final(self), x, y)),
            forall|x: int, y: int|
                final(self).in_bounds(x, y) && #[trigger] final(self).tile_at(x, y) == Tile::Empty
                    ==> live_nbr_mines(*final(self), x, y) == 0,
    {
        let total = self.width * self.height;
        let mines = sample_indices(total, num_mines);
        self.place_mines(&mines);
        proof {
            let ms = mines@.map_values(|u: usize| u as int);
            assert forall|i: int, j: int|
                0 <= i < ms.len() && 0 <= j < ms.len() && i != j implies ms[i] != ms[j] by {
                assert(mines@[i] != mines@[j]);
            }
            lemma_generated_counts(*self, ms);
        }
    }
}

/// Relies on `rand::seq::index::sample` (with `IndexVec::into_vec`): it
/// draws exactly `amount` distinct indices from `0..length`, uniformly
/// without replacement, and panics only when `amount > length`, which the
/// precondition rules out.
#[verifier::external_body]
fn sample_indices(length: usize, amount: usize) -> (r: Vec<usize>)
    requires
        amount <= length,
    ensures
        r@.len() == amount,
        r@.no_duplicates(),
        forall|k: int| 0 <= k < r@.len() ==> (#[trigger] r@[k]) < length,
{
    let mut rng = rand::thread_rng();
    rand::seq::index::sample(&mut rng, length, amount).into_vec()
}

/// Mines in one row of a hidden grid.
pub open spec fn row_mines(r: Seq<Tile>) -> int
    decreases r.len(),
{
    if r.len() == 0 {
        0
    } else {
        row_mines(r.drop_last()) + if r.last() == Tile::Mine {
            1int
        } else {
            0int
        }
    }
}

/// Mines in a whole hidden grid.
pub open spec fn grid_mines(g: Seq<Seq<Tile>>) -> int
    decreases g.len(),
{
    if g.len() == 0 {
        0
    } else {
        grid_mines(g.drop_last()) + row_mines(g.last())
    }
}

/// How many of the flat indices `0 <= i < n` the sequence holds.
spec fn idx_count(m: Seq<int>, n: int) -> int
    decreases n,
{
    if n <= 0 {
        0
    } else {
        idx_count(m, n - 1) + if m.contains(n - 1) {
            1int
        } else {
            0int
        }
    }
}

/// 1 when the cell is on the grid and actually holds a mine, else 0.
pub open spec fn live_mine_ind(f: Minefield, x: int, y: int) -> int {
    if f.in_bounds(x, y) && f.tile_at(x, y) == Tile::Mine {
        1
    } else {
        0
    }
}

/// How many of the eight neighbours of `(x, y)` actually hold a mine.
pub open spec fn live_nbr_mines(f: Minefield, x: int, y: int) -> int {
    live_mine_ind(f, x - 1, y - 1) + live_mine_ind(f, x, y - 1) + live_mine_ind(f, x + 1, y - 1)
        + live_mine_ind(f, x - 1, y) + live_mine_ind(f, x + 1, y) + live_mine_ind(f, x - 1, y + 1)
        + live_mine_ind(f, x, y + 1) + live_mine_ind(f, x + 1, y + 1)
}

proof fn lemma_push_contains(m: Seq<int>, x: int, z: int)
    ensures
        m.push(x).contains(z) <==> m.contains(z) || z == x,
{
    if m.push(x).contains(z) {
        let k = choose|k: int| 0 <= k < m.push(x).len() && m.push(x)[k] == z;
        if k < m.len() {
            assert(m[k] == z);
        }
    }
    if m.contains(z) {
        let k = choose|k: int| 0 <= k < m.len() && m[k] == z;
        assert(m.push(x)[k] == z);
    }
    assert(m.push(x)[m.len() as int] == x);
}

proof fn lemma_row_mines_push(r: Seq<Tile>, t: Tile)
    ensures
        row_mines(r.push(t)) == row_mines(r) + (if t == Tile::Mine {
            1int
        } else {
            0int
        }),
{
    assert(r.push(t).drop_last() =~= r);
}

proof fn lemma_grid_mines_push(g: Seq<Seq<Tile>>, r: Seq<Tile>)
    ensures
        grid_mines(g.push(r)) == grid_mines(g) + row_mines(r),
{
    assert(g.push(r).drop_last() =~= g);
}

proof fn lemma_idx_count_push(m: Seq<int>, x: int, n: int)
    requires
        !m.contains(x),
    ensures
        idx_count(m.push(x), n) == idx_count(m, n) + (if 0 <= x < n {
            1int
        } else {
            0int
        }),
    decreases n,
{
    if n > 0 {
        lemma_idx_count_push(m, x, n - 1);
        lemma_push_contains(m, x, n - 1);
    }
}

proof fn lemma_idx_count_empty(n: int)
    ensures
        idx_count(Seq::<int>::empty(), n) == 0,
    decreases n,
{
    if n > 0 {
        lemma_idx_count_empty(n - 1);
    }
}

/// A duplicate-free sequence of indices below `n` meets each of `0..n`
/// exactly once, so the positional count over `0..n` is its length.
proof fn lemma_idx_count_total(m: Seq<int>, n: int)
    requires
        m.no_duplicates(),
        forall|k: int| 0 <= k < m.len() ==> 0 <= #[trigger] m[k] < n,
    ensures
        idx_count(m, n) == m.len(),
    decreases m.len(),
{
    if m.len() == 0 {
        assert(m =~= Seq::<int>::empty());
        lemma_idx_count_empty(n);
    } else {
        let m0 = m.drop_last();
        let x = m.last();
        if m0.contains(x) {
            let k = choose|k: int| 0 <= k < m0.len() && m0[k] == x;
            assert(m[k] == m[m.len() - 1]);
            assert(false);
        }
        lemma_idx_count_total(m0, n);
        lemma_idx_count_push(m0, x, n);
        assert(m0.push(x) =~= m);
    }
}

/// Mines in the first `x` cells of row `y`, counted through the mine index
/// sequence the grid matches.
proof fn lemma_row_prefix(f: Minefield, m: Seq<int>, y: int, x: int)
    requires
        f.wf(),
        f.mines_match(m),
        0 <= y < f.spec_height(),
        0 <= x <= f.spec_width(),
    ensures
        row_mines(f.hidden_field@[y]@.take(x)) == idx_count(m, y * f.spec_width() + x)
            - idx_count(m, y * f.spec_width()),
    decreases x,
{
    let w = f.spec_width() as int;
    let r = f.hidden_field@[y]@;
    if x == 0 {
        assert(r.take(0) =~= Seq::<Tile>::empty());
    } else {
        lemma_row_prefix(f, m, y, x - 1);
        assert(r.take(x) =~= r.take(x - 1).push(r[x - 1]));
        lemma_row_mines_push(r.take(x - 1), r[x - 1]);
        assert(f.tile_at(x - 1, y) == expected_tile(m, w, f.spec_height() as int, x - 1, y));
        assert(r[x - 1] == Tile::Mine <==> m.contains(y * w + (x - 1)));
    }
}

/// Mines in the first `y` rows, counted through the mine index sequence the
/// grid matches.
proof fn lemma_grid_prefix(f: Minefield, m: Seq<int>, y: int)
    requires
        f.wf(),
        f.mines_match(m),
        0 <= y <= f.spec_height(),
    ensures
        grid_mines(f.hidden().take(y)) == idx_count(m, y * f.spec_width()),
    decreases y,
{
    let w = f.spec_width() as int;
    if y == 0 {
        assert(f.hidden().take(0) =~= Seq::<Seq<Tile>>::empty());
    } else {
        lemma_grid_prefix(f, m, y - 1);
        assert(f.hidden().take(y) =~= f.hidden().take(y - 1).push(f.hidden()[y - 1]));
        lemma_grid_mines_push(f.hidden().take(y - 1), f.hidden()[y - 1]);
        lemma_row_prefix(f, m, y - 1, w);
        assert(f.hidden()[y - 1] == f.hidden_field@[y - 1]@);
        assert(f.hidden_field@[y - 1]@.take(w) =~= f.hidden_field@[y - 1]@);
        assert((y - 1) * w + w == y * w) by (nonlinear_arith);
    }
}

/// Every field that matches a duplicate-free, in-range mine index sequence
/// holds exactly as many mines as the sequence has entries; every numbered
/// tile counts exactly the mines among its eight neighbours, and every
/// empty tile has none.
pub proof fn lemma_generated_counts(f: Minefield, m: Seq<int>)
    requires
        f.wf(),
        f.mines_match(m),
        m.no_duplicates(),
        forall|k: int|
            0 <= k < m.len() ==> 0 <= #[trigger] m[k] < f.spec_width() * f.spec_height(),
    ensures
        grid_mines(f.hidden()) == m.len(),
        forall|x: int, y: int|
            f.in_bounds(x, y) ==> ((#[trigger] f.tile_at(x, y)) matches Tile::Number(n) ==> 1 <= n
                <= 8 && n == live_nbr_mines(f, x, y)),
        forall|x: int, y: int|
            f.in_bounds(x, y) && #[trigger] f.tile_at(x, y) == Tile::Empty ==> live_nbr_mines(
                f,
                x,
                y,
            ) == 0,
{
    let w = f.spec_width() as int;
    let h = f.spec_height() as int;
    lemma_grid_prefix(f, m, h);
    assert(f.hidden().take(h) =~= f.hidden());
    assert(h * w == w * h) by (nonlinear_arith);
    lemma_idx_count_total(m, h * w);
    assert forall|x: int, y: int| true implies #[trigger] live_mine_ind(f, x, y) == mine_ind(
        m,
        w,
        h,
        x,
        y,
    ) by {
        if f.in_bounds(x, y) {
            assert(f.tile_at(x, y) == expected_tile(m, w, h, x, y));
        }
    }
    assert forall|x: int, y: int| f.in_bounds(x, y) implies live_nbr_mines(f, x, y)
        == nbr_mine_count(m, w, h, x, y) by {
        assert(live_mine_ind(f, x - 1, y - 1) == mine_ind(m, w, h, x - 1, y - 1));
        assert(live_mine_ind(f, x, y - 1) == mine_ind(m, w, h, x, y - 1));
        assert(live_mine_ind(f, x + 1, y - 1) == mine_ind(m, w, h, x + 1, y - 1));
        assert(live_mine_ind(f, x - 1, y) == mine_ind(m, w, h, x - 1, y));
        assert(live_mine_ind(f, x + 1, y) == mine_ind(m, w, h, x + 1, y));
        assert(live_mine_ind(f, x - 1, y + 1) == mine_ind(m, w, h, x - 1, y + 1));
        assert(live_mine_ind(f, x, y + 1) == mine_ind(m, w, h, x, y + 1));
        assert(live_mine_ind(f, x + 1, y + 1) == mine_ind(m, w, h, x + 1, y + 1));
    }
}

} // verus!
