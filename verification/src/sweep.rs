//! Revealing cells: a single numbered or mine cell, or a flood over the
//! maximal 4-connected region of empty cells together with the numbered
//! cells that border it.
//!
//! The revealed set is pinned down declaratively: a cell is revealed by a
//! flood from `(sx, sy)` exactly when it is an empty cell connected to the
//! start through a path of empty 4-neighbours, or a numbered cell adjacent
//! to such an empty cell. Mines are never part of it.

use vstd::prelude::*;

use crate::field::Minefield;
use crate::tiles::{Tile, TileState};

verus! {

/// `(x2, y2)` is one of the four orthogonal neighbours of `(x1, y1)`.
pub open spec fn adj4(x1: int, y1: int, x2: int, y2: int) -> bool {
    ||| (x1 == x2 && (y2 == y1 + 1 || y2 == y1 - 1))
    ||| (y1 == y2 && (x2 == x1 + 1 || x2 == x1 - 1))
}

/// `(x, y)` is a cell of the grid `g`.
pub open spec fn cell_in(g: Seq<Seq<Tile>>, x: int, y: int) -> bool {
    0 <= y < g.len() && 0 <= x < g[y].len()
}

/// `(x, y)` is a cell of `g` and holds an empty tile.
pub open spec fn empty_at(g: Seq<Seq<Tile>>, x: int, y: int) -> bool {
    cell_in(g, x, y) && g[y][x] == Tile::Empty
}

/// `(x, y)` is a cell of `g` and holds a numbered tile.
pub open spec fn number_at(g: Seq<Seq<Tile>>, x: int, y: int) -> bool {
    cell_in(g, x, y) && g[y][x] matches Tile::Number(_)
}

/// A walk over empty cells: every entry is an empty cell of `g` and
/// consecutive entries are 4-adjacent.
pub open spec fn empty_path(g: Seq<Seq<Tile>>, p: Seq<(int, int)>) -> bool {
    &&& forall|i: int| 0 <= i < p.len() ==> empty_at(g, (#[trigger] p[i]).0, p[i].1)
    &&& forall|i: int|
        1 <= i < p.len() ==> adj4(p[i - 1].0, p[i - 1].1, (#[trigger] p[i]).0, p[i].1)
}

/// An empty path of `g` leads from `(sx, sy)` to `(x, y)`.
#[verifier::opaque]
pub open spec fn empty_reach(g: Seq<Seq<Tile>>, sx: int, sy: int, x: int, y: int) -> bool {
    exists|p: Seq<(int, int)>|
        #[trigger] empty_path(g, p) && p.len() > 0 && p.first() == (sx, sy) && p.last() == (x, y)
}

/// The cells a flood started on the empty cell `(sx, sy)` reveals: the
/// empty cells of the maximal 4-connected empty region around the start,
/// and the numbered cells directly bordering that region. No other cell is
/// in it; in particular no mine ever is.
#[verifier::opaque]
pub open spec fn reveal_target(g: Seq<Seq<Tile>>, sx: int, sy: int, x: int, y: int) -> bool {
    ||| (empty_at(g, x, y) && empty_reach(g, sx, sy, x, y))
    ||| (number_at(g, x, y) && exists|ex: int, ey: int|
        empty_reach(g, sx, sy, ex, ey) && #[trigger] adj4(ex, ey, x, y))
}

/// Nothing the flood reveals is a mine: every revealed cell is on the grid
/// and holds an empty or a numbered tile.
pub proof fn lemma_reveal_target_no_mine(g: Seq<Seq<Tile>>, sx: int, sy: int, x: int, y: int)
    requires
        reveal_target(g, sx, sy, x, y),
    ensures
        cell_in(g, x, y),
        g[y][x] != Tile::Mine,
{
    reveal(reveal_target);
}

/// An empty cell reaches itself.
proof fn lemma_reach_refl(g: Seq<Seq<Tile>>, x: int, y: int)
    requires
        empty_at(g, x, y),
    ensures
        empty_reach(g, x, y, x, y),
{
    reveal(empty_reach);
    let p = seq![(x, y)];
    assert(empty_path(g, p));
    assert(p.first() == (x, y) && p.last() == (x, y));
}

/// Reachability extends across one step to an adjacent empty cell.
proof fn lemma_reach_step(g: Seq<Seq<Tile>>, sx: int, sy: int, x: int, y: int, nx: int, ny: int)
    requires
        empty_reach(g, sx, sy, x, y),
        adj4(x, y, nx, ny),
        empty_at(g, nx, ny),
    ensures
        empty_reach(g, sx, sy, nx, ny),
{
    reveal(empty_reach);
    let p = choose|p: Seq<(int, int)>|
        #[trigger] empty_path(g, p) && p.len() > 0 && p.first() == (sx, sy) && p.last() == (x, y);
    let q = p.push((nx, ny));
    assert forall|i: int| 0 <= i < q.len() implies empty_at(g, (#[trigger] q[i]).0, q[i].1) by {
        if i < p.len() {
            assert(q[i] == p[i]);
        }
    }
    assert forall|i: int|
        1 <= i < q.len() implies adj4(q[i - 1].0, q[i - 1].1, (#[trigger] q[i]).0, q[i].1) by {
        if i < p.len() {
            assert(q[i] == p[i] && q[i - 1] == p[i - 1]);
        } else {
            assert(q[i - 1] == p[p.len() - 1]);
        }
    }
    assert(empty_path(g, q) && q.first() == (sx, sy) && q.last() == (nx, ny));
}

/// `(x, y)` is marked in the grid of visit marks `v`.
pub open spec fn vis_at(v: Seq<Seq<bool>>, x: int, y: int) -> bool {
    0 <= y < v.len() && 0 <= x < v[y].len() && v[y][x]
}

/// The marked set is closed under stepping to adjacent empty cells.
pub open spec fn vis_closed(g: Seq<Seq<Tile>>, v: Seq<Seq<bool>>) -> bool {
    forall|a: int, b: int, c: int, d: int|
        vis_at(v, a, b) && #[trigger] adj4(a, b, c, d) && empty_at(g, c, d) ==> vis_at(v, c, d)
}

/// Every cell of an empty path that starts on a marked cell is marked, as
/// long as the marked set is closed under empty steps.
proof fn lemma_path_visited(g: Seq<Seq<Tile>>, v: Seq<Seq<bool>>, p: Seq<(int, int)>)
    requires
        empty_path(g, p),
        p.len() > 0,
        vis_at(v, p.first().0, p.first().1),
        vis_closed(g, v),
    ensures
        vis_at(v, p.last().0, p.last().1),
    decreases p.len(),
{
    if p.len() > 1 {
        let q = p.drop_last();
        assert forall|i: int| 0 <= i < q.len() implies empty_at(g, (#[trigger] q[i]).0, q[i].1) by {
            assert(q[i] == p[i]);
        }
        assert forall|i: int|
            1 <= i < q.len() implies adj4(q[i - 1].0, q[i - 1].1, (#[trigger] q[i]).0, q[i].1) by {
            assert(q[i] == p[i] && q[i - 1] == p[i - 1]);
        }
        assert(q.first() == p.first());
        lemma_path_visited(g, v, q);
        assert(adj4(p[p.len() - 2].0, p[p.len() - 2].1, p[p.len() - 1].0, p[p.len() - 1].1));
        assert(q.last() == p[p.len() - 2]);
    }
}

/// A marked, closed set that holds the start holds everything the start
/// reaches.
proof fn lemma_reach_visited(
    g: Seq<Seq<Tile>>,
    v: Seq<Seq<bool>>,
    sx: int,
    sy: int,
    x: int,
    y: int,
)
    requires
        vis_closed(g, v),
        vis_at(v, sx, sy),
        empty_reach(g, sx, sy, x, y),
    ensures
        vis_at(v, x, y),
{
    reveal(empty_reach);
    let p = choose|p: Seq<(int, int)>|
        #[trigger] empty_path(g, p) && p.len() > 0 && p.first() == (sx, sy) && p.last() == (x, y);
    lemma_path_visited(g, v, p);
}

/// Unmarked cells in one row of visit marks.
spec fn row_false(r: Seq<bool>) -> nat
    decreases r.len(),
{
    if r.len() == 0 {
        0
    } else {
        row_false(r.drop_last()) + if r.last() {
            0nat
        } else {
            1nat
        }
    }
}

/// Unmarked cells in a whole grid of visit marks.
spec fn grid_false(v: Seq<Seq<bool>>) -> nat
    decreases v.len(),
{
    if v.len() == 0 {
        0
    } else {
        grid_false(v.drop_last()) + row_false(v.last())
    }
}

/// The grid of visit marks as a mathematical sequence of rows.
spec fn vgrid(v: Seq<Vec<bool>>) -> Seq<Seq<bool>> {
    Seq::new(v.len(), |y: int| v[y]@)
}

/// `(x, y)` is on the work list.
spec fn st_has(st: Seq<(usize, usize)>, x: int, y: int) -> bool {
    exists|k: int| 0 <= k < st.len() && (#[trigger] st[k]).0 as int == x && st[k].1 as int == y
}

/// All four neighbours of `(a, b)` have been dealt with: adjacent empty
/// cells are marked, adjacent numbered cells are shown.
#[verifier::opaque]
spec fn frontier_done(
    g: Seq<Seq<Tile>>,
    v: Seq<Seq<bool>>,
    s: Seq<Seq<TileState>>,
    a: int,
    b: int,
) -> bool {
    forall|c: int, d: int|
        #[trigger] adj4(a, b, c, d) ==> ((empty_at(g, c, d) ==> vis_at(v, c, d)) && (number_at(
            g,
            c,
            d,
        ) ==> s[d][c] == TileState::Known))
}


/// `(a, b)` is fully dealt with: shown, and its frontier handled.
spec fn cell_done(f: Minefield, f0: Minefield, v: Seq<Seq<bool>>, a: int, b: int) -> bool {
    f.state_at(a, b) == TileState::Known && frontier_done(f0.hidden(), v, f.shown(), a, b)
}

/// What holds at every round of the flood, apart from which marked cells
/// are fully dealt with: `f` is the current field, `f0` the field as the
/// flood found it, `v` the visit marks, `st` the work list, `(sx, sy)` the
/// start cell.
spec fn flood_core(
    f: Minefield,
    f0: Minefield,
    v: Seq<Seq<bool>>,
    st: Seq<(usize, usize)>,
    sx: int,
    sy: int,
) -> bool {
    let g = f0.hidden();
    &&& f.wf()
    &&& f.spec_width() == f0.spec_width()
    &&& f.spec_height() == f0.spec_height()
    &&& f.hidden_field == f0.hidden_field
    &&& v.len() == f0.spec_height()
    &&& forall|b: int| 0 <= b < v.len() ==> (#[trigger] v[b]).len() == f0.spec_width()
    &&& forall|a: int, b: int|
        #[trigger] vis_at(v, a, b) ==> empty_at(g, a, b) && empty_reach(g, sx, sy, a, b)
    &&& vis_at(v, sx, sy)
    &&& forall|k: int| 0 <= k < st.len() ==> vis_at(v, (#[trigger] st[k]).0 as int, st[k].1 as int)
    &&& st.no_duplicates()
    &&& forall|a: int, b: int|
        f0.in_bounds(a, b) ==> #[trigger] f.state_at(a, b) == f0.state_at(a, b) || (f.state_at(
            a,
            b,
        ) == TileState::Known && reveal_target(g, sx, sy, a, b))
}

/// The loop invariant proper: every marked cell off the work list is fully
/// dealt with.
spec fn flood_inv(
    f: Minefield,
    f0: Minefield,
    v: Seq<Seq<bool>>,
    st: Seq<(usize, usize)>,
    sx: int,
    sy: int,
) -> bool {
    &&& flood_core(f, f0, v, st, sx, sy)
    &&& forall|a: int, b: int|
        #[trigger] vis_at(v, a, b) && !st_has(st, a, b) ==> cell_done(f, f0, v, a, b)
}

/// The invariant in the middle of a round, while the cell `(px, py)` just
/// taken off the work list is shown but its neighbours are still being
/// handled.
spec fn flood_pend(
    f: Minefield,
    f0: Minefield,
    v: Seq<Seq<bool>>,
    st: Seq<(usize, usize)>,
    sx: int,
    sy: int,
    px: int,
    py: int,
) -> bool {
    &&& flood_core(f, f0, v, st, sx, sy)
    &&& forall|a: int, b: int|
        #[trigger] vis_at(v, a, b) && !st_has(st, a, b) && !(a == px && b == py) ==> cell_done(
            f,
            f0,
            v,
            a,
            b,
        )
    &&& vis_at(v, px, py)
    &&& !st_has(st, px, py)
    &&& f.state_at(px, py) == TileState::Known
}

proof fn lemma_push_no_dup(st: Seq<(usize, usize)>, p: (usize, usize))
    requires
        st.no_duplicates(),
        !st_has(st, p.0 as int, p.1 as int),
    ensures
        st.push(p).no_duplicates(),
{
    let st2 = st.push(p);
    assert forall|i: int, j: int|
        0 <= i < st2.len() && 0 <= j < st2.len() && i != j implies st2[i] != st2[j] by {
        if i < st.len() && j < st.len() {
            assert(st2[i] == st[i] && st2[j] == st[j]);
        } else {
            let k = if i < st.len() {
                i
            } else {
                j
            };
            if 0 <= k < st.len() && st[k] == p {
                assert(st_has(st, p.0 as int, p.1 as int));
            }
        }
    }
}

proof fn lemma_pop_no_dup(st: Seq<(usize, usize)>)
    requires
        st.no_duplicates(),
        st.len() > 0,
    ensures
        st.subrange(0, st.len() - 1).no_duplicates(),
        !st_has(st.subrange(0, st.len() - 1), st.last().0 as int, st.last().1 as int),
{
    let st2 = st.subrange(0, st.len() - 1);
    assert forall|i: int, j: int|
        0 <= i < st2.len() && 0 <= j < st2.len() && i != j implies st2[i] != st2[j] by {
        assert(st2[i] == st[i] && st2[j] == st[j]);
    }
    if st_has(st2, st.last().0 as int, st.last().1 as int) {
        let k = choose|k: int|
            0 <= k < st2.len() && (#[trigger] st2[k]).0 as int == st.last().0 as int && st2[k].1
                as int == st.last().1 as int;
        assert(st[k] == st[st.len() - 1]);
        assert(false);
    }
}

proof fn lemma_row_false_update(r: Seq<bool>, x: int)
    requires
        0 <= x < r.len(),
        !r[x],
    ensures
        row_false(r.update(x, true)) + 1 == row_false(r),
    decreases r.len(),
{
    let r2 = r.update(x, true);
    if x == r.len() - 1 {
        assert(r2.drop_last() =~= r.drop_last());
        assert(r2.last());
    } else {
        lemma_row_false_update(r.drop_last(), x);
        assert(r2.drop_last() =~= r.drop_last().update(x, true));
        assert(r2.last() == r.last());
    }
}

proof fn lemma_grid_false_update(v: Seq<Seq<bool>>, x: int, y: int)
    requires
        0 <= y < v.len(),
        0 <= x < v[y].len(),
        !v[y][x],
    ensures
        grid_false(v.update(y, v[y].update(x, true))) + 1 == grid_false(v),
    decreases v.len(),
{
    let v2 = v.update(y, v[y].update(x, true));
    if y == v.len() - 1 {
        assert(v2.drop_last() =~= v.drop_last());
        lemma_row_false_update(v[y], x);
        assert(v2.last() == v[y].update(x, true));
    } else {
        lemma_grid_false_update(v.drop_last(), x, y);
        assert(v2.drop_last() =~= v.drop_last().update(y, v[y].update(x, true)));
        assert(v2.last() == v.last());
    }
}


impl Minefield {
    /// A reveal request that does nothing: the coordinate is off the grid,
    /// or the cell is flagged.
    pub open spec fn sweep_noop(self, x: int, y: int) -> bool {
        !self.in_bounds(x, y) || self.state_at(x, y) == TileState::Unknown(true)
    }

    /// Reveal the cell at `(x, y)`. Off the grid, or on a flagged cell,
    /// nothing happens and nothing is returned. On a numbered or mine cell
    /// exactly that one cell becomes known and its tile is returned — the
    /// caller decides what a revealed mine means. On an empty cell exactly
    /// the cells of [`reveal_target`] become known: the whole connected
    /// empty region and its bordering numbered cells, and never a mine.
    /// The hidden grid and the dimensions are untouched.
    pub fn sweep_at(&mut self, x: usize, y: usize) -> (r: Option<Tile>)
        requires
            old(self).wf(),
        ensures
            final(self).wf(),
            final(self).spec_width() == old(self).spec_width(),
            final(self).spec_height() == old(self).spec_height(),
            final(self).hidden_field == old(self).hidden_field,
            old(self).sweep_noop(x as int, y as int) ==> r is None && *final(self) == *old(self),
            !old(self).sweep_noop(x as int, y as int) ==> r == Some(
                old(self).tile_at(x as int, y as int),
            ),
            !old(self).sweep_noop(x as int, y as int) && old(self).tile_at(x as int, y as int)
                != Tile::Empty ==> forall|a: int, b: int|
                old(self).in_bounds(a, b) ==> #[trigger] final(self).state_at(a, b) == (if a
                    == x as int && b == y as int {
                    TileState::Known
                } else {
                    old(self).state_at(a, b)
                }),
            !old(self).sweep_noop(x as int, y as int) && old(self).tile_at(x as int, y as int)
                == Tile::Empty ==> forall|a: int, b: int|
                old(self).in_bounds(a, b) ==> #[trigger] final(self).state_at(a, b) == (if
                    reveal_target(old(self).hidden(), x as int, y as int, a, b) {
                    TileState::Known
                } else {
                    old(self).state_at(a, b)
                }),
    {
        if x >= self.width || y >= self.height {
            return None;
        }
        if matches!(self.shown_field[y][x], TileState::Unknown(true)) {
            return None;
        }
        let tile = self.hidden_field[y][x];
        match tile {
            Tile::Number(_) | Tile::Mine => {
                self.shown_field[y][x] = TileState::Known;
                Some(tile)
            },
            Tile::Empty => {
                self.flood_from(x, y);
                Some(tile)
            },
        }
    }

    /// Flood out from the empty cell `(x, y)`: afterwards exactly the
    /// cells of [`reveal_target`] have become known; everything else is as
    /// it was.
    #[verifier::rlimit(100)]
    fn flood_from(&mut self, x: usize, y: usize)
        requires
            old(self).wf(),
            old(self).in_bounds(x as int, y as int),
            old(self).tile_at(x as int, y as int) == Tile::Empty,
        ensures
            final(self).wf(),
            final(self).spec_width() == old(self).spec_width(),
            final(self).spec_height() == old(self).spec_height(),
            final(self).hidden_field == old(self).hidden_field,
            forall|a: int, b: int|
                old(self).in_bounds(a, b) ==> #[trigger] final(self).state_at(a, b) == (if
                    reveal_target(old(self).hidden(), x as int, y as int, a, b) {
                    TileState::Known
                } else {
                    old(self).state_at(a, b)
                }),
    {
        let ghost f0 = *self;
        let ghost g = f0.hidden();
        let ghost sx = x as int;
        let ghost sy = y as int;
        let w = self.width;
        let h = self.height;
        let mut visited: Vec<Vec<bool>> = crate::field::filled_grid(w, h, false);
        visited[y][x] = true;
        let mut stack: Vec<(usize, usize)> = Vec::new();
        stack.push((x, y));
        proof {
            lemma_reach_refl(g, sx, sy);
            let vv = vgrid(visited@);
            assert(vv[sy] =~= visited@[sy]@);
            assert(vis_at(vv, sx, sy));
            assert forall|a: int, b: int| #[trigger] vis_at(vv, a, b) implies a == sx && b
                == sy by {}
            assert(stack@[0] == (x, y));
            assert(st_has(stack@, sx, sy));
            assert(flood_inv(*self, f0, vv, stack@, sx, sy));
        }
        while stack.len() > 0
            invariant
                flood_inv(*self, f0, vgrid(visited@), stack@, sx, sy),
                f0.wf(),
                f0.in_bounds(sx, sy),
                empty_at(g, sx, sy),
                g == f0.hidden(),
                w == f0.spec_width(),
                h == f0.spec_height(),
            decreases grid_false(vgrid(visited@)), stack@.len(),
        {
            let ghost vv_top = vgrid(visited@);
            let ghost st_top = stack@;
            let cur = stack.pop().unwrap();
            let cx = cur.0;
            let cy = cur.1;
            proof {
                assert(st_top[st_top.len() - 1] == cur);
                assert(vis_at(vv_top, cx as int, cy as int));
                lemma_pop_no_dup(st_top);
            }
            let ghost self_pre = *self;
            self.shown_field[cy][cx] = TileState::Known;
            proof {
                assert(reveal_target(g, sx, sy, cx as int, cy as int)) by {
                    reveal(reveal_target);
                }
                assert forall|a: int, b: int|
                    #[trigger] vis_at(vv_top, a, b) && !st_has(stack@, a, b) && !(a == cx as int
                        && b == cy as int) implies cell_done(*self, f0, vv_top, a, b) by {
                    if st_has(st_top, a, b) {
                        let k = choose|k: int|
                            0 <= k < st_top.len() && (#[trigger] st_top[k]).0 as int == a
                                && st_top[k].1 as int == b;
                        if k < st_top.len() - 1 {
                            assert(stack@[k] == st_top[k]);
                            assert(st_has(stack@, a, b));
                        }
                        assert(false);
                    }
                    assert(cell_done(self_pre, f0, vv_top, a, b));
                    assert(self.state_at(a, b) == self_pre.state_at(a, b));
                    assert(frontier_done(g, vv_top, self.shown(), a, b)) by {
                        reveal(frontier_done);
                        assert forall|c: int, d: int|
                            #[trigger] adj4(a, b, c, d) && number_at(g, c, d) implies self.shown(
                            )[d][c] == TileState::Known by {
                            assert(self_pre.shown()[d][c] == TileState::Known);
                            assert(!(c == cx as int && d == cy as int));
                        }
                    }
                }
                assert(self.wf());
                assert forall|k: int| 0 <= k < stack@.len() implies vis_at(
                    vv_top,
                    (#[trigger] stack@[k]).0 as int,
                    stack@[k].1 as int,
                ) by {
                    assert(stack@[k] == st_top[k]);
                }
                assert forall|a: int, b: int| f0.in_bounds(a, b) implies #[trigger] self.state_at(
                    a,
                    b,
                ) == f0.state_at(a, b) || (self.state_at(a, b) == TileState::Known
                    && reveal_target(g, sx, sy, a, b)) by {
                    if !(a == cx as int && b == cy as int) {
                        assert(self.state_at(a, b) == self_pre.state_at(a, b));
                    }
                }
                assert(self.state_at(cx as int, cy as int) == TileState::Known);
                assert(flood_pend(*self, f0, vv_top, stack@, sx, sy, cx as int, cy as int));
            }
            if cx > 0 {
                self.flood_step(
                    &mut visited,
                    &mut stack,
                    cx - 1,
                    cy,
                    Ghost(f0),
                    Ghost(sx),
                    Ghost(sy),
                    Ghost(cx as int),
                    Ghost(cy as int),
                );
            }
            if cx + 1 < w {
                self.flood_step(
                    &mut visited,
                    &mut stack,
                    cx + 1,
                    cy,
                    Ghost(f0),
                    Ghost(sx),
                    Ghost(sy),
                    Ghost(cx as int),
                    Ghost(cy as int),
                );
            }
            if cy > 0 {
                self.flood_step(
                    &mut visited,
                    &mut stack,
                    cx,
                    cy - 1,
                    Ghost(f0),
                    Ghost(sx),
                    Ghost(sy),
                    Ghost(cx as int),
                    Ghost(cy as int),
                );
            }
            if cy + 1 < h {
                self.flood_step(
                    &mut visited,
                    &mut stack,
                    cx,
                    cy + 1,
                    Ghost(f0),
                    Ghost(sx),
                    Ghost(sy),
                    Ghost(cx as int),
                    Ghost(cy as int),
                );
            }
            proof {
                let vv = vgrid(visited@);
                let st = stack@;
                assert(vis_at(vv, cx as int, cy as int));
                assert(!st_has(st, cx as int, cy as int));
                if cx > 0 {
                    assert(empty_at(g, cx as int - 1, cy as int) ==> vis_at(
                        vv,
                        cx as int - 1,
                        cy as int,
                    ));
                    assert(number_at(g, cx as int - 1, cy as int) ==> self.state_at(
                        cx as int - 1,
                        cy as int,
                    ) == TileState::Known);
                }
                if cx as int + 1 < w {
                    assert(empty_at(g, cx as int + 1, cy as int) ==> vis_at(
                        vv,
                        cx as int + 1,
                        cy as int,
                    ));
                    assert(number_at(g, cx as int + 1, cy as int) ==> self.state_at(
                        cx as int + 1,
                        cy as int,
                    ) == TileState::Known);
                }
                if cy > 0 {
                    assert(empty_at(g, cx as int, cy as int - 1) ==> vis_at(
                        vv,
                        cx as int,
                        cy as int - 1,
                    ));
                    assert(number_at(g, cx as int, cy as int - 1) ==> self.state_at(
                        cx as int,
                        cy as int - 1,
                    ) == TileState::Known);
                }
                if cy as int + 1 < h {
                    assert(empty_at(g, cx as int, cy as int + 1) ==> vis_at(
                        vv,
                        cx as int,
                        cy as int + 1,
                    ));
                    assert(number_at(g, cx as int, cy as int + 1) ==> self.state_at(
                        cx as int,
                        cy as int + 1,
                    ) == TileState::Known);
                }
                assert(frontier_done(g, vv, self.shown(), cx as int, cy as int)) by {
                    reveal(frontier_done);
                    assert forall|c: int, d: int|
                        #[trigger] adj4(cx as int, cy as int, c, d) implies ((empty_at(g, c, d)
                        ==> vis_at(vv, c, d)) && (number_at(g, c, d) ==> self.shown()[d][c]
                        == TileState::Known)) by {
                        if cell_in(g, c, d) {
                            assert(f0.in_bounds(c, d));
                        }
                    }
                }
                assert forall|a: int, b: int|
                    #[trigger] vis_at(vv, a, b) && !st_has(st, a, b) implies cell_done(
                    *self,
                    f0,
                    vv,
                    a,
                    b,
                ) by {
                    if !(a == cx as int && b == cy as int) {
                        assert(cell_done(*self, f0, vv, a, b));
                    }
                }
                assert(flood_inv(*self, f0, vv, st, sx, sy));
            }
        }
        proof {
            let vv = vgrid(visited@);
            assert forall|a: int, b: int, c: int, d: int|
                vis_at(vv, a, b) && #[trigger] adj4(a, b, c, d) && empty_at(g, c, d) implies vis_at(
                vv,
                c,
                d,
            ) by {
                assert(!st_has(stack@, a, b));
                assert(cell_done(*self, f0, vv, a, b));
                reveal(frontier_done);
            }
            assert(vis_closed(g, vv));
            assert forall|a: int, b: int| f0.in_bounds(a, b) implies #[trigger] self.state_at(a, b)
                == (if reveal_target(g, sx, sy, a, b) {
                TileState::Known
            } else {
                f0.state_at(a, b)
            }) by {
                if reveal_target(g, sx, sy, a, b) {
                    reveal(reveal_target);
                    if empty_at(g, a, b) && empty_reach(g, sx, sy, a, b) {
                        lemma_reach_visited(g, vv, sx, sy, a, b);
                        assert(!st_has(stack@, a, b));
                        assert(cell_done(*self, f0, vv, a, b));
                    } else {
                        let (ex, ey) = choose|ex: int, ey: int|
                            empty_reach(g, sx, sy, ex, ey) && #[trigger] adj4(ex, ey, a, b);
                        lemma_reach_visited(g, vv, sx, sy, ex, ey);
                        assert(!st_has(stack@, ex, ey));
                        assert(cell_done(*self, f0, vv, ex, ey));
                        reveal(frontier_done);
                    }
                }
            }
        }
    }

    /// Handle one neighbour `(nx, ny)` of the empty cell just taken off the
    /// work list: an unmarked empty neighbour is marked and queued, a
    /// numbered neighbour is shown, a mine is left alone.
    #[verifier::rlimit(100)]
    fn flood_step(
        &mut self,
        visited: &mut Vec<Vec<bool>>,
        stack: &mut Vec<(usize, usize)>,
        nx: usize,
        ny: usize,
        Ghost(f0): Ghost<Minefield>,
        Ghost(sx): Ghost<int>,
        Ghost(sy): Ghost<int>,
        Ghost(px): Ghost<int>,
        Ghost(py): Ghost<int>,
    )
        requires
            flood_pend(*old(self), f0, vgrid(old(visited)@), old(stack)@, sx, sy, px, py),
            f0.in_bounds(nx as int, ny as int),
            adj4(px, py, nx as int, ny as int),
        ensures
            flood_pend(*final(self), f0, vgrid(final(visited)@), final(stack)@, sx, sy, px, py),
            forall|a: int, b: int|
                vis_at(vgrid(old(visited)@), a, b) ==> #[trigger] vis_at(
                    vgrid(final(visited)@),
                    a,
                    b,
                ),
            forall|a: int, b: int|
                f0.in_bounds(a, b) && old(self).state_at(a, b) == TileState::Known
                    ==> #[trigger] final(self).state_at(a, b) == TileState::Known,
            forall|a: int, b: int|
                st_has(old(stack)@, a, b) ==> #[trigger] st_has(final(stack)@, a, b),
            forall|a: int, b: int|
                #[trigger] st_has(final(stack)@, a, b) && !st_has(old(stack)@, a, b) ==> !vis_at(
                    vgrid(old(visited)@),
                    a,
                    b,
                ),
            empty_at(f0.hidden(), nx as int, ny as int) ==> vis_at(
                vgrid(final(visited)@),
                nx as int,
                ny as int,
            ),
            number_at(f0.hidden(), nx as int, ny as int) ==> final(self).state_at(
                nx as int,
                ny as int,
            ) == TileState::Known,
            grid_false(vgrid(final(visited)@)) < grid_false(vgrid(old(visited)@))
                || (final(visited)@ == old(visited)@ && final(stack)@ == old(stack)@),
    {
        let ghost g = f0.hidden();
        proof {
            assert(visited@.len() == vgrid(visited@).len());
            assert(vgrid(visited@)[ny as int] == visited@[ny as int]@);
        }
        match self.hidden_field[ny][nx] {
            Tile::Empty => {
                if !visited[ny][nx] {
                    let ghost vv0 = vgrid(visited@);
                    visited[ny][nx] = true;
                    stack.push((nx, ny));
                    proof {
                        let vv = vgrid(visited@);
                        let st = stack@;
                        assert(vv =~~= vv0.update(
                            ny as int,
                            vv0[ny as int].update(nx as int, true),
                        ));
                        lemma_grid_false_update(vv0, nx as int, ny as int);
                        lemma_reach_step(g, sx, sy, px, py, nx as int, ny as int);
                        if st_has(old(stack)@, nx as int, ny as int) {
                            assert(vis_at(vv0, nx as int, ny as int));
                            assert(false);
                        }
                        lemma_push_no_dup(old(stack)@, (nx, ny));
                        assert(st[st.len() - 1] == (nx, ny));
                        assert(st_has(st, nx as int, ny as int));
                        assert forall|a: int, b: int|
                            #[trigger] st_has(st, a, b) && !st_has(old(stack)@, a, b) implies a
                            == nx as int && b == ny as int by {
                            let k = choose|k: int|
                                0 <= k < st.len() && (#[trigger] st[k]).0 as int == a && st[k].1
                                    as int == b;
                            if k < old(stack)@.len() {
                                assert(old(stack)@[k] == st[k]);
                                assert(st_has(old(stack)@, a, b));
                            }
                        }
                        assert forall|a: int, b: int| #[trigger] vis_at(vv, a, b) implies vis_at(
                            vv0,
                            a,
                            b,
                        ) || (a == nx as int && b == ny as int) by {}
                        assert forall|a: int, b: int| st_has(old(stack)@, a, b) implies #[trigger] st_has(
                            st,
                            a,
                            b,
                        ) by {
                            let k = choose|k: int|
                                0 <= k < old(stack)@.len() && (#[trigger] old(stack)@[k]).0 as int
                                    == a && old(stack)@[k].1 as int == b;
                            assert(st[k] == old(stack)@[k]);
                        }
                        assert forall|k: int| 0 <= k < st.len() implies vis_at(
                            vv,
                            (#[trigger] st[k]).0 as int,
                            st[k].1 as int,
                        ) by {
                            if k < old(stack)@.len() {
                                assert(old(stack)@[k] == st[k]);
                                assert(vis_at(vv0, st[k].0 as int, st[k].1 as int));
                            }
                        }
                        assert forall|a: int, b: int|
                            #[trigger] vis_at(vv, a, b) && !st_has(st, a, b) && !(a == px && b
                                == py) implies cell_done(*self, f0, vv, a, b) by {
                            assert(vis_at(vv0, a, b));
                            assert(!st_has(old(stack)@, a, b));
                            assert(cell_done(*self, f0, vv0, a, b));
                            assert(frontier_done(g, vv, self.shown(), a, b)) by {
                                reveal(frontier_done);
                                assert forall|c: int, d: int|
                                    #[trigger] adj4(a, b, c, d) && empty_at(g, c, d) implies
                                vis_at(vv, c, d) by {
                                    assert(vis_at(vv0, c, d) || (c == nx as int && d
                                        == ny as int));
                                }
                            }
                        }
                        assert(flood_pend(*self, f0, vv, st, sx, sy, px, py));
                    }
                }
            },
            Tile::Number(_) => {
                self.shown_field[ny][nx] = TileState::Known;
                proof {
                    let vv = vgrid(visited@);
                    assert(empty_at(g, px, py));
                    assert(empty_reach(g, sx, sy, px, py));
                    assert(reveal_target(g, sx, sy, nx as int, ny as int)) by {
                        reveal(reveal_target);
                    }
                    assert(!(px == nx as int && py == ny as int));
                    assert forall|a: int, b: int|
                        #[trigger] vis_at(vv, a, b) && !st_has(stack@, a, b) && !(a == px && b
                            == py) implies cell_done(*self, f0, vv, a, b) by {
                        assert(cell_done(*old(self), f0, vv, a, b));
                        assert(!(a == nx as int && b == ny as int));
                        assert(self.state_at(a, b) == TileState::Known);
                        assert(frontier_done(g, vv, self.shown(), a, b)) by {
                            reveal(frontier_done);
                            assert forall|c: int, d: int|
                                #[trigger] adj4(a, b, c, d) && number_at(g, c, d) implies
                            self.shown()[d][c] == TileState::Known by {
                                assert(old(self).shown()[d][c] == TileState::Known);
                            }
                        }
                    }
                    assert(self.wf());
                    assert forall|a: int, b: int| f0.in_bounds(a, b) implies #[trigger] self.state_at(
                        a,
                        b,
                    ) == f0.state_at(a, b) || (self.state_at(a, b) == TileState::Known
                        && reveal_target(g, sx, sy, a, b)) by {
                        if !(a == nx as int && b == ny as int) {
                            assert(self.state_at(a, b) == old(self).state_at(a, b));
                        }
                    }
                    assert(self.state_at(px, py) == TileState::Known);
                    assert(flood_pend(*self, f0, vv, stack@, sx, sy, px, py));
                }
            },
            Tile::Mine => {},
        }
    }
}

} // verus!
