//! The solver: one pass of local deductions over the revealed cells. For
//! each revealed cell it flags the neighbours that must be mines, reveals
//! the neighbours that cannot be, and looks for the 1-2-1 pattern on each of
//! the cell's four sides. What the solver reveals it only uncovers: no flood
//! follows from it here.

use crate::grid::{lemma_count_in_compare, lemma_count_in_zero, lemma_counted, lemma_equal,
    lemma_repaint, lemma_same_ground, lemma_total_le, lemma_with_visibility, Grid, GridView};
use crate::neighbourhood::{adjacent, cell, cells, in_bounds, lemma_neighbours, neighbours};
use crate::reveal_engine::Sweep;
use crate::tile::{Mark, Visibility};
use vstd::prelude::*;

verus! {

/// A side of a cell on which the 1-2-1 pattern is looked for. For `Below` and
/// `Above` the three numbers stand in a row, for `Left` and `Right` in a
/// column.
#[derive(Clone, Copy, Debug, PartialEq, Eq, Structural)]
pub enum Side {
    Below,
    Above,
    Left,
    Right,
}

/// The step from a cell to the cell next to it on the given side.
pub open spec fn outward(side: Side) -> (int, int) {
    match side {
        Side::Below => (0, 1),
        Side::Above => (0, -1),
        Side::Left => (-1, 0),
        Side::Right => (1, 0),
    }
}

/// The step along the line of the three numbers.
pub open spec fn along(side: Side) -> (int, int) {
    match side {
        Side::Below | Side::Above => (1, 0),
        Side::Left | Side::Right => (0, 1),
    }
}

/// The point that lies `times` steps from `p`.
pub open spec fn shift(p: (int, int), step: (int, int), times: int) -> (int, int) {
    (p.0 + times * step.0, p.1 + times * step.1)
}

/// The two cells that hold the ones of the pattern around the two at `p`.
pub open spec fn ends(p: (int, int), side: Side) -> ((int, int), (int, int)) {
    (shift(p, along(side), -1), shift(p, along(side), 1))
}

/// The cell next to `p` on the given side: the one that the pattern reveals.
pub open spec fn heart(p: (int, int), side: Side) -> (int, int) {
    shift(p, outward(side), 1)
}

/// The cells next to the two ends on the given side: the ones that the
/// pattern flags.
pub open spec fn wings(p: (int, int), side: Side) -> ((int, int), (int, int)) {
    (shift(heart(p, side), along(side), -1), shift(heart(p, side), along(side), 1))
}

impl GridView {
    /// The mines around the cell that no flag accounts for. Negative where
    /// the cell has more flags around it than mines.
    pub open spec fn effective(self, p: (int, int)) -> int {
        self.at(p).neighbour_mine_count - self.around(p, Mark::Flagged)
    }

    /// Whether the cell has as many mines around it as neighbours that are
    /// not revealed.
    pub open spec fn crowded(self, p: (int, int)) -> bool {
        self.around(p, Mark::Unrevealed) == self.at(p).neighbour_mine_count
    }

    /// The grid after the first rule: where the cell is crowded, each of its
    /// neighbours that is not revealed carries a flag.
    pub open spec fn after_flagging(self, p: (int, int)) -> GridView {
        if self.crowded(p) {
            self.repaint(
                |q: (int, int)|
                    if adjacent(p, q) && self.at(q).visibility != Visibility::Revealed {
                        Visibility::Flagged
                    } else {
                        self.at(q).visibility
                    },
            )
        } else {
            self
        }
    }

    /// The sweep after the hidden cells of the list have been uncovered in
    /// turn, starting from this grid with no mine gone off.
    pub open spec fn uncover_each(self, list: Seq<(int, int)>) -> Sweep
        decreases list.len(),
    {
        if list.len() == 0 {
            Sweep { grid: self, blown: None }
        } else {
            self.uncover_each(list.drop_last()).uncover(list.last())
        }
    }

    /// The sweep that the second rule makes: where the cell is satisfied,
    /// its hidden neighbours are uncovered.
    pub open spec fn after_clearing(self, p: (int, int)) -> Sweep {
        if self.satisfied(p) {
            self.uncover_each(self.neighbours(p))
        } else {
            Sweep { grid: self, blown: None }
        }
    }

    /// Whether the two ends of the line through `p` show the ones of the
    /// pattern: both lie on the board, are revealed and lack one mine each.
    /// The line is the row of `p` for the sides below and above, and its
    /// column for the sides left and right.
    pub open spec fn line_shows(self, p: (int, int), side: Side) -> bool {
        &&& self.in_bounds(ends(p, side).0)
        &&& self.in_bounds(ends(p, side).1)
        &&& self.at(ends(p, side).0).visibility == Visibility::Revealed
        &&& self.effective(ends(p, side).0) == 1
        &&& self.at(ends(p, side).1).visibility == Visibility::Revealed
        &&& self.effective(ends(p, side).1) == 1
    }

    /// Whether the three cells beside the line on the given side lie on the
    /// board and are hidden.
    pub open spec fn side_hidden(self, p: (int, int), side: Side) -> bool {
        &&& self.in_bounds(wings(p, side).0)
        &&& self.in_bounds(heart(p, side))
        &&& self.in_bounds(wings(p, side).1)
        &&& self.at(wings(p, side).0).visibility == Visibility::Hidden
        &&& self.at(heart(p, side)).visibility == Visibility::Hidden
        &&& self.at(wings(p, side).1).visibility == Visibility::Hidden
    }

    /// Whether the 1-2-1 pattern stands at `p` with its hidden cells on the
    /// given side: `p` is revealed and lacks two mines, the two ends are
    /// revealed and lack one each, and the three cells on that side are
    /// hidden.
    pub open spec fn lined_up(self, p: (int, int), side: Side) -> bool {
        &&& self.at(p).visibility == Visibility::Revealed
        &&& self.effective(p) == 2
        &&& self.line_shows(p, side)
        &&& self.side_hidden(p, side)
    }

    /// The grid with the two wings of the pattern flagged.
    pub open spec fn with_wings(self, p: (int, int), side: Side) -> GridView {
        self.with_visibility(wings(p, side).0, Visibility::Flagged).with_visibility(
            wings(p, side).1,
            Visibility::Flagged,
        )
    }

    /// Whether no rule of the solver has anything to do at the cell: it is
    /// not revealed; or none of its neighbours is hidden where it is crowded
    /// or satisfied, and the pattern stands on none of its sides.
    pub open spec fn settled_at(self, p: (int, int)) -> bool {
        self.at(p).visibility == Visibility::Revealed ==> {
            &&& self.crowded(p) || self.satisfied(p) ==> self.around(p, Mark::Hidden) == 0
            &&& forall|side: Side| !self.lined_up(p, side)
        }
    }

    /// Whether no rule of the solver has anything to do anywhere.
    pub open spec fn settled(self) -> bool {
        forall|p: (int, int)| self.in_bounds(p) ==> #[trigger] self.settled_at(p)
    }

    /// The sweep of a whole pass of the solver: the cells are taken column by
    /// column and from the top down within a column.
    pub open spec fn after_solving(self) -> Sweep {
        (Sweep { grid: self, blown: None }).solve_columns(self.width)
    }
}

impl Sweep {
    /// The sweep after the cell was uncovered: a hidden cell is revealed,
    /// and goes off if it holds a mine; any other cell is left as it is. No
    /// flood follows.
    pub open spec fn uncover(self, p: (int, int)) -> Sweep {
        let tile = self.grid.at(p);
        if tile.visibility != Visibility::Hidden {
            self
        } else {
            Sweep {
                grid: self.grid.with_visibility(p, Visibility::Revealed),
                blown: if self.blown is None && tile.mine {
                    Some(p)
                } else {
                    self.blown
                },
            }
        }
    }

    /// Whether the sweep is as the solver leaves it during play: the grid is
    /// well-formed; if no mine went off, no mine is revealed; and the mine
    /// that went off is a revealed mine of the grid.
    pub open spec fn tame(self) -> bool {
        &&& self.grid.wf()
        &&& match self.blown {
            Some(m) => self.grid.in_bounds(m) && self.grid.at(m).mine && self.grid.at(
                m,
            ).visibility == Visibility::Revealed,
            None => self.grid.safe(),
        }
    }

    /// The sweep after one side of the pattern had its turn. The numbers of
    /// the pattern are not looked at here. Nothing happens once a mine has
    /// gone off, nor unless the three cells on that side are hidden: then the
    /// two wings are flagged and the heart is uncovered.
    pub open spec fn try_side(self, p: (int, int), side: Side) -> Sweep {
        if self.blown is None && self.grid.side_hidden(p, side) {
            (Sweep { grid: self.grid.with_wings(p, side), blown: None }).uncover(heart(p, side))
        } else {
            self
        }
    }

    /// The sweep after one line through `p` had its turn. The two ends are
    /// looked at once, on the grid as this turn finds it: where they show
    /// the ones of the pattern, first `side` and then `other` has its turn,
    /// each on the grid as it then stands.
    pub open spec fn try_line(self, p: (int, int), side: Side, other: Side) -> Sweep {
        if self.blown is None && self.grid.line_shows(p, side) {
            self.try_side(p, side).try_side(p, other)
        } else {
            self
        }
    }

    /// The sweep after the pattern was looked for at `p`. The cell itself is
    /// looked at once, on the grid as it is found: where it is revealed and
    /// lacks two mines, the row through it has its turn with the sides below
    /// and above, and then the column with the sides left and right.
    pub open spec fn try_patterns(self, p: (int, int)) -> Sweep {
        if self.blown is None && self.grid.at(p).visibility == Visibility::Revealed
            && self.grid.effective(p) == 2 {
            self.try_line(p, Side::Below, Side::Above).try_line(p, Side::Left, Side::Right)
        } else {
            self
        }
    }

    /// The sweep after the solver's rules were applied at `p`. Nothing
    /// happens once a mine has gone off, nor at a cell that is not revealed.
    pub open spec fn solve_at(self, p: (int, int)) -> Sweep {
        if self.blown is None && self.grid.at(p).visibility == Visibility::Revealed {
            self.grid.after_flagging(p).after_clearing(p).try_patterns(p)
        } else {
            self
        }
    }

    /// The sweep after the first `rows` cells of a column had their turn.
    pub open spec fn solve_rows(self, col: int, rows: nat) -> Sweep
        decreases rows,
    {
        if rows == 0 {
            self
        } else {
            self.solve_rows(col, (rows - 1) as nat).solve_at((col, rows - 1))
        }
    }

    /// The sweep after the first `cols` columns had their turn.
    pub open spec fn solve_columns(self, cols: nat) -> Sweep
        decreases cols,
    {
        if cols == 0 {
            self
        } else {
            self.solve_columns((cols - 1) as nat).solve_rows(cols - 1, self.grid.height)
        }
    }
}

/// The first rule is sound. Where no revealed neighbour of a cell holds a
/// mine and the cell has as many mines around it as neighbours that are not
/// revealed, each of these neighbours holds a mine: every flag that the rule
/// sets stands on a mine.
pub proof fn law_crowded_cells_hold_mines(g: GridView, p: (int, int))
    requires
        g.wf(),
        g.in_bounds(p),
        g.crowded(p),
        forall|q: (int, int)|
            g.in_bounds(q) && adjacent(p, q) && g.at(q).visibility == Visibility::Revealed
                ==> !g.at(q).mine,
    ensures
        forall|q: (int, int)|
            g.in_bounds(q) && adjacent(p, q) && g.at(q).visibility != Visibility::Revealed
                ==> g.at(q).mine,
        forall|q: (int, int)|
            g.in_bounds(q) && g.after_flagging(p).at(q).visibility == Visibility::Flagged && g.at(
                q,
            ).visibility != Visibility::Flagged ==> g.at(q).mine,
{
    let list = g.neighbours(p);
    lemma_counted(g, p);
    lemma_neighbours(p, g.width as int, g.height as int);
    assert forall|i: int| 0 <= i < list.len() && g.at(#[trigger] list[i]).has(
        Mark::Mine,
    ) implies g.at(list[i]).has(Mark::Unrevealed) by {}
    lemma_count_in_compare(g, list, Mark::Mine, Mark::Unrevealed);
    assert forall|q: (int, int)|
        g.in_bounds(q) && adjacent(p, q) && g.at(q).visibility
            != Visibility::Revealed implies g.at(q).mine by {
        assert(list.contains(q));
        let i = choose|i: int| 0 <= i < list.len() && list[i] == q;
        assert(g.at(list[i]).has(Mark::Unrevealed));
    }
    let paint = |q: (int, int)|
        if adjacent(p, q) && g.at(q).visibility != Visibility::Revealed {
            Visibility::Flagged
        } else {
            g.at(q).visibility
        };
    lemma_repaint(g, paint);
}

/// Where no hidden cell of the list holds a mine, uncovering the list sets
/// off no mine and leaves every mine as it was.
proof fn lemma_uncover_each_clear(g: GridView, list: Seq<(int, int)>)
    requires
        g.wf(),
        forall|i: int|
            0 <= i < list.len() ==> g.in_bounds(#[trigger] list[i]) && (g.at(list[i]).visibility
                == Visibility::Hidden ==> !g.at(list[i]).mine),
    ensures
        g.uncover_each(list).blown is None,
        g.uncover_each(list).grid.wf(),
        g.opened_into(g.uncover_each(list).grid),
        g.spared_in(g.uncover_each(list).grid),
    decreases list.len(),
{
    if list.len() > 0 {
        let front = list.drop_last();
        let p = list.last();
        assert forall|i: int| 0 <= i < front.len() implies g.in_bounds(#[trigger] front[i]) && (
        g.at(front[i]).visibility == Visibility::Hidden ==> !g.at(front[i]).mine) by {
            assert(front[i] == list[i]);
        }
        lemma_uncover_each_clear(g, front);
        assert(p == list[list.len() - 1]);
        let before = g.uncover_each(front);
        let after = before.uncover(p);
        lemma_with_visibility(before.grid, p, Visibility::Revealed);
        assert(before.grid.at(p).mine == g.at(p).mine);
        if g.at(p).mine {
            assert(before.grid.at(p).visibility == g.at(p).visibility);
        }
        assert forall|q: (int, int)| g.in_bounds(q) implies (#[trigger] after.grid.at(q)).mine
            == g.at(q).mine && after.grid.at(q).neighbour_mine_count == g.at(
            q,
        ).neighbour_mine_count && (after.grid.at(q).visibility == g.at(q).visibility
            || after.grid.at(q).visibility == Visibility::Revealed) by {
            assert(before.grid.at(q).mine == g.at(q).mine);
            if q != p {
                assert(after.grid.at(q) == before.grid.at(q));
            }
        }
        assert forall|q: (int, int)| g.in_bounds(q) && g.at(q).mine implies (
        #[trigger] after.grid.at(q)).visibility == g.at(q).visibility by {
            assert(before.grid.at(q).visibility == g.at(q).visibility);
            if q != p {
                assert(after.grid.at(q) == before.grid.at(q));
            }
        }
    }
}

/// The second rule is sound. Where every flag around a cell stands on a mine
/// and the cell has as many flags around it as mines, no other neighbour of it
/// holds a mine: the rule sets off no mine, and every cell that it reveals is
/// safe.
pub proof fn law_satisfied_cells_are_clear(g: GridView, p: (int, int))
    requires
        g.wf(),
        g.in_bounds(p),
        g.satisfied(p),
        forall|q: (int, int)|
            g.in_bounds(q) && adjacent(p, q) && g.at(q).visibility == Visibility::Flagged
                ==> g.at(q).mine,
    ensures
        forall|q: (int, int)|
            g.in_bounds(q) && adjacent(p, q) && g.at(q).visibility != Visibility::Flagged
                ==> !g.at(q).mine,
        g.after_clearing(p).blown is None,
        g.after_clearing(p).grid.wf(),
        g.opened_into(g.after_clearing(p).grid),
        g.spared_in(g.after_clearing(p).grid),
{
    let list = g.neighbours(p);
    lemma_counted(g, p);
    lemma_neighbours(p, g.width as int, g.height as int);
    assert forall|i: int| 0 <= i < list.len() && g.at(#[trigger] list[i]).has(
        Mark::Flagged,
    ) implies g.at(list[i]).has(Mark::Mine) by {}
    lemma_count_in_compare(g, list, Mark::Flagged, Mark::Mine);
    assert forall|q: (int, int)|
        g.in_bounds(q) && adjacent(p, q) && g.at(q).visibility
            != Visibility::Flagged implies !g.at(q).mine by {
        assert(list.contains(q));
        let i = choose|i: int| 0 <= i < list.len() && list[i] == q;
        if g.at(q).mine {
            assert(g.at(list[i]).has(Mark::Mine));
        }
    }
    assert forall|i: int| 0 <= i < list.len() implies g.in_bounds(#[trigger] list[i]) && (g.at(
        list[i],
    ).visibility == Visibility::Hidden ==> !g.at(list[i]).mine) by {}
    lemma_uncover_each_clear(g, list);
}

/// The mines around the cell at (`col`, `row`) that no flag accounts for.
pub fn effective_neighbour_mines(grid: &Grid, col: usize, row: usize) -> (n: i16)
    requires
        grid.wf(),
        grid@.in_bounds(cell(col, row)),
    ensures
        n == grid@.effective(cell(col, row)),
{
    let mines = grid.tile(col, row).neighbour_mine_count;
    let flags = grid.count_around(col, row, Mark::Flagged);
    mines as i16 - flags as i16
}

/// Whether the cell at (`col`, `row`) has as many flags around it as mines.
pub fn satisfied(grid: &Grid, col: usize, row: usize) -> (yes: bool)
    requires
        grid.wf(),
        grid@.in_bounds(cell(col, row)),
    ensures
        yes == grid@.satisfied(cell(col, row)),
{
    grid.tile(col, row).neighbour_mine_count == grid.count_around(col, row, Mark::Flagged)
}

impl GridView {
    /// The grid after each listed cell that is not revealed got a flag, one
    /// cell after the other.
    spec fn flagged_along(self, list: Seq<(int, int)>) -> GridView
        decreases list.len(),
    {
        if list.len() == 0 {
            self
        } else {
            let before = self.flagged_along(list.drop_last());
            if before.at(list.last()).visibility != Visibility::Revealed {
                before.with_visibility(list.last(), Visibility::Flagged)
            } else {
                before
            }
        }
    }
}

/// Flags set one cell after the other make the grid on which every listed
/// cell that was not revealed carries a flag.
proof fn lemma_flagged_along(g: GridView, list: Seq<(int, int)>)
    requires
        g.wf(),
        forall|i: int| 0 <= i < list.len() ==> g.in_bounds(#[trigger] list[i]),
    ensures
        g.flagged_along(list).wf(),
        g.flagged_along(list).width == g.width,
        g.flagged_along(list).height == g.height,
        g.flagged_along(list).mine_count == g.mine_count,
        g.flagged_along(list).populated == g.populated,
        forall|q: (int, int)|
            g.in_bounds(q) ==> #[trigger] g.flagged_along(list).at(q) == if list.contains(q)
                && g.at(q).visibility != Visibility::Revealed {
                g.at(q).seen_as(Visibility::Flagged)
            } else {
                g.at(q)
            },
    decreases list.len(),
{
    if list.len() > 0 {
        let front = list.drop_last();
        let n = list.last();
        assert(n == list[list.len() - 1]);
        assert forall|i: int| 0 <= i < front.len() implies g.in_bounds(#[trigger] front[i]) by {
            assert(front[i] == list[i]);
        }
        lemma_flagged_along(g, front);
        let before = g.flagged_along(front);
        let after = g.flagged_along(list);
        lemma_with_visibility(before, n, Visibility::Flagged);
        assert forall|q: (int, int)| g.in_bounds(q) implies #[trigger] after.at(q)
            == if list.contains(q) && g.at(q).visibility != Visibility::Revealed {
            g.at(q).seen_as(Visibility::Flagged)
        } else {
            g.at(q)
        } by {
            if front.contains(q) {
                let i = choose|i: int| 0 <= i < front.len() && front[i] == q;
                assert(list[i] == q);
            }
            if list.contains(q) && q != n {
                let i = choose|i: int| 0 <= i < list.len() && list[i] == q;
                assert(front[i] == q);
            }
            if q != n && before.at(n).visibility != Visibility::Revealed {
                assert(after.at(q) == before.at(q));
            }
        }
    }
}

/// The first rule at the cell at (`col`, `row`): where the cell has as many
/// mines around it as neighbours that are not revealed, all of these are
/// flagged. Returns whether that was the case. Where no revealed neighbour
/// holds a mine, every flag that the rule sets stands on a mine.
pub fn flag_certain_mines(grid: &mut Grid, col: usize, row: usize) -> (fired: bool)
    requires
        old(grid).wf(),
        old(grid)@.in_bounds(cell(col, row)),
    ensures
        final(grid).wf(),
        final(grid)@ == old(grid)@.after_flagging(cell(col, row)),
        fired == old(grid)@.crowded(cell(col, row)),
        (forall|q: (int, int)|
            old(grid)@.in_bounds(q) && adjacent(cell(col, row), q) && old(grid)@.at(q).visibility
                == Visibility::Revealed ==> !old(grid)@.at(q).mine) ==> forall|q: (int, int)|
            old(grid)@.in_bounds(q) && final(grid)@.at(q).visibility == Visibility::Flagged && old(
                grid,
            )@.at(q).visibility != Visibility::Flagged ==> old(grid)@.at(q).mine,
{
    let ghost g0 = grid@;
    let ghost p = cell(col, row);
    let mines = grid.tile(col, row).neighbour_mine_count;
    let unrevealed = grid.count_around(col, row, Mark::Unrevealed);
    if mines != unrevealed {
        return false;
    }
    let near = neighbours(col, row, grid.width(), grid.height());
    let ghost list = g0.neighbours(p);
    proof {
        lemma_neighbours(p, g0.width as int, g0.height as int);
    }
    let mut k: usize = 0;
    while k < near.len()
        invariant
            k <= near.len(),
            cells(near@) == list,
            forall|i: int| 0 <= i < list.len() ==> g0.in_bounds(#[trigger] list[i]),
            g0.wf(),
            grid.wf(),
            grid@ == g0.flagged_along(list.take(k as int)),
        decreases near.len() - k,
    {
        let (c, r) = near[k];
        proof {
            assert(list[k as int] == cell(c, r));
            assert(list.take(k + 1).drop_last() =~= list.take(k as int));
            lemma_flagged_along(g0, list.take(k as int));
        }
        if grid.tile(c, r).visibility != Visibility::Revealed {
            grid.set_visibility(c, r, Visibility::Flagged);
        }
        k = k + 1;
    }
    proof {
        assert(list.take(k as int) =~= list);
        lemma_flagged_along(g0, list);
        let paint = |q: (int, int)|
            if adjacent(p, q) && g0.at(q).visibility != Visibility::Revealed {
                Visibility::Flagged
            } else {
                g0.at(q).visibility
            };
        lemma_repaint(g0, paint);
        lemma_equal(grid@, g0.repaint(paint));
        if forall|q: (int, int)|
            g0.in_bounds(q) && adjacent(p, q) && g0.at(q).visibility == Visibility::Revealed
                ==> !g0.at(q).mine {
            law_crowded_cells_hold_mines(g0, p);
        }
    }
    true
}

/// Uncovers the hidden cells of the list in turn: each is revealed, without
/// a flood, and goes off if it holds a mine. Returns the first mine that
/// went off, if one did.
pub fn uncover_each(grid: &mut Grid, list: &Vec<(usize, usize)>) -> (blown: Option<(usize, usize)>)
    requires
        old(grid).wf(),
        forall|i: int| 0 <= i < list@.len() ==> old(grid)@.in_bounds(#[trigger] cells(list@)[i]),
    ensures
        final(grid).wf(),
        final(grid)@.width == old(grid)@.width,
        final(grid)@.height == old(grid)@.height,
        final(grid)@ == old(grid)@.uncover_each(cells(list@)).grid,
        old(grid)@.uncover_each(cells(list@)).reports(blown),
{
    let ghost g0 = grid@;
    let ghost all = cells(list@);
    let mut blown: Option<(usize, usize)> = None;
    let mut k: usize = 0;
    while k < list.len()
        invariant
            k <= list@.len(),
            all == cells(list@),
            grid.wf(),
            grid@.width == g0.width,
            grid@.height == g0.height,
            forall|i: int| 0 <= i < list@.len() ==> g0.in_bounds(#[trigger] all[i]),
            grid@ == g0.uncover_each(all.take(k as int)).grid,
            g0.uncover_each(all.take(k as int)).reports(blown),
        decreases list@.len() - k,
    {
        let (col, row) = list[k];
        proof {
            assert(all[k as int] == cell(col, row));
            assert(all.take(k + 1).drop_last() =~= all.take(k as int));
            lemma_with_visibility(grid@, cell(col, row), Visibility::Revealed);
        }
        let tile = grid.tile(col, row);
        if tile.visibility == Visibility::Hidden {
            grid.set_visibility(col, row, Visibility::Revealed);
            if blown.is_none() && tile.mine {
                blown = Some((col, row));
            }
        }
        k = k + 1;
    }
    proof {
        assert(all.take(k as int) =~= all);
    }
    blown
}

/// The second rule at the cell at (`col`, `row`): where the cell has as many
/// flags around it as mines, its hidden neighbours are uncovered, as
/// `uncover_each` does. Returns the first mine that went off, if one did.
/// Where every flag around the cell stands on a mine, none goes off.
pub fn clear_satisfied(grid: &mut Grid, col: usize, row: usize) -> (blown: Option<(usize, usize)>)
    requires
        old(grid).wf(),
        old(grid)@.in_bounds(cell(col, row)),
    ensures
        final(grid).wf(),
        final(grid)@.width == old(grid)@.width,
        final(grid)@.height == old(grid)@.height,
        final(grid)@ == old(grid)@.after_clearing(cell(col, row)).grid,
        old(grid)@.after_clearing(cell(col, row)).reports(blown),
        (forall|q: (int, int)|
            old(grid)@.in_bounds(q) && adjacent(cell(col, row), q) && old(grid)@.at(q).visibility
                == Visibility::Flagged ==> old(grid)@.at(q).mine) ==> blown is None && old(
            grid,
        )@.spared_in(final(grid)@),
{
    if !satisfied(grid, col, row) {
        proof {
            assert(old(grid)@.spared_in(old(grid)@));
        }
        return None;
    }
    proof {
        let g = old(grid)@;
        let p = cell(col, row);
        if forall|q: (int, int)|
            g.in_bounds(q) && adjacent(p, q) && g.at(q).visibility == Visibility::Flagged
                ==> g.at(q).mine {
            law_satisfied_cells_are_clear(g, p);
        }
    }
    let near = neighbours(col, row, grid.width(), grid.height());
    proof {
        lemma_neighbours(cell(col, row), grid@.width as int, grid@.height as int);
    }
    uncover_each(grid, &near)
}

/// Whether the cell at (`col`, `row`) is revealed and lacks `lack` mines.
fn shows(grid: &Grid, col: usize, row: usize, lack: i16) -> (yes: bool)
    requires
        grid.wf(),
        grid@.in_bounds(cell(col, row)),
    ensures
        yes == (grid@.at(cell(col, row)).visibility == Visibility::Revealed && grid@.effective(
            cell(col, row),
        ) == lack),
{
    grid.tile(col, row).visibility == Visibility::Revealed && effective_neighbour_mines(
        grid,
        col,
        row,
    ) == lack
}

/// The cells of the pattern at (`col`, `row`) on one side, where all of them
/// lie on the board: the two ends, then the first wing, the heart and the
/// second wing.
fn pattern_cells(width: usize, height: usize, col: usize, row: usize, side: Side) -> (found: Option<
    [(usize, usize); 5],
>)
    requires
        col < width,
        row < height,
    ensures
        match found {
            Some(at) => {
                &&& cell(at[0].0, at[0].1) == ends(cell(col, row), side).0
                &&& cell(at[1].0, at[1].1) == ends(cell(col, row), side).1
                &&& cell(at[2].0, at[2].1) == wings(cell(col, row), side).0
                &&& cell(at[3].0, at[3].1) == heart(cell(col, row), side)
                &&& cell(at[4].0, at[4].1) == wings(cell(col, row), side).1
                &&& forall|i: int| 0 <= i < 5 ==> (#[trigger] at[i]).0 < width && at[i].1 < height
            },
            None => !(in_bounds(ends(cell(col, row), side).0, width as int, height as int)
                && in_bounds(ends(cell(col, row), side).1, width as int, height as int)
                && in_bounds(heart(cell(col, row), side), width as int, height as int)),
        },
{
    match side {
        Side::Below => if col >= 1 && col + 1 < width && row + 1 < height {
            Some(
                [
                    (col - 1, row),
                    (col + 1, row),
                    (col - 1, row + 1),
                    (col, row + 1),
                    (col + 1, row + 1),
                ],
            )
        } else {
            None
        },
        Side::Above => if col >= 1 && col + 1 < width && row >= 1 {
            Some(
                [
                    (col - 1, row),
                    (col + 1, row),
                    (col - 1, row - 1),
                    (col, row - 1),
                    (col + 1, row - 1),
                ],
            )
        } else {
            None
        },
        Side::Left => if row >= 1 && row + 1 < height && col >= 1 {
            Some(
                [
                    (col, row - 1),
                    (col, row + 1),
                    (col - 1, row - 1),
                    (col - 1, row),
                    (col - 1, row + 1),
                ],
            )
        } else {
            None
        },
        Side::Right => if row >= 1 && row + 1 < height && col + 1 < width {
            Some(
                [
                    (col, row - 1),
                    (col, row + 1),
                    (col + 1, row - 1),
                    (col + 1, row),
                    (col + 1, row + 1),
                ],
            )
        } else {
            None
        },
    }
}

/// Flags the cells at `first` and `second`.
fn flag_wings(grid: &mut Grid, first: (usize, usize), second: (usize, usize))
    requires
        old(grid).wf(),
        old(grid)@.in_bounds(cell(first.0, first.1)),
        old(grid)@.in_bounds(cell(second.0, second.1)),
    ensures
        final(grid).wf(),
        final(grid)@.width == old(grid)@.width,
        final(grid)@.height == old(grid)@.height,
        final(grid)@ == old(grid)@.with_visibility(
            cell(first.0, first.1),
            Visibility::Flagged,
        ).with_visibility(cell(second.0, second.1), Visibility::Flagged),
{
    grid.set_visibility(first.0, first.1, Visibility::Flagged);
    proof {
        lemma_with_visibility(old(grid)@, cell(first.0, first.1), Visibility::Flagged);
    }
    grid.set_visibility(second.0, second.1, Visibility::Flagged);
    proof {
        lemma_with_visibility(
            old(grid)@.with_visibility(cell(first.0, first.1), Visibility::Flagged),
            cell(second.0, second.1),
            Visibility::Flagged,
        );
    }
}

/// Whether the two ends of the line through the cell at (`col`, `row`) show
/// the ones of the pattern.
fn line_shows(grid: &Grid, col: usize, row: usize, side: Side) -> (shown: bool)
    requires
        grid.wf(),
        grid@.in_bounds(cell(col, row)),
    ensures
        shown == grid@.line_shows(cell(col, row), side),
{
    let width = grid.width();
    let height = grid.height();
    match side {
        Side::Below | Side::Above => col >= 1 && col + 1 < width && shows(grid, col - 1, row, 1)
            && shows(grid, col + 1, row, 1),
        Side::Left | Side::Right => row >= 1 && row + 1 < height && shows(grid, col, row - 1, 1)
            && shows(grid, col, row + 1, 1),
    }
}

/// One side of the pattern at the cell at (`col`, `row`): if the three cells
/// on that side lie on the board and are hidden, the two outer ones are
/// flagged and the middle one is uncovered. Returns the middle cell if it
/// held a mine.
fn try_side(grid: &mut Grid, col: usize, row: usize, side: Side) -> (blown: Option<(usize, usize)>)
    requires
        old(grid).wf(),
        old(grid)@.in_bounds(cell(col, row)),
    ensures
        final(grid).wf(),
        final(grid)@.width == old(grid)@.width,
        final(grid)@.height == old(grid)@.height,
        final(grid)@ == (Sweep { grid: old(grid)@, blown: None }).try_side(cell(col, row), side).grid,
        (Sweep { grid: old(grid)@, blown: None }).try_side(cell(col, row), side).reports(blown),
{
    let at = match pattern_cells(grid.width(), grid.height(), col, row, side) {
        Some(at) => at,
        None => {
            return None;
        },
    };
    let hidden = grid.tile(at[2].0, at[2].1).visibility == Visibility::Hidden && grid.tile(
        at[3].0,
        at[3].1,
    ).visibility == Visibility::Hidden && grid.tile(at[4].0, at[4].1).visibility
        == Visibility::Hidden;
    if !hidden {
        return None;
    }
    flag_wings(grid, at[2], at[4]);
    proof {
        let g = old(grid)@;
        let p = cell(col, row);
        lemma_with_visibility(g, wings(p, side).0, Visibility::Flagged);
        lemma_with_visibility(
            g.with_visibility(wings(p, side).0, Visibility::Flagged),
            wings(p, side).1,
            Visibility::Flagged,
        );
        lemma_with_visibility(grid@, heart(p, side), Visibility::Revealed);
    }
    let mine = grid.tile(at[3].0, at[3].1).mine;
    grid.set_visibility(at[3].0, at[3].1, Visibility::Revealed);
    if mine {
        Some(at[3])
    } else {
        None
    }
}

/// One line of the pattern through the cell at (`col`, `row`): where the two
/// ends show the ones of the pattern, first `side` and then `other` has its
/// turn. It stops where a mine goes off, and returns that mine.
fn try_line(grid: &mut Grid, col: usize, row: usize, side: Side, other: Side) -> (blown: Option<
    (usize, usize),
>)
    requires
        old(grid).wf(),
        old(grid)@.in_bounds(cell(col, row)),
    ensures
        final(grid).wf(),
        final(grid)@.width == old(grid)@.width,
        final(grid)@.height == old(grid)@.height,
        final(grid)@ == (Sweep { grid: old(grid)@, blown: None }).try_line(
            cell(col, row),
            side,
            other,
        ).grid,
        (Sweep { grid: old(grid)@, blown: None }).try_line(cell(col, row), side, other).reports(
            blown,
        ),
{
    if !line_shows(grid, col, row, side) {
        return None;
    }
    let first = try_side(grid, col, row, side);
    if first.is_some() {
        return first;
    }
    try_side(grid, col, row, other)
}

/// Looks for the 1-2-1 pattern at the cell at (`col`, `row`). Nothing
/// happens unless the cell is revealed and lacks two mines. Then the row
/// through the cell has its turn: if the cells left and right of it are
/// revealed and lack one mine each, the three cells below are flagged at the
/// two ends and revealed in the middle if all three are hidden, and then the
/// three cells above in the same way. The column through the cell follows,
/// with the cells left of it and right of it. The numbers are looked at once
/// for the cell and once for each line; a side is taken whenever its three
/// cells are hidden at its turn. What is revealed is only uncovered. It stops
/// where a mine goes off, and returns that mine.
pub fn solve_121s(grid: &mut Grid, col: usize, row: usize) -> (blown: Option<(usize, usize)>)
    requires
        old(grid).wf(),
        old(grid)@.in_bounds(cell(col, row)),
    ensures
        final(grid).wf(),
        final(grid)@.width == old(grid)@.width,
        final(grid)@.height == old(grid)@.height,
        final(grid)@ == (Sweep { grid: old(grid)@, blown: None }).try_patterns(
            cell(col, row),
        ).grid,
        (Sweep { grid: old(grid)@, blown: None }).try_patterns(cell(col, row)).reports(blown),
{
    if !shows(grid, col, row, 2) {
        return None;
    }
    let row_line = try_line(grid, col, row, Side::Below, Side::Above);
    if row_line.is_some() {
        return row_line;
    }
    try_line(grid, col, row, Side::Left, Side::Right)
}

/// Uncovering changes nothing where none of the cells is hidden.
proof fn lemma_nothing_to_uncover(g: GridView, list: Seq<(int, int)>)
    requires
        forall|i: int|
            0 <= i < list.len() ==> g.at(#[trigger] list[i]).visibility != Visibility::Hidden,
    ensures
        g.uncover_each(list) == (Sweep { grid: g, blown: None }),
    decreases list.len(),
{
    if list.len() > 0 {
        let front = list.drop_last();
        assert forall|i: int| 0 <= i < front.len() implies g.at(#[trigger] front[i]).visibility
            != Visibility::Hidden by {
            assert(front[i] == list[i]);
        }
        lemma_nothing_to_uncover(g, front);
        assert(list.last() == list[list.len() - 1]);
    }
}

/// Where no rule has anything to do at a cell, the rules leave the grid as it is.
proof fn lemma_settled_at(g: GridView, p: (int, int))
    requires
        g.wf(),
        g.in_bounds(p),
        g.settled_at(p),
    ensures
        (Sweep { grid: g, blown: None }).solve_at(p) == (Sweep { grid: g, blown: None }),
{
    if g.at(p).visibility == Visibility::Revealed {
        let list = g.neighbours(p);
        lemma_neighbours(p, g.width as int, g.height as int);
        if g.crowded(p) || g.satisfied(p) {
            lemma_count_in_zero(g, list, Mark::Hidden);
        }
        if g.crowded(p) {
            let paint = |q: (int, int)|
                if adjacent(p, q) && g.at(q).visibility != Visibility::Revealed {
                    Visibility::Flagged
                } else {
                    g.at(q).visibility
                };
            lemma_repaint(g, paint);
            assert forall|q: (int, int)| g.in_bounds(q) implies g.repaint(paint).at(q) == g.at(
                q,
            ) by {
                if adjacent(p, q) && g.at(q).visibility != Visibility::Revealed {
                    assert(list.contains(q));
                    let i = choose|i: int| 0 <= i < list.len() && list[i] == q;
                    assert(!g.at(list[i]).has(Mark::Hidden));
                }
            }
            lemma_equal(g.repaint(paint), g);
        }
        assert(g.after_flagging(p) == g);
        if g.satisfied(p) {
            assert forall|i: int| 0 <= i < list.len() implies g.at(
                #[trigger] list[i],
            ).visibility != Visibility::Hidden by {
                assert(!g.at(list[i]).has(Mark::Hidden));
            }
            lemma_nothing_to_uncover(g, list);
        }
        let still = Sweep { grid: g, blown: None };
        assert(g.after_clearing(p) == still);
        assert(!g.lined_up(p, Side::Below));
        assert(!g.lined_up(p, Side::Above));
        assert(!g.lined_up(p, Side::Left));
        assert(!g.lined_up(p, Side::Right));
        assert(g.line_shows(p, Side::Below) == g.line_shows(p, Side::Above));
        assert(g.line_shows(p, Side::Left) == g.line_shows(p, Side::Right));
        assert(still.try_side(p, Side::Below) == still || !(g.effective(p) == 2
            && g.line_shows(p, Side::Below)));
        assert(still.try_line(p, Side::Below, Side::Above) == still || g.effective(p) != 2);
        assert(still.try_line(p, Side::Left, Side::Right) == still || g.effective(p) != 2);
    }
}

/// On a settled grid the rules leave the first cells of a column as they are.
proof fn lemma_settled_rows(g: GridView, col: int, rows: nat)
    requires
        g.wf(),
        g.settled(),
        0 <= col < g.width,
        rows <= g.height,
    ensures
        (Sweep { grid: g, blown: None }).solve_rows(col, rows) == (Sweep { grid: g, blown: None }),
    decreases rows,
{
    if rows > 0 {
        lemma_settled_rows(g, col, (rows - 1) as nat);
        assert(g.settled_at((col, rows - 1)));
        lemma_settled_at(g, (col, rows - 1));
    }
}

/// On a settled grid the rules leave the first columns as they are.
proof fn lemma_settled_columns(g: GridView, cols: nat)
    requires
        g.wf(),
        g.settled(),
        cols <= g.width,
    ensures
        (Sweep { grid: g, blown: None }).solve_columns(cols) == (Sweep { grid: g, blown: None }),
    decreases cols,
{
    if cols > 0 {
        lemma_settled_columns(g, (cols - 1) as nat);
        lemma_settled_rows(g, cols - 1, g.height);
    }
}

/// A pass of the solver changes nothing on a grid on which no rule has
/// anything to do: no revealed cell that is crowded or satisfied has a hidden
/// neighbour, and the 1-2-1 pattern stands nowhere.
pub proof fn law_settled_grid_stays(g: GridView)
    requires
        g.wf(),
        g.settled(),
    ensures
        g.after_solving() == (Sweep { grid: g, blown: None }),
{
    lemma_settled_columns(g, g.width);
}

/// The solver's rules at the cell at (`col`, `row`). Nothing happens unless
/// the cell is revealed. Then `flag_certain_mines` is applied, then
/// `clear_satisfied`, then `solve_121s`; once a mine has gone off the rest is
/// left out. Returns the first mine that went off, if one did.
pub fn solve_at(grid: &mut Grid, col: usize, row: usize) -> (blown: Option<(usize, usize)>)
    requires
        old(grid).wf(),
        old(grid)@.in_bounds(cell(col, row)),
    ensures
        final(grid).wf(),
        final(grid)@.width == old(grid)@.width,
        final(grid)@.height == old(grid)@.height,
        final(grid)@ == (Sweep { grid: old(grid)@, blown: None }).solve_at(cell(col, row)).grid,
        (Sweep { grid: old(grid)@, blown: None }).solve_at(cell(col, row)).reports(blown),
{
    if grid.tile(col, row).visibility != Visibility::Revealed {
        return None;
    }
    flag_certain_mines(grid, col, row);
    let cleared = clear_satisfied(grid, col, row);
    if cleared.is_some() {
        return cleared;
    }
    solve_121s(grid, col, row)
}

/// One pass of the solver over the whole grid: the rules are applied at every
/// cell, column by column and from the top down within a column, each on the
/// grid as the cells before it left it. The pass ends where a mine goes off,
/// and returns that mine. On a grid on which no rule has anything to do it
/// changes nothing.
pub fn solve_pass(grid: &mut Grid) -> (blown: Option<(usize, usize)>)
    requires
        old(grid).wf(),
    ensures
        final(grid).wf(),
        final(grid)@ == old(grid)@.after_solving().grid,
        old(grid)@.after_solving().reports(blown),
        old(grid)@.settled() ==> final(grid)@ == old(grid)@ && blown is None,
{
    let ghost g0 = grid@;
    let ghost start = Sweep { grid: g0, blown: None };
    let width = grid.width();
    let height = grid.height();
    let mut blown: Option<(usize, usize)> = None;
    let mut col: usize = 0;
    while col < width
        invariant
            col <= width,
            width == g0.width,
            height == g0.height,
            start == (Sweep { grid: g0, blown: None }),
            grid.wf(),
            grid@.width == width,
            grid@.height == height,
            grid@ == start.solve_columns(col as nat).grid,
            start.solve_columns(col as nat).reports(blown),
        decreases width - col,
    {
        let ghost column = start.solve_columns(col as nat);
        let mut row: usize = 0;
        while row < height
            invariant
                col < width,
                row <= height,
                width == g0.width,
                height == g0.height,
                grid.wf(),
                grid@.width == width,
                grid@.height == height,
                grid@ == column.solve_rows(col as int, row as nat).grid,
                column.solve_rows(col as int, row as nat).reports(blown),
            decreases height - row,
        {
            if blown.is_none() {
                blown = solve_at(grid, col, row);
            }
            row = row + 1;
        }
        col = col + 1;
    }
    proof {
        if g0.settled() {
            law_settled_grid_stays(g0);
        }
    }
    blown
}

/// Each step follows what went before it.
pub proof fn lemma_follows(first: Sweep, second: Sweep, third: Sweep)
    requires
        second.follows(first),
        third.follows(second),
    ensures
        third.follows(first),
{
    assert forall|p: (int, int)| first.grid.in_bounds(p) implies (#[trigger] third.grid.at(
        p,
    )).mine == first.grid.at(p).mine && third.grid.at(p).neighbour_mine_count == first.grid.at(
        p,
    ).neighbour_mine_count && (first.grid.at(p).visibility == Visibility::Revealed
        ==> third.grid.at(p).visibility == Visibility::Revealed) by {
        assert(second.grid.at(p).mine == first.grid.at(p).mine);
    }
}

/// Uncovering a cell keeps a sweep tame.
proof fn lemma_uncover_tame(sweep: Sweep, p: (int, int))
    requires
        sweep.tame(),
        sweep.grid.in_bounds(p),
    ensures
        sweep.uncover(p).tame(),
        sweep.uncover(p).follows(sweep),
{
    let g = sweep.grid;
    let next = sweep.uncover(p);
    if g.at(p).visibility == Visibility::Hidden {
        lemma_with_visibility(g, p, Visibility::Revealed);
        lemma_same_ground(g, next.grid);
        assert forall|q: (int, int)| g.in_bounds(q) implies (#[trigger] next.grid.at(q)).mine
            == g.at(q).mine && next.grid.at(q).neighbour_mine_count == g.at(
            q,
        ).neighbour_mine_count && (g.at(q).visibility == Visibility::Revealed ==> next.grid.at(
            q,
        ).visibility == Visibility::Revealed) by {
            if q != p {
                assert(next.grid.at(q) == g.at(q));
            }
        }
        if next.blown is None {
            assert forall|q: (int, int)|
                next.grid.in_bounds(q) && (#[trigger] next.grid.at(q)).visibility
                    == Visibility::Revealed implies !next.grid.at(q).mine by {
                if q != p {
                    assert(next.grid.at(q) == g.at(q));
                }
            }
        }
    }
}

/// Uncovering a list of cells keeps a sweep tame.
proof fn lemma_uncover_each_tame(g: GridView, list: Seq<(int, int)>)
    requires
        g.wf(),
        g.safe(),
        forall|i: int| 0 <= i < list.len() ==> g.in_bounds(#[trigger] list[i]),
    ensures
        g.uncover_each(list).tame(),
        g.uncover_each(list).follows(Sweep { grid: g, blown: None }),
    decreases list.len(),
{
    if list.len() > 0 {
        let front = list.drop_last();
        assert forall|i: int| 0 <= i < front.len() implies g.in_bounds(#[trigger] front[i]) by {
            assert(front[i] == list[i]);
        }
        lemma_uncover_each_tame(g, front);
        assert(list.last() == list[list.len() - 1]);
        let before = g.uncover_each(front);
        lemma_uncover_tame(before, list.last());
        lemma_follows(Sweep { grid: g, blown: None }, before, before.uncover(list.last()));
    }
}

/// Setting flags on cells that are not revealed keeps a sweep tame.
proof fn lemma_flags_tame(sweep: Sweep, after: GridView)
    requires
        sweep.tame(),
        after.wf(),
        after.width == sweep.grid.width,
        after.height == sweep.grid.height,
        after.mine_count == sweep.grid.mine_count,
        after.populated == sweep.grid.populated,
        forall|p: (int, int)|
            sweep.grid.in_bounds(p) ==> (#[trigger] after.at(p)).mine == sweep.grid.at(p).mine
                && after.at(p).neighbour_mine_count == sweep.grid.at(p).neighbour_mine_count && (
            after.at(p).visibility == sweep.grid.at(p).visibility || (after.at(p).visibility
                == Visibility::Flagged && sweep.grid.at(p).visibility != Visibility::Revealed)),
    ensures
        (Sweep { grid: after, blown: sweep.blown }).tame(),
        (Sweep { grid: after, blown: sweep.blown }).follows(sweep),
{
    match sweep.blown {
        Some(m) => {
            assert(after.at(m).mine == sweep.grid.at(m).mine);
        },
        None => {
            assert forall|p: (int, int)|
                after.in_bounds(p) && (#[trigger] after.at(p)).visibility
                    == Visibility::Revealed implies !after.at(p).mine by {
                assert(sweep.grid.at(p).visibility == Visibility::Revealed);
            }
        },
    }
}

/// The turn of one side of the pattern keeps a sweep tame.
proof fn lemma_side_tame(sweep: Sweep, p: (int, int), side: Side)
    requires
        sweep.tame(),
    ensures
        sweep.try_side(p, side).tame(),
        sweep.try_side(p, side).follows(sweep),
{
    let g = sweep.grid;
    if sweep.blown is None && g.side_hidden(p, side) {
        let one = g.with_visibility(wings(p, side).0, Visibility::Flagged);
        lemma_with_visibility(g, wings(p, side).0, Visibility::Flagged);
        lemma_same_ground(g, one);
        let two = one.with_visibility(wings(p, side).1, Visibility::Flagged);
        lemma_with_visibility(one, wings(p, side).1, Visibility::Flagged);
        lemma_same_ground(one, two);
        assert forall|q: (int, int)| g.in_bounds(q) implies (#[trigger] two.at(q)).mine == g.at(
            q,
        ).mine && two.at(q).neighbour_mine_count == g.at(q).neighbour_mine_count && (two.at(
            q,
        ).visibility == g.at(q).visibility || (two.at(q).visibility == Visibility::Flagged
            && g.at(q).visibility != Visibility::Revealed)) by {
            assert(one.at(q).mine == g.at(q).mine);
            if q != wings(p, side).1 {
                assert(two.at(q) == one.at(q));
            }
            if q != wings(p, side).0 {
                assert(one.at(q) == g.at(q));
            }
        }
        lemma_flags_tame(sweep, two);
        let flagged = Sweep { grid: two, blown: None };
        lemma_uncover_tame(flagged, heart(p, side));
        lemma_follows(sweep, flagged, flagged.uncover(heart(p, side)));
    }
}

/// The turn of one line of the pattern keeps a sweep tame.
proof fn lemma_line_tame(sweep: Sweep, p: (int, int), side: Side, other: Side)
    requires
        sweep.tame(),
    ensures
        sweep.try_line(p, side, other).tame(),
        sweep.try_line(p, side, other).follows(sweep),
{
    if sweep.blown is None && sweep.grid.line_shows(p, side) {
        let first = sweep.try_side(p, side);
        lemma_side_tame(sweep, p, side);
        lemma_side_tame(first, p, other);
        lemma_follows(sweep, first, first.try_side(p, other));
    }
}

/// The rules at one cell keep a sweep tame.
proof fn lemma_solve_at_tame(sweep: Sweep, p: (int, int))
    requires
        sweep.tame(),
        sweep.grid.in_bounds(p),
    ensures
        sweep.solve_at(p).tame(),
        sweep.solve_at(p).follows(sweep),
{
    let g = sweep.grid;
    if sweep.blown is None && g.at(p).visibility == Visibility::Revealed {
        let flagged = g.after_flagging(p);
        if g.crowded(p) {
            let paint = |q: (int, int)|
                if adjacent(p, q) && g.at(q).visibility != Visibility::Revealed {
                    Visibility::Flagged
                } else {
                    g.at(q).visibility
                };
            lemma_repaint(g, paint);
        }
        lemma_flags_tame(sweep, flagged);
        let first = Sweep { grid: flagged, blown: None };
        lemma_neighbours(p, g.width as int, g.height as int);
        if flagged.satisfied(p) {
            lemma_uncover_each_tame(flagged, flagged.neighbours(p));
        }
        let second = flagged.after_clearing(p);
        lemma_follows(sweep, first, second);
        if second.blown is None && second.grid.at(p).visibility == Visibility::Revealed
            && second.grid.effective(p) == 2 {
            let third = second.try_line(p, Side::Below, Side::Above);
            lemma_line_tame(second, p, Side::Below, Side::Above);
            lemma_follows(sweep, second, third);
            lemma_line_tame(third, p, Side::Left, Side::Right);
            lemma_follows(sweep, third, third.try_line(p, Side::Left, Side::Right));
        }
    }
}

/// The rules at the first cells of a column keep a sweep tame.
proof fn lemma_solve_rows_tame(sweep: Sweep, col: int, rows: nat)
    requires
        sweep.tame(),
        0 <= col < sweep.grid.width,
        rows <= sweep.grid.height,
    ensures
        sweep.solve_rows(col, rows).tame(),
        sweep.solve_rows(col, rows).follows(sweep),
    decreases rows,
{
    if rows > 0 {
        let before = sweep.solve_rows(col, (rows - 1) as nat);
        lemma_solve_rows_tame(sweep, col, (rows - 1) as nat);
        lemma_solve_at_tame(before, (col, rows - 1));
        lemma_follows(sweep, before, before.solve_at((col, rows - 1)));
    }
}

/// The rules at the first columns keep a sweep tame.
proof fn lemma_solve_columns_tame(sweep: Sweep, cols: nat)
    requires
        sweep.tame(),
        cols <= sweep.grid.width,
    ensures
        sweep.solve_columns(cols).tame(),
        sweep.solve_columns(cols).follows(sweep),
    decreases cols,
{
    if cols > 0 {
        let before = sweep.solve_columns((cols - 1) as nat);
        lemma_solve_columns_tame(sweep, (cols - 1) as nat);
        lemma_solve_rows_tame(before, cols - 1, sweep.grid.height);
        lemma_follows(sweep, before, before.solve_rows(cols - 1, sweep.grid.height));
    }
}

/// A pass of the solver during play leaves a tame sweep: no mine is
/// revealed unless one went off, and the mine that went off is a revealed
/// mine.
pub proof fn lemma_solving_tame(g: GridView)
    requires
        g.wf(),
        g.safe(),
    ensures
        g.after_solving().tame(),
        g.after_solving().follows(Sweep { grid: g, blown: None }),
{
    lemma_solve_columns_tame(Sweep { grid: g, blown: None }, g.width);
}

impl GridView {
    /// Whether `later` is this grid after the solver worked on it: on the
    /// same board, with every cell seen as before unless it was hidden.
    pub open spec fn worked_into(self, later: GridView) -> bool {
        &&& later.shaped()
        &&& later.width == self.width
        &&& later.height == self.height
        &&& forall|p: (int, int)|
            self.in_bounds(p) ==> (#[trigger] later.at(p)).visibility == self.at(p).visibility
                || self.at(p).visibility == Visibility::Hidden
    }
}

/// The solver's work goes on over two steps.
proof fn lemma_worked_on(a: GridView, b: GridView, c: GridView)
    requires
        a.worked_into(b),
        b.worked_into(c),
    ensures
        a.worked_into(c),
{
    assert forall|p: (int, int)| a.in_bounds(p) implies (#[trigger] c.at(p)).visibility == a.at(
        p,
    ).visibility || a.at(p).visibility == Visibility::Hidden by {
        assert(b.at(p).visibility == a.at(p).visibility || a.at(p).visibility
            == Visibility::Hidden);
    }
}

/// Seeing a hidden cell differently is work of the solver.
proof fn lemma_hidden_worked(g: GridView, p: (int, int), visibility: Visibility)
    requires
        g.shaped(),
        g.in_bounds(p),
        g.at(p).visibility == Visibility::Hidden,
    ensures
        g.worked_into(g.with_visibility(p, visibility)),
{
    lemma_with_visibility(g, p, visibility);
    let after = g.with_visibility(p, visibility);
    assert forall|q: (int, int)| g.in_bounds(q) implies (#[trigger] after.at(q)).visibility
        == g.at(q).visibility || g.at(q).visibility == Visibility::Hidden by {
        if q != p {
            assert(after.at(q) == g.at(q));
        }
    }
}

/// Uncovering a list of cells changes hidden cells only.
proof fn lemma_uncover_each_works(g: GridView, list: Seq<(int, int)>)
    requires
        g.shaped(),
        forall|i: int| 0 <= i < list.len() ==> g.in_bounds(#[trigger] list[i]),
    ensures
        g.worked_into(g.uncover_each(list).grid),
    decreases list.len(),
{
    if list.len() > 0 {
        let front = list.drop_last();
        assert forall|i: int| 0 <= i < front.len() implies g.in_bounds(#[trigger] front[i]) by {
            assert(front[i] == list[i]);
        }
        lemma_uncover_each_works(g, front);
        let p = list.last();
        assert(p == list[list.len() - 1]);
        let before = g.uncover_each(front).grid;
        if before.at(p).visibility == Visibility::Hidden {
            lemma_hidden_worked(before, p, Visibility::Revealed);
            lemma_worked_on(g, before, before.with_visibility(p, Visibility::Revealed));
        }
    }
}

/// One side of the pattern changes hidden cells only.
proof fn lemma_side_works(sweep: Sweep, p: (int, int), side: Side)
    requires
        sweep.grid.shaped(),
    ensures
        sweep.grid.worked_into(sweep.try_side(p, side).grid),
{
    let g = sweep.grid;
    if sweep.blown is None && g.side_hidden(p, side) {
        let one = g.with_visibility(wings(p, side).0, Visibility::Flagged);
        lemma_hidden_worked(g, wings(p, side).0, Visibility::Flagged);
        lemma_with_visibility(g, wings(p, side).0, Visibility::Flagged);
        let two = one.with_visibility(wings(p, side).1, Visibility::Flagged);
        lemma_hidden_worked(one, wings(p, side).1, Visibility::Flagged);
        lemma_with_visibility(one, wings(p, side).1, Visibility::Flagged);
        lemma_worked_on(g, one, two);
        lemma_hidden_worked(two, heart(p, side), Visibility::Revealed);
        lemma_worked_on(g, two, two.with_visibility(heart(p, side), Visibility::Revealed));
    }
}

/// The rules at one cell change hidden cells only.
proof fn lemma_solve_at_works(sweep: Sweep, p: (int, int))
    requires
        sweep.grid.shaped(),
        sweep.grid.in_bounds(p),
    ensures
        sweep.grid.worked_into(sweep.solve_at(p).grid),
{
    let g = sweep.grid;
    if sweep.blown is None && g.at(p).visibility == Visibility::Revealed {
        let flagged = g.after_flagging(p);
        if g.crowded(p) {
            let paint = |q: (int, int)|
                if adjacent(p, q) && g.at(q).visibility != Visibility::Revealed {
                    Visibility::Flagged
                } else {
                    g.at(q).visibility
                };
            lemma_repaint(g, paint);
        }
        assert(g.worked_into(flagged));
        lemma_neighbours(p, g.width as int, g.height as int);
        if flagged.satisfied(p) {
            lemma_uncover_each_works(flagged, flagged.neighbours(p));
        }
        let second = flagged.after_clearing(p);
        lemma_worked_on(g, flagged, second.grid);
        if second.blown is None && second.grid.at(p).visibility == Visibility::Revealed
            && second.grid.effective(p) == 2 {
            let mut now = second;
            if second.grid.line_shows(p, Side::Below) {
                let a = second.try_side(p, Side::Below);
                lemma_side_works(second, p, Side::Below);
                lemma_side_works(a, p, Side::Above);
                lemma_worked_on(second.grid, a.grid, a.try_side(p, Side::Above).grid);
                now = a.try_side(p, Side::Above);
            }
            assert(now == second.try_line(p, Side::Below, Side::Above));
            lemma_worked_on(g, second.grid, now.grid);
            if now.blown is None && now.grid.line_shows(p, Side::Left) {
                let b = now.try_side(p, Side::Left);
                lemma_side_works(now, p, Side::Left);
                lemma_side_works(b, p, Side::Right);
                lemma_worked_on(now.grid, b.grid, b.try_side(p, Side::Right).grid);
                lemma_worked_on(g, now.grid, b.try_side(p, Side::Right).grid);
            }
        }
    }
}

/// The rules at the first cells of a column change hidden cells only.
proof fn lemma_solve_rows_works(sweep: Sweep, col: int, rows: nat)
    requires
        sweep.grid.shaped(),
        0 <= col < sweep.grid.width,
        rows <= sweep.grid.height,
    ensures
        sweep.grid.worked_into(sweep.solve_rows(col, rows).grid),
    decreases rows,
{
    if rows > 0 {
        let before = sweep.solve_rows(col, (rows - 1) as nat);
        lemma_solve_rows_works(sweep, col, (rows - 1) as nat);
        lemma_solve_at_works(before, (col, rows - 1));
        lemma_worked_on(sweep.grid, before.grid, before.solve_at((col, rows - 1)).grid);
    }
}

/// The rules at the first columns change hidden cells only.
proof fn lemma_solve_columns_works(sweep: Sweep, cols: nat)
    requires
        sweep.grid.shaped(),
        cols <= sweep.grid.width,
    ensures
        sweep.grid.worked_into(sweep.solve_columns(cols).grid),
    decreases cols,
{
    if cols > 0 {
        let before = sweep.solve_columns((cols - 1) as nat);
        lemma_solve_columns_works(sweep, (cols - 1) as nat);
        lemma_solve_rows_works(before, cols - 1, sweep.grid.height);
        lemma_worked_on(
            sweep.grid,
            before.grid,
            before.solve_rows(cols - 1, sweep.grid.height).grid,
        );
    }
}

/// A pass of the solver changes hidden cells only: it takes no flag away
/// and hides nothing. So the flags that it sets are those by which the
/// number of flags on the grid rises, and the cells that are not revealed
/// grow no more.
pub proof fn law_pass_works_on_hidden_cells(g: GridView)
    requires
        g.wf(),
    ensures
        g.worked_into(g.after_solving().grid),
        g.total(Mark::Flagged) <= g.after_solving().grid.total(Mark::Flagged),
        g.after_solving().grid.total(Mark::Hidden) <= g.total(Mark::Hidden),
        g.after_solving().grid.total(Mark::Unrevealed) <= g.total(Mark::Unrevealed),
{
    lemma_solve_columns_works(Sweep { grid: g, blown: None }, g.width);
    let after = g.after_solving().grid;
    lemma_total_le(g, after, Mark::Flagged);
    lemma_total_le(after, g, Mark::Hidden);
    lemma_total_le(after, g, Mark::Unrevealed);
}

impl GridView {
    /// Whether every flag stands on a mine.
    pub open spec fn flags_true(self) -> bool {
        forall|p: (int, int)|
            self.in_bounds(p) && (#[trigger] self.at(p)).visibility == Visibility::Flagged
                ==> self.at(p).mine
    }

    /// Whether the pattern changes nothing anywhere in a pass of the solver
    /// over this grid.
    pub open spec fn patterns_rest(self) -> bool {
        (Sweep { grid: self, blown: None }).patterns_rest_columns(self.width)
    }
}

impl Sweep {
    /// Whether no mine went off, no mine is revealed and every flag stands
    /// on a mine.
    pub open spec fn honest(self) -> bool {
        &&& self.grid.wf()
        &&& self.blown is None
        &&& self.grid.safe()
        &&& self.grid.flags_true()
    }

    /// Whether the pattern changes nothing at `p` when the rules are applied
    /// there: after the two counting rules the look for the pattern leaves
    /// the sweep as it is.
    pub open spec fn pattern_rests_at(self, p: (int, int)) -> bool {
        self.blown is None && self.grid.at(p).visibility == Visibility::Revealed
            ==> self.grid.after_flagging(p).after_clearing(p).try_patterns(p)
            == self.grid.after_flagging(p).after_clearing(p)
    }

    /// Whether the pattern changes nothing at the first `rows` cells of a
    /// column, each at its turn.
    pub open spec fn patterns_rest_rows(self, col: int, rows: nat) -> bool
        decreases rows,
    {
        rows > 0 ==> self.patterns_rest_rows(col, (rows - 1) as nat) && self.solve_rows(
            col,
            (rows - 1) as nat,
        ).pattern_rests_at((col, rows - 1))
    }

    /// Whether the pattern changes nothing in the first `cols` columns, each
    /// at its turn.
    pub open spec fn patterns_rest_columns(self, cols: nat) -> bool
        decreases cols,
    {
        cols > 0 ==> self.patterns_rest_columns((cols - 1) as nat) && self.solve_columns(
            (cols - 1) as nat,
        ).patterns_rest_rows(cols - 1, self.grid.height)
    }
}

/// The two counting rules at one cell keep an honest sweep honest where the
/// pattern changes nothing.
proof fn lemma_honest_at(sweep: Sweep, p: (int, int))
    requires
        sweep.honest(),
        sweep.grid.in_bounds(p),
        sweep.pattern_rests_at(p),
    ensures
        sweep.solve_at(p).honest(),
        sweep.solve_at(p).grid.width == sweep.grid.width,
        sweep.solve_at(p).grid.height == sweep.grid.height,
{
    let g = sweep.grid;
    if g.at(p).visibility == Visibility::Revealed {
        let flagged = g.after_flagging(p);
        if g.crowded(p) {
            let paint = |q: (int, int)|
                if adjacent(p, q) && g.at(q).visibility != Visibility::Revealed {
                    Visibility::Flagged
                } else {
                    g.at(q).visibility
                };
            lemma_repaint(g, paint);
            law_crowded_cells_hold_mines(g, p);
            assert forall|q: (int, int)|
                flagged.in_bounds(q) && (#[trigger] flagged.at(q)).visibility
                    == Visibility::Flagged implies flagged.at(q).mine by {
                if g.at(q).visibility != Visibility::Flagged {
                    assert(g.after_flagging(p).at(q).visibility == Visibility::Flagged);
                }
            }
            assert forall|q: (int, int)|
                flagged.in_bounds(q) && (#[trigger] flagged.at(q)).visibility
                    == Visibility::Revealed implies !flagged.at(q).mine by {
                assert(g.at(q).visibility == Visibility::Revealed);
            }
        }
        let second = flagged.after_clearing(p);
        if flagged.satisfied(p) {
            law_satisfied_cells_are_clear(flagged, p);
            assert forall|q: (int, int)|
                second.grid.in_bounds(q) && (#[trigger] second.grid.at(q)).visibility
                    == Visibility::Flagged implies second.grid.at(q).mine by {
                assert(flagged.at(q).visibility == Visibility::Flagged);
            }
            assert forall|q: (int, int)|
                second.grid.in_bounds(q) && (#[trigger] second.grid.at(q)).visibility
                    == Visibility::Revealed implies !second.grid.at(q).mine by {
                if flagged.at(q).mine {
                    assert(second.grid.at(q).visibility == flagged.at(q).visibility);
                }
            }
        }
    }
}

/// The rules at the first cells of a column keep an honest sweep honest
/// where the pattern changes nothing.
proof fn lemma_honest_rows(sweep: Sweep, col: int, rows: nat)
    requires
        sweep.honest(),
        0 <= col < sweep.grid.width,
        rows <= sweep.grid.height,
        sweep.patterns_rest_rows(col, rows),
    ensures
        sweep.solve_rows(col, rows).honest(),
        sweep.solve_rows(col, rows).grid.width == sweep.grid.width,
        sweep.solve_rows(col, rows).grid.height == sweep.grid.height,
    decreases rows,
{
    if rows > 0 {
        lemma_honest_rows(sweep, col, (rows - 1) as nat);
        lemma_honest_at(sweep.solve_rows(col, (rows - 1) as nat), (col, rows - 1));
    }
}

/// The rules at the first columns keep an honest sweep honest where the
/// pattern changes nothing.
proof fn lemma_honest_columns(sweep: Sweep, cols: nat)
    requires
        sweep.honest(),
        cols <= sweep.grid.width,
        sweep.patterns_rest_columns(cols),
    ensures
        sweep.solve_columns(cols).honest(),
        sweep.solve_columns(cols).grid.width == sweep.grid.width,
        sweep.solve_columns(cols).grid.height == sweep.grid.height,
    decreases cols,
{
    if cols > 0 {
        lemma_honest_columns(sweep, (cols - 1) as nat);
        lemma_honest_rows(
            sweep.solve_columns((cols - 1) as nat),
            cols - 1,
            sweep.grid.height,
        );
    }
}

/// A pass of the solver is sound as far as the two counting rules go. On a
/// grid on which no mine is revealed and every flag stands on a mine, a
/// pass in which the pattern changes nothing sets off no mine, reveals no
/// mine, and leaves every flag on a mine.
pub proof fn law_pass_without_patterns_is_sound(g: GridView)
    requires
        g.wf(),
        g.safe(),
        g.flags_true(),
        g.patterns_rest(),
    ensures
        g.after_solving().blown is None,
        g.after_solving().grid.safe(),
        g.after_solving().grid.flags_true(),
{
    lemma_honest_columns(Sweep { grid: g, blown: None }, g.width);
}

} // verus!
