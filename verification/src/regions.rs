//! The shape of what is revealed: whole regions of cells without mines
//! around them, each with its border of numbered cells; and the round of
//! floods that makes the regions whole again after cells were uncovered
//! without a flood.

use crate::grid::{lemma_cell_at, lemma_count_in_zero, lemma_counted, lemma_index, lemma_repaint,
    lemma_with_visibility, Grid, GridView};
use crate::neighbourhood::{adjacent, cell, lemma_neighbours};
use crate::reveal_engine::{flood, law_flood_spares_mines, lemma_flood_goes_on, lemma_reveal_opens};
use crate::tile::{Mark, Visibility};
use vstd::prelude::*;

verus! {

impl GridView {
    /// Whether the cell is an open cell of a region: revealed, without a mine
    /// and without a mine around it.
    pub open spec fn blank_at(self, z: (int, int)) -> bool {
        &&& self.in_bounds(z)
        &&& self.at(z).visibility == Visibility::Revealed
        &&& !self.at(z).mine
        &&& self.at(z).neighbour_mine_count == 0
    }

    /// Whether every neighbour of the cell is revealed.
    pub open spec fn ringed(self, z: (int, int)) -> bool {
        forall|q: (int, int)|
            self.in_bounds(q) && adjacent(z, q) ==> (#[trigger] self.at(q)).visibility
                == Visibility::Revealed
    }

    /// Whether the revealed regions are whole: every open cell has all its
    /// neighbours revealed.
    pub open spec fn regions_whole(self) -> bool {
        forall|z: (int, int)| #[trigger] self.blank_at(z) ==> self.ringed(z)
    }

    /// Whether the cell lies next to an open cell.
    pub open spec fn backed(self, q: (int, int)) -> bool {
        exists|z: (int, int)| adjacent(z, q) && #[trigger] self.blank_at(z)
    }

    /// Whether every revealed numbered cell without a mine is one of the
    /// targets or lies next to an open cell.
    pub open spec fn justified(self, targets: Set<(int, int)>) -> bool {
        forall|q: (int, int)|
            self.in_bounds(q) && (#[trigger] self.at(q)).visibility == Visibility::Revealed
                && !self.at(q).mine && self.at(q).neighbour_mine_count > 0 ==> targets.contains(q)
                || self.backed(q)
    }
}

/// A cell without a mine around it has no mined neighbour.
pub proof fn lemma_no_mine_around(g: GridView, z: (int, int))
    requires
        g.wf(),
        g.in_bounds(z),
        g.at(z).neighbour_mine_count == 0,
    ensures
        forall|q: (int, int)| g.in_bounds(q) && adjacent(z, q) ==> !(#[trigger] g.at(q)).mine,
{
    let list = g.neighbours(z);
    lemma_counted(g, z);
    lemma_neighbours(z, g.width as int, g.height as int);
    lemma_count_in_zero(g, list, Mark::Mine);
    assert forall|q: (int, int)| g.in_bounds(q) && adjacent(z, q) implies !(#[trigger] g.at(
        q,
    )).mine by {
        assert(list.contains(q));
        let i = choose|i: int| 0 <= i < list.len() && list[i] == q;
        assert(!g.at(list[i]).has(Mark::Mine));
    }
}

/// What a flood does to each cell.
proof fn lemma_flood_paints(g: GridView, s: (int, int))
    requires
        g.wf(),
    ensures
        g.after_flood(s).wf(),
        g.after_flood(s).width == g.width,
        g.after_flood(s).height == g.height,
        forall|q: (int, int)|
            g.in_bounds(q) ==> #[trigger] g.after_flood(s).at(q) == g.at(q).seen_as(
                if g.flood_opens(s, q) {
                    Visibility::Revealed
                } else {
                    g.at(q).visibility
                },
            ),
{
    let paint = |q: (int, int)|
        if g.flood_opens(s, q) {
            Visibility::Revealed
        } else {
            g.at(q).visibility
        };
    lemma_repaint(g, paint);
}

/// A flood from an open cell reveals all neighbours of every cell that it
/// arrives at.
proof fn lemma_flood_rings(g: GridView, s: (int, int), z: (int, int))
    requires
        g.wf(),
        g.in_bounds(z),
        !g.at(z).mine,
        g.at(z).neighbour_mine_count == 0,
        g.flood_reaches(s, z),
    ensures
        g.after_flood(s).ringed(z),
{
    lemma_flood_paints(g, s);
    lemma_no_mine_around(g, z);
    assert forall|q: (int, int)| g.in_bounds(q) && adjacent(z, q) implies (
    #[trigger] g.after_flood(s).at(q)).visibility == Visibility::Revealed by {
        assert(g.flood_opens(s, q));
    }
}

/// A flood from an open cell leaves the regions whole if they were whole but
/// for the start.
pub proof fn law_flood_completes_regions(g: GridView, s: (int, int))
    requires
        g.wf(),
        g.blank_at(s),
        forall|z: (int, int)| #[trigger] g.blank_at(z) && z != s ==> g.ringed(z),
    ensures
        g.after_flood(s).regions_whole(),
{
    let r = g.after_flood(s);
    lemma_flood_paints(g, s);
    assert forall|z: (int, int)| #[trigger] r.blank_at(z) implies r.ringed(z) by {
        if g.at(z).visibility == Visibility::Revealed && z != s {
            assert(g.blank_at(z));
            assert forall|q: (int, int)| r.in_bounds(q) && adjacent(z, q) implies (
            #[trigger] r.at(q)).visibility == Visibility::Revealed by {
                assert(g.at(q).visibility == Visibility::Revealed);
            }
        } else if z == s {
            let walk = seq![s];
            assert(g.flood_walk(s, walk));
            assert(walk.last() == s);
            lemma_flood_rings(g, s, s);
        } else {
            assert(g.flood_opens(s, z));
            let from = choose|from: (int, int)| #[trigger]
                g.flood_reaches(s, from) && adjacent(from, z);
            lemma_flood_goes_on(g, s, from, z);
            lemma_flood_rings(g, s, z);
        }
    }
}

/// Revealing a cell leaves the regions whole.
pub proof fn law_reveal_keeps_regions_whole(g: GridView, p: (int, int))
    requires
        g.wf(),
        g.in_bounds(p),
        g.regions_whole(),
    ensures
        g.after_reveal(p).regions_whole(),
{
    let seen = g.with_visibility(p, Visibility::Revealed);
    lemma_with_visibility(g, p, Visibility::Revealed);
    assert forall|z: (int, int)| #[trigger] seen.blank_at(z) && z != p implies seen.ringed(z) by {
        assert(seen.at(z) == g.at(z));
        assert(g.blank_at(z));
        assert forall|q: (int, int)| seen.in_bounds(q) && adjacent(z, q) implies (
        #[trigger] seen.at(q)).visibility == Visibility::Revealed by {
            assert(g.at(q).visibility == Visibility::Revealed);
            if q != p {
                assert(seen.at(q) == g.at(q));
            }
        }
    }
    if !g.at(p).mine && g.at(p).neighbour_mine_count == 0 {
        law_flood_completes_regions(seen, p);
    }
}

/// Changing cells that are not revealed, and keeping them so, leaves the
/// regions whole.
pub proof fn lemma_cover_keeps_regions_whole(g: GridView, after: GridView)
    requires
        g.regions_whole(),
        after.width == g.width,
        after.height == g.height,
        forall|q: (int, int)|
            g.in_bounds(q) ==> (#[trigger] after.at(q)).mine == g.at(q).mine && after.at(
                q,
            ).neighbour_mine_count == g.at(q).neighbour_mine_count && (after.at(q).visibility
                == Visibility::Revealed <==> g.at(q).visibility == Visibility::Revealed),
    ensures
        after.regions_whole(),
{
    assert forall|z: (int, int)| #[trigger] after.blank_at(z) implies after.ringed(z) by {
        assert(g.blank_at(z));
        assert forall|q: (int, int)| after.in_bounds(q) && adjacent(z, q) implies (
        #[trigger] after.at(q)).visibility == Visibility::Revealed by {
            assert(g.at(q).visibility == Visibility::Revealed);
        }
    }
}

/// A cell that a flood from an open cell arrives at is open afterwards.
proof fn lemma_flood_opens_its_way(g: GridView, s: (int, int), p: (int, int))
    requires
        g.wf(),
        g.blank_at(s),
        g.flood_reaches(s, p),
    ensures
        g.after_flood(s).blank_at(p),
{
    lemma_flood_paints(g, s);
    let walk = choose|walk: Seq<(int, int)>| #[trigger] g.flood_walk(s, walk) && walk.last() == p;
    if walk.len() > 1 {
        let front = walk.drop_last();
        assert forall|i: int| 1 <= i < front.len() implies adjacent(
            front[i - 1],
            #[trigger] front[i],
        ) && g.spreads(front[i]) by {
            assert(front[i] == walk[i]);
            assert(front[i - 1] == walk[i - 1]);
        }
        assert(g.flood_walk(s, front));
        let from = front.last();
        assert(from == walk[walk.len() - 2]);
        assert(adjacent(walk[walk.len() - 1 - 1], walk[walk.len() - 1]) && g.spreads(
            walk[walk.len() - 1],
        ));
        assert(g.flood_reaches(s, from));
        assert(g.flood_opens(s, p));
    }
}

/// After a flood from an open cell every revealed numbered cell is still a
/// target or lies next to an open cell.
pub proof fn law_flood_justified(g: GridView, s: (int, int), targets: Set<(int, int)>)
    requires
        g.wf(),
        g.blank_at(s),
        g.justified(targets),
    ensures
        g.after_flood(s).justified(targets),
{
    let r = g.after_flood(s);
    lemma_flood_paints(g, s);
    assert forall|q: (int, int)|
        r.in_bounds(q) && (#[trigger] r.at(q)).visibility == Visibility::Revealed && !r.at(q).mine
            && r.at(q).neighbour_mine_count > 0 implies targets.contains(q) || r.backed(q) by {
        if g.at(q).visibility == Visibility::Revealed {
            if !targets.contains(q) {
                assert(g.backed(q));
                let z = choose|z: (int, int)| adjacent(z, q) && #[trigger] g.blank_at(z);
                assert(r.blank_at(z));
            }
        } else {
            assert(g.flood_opens(s, q));
            let from = choose|from: (int, int)| #[trigger]
                g.flood_reaches(s, from) && adjacent(from, q);
            lemma_flood_opens_its_way(g, s, from);
            assert(r.blank_at(from));
        }
    }
}

/// After a cell is seen, without a flood, every revealed numbered cell is a
/// target, the cell, or lies next to an open cell.
proof fn lemma_seen_justified(g: GridView, p: (int, int), targets: Set<(int, int)>)
    requires
        g.wf(),
        g.in_bounds(p),
        g.justified(targets),
    ensures
        g.with_visibility(p, Visibility::Revealed).justified(targets.insert(p)),
{
    let seen = g.with_visibility(p, Visibility::Revealed);
    lemma_with_visibility(g, p, Visibility::Revealed);
    assert forall|q: (int, int)|
        seen.in_bounds(q) && (#[trigger] seen.at(q)).visibility == Visibility::Revealed
            && !seen.at(q).mine && seen.at(q).neighbour_mine_count > 0 implies targets.insert(
        p,
    ).contains(q) || seen.backed(q) by {
        if q != p {
            assert(seen.at(q) == g.at(q));
            if !targets.contains(q) {
                assert(g.backed(q));
                let z = choose|z: (int, int)| adjacent(z, q) && #[trigger] g.blank_at(z);
                if z != p {
                    assert(seen.at(z) == g.at(z));
                }
                assert(seen.blank_at(z));
            }
        }
    }
}

/// After a reveal every revealed numbered cell is a target, the cell that
/// was revealed, or lies next to an open cell.
pub proof fn law_reveal_justified(g: GridView, p: (int, int), targets: Set<(int, int)>)
    requires
        g.wf(),
        g.in_bounds(p),
        g.justified(targets),
    ensures
        g.after_reveal(p).justified(targets.insert(p)),
{
    lemma_seen_justified(g, p, targets);
    lemma_with_visibility(g, p, Visibility::Revealed);
    if !g.at(p).mine && g.at(p).neighbour_mine_count == 0 {
        law_flood_justified(g.with_visibility(p, Visibility::Revealed), p, targets.insert(p));
    }
}

/// After a run of reveals every revealed numbered cell is a target, a cell
/// of the run, or lies next to an open cell.
pub proof fn law_sweep_justified(
    g: GridView,
    list: Seq<(int, int)>,
    targets: Set<(int, int)>,
)
    requires
        g.wf(),
        g.justified(targets),
        forall|i: int| 0 <= i < list.len() ==> g.in_bounds(#[trigger] list[i]),
    ensures
        g.open_each(list).grid.wf(),
        g.open_each(list).grid.width == g.width,
        g.open_each(list).grid.height == g.height,
        g.open_each(list).grid.justified(targets.union(list.to_set())),
    decreases list.len(),
{
    if list.len() == 0 {
        assert(targets.union(list.to_set()) =~= targets);
    } else {
        let front = list.drop_last();
        let p = list.last();
        assert forall|i: int| 0 <= i < front.len() implies g.in_bounds(#[trigger] front[i]) by {
            assert(front[i] == list[i]);
        }
        law_sweep_justified(g, front, targets);
        assert(p == list[list.len() - 1]);
        let before = g.open_each(front);
        let after = before.open_next(p);
        let so_far = targets.union(front.to_set());
        let all = targets.union(list.to_set());
        assert forall|q: (int, int)| so_far.insert(p).contains(q) implies all.contains(q) by {
            if front.to_set().contains(q) {
                let i = choose|i: int| 0 <= i < front.len() && front[i] == q;
                assert(list[i] == q);
            }
            assert(list.contains(p));
        }
        let tile = before.grid.at(p);
        lemma_with_visibility(before.grid, p, Visibility::Revealed);
        if tile.visibility == Visibility::Flagged {
            assert(after.grid.justified(so_far));
        } else if tile.mine || before.blown is Some {
            lemma_seen_justified(before.grid, p, so_far);
        } else {
            law_reveal_justified(before.grid, p, so_far);
            lemma_reveal_opens(before.grid, p);
        }
        assert(after.grid.justified(so_far.insert(p)) || after.grid.justified(so_far));
        assert forall|q: (int, int)|
            after.grid.in_bounds(q) && (#[trigger] after.grid.at(q)).visibility
                == Visibility::Revealed && !after.grid.at(q).mine && after.grid.at(
                q,
            ).neighbour_mine_count > 0 implies all.contains(q) || after.grid.backed(q) by {
            if !after.grid.backed(q) {
                assert(so_far.insert(p).contains(q) || so_far.contains(q));
            }
        }
    }
}

/// After a chord every revealed numbered cell is a target, a neighbour of
/// the chorded cell, or lies next to an open cell.
pub proof fn law_chord_justified(g: GridView, p: (int, int), targets: Set<(int, int)>)
    requires
        g.wf(),
        g.in_bounds(p),
        g.justified(targets),
    ensures
        g.after_chord(p).grid.wf(),
        g.after_chord(p).grid.width == g.width,
        g.after_chord(p).grid.height == g.height,
        g.after_chord(p).grid.justified(targets.union(g.neighbours(p).to_set())),
{
    lemma_neighbours(p, g.width as int, g.height as int);
    if g.at(p).visibility == Visibility::Revealed && g.satisfied(p) {
        law_sweep_justified(g, g.neighbours(p), targets);
    }
}

/// A run of reveals that sets off no mine leaves the regions whole.
pub proof fn lemma_sweep_keeps_regions_whole(g: GridView, list: Seq<(int, int)>)
    requires
        g.wf(),
        g.regions_whole(),
        forall|i: int| 0 <= i < list.len() ==> g.in_bounds(#[trigger] list[i]),
    ensures
        g.open_each(list).grid.wf(),
        g.open_each(list).grid.width == g.width,
        g.open_each(list).grid.height == g.height,
        g.open_each(list).blown is None ==> g.open_each(
            list).grid.regions_whole(),
    decreases list.len(),
{
    if list.len() > 0 {
        let front = list.drop_last();
        let p = list.last();
        assert forall|i: int| 0 <= i < front.len() implies g.in_bounds(#[trigger] front[i]) by {
            assert(front[i] == list[i]);
        }
        lemma_sweep_keeps_regions_whole(g, front);
        assert(p == list[list.len() - 1]);
        let before = g.open_each(front);
        lemma_with_visibility(before.grid, p, Visibility::Revealed);
        lemma_reveal_opens(before.grid, p);
        if before.blown is None {
            law_reveal_keeps_regions_whole(before.grid, p);
        }
    }
}

/// A move on the grid: the reveal of a cell, a flood from a cell, or a chord
/// on a cell.
pub enum Move {
    Reveal((int, int)),
    Flood((int, int)),
    Chord((int, int)),
}

impl GridView {
    /// Whether the move can be made: its cell lies on the board, and a flood
    /// starts from an open cell.
    pub open spec fn admits(self, m: Move) -> bool {
        match m {
            Move::Reveal(p) => self.in_bounds(p),
            Move::Flood(s) => self.blank_at(s),
            Move::Chord(p) => self.in_bounds(p),
        }
    }

    /// The grid after the move.
    pub open spec fn after_move(self, m: Move) -> GridView {
        match m {
            Move::Reveal(p) => self.after_reveal(p),
            Move::Flood(s) => self.after_flood(s),
            Move::Chord(p) => self.after_chord(p).grid,
        }
    }

    /// The cells that the move reveals by itself, not by a flood: the cell of
    /// a reveal, and the neighbours of the cell of a chord.
    pub open spec fn targets_of(self, m: Move) -> Set<(int, int)> {
        match m {
            Move::Reveal(p) => set![p],
            Move::Flood(s) => Set::empty(),
            Move::Chord(p) => self.neighbours(p).to_set(),
        }
    }

    /// Whether the move sets off no mine by a chord.
    pub open spec fn quiet(self, m: Move) -> bool {
        m matches Move::Chord(p) ==> self.after_chord(p).blown is None
    }

    /// The grid after the moves, made in turn.
    pub open spec fn after_moves(self, moves: Seq<Move>) -> GridView
        decreases moves.len(),
    {
        if moves.len() == 0 {
            self
        } else {
            self.after_moves(moves.drop_last()).after_move(moves.last())
        }
    }

    /// Whether each of the moves can be made in its turn.
    pub open spec fn admits_all(self, moves: Seq<Move>) -> bool
        decreases moves.len(),
    {
        moves.len() > 0 ==> self.admits_all(moves.drop_last()) && self.after_moves(
            moves.drop_last(),
        ).admits(moves.last())
    }

    /// Whether none of the moves sets off a mine by a chord.
    pub open spec fn quiet_all(self, moves: Seq<Move>) -> bool
        decreases moves.len(),
    {
        moves.len() > 0 ==> self.quiet_all(moves.drop_last()) && self.after_moves(
            moves.drop_last(),
        ).quiet(moves.last())
    }

    /// The cells that the moves reveal by themselves.
    pub open spec fn targets_of_all(self, moves: Seq<Move>) -> Set<(int, int)>
        decreases moves.len(),
    {
        if moves.len() == 0 {
            Set::empty()
        } else {
            self.targets_of_all(moves.drop_last()).union(self.targets_of(moves.last()))
        }
    }
}

/// After any run of reveals, floods and chords every revealed numbered cell
/// without a mine is a cell that a move revealed by itself, or lies next to
/// an open cell; and the revealed regions are whole as long as no chord set
/// off a mine.
pub proof fn law_moves_keep_regions(g: GridView, moves: Seq<Move>, targets: Set<(int, int)>)
    requires
        g.wf(),
        g.justified(targets),
        g.admits_all(moves),
    ensures
        g.after_moves(moves).wf(),
        g.after_moves(moves).width == g.width,
        g.after_moves(moves).height == g.height,
        g.after_moves(moves).justified(targets.union(g.targets_of_all(moves))),
        g.regions_whole() && g.quiet_all(moves) ==> g.after_moves(moves).regions_whole(),
    decreases moves.len(),
{
    if moves.len() == 0 {
        assert(targets.union(g.targets_of_all(moves)) =~= targets);
    } else {
        let front = moves.drop_last();
        let m = moves.last();
        law_moves_keep_regions(g, front, targets);
        let before = g.after_moves(front);
        let so_far = targets.union(g.targets_of_all(front));
        let all = targets.union(g.targets_of_all(moves));
        let whole = g.regions_whole() && g.quiet_all(moves);
        match m {
            Move::Reveal(p) => {
                law_reveal_justified(before, p, so_far);
                lemma_reveal_opens(before, p);
                assert(so_far.insert(p) =~= all);
                if whole {
                    law_reveal_keeps_regions_whole(before, p);
                }
            },
            Move::Flood(s) => {
                law_flood_justified(before, s, so_far);
                lemma_flood_paints(before, s);
                assert(so_far =~= all);
                if whole {
                    law_flood_completes_regions(before, s);
                }
            },
            Move::Chord(p) => {
                law_chord_justified(before, p, so_far);
                lemma_neighbours(p, before.width as int, before.height as int);
                if whole {
                    lemma_sweep_keeps_regions_whole(before, before.neighbours(p));
                }
                assert(before.neighbours(p) == g.neighbours(p));
                assert(so_far.union(before.neighbours(p).to_set()) =~= all);
            },
        }
    }
}

impl GridView {
    /// The grid after the first `n` cells, taken row by row, had their turn
    /// in a round of floods: a flood starts from each cell that is open at
    /// its turn.
    pub open spec fn floods_upto(self, n: nat) -> GridView
        decreases n,
    {
        if n == 0 {
            self
        } else {
            let before = self.floods_upto((n - 1) as nat);
            if before.blank_at(before.cell_at(n - 1)) {
                before.after_flood(before.cell_at(n - 1))
            } else {
                before
            }
        }
    }

    /// The grid after a round of floods over all its cells.
    pub open spec fn after_floods(self) -> GridView {
        self.floods_upto(self.tiles.len())
    }
}

/// A round of floods leaves the mines as they were and every other cell as
/// it was or revealed; and it rings every open cell that had its turn or
/// that the round revealed.
proof fn lemma_floods(g: GridView, n: nat)
    requires
        g.wf(),
        n <= g.tiles.len(),
    ensures
        g.floods_upto(n).wf(),
        g.opened_into(g.floods_upto(n)),
        g.spared_in(g.floods_upto(n)),
        forall|z: (int, int)| #[trigger]
            g.floods_upto(n).blank_at(z) && (g.index(z) < n || g.at(z).visibility
                != Visibility::Revealed) ==> g.floods_upto(n).ringed(z),
    decreases n,
{
    if n > 0 {
        let before = g.floods_upto((n - 1) as nat);
        lemma_floods(g, (n - 1) as nat);
        lemma_cell_at(before, n - 1);
        let z0 = before.cell_at(n - 1);
        let r = g.floods_upto(n);
        if before.blank_at(z0) {
            lemma_flood_paints(before, z0);
            law_flood_spares_mines(before, z0);
            assert forall|q: (int, int)| g.in_bounds(q) implies (#[trigger] r.at(q)).mine == g.at(
                q,
            ).mine && r.at(q).neighbour_mine_count == g.at(q).neighbour_mine_count && (r.at(
                q,
            ).visibility == g.at(q).visibility || r.at(q).visibility
                == Visibility::Revealed) by {
                assert(before.at(q).mine == g.at(q).mine);
            }
            assert forall|q: (int, int)| g.in_bounds(q) && g.at(q).mine implies (#[trigger] r.at(
                q,
            )).visibility == g.at(q).visibility by {
                assert(before.at(q).visibility == g.at(q).visibility);
            }
            assert forall|z: (int, int)| #[trigger]
                r.blank_at(z) && (g.index(z) < n || g.at(z).visibility
                    != Visibility::Revealed) implies r.ringed(z) by {
                if z == z0 {
                    let walk = seq![z0];
                    assert(before.flood_walk(z0, walk));
                    assert(walk.last() == z0);
                    lemma_flood_rings(before, z0, z0);
                } else if before.at(z).visibility != Visibility::Revealed {
                    assert(before.flood_opens(z0, z));
                    let from = choose|from: (int, int)| #[trigger]
                        before.flood_reaches(z0, from) && adjacent(from, z);
                    lemma_flood_goes_on(before, z0, from, z);
                    lemma_flood_rings(before, z0, z);
                } else {
                    lemma_index(g, z);
                    assert(before.blank_at(z));
                    assert(before.ringed(z));
                    assert forall|q: (int, int)| r.in_bounds(q) && adjacent(z, q) implies (
                    #[trigger] r.at(q)).visibility == Visibility::Revealed by {
                        assert(before.at(q).visibility == Visibility::Revealed);
                    }
                }
            }
        } else {
            assert forall|z: (int, int)| #[trigger]
                r.blank_at(z) && (g.index(z) < n || g.at(z).visibility
                    != Visibility::Revealed) implies r.ringed(z) by {
                lemma_index(g, z);
            }
        }
    }
}

/// A round of floods leaves the regions whole, never reveals a mine, and
/// hides nothing.
pub proof fn law_floods_make_regions_whole(g: GridView)
    requires
        g.wf(),
    ensures
        g.after_floods().wf(),
        g.after_floods().regions_whole(),
        g.opened_into(g.after_floods()),
        g.spared_in(g.after_floods()),
{
    lemma_floods(g, g.tiles.len());
    let r = g.after_floods();
    assert forall|z: (int, int)| #[trigger] r.blank_at(z) implies r.ringed(z) by {
        lemma_index(g, z);
    }
}

/// A round of floods over the grid: each cell in turn, row by row, floods if
/// it is open at its turn, that is revealed, without a mine and without a
/// mine around it. Afterwards every open cell has all its neighbours
/// revealed.
pub fn flood_open_cells(grid: &mut Grid)
    requires
        old(grid).wf(),
    ensures
        final(grid).wf(),
        final(grid)@ == old(grid)@.after_floods(),
        final(grid)@.regions_whole(),
        old(grid)@.opened_into(final(grid)@),
        old(grid)@.spared_in(final(grid)@),
{
    let ghost g0 = grid@;
    let width = grid.width();
    let height = grid.height();
    let mut row: usize = 0;
    proof {
        grid.lemma_fits();
    }
    while row < height
        invariant
            g0.wf(),
            grid.wf(),
            width == g0.width,
            height == g0.height,
            grid@.width == g0.width,
            grid@.height == g0.height,
            row <= height,
            width * height <= usize::MAX,
            grid@ == g0.floods_upto((row * width) as nat),
        decreases height - row,
    {
        let mut col: usize = 0;
        while col < width
            invariant
                g0.wf(),
                grid.wf(),
                width == g0.width,
                height == g0.height,
                grid@.width == g0.width,
                grid@.height == g0.height,
                row < height,
                col <= width,
                width * height <= usize::MAX,
                grid@ == g0.floods_upto((row * width + col) as nat),
            decreases width - col,
        {
            let tile = grid.tile(col, row);
            proof {
                lemma_index(grid@, cell(col, row));
                assert(0 <= row * width) by (nonlinear_arith);
            }
            if tile.visibility == Visibility::Revealed && !tile.mine && tile.neighbour_mine_count
                == 0 {
                flood(grid, col, row);
            }
            col = col + 1;
        }
        proof {
            assert((row + 1) * width == row * width + width) by (nonlinear_arith);
        }
        row = row + 1;
    }
    proof {
        assert(row * width == g0.tiles.len()) by (nonlinear_arith)
            requires
                row == height,
                g0.tiles.len() == width * height,
        ;
        law_floods_make_regions_whole(g0);
    }
}

} // verus!
