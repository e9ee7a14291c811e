//! Revealing cells: the single reveal, the flood over a region without
//! mines around it, and the chord on a numbered cell whose mines are all
//! flagged.

use crate::grid::{lemma_equal, lemma_repaint, lemma_same_ground, lemma_with_visibility, Grid,
    GridView};
use crate::neighbourhood::{adjacent, cell, cells, in_bounds, lemma_neighbours, neighbour_seq,
    neighbours};
use crate::regions::law_reveal_keeps_regions_whole;
use crate::tile::{Mark, Visibility};
use std::collections::VecDeque;
use vstd::prelude::*;

verus! {

impl GridView {
    /// Whether a flood goes on through the cell: it is not revealed yet, holds
    /// no mine and has no mine around it.
    pub open spec fn spreads(self, p: (int, int)) -> bool {
        &&& self.in_bounds(p)
        &&& !self.at(p).mine
        &&& self.at(p).neighbour_mine_count == 0
        &&& self.at(p).visibility != Visibility::Revealed
    }

    /// A way that a flood from `start` takes: it begins at `start`, goes from
    /// each cell to an adjacent one, and every cell after the first lets the
    /// flood through.
    pub open spec fn flood_walk(self, start: (int, int), walk: Seq<(int, int)>) -> bool {
        &&& walk.len() >= 1
        &&& walk[0] == start
        &&& forall|i: int|
            1 <= i < walk.len() ==> adjacent(walk[i - 1], #[trigger] walk[i]) && self.spreads(
                walk[i],
            )
    }

    /// Whether a flood from `start` arrives at the cell and goes on from it.
    pub open spec fn flood_reaches(self, start: (int, int), p: (int, int)) -> bool {
        exists|walk: Seq<(int, int)>| #[trigger] self.flood_walk(start, walk) && walk.last() == p
    }

    /// Whether a flood from `start` reveals the cell: the cell holds no mine
    /// and lies next to a cell that the flood arrives at.
    pub open spec fn flood_opens(self, start: (int, int), q: (int, int)) -> bool {
        &&& self.in_bounds(q)
        &&& !self.at(q).mine
        &&& exists|p: (int, int)| #[trigger] self.flood_reaches(start, p) && adjacent(p, q)
    }

    /// The grid after a flood from `start`.
    pub open spec fn after_flood(self, start: (int, int)) -> GridView {
        self.repaint(
            |q: (int, int)|
                if self.flood_opens(start, q) {
                    Visibility::Revealed
                } else {
                    self.at(q).visibility
                },
        )
    }

    /// The grid after the cell is revealed: the cell is seen, and a flood
    /// starts from it if it holds no mine and has none around it.
    pub open spec fn after_reveal(self, p: (int, int)) -> GridView {
        let seen = self.with_visibility(p, Visibility::Revealed);
        if !self.at(p).mine && self.at(p).neighbour_mine_count == 0 {
            seen.after_flood(p)
        } else {
            seen
        }
    }

    /// Whether the cell has as many flags around it as it has mines around it.
    pub open spec fn satisfied(self, p: (int, int)) -> bool {
        self.around(p, Mark::Flagged) == self.at(p).neighbour_mine_count
    }

    /// The sweep after the cells of the list have been opened in turn,
    /// starting from this grid with no mine gone off.
    pub open spec fn open_each(self, list: Seq<(int, int)>) -> Sweep
        decreases list.len(),
    {
        if list.len() == 0 {
            Sweep { grid: self, blown: None }
        } else {
            self.open_each(list.drop_last()).open_next(list.last())
        }
    }

    /// The sweep that a chord on the cell makes: where the cell is revealed and
    /// satisfied its neighbours are opened in turn, and nothing happens
    /// otherwise.
    pub open spec fn after_chord(self, p: (int, int)) -> Sweep {
        if self.at(p).visibility == Visibility::Revealed && self.satisfied(p) {
            self.open_each(self.neighbours(p))
        } else {
            Sweep { grid: self, blown: None }
        }
    }
}

/// Where a run of reveals stands: the grid so far, and the first mine that
/// went off, if one did.
pub struct Sweep {
    pub grid: GridView,
    pub blown: Option<(int, int)>,
}

impl Sweep {
    /// The sweep after one more cell has had its turn. A flagged cell is
    /// passed over. A mine goes off. Any other cell is revealed, with the flood
    /// that follows from it as long as no mine has gone off.
    pub open spec fn open_next(self, p: (int, int)) -> Sweep {
        let tile = self.grid.at(p);
        if tile.visibility == Visibility::Flagged {
            self
        } else if tile.mine {
            Sweep {
                grid: self.grid.with_visibility(p, Visibility::Revealed),
                blown: if self.blown is None {
                    Some(p)
                } else {
                    self.blown
                },
            }
        } else if self.blown is Some {
            Sweep { grid: self.grid.with_visibility(p, Visibility::Revealed), blown: self.blown }
        } else {
            Sweep { grid: self.grid.after_reveal(p), blown: None }
        }
    }

    /// Whether `mine` names the mine that went off first, or none where none did.
    pub open spec fn reports(self, mine: Option<(usize, usize)>) -> bool {
        match mine {
            Some(m) => self.blown == Some(cell(m.0, m.1)),
            None => self.blown is None,
        }
    }
}

/// What a chord did.
#[derive(Clone, Copy, Debug, PartialEq, Eq, Structural)]
pub enum Outcome {
    /// The cell was not revealed or not satisfied: nothing was changed.
    NoOp,
    /// The neighbours were opened and no mine went off.
    Cleared,
    /// The neighbours were opened and the mine at this column and row was the
    /// first to go off.
    Detonated(usize, usize),
}

/// What holds while a flood from `s` over the grid `g0` is under way: `g` is
/// the grid so far, `done` the cells whose neighbours have all been seen to,
/// `queue` the cells that wait, and `cur` the cell in hand.
#[verifier::opaque]
spec fn flooding(
    g0: GridView,
    g: GridView,
    s: (int, int),
    done: Set<(int, int)>,
    queue: Seq<(int, int)>,
    cur: Option<(int, int)>,
) -> bool {
    &&& g0.wf()
    &&& g.wf()
    &&& g0.same_ground(g)
    &&& forall|p: (int, int)|
        g0.in_bounds(p) ==> (#[trigger] g.at(p)).visibility == g0.at(p).visibility || (g.at(
            p,
        ).visibility == Visibility::Revealed && g0.flood_opens(s, p))
    &&& forall|p: (int, int), n: (int, int)|
        #![trigger done.contains(p), g.at(n)]
        done.contains(p) && adjacent(p, n) && g0.in_bounds(n) && !g0.at(n).mine ==> g.at(
            n,
        ).visibility == Visibility::Revealed
    &&& forall|n: (int, int)| #[trigger]
        g0.spreads(n) && g.at(n).visibility == Visibility::Revealed ==> done.contains(n)
            || queue.contains(n) || cur == Some(n)
    &&& forall|i: int| 0 <= i < queue.len() ==> g0.flood_reaches(s, #[trigger] queue[i])
    &&& done.contains(s) || queue.contains(s) || cur == Some(s)
    &&& cur matches Some(c) ==> g0.flood_reaches(s, c)
}

/// At its beginning a flood has the start waiting and nothing done.
proof fn lemma_flood_begins(g0: GridView, s: (int, int))
    requires
        g0.wf(),
    ensures
        flooding(g0, g0, s, Set::empty(), seq![s], None),
{
    reveal(flooding);
    let walk = seq![s];
    assert(g0.flood_walk(s, walk));
    assert(seq![s][0] == s);
    assert(seq![s].contains(s));
}

/// The flood takes the cell that waited last into its hand.
proof fn lemma_flood_takes(
    g0: GridView,
    g: GridView,
    s: (int, int),
    done: Set<(int, int)>,
    queue: Seq<(int, int)>,
)
    requires
        flooding(g0, g, s, done, queue, None),
        queue.len() > 0,
    ensures
        flooding(g0, g, s, done, queue.drop_last(), Some(queue.last())),
{
    reveal(flooding);
    let rest = queue.drop_last();
    let c = queue.last();
    assert forall|n: (int, int)| #[trigger]
        g0.spreads(n) && g.at(n).visibility == Visibility::Revealed implies done.contains(n)
        || rest.contains(n) || Some(c) == Some(n) by {
        if queue.contains(n) {
            let i = choose|i: int| 0 <= i < queue.len() && queue[i] == n;
            if i < rest.len() {
                assert(rest[i] == n);
            }
        }
    }
    if queue.contains(s) {
        let i = choose|i: int| 0 <= i < queue.len() && queue[i] == s;
        if i < rest.len() {
            assert(rest[i] == s);
        }
    }
    assert forall|i: int| 0 <= i < rest.len() implies g0.flood_reaches(s, #[trigger] rest[i]) by {
        assert(rest[i] == queue[i]);
    }
    assert(g0.flood_reaches(s, queue[queue.len() - 1]));
}

/// A flood that arrives at `c` arrives at each adjacent cell that lets it through.
pub proof fn lemma_flood_goes_on(g0: GridView, s: (int, int), c: (int, int), n: (int, int))
    requires
        g0.flood_reaches(s, c),
        adjacent(c, n),
        g0.spreads(n),
    ensures
        g0.flood_reaches(s, n),
{
    let walk = choose|walk: Seq<(int, int)>| #[trigger] g0.flood_walk(s, walk) && walk.last() == c;
    let longer = walk.push(n);
    assert forall|i: int| 1 <= i < longer.len() implies adjacent(
        longer[i - 1],
        #[trigger] longer[i],
    ) && g0.spreads(longer[i]) by {
        if i < walk.len() {
            assert(longer[i] == walk[i]);
            assert(longer[i - 1] == walk[i - 1]);
        }
    }
    assert(g0.flood_walk(s, longer));
    assert(longer.last() == n);
}

/// The flood sees to a neighbour of the cell in hand that holds no mine: it
/// reveals the neighbour, and lets it wait if the flood goes on through it.
proof fn lemma_flood_visits(
    g0: GridView,
    g: GridView,
    s: (int, int),
    done: Set<(int, int)>,
    queue: Seq<(int, int)>,
    c: (int, int),
    n: (int, int),
)
    requires
        flooding(g0, g, s, done, queue, Some(c)),
        g.in_bounds(n),
        adjacent(c, n),
        !g.at(n).mine,
    ensures
        ({
            let waits = g.at(n).neighbour_mine_count == 0 && g.at(n).visibility
                != Visibility::Revealed;
            let after = g.with_visibility(n, Visibility::Revealed);
            let longer = if waits {
                queue.push(n)
            } else {
                queue
            };
            &&& flooding(g0, after, s, done, longer, Some(c))
            &&& after.total(Mark::Unrevealed) + longer.len() <= g.total(Mark::Unrevealed)
                + queue.len()
            &&& forall|p: (int, int)|
                g.in_bounds(p) ==> (#[trigger] after.at(p)).mine == g.at(p).mine && (g.at(
                    p,
                ).visibility == Visibility::Revealed ==> after.at(p).visibility
                    == Visibility::Revealed)
            &&& after.at(n).visibility == Visibility::Revealed
        }),
{
    reveal(flooding);
    let waits = g.at(n).neighbour_mine_count == 0 && g.at(n).visibility != Visibility::Revealed;
    let after = g.with_visibility(n, Visibility::Revealed);
    let longer = if waits {
        queue.push(n)
    } else {
        queue
    };
    lemma_same_ground(g0, g);
    lemma_with_visibility(g, n, Visibility::Revealed);
    lemma_same_ground(g, after);
    assert(g0.same_ground(after));
    assert(g0.flood_opens(s, n));
    assert forall|p: (int, int)| g0.in_bounds(p) implies (#[trigger] after.at(p)).visibility
        == g0.at(p).visibility || (after.at(p).visibility == Visibility::Revealed
        && g0.flood_opens(s, p)) by {
        if p != n {
            assert(after.at(p) == g.at(p));
        }
    }
    assert forall|p: (int, int), x: (int, int)|
        #![trigger done.contains(p), after.at(x)]
        done.contains(p) && adjacent(p, x) && g0.in_bounds(x) && !g0.at(x).mine implies after.at(
        x,
    ).visibility == Visibility::Revealed by {
        if x != n {
            assert(after.at(x) == g.at(x));
        }
    }
    assert forall|x: (int, int)| #[trigger]
        g0.spreads(x) && after.at(x).visibility == Visibility::Revealed implies done.contains(x)
        || longer.contains(x) || Some(c) == Some(x) by {
        if x != n {
            assert(after.at(x) == g.at(x));
        }
        if g.at(x).visibility == Visibility::Revealed {
            if queue.contains(x) {
                let i = choose|i: int| 0 <= i < queue.len() && queue[i] == x;
                assert(longer[i] == x);
            }
        } else {
            assert(x == n);
            assert(waits);
            assert(longer[queue.len() as int] == n);
        }
    }
    assert forall|i: int| 0 <= i < longer.len() implies g0.flood_reaches(
        s,
        #[trigger] longer[i],
    ) by {
        if i < queue.len() {
            assert(longer[i] == queue[i]);
        } else {
            lemma_flood_goes_on(g0, s, c, n);
        }
    }
    if queue.contains(s) {
        let i = choose|i: int| 0 <= i < queue.len() && queue[i] == s;
        assert(longer[i] == s);
    }
    assert forall|p: (int, int)| g.in_bounds(p) implies (#[trigger] after.at(p)).mine == g.at(
        p,
    ).mine && (g.at(p).visibility == Visibility::Revealed ==> after.at(p).visibility
        == Visibility::Revealed) by {
        if p != n {
            assert(after.at(p) == g.at(p));
        }
    }
}

/// The cell in hand is done once all its neighbours without a mine are revealed.
proof fn lemma_flood_leaves(
    g0: GridView,
    g: GridView,
    s: (int, int),
    done: Set<(int, int)>,
    queue: Seq<(int, int)>,
    c: (int, int),
)
    requires
        flooding(g0, g, s, done, queue, Some(c)),
        forall|n: (int, int)|
            g.in_bounds(n) && adjacent(c, n) && !(#[trigger] g.at(n)).mine ==> g.at(n).visibility
                == Visibility::Revealed,
    ensures
        flooding(g0, g, s, done.insert(c), queue, None),
{
    reveal(flooding);
    lemma_same_ground(g0, g);
    let more = done.insert(c);
    assert forall|p: (int, int), n: (int, int)|
        #![trigger more.contains(p), g.at(n)]
        more.contains(p) && adjacent(p, n) && g0.in_bounds(n) && !g0.at(n).mine implies g.at(
        n,
    ).visibility == Visibility::Revealed by {
        if p != c {
            assert(done.contains(p));
        }
    }
}

/// Where nothing waits any more, every cell that the flood arrives at has
/// been seen to.
proof fn lemma_flood_served(
    g0: GridView,
    g: GridView,
    s: (int, int),
    done: Set<(int, int)>,
    walk: Seq<(int, int)>,
)
    requires
        flooding(g0, g, s, done, Seq::empty(), None),
        g0.flood_walk(s, walk),
    ensures
        done.contains(walk.last()),
    decreases walk.len(),
{
    reveal(flooding);
    let empty = Seq::<(int, int)>::empty();
    assert(!empty.contains(s));
    if walk.len() > 1 {
        let front = walk.drop_last();
        assert forall|i: int| 1 <= i < front.len() implies adjacent(
            front[i - 1],
            #[trigger] front[i],
        ) && g0.spreads(front[i]) by {
            assert(front[i] == walk[i]);
            assert(front[i - 1] == walk[i - 1]);
        }
        lemma_flood_served(g0, g, s, done, front);
        let p = front.last();
        let n = walk.last();
        assert(p == walk[walk.len() - 2]);
        assert(adjacent(walk[walk.len() - 1 - 1], walk[walk.len() - 1]) && g0.spreads(
            walk[walk.len() - 1],
        ));
        assert(done.contains(p));
        assert(g.at(n).visibility == Visibility::Revealed);
        assert(g0.spreads(n));
        assert(!empty.contains(n));
    }
}

/// When nothing waits any more, the grid is what the flood makes of it.
proof fn lemma_flood_ends(g0: GridView, g: GridView, s: (int, int), done: Set<(int, int)>)
    requires
        flooding(g0, g, s, done, Seq::empty(), None),
    ensures
        g == g0.after_flood(s),
{
    reveal(flooding);
    let paint = |q: (int, int)|
        if g0.flood_opens(s, q) {
            Visibility::Revealed
        } else {
            g0.at(q).visibility
        };
    let after = g0.repaint(paint);
    lemma_repaint(g0, paint);
    lemma_same_ground(g0, g);
    lemma_same_ground(g0, after);
    assert forall|q: (int, int)| g.in_bounds(q) implies g.at(q) == after.at(q) by {
        assert(after.at(q) == g0.at(q).seen_as(paint(q)));
        assert(g.at(q).mine == g0.at(q).mine);
        assert(g.at(q).neighbour_mine_count == g0.at(q).neighbour_mine_count);
        if g0.flood_opens(s, q) {
            let p = choose|p: (int, int)| #[trigger] g0.flood_reaches(s, p) && adjacent(p, q);
            let walk = choose|walk: Seq<(int, int)>| #[trigger]
                g0.flood_walk(s, walk) && walk.last() == p;
            lemma_flood_served(g0, g, s, done, walk);
            assert(done.contains(p));
            assert(g.at(q).visibility == Visibility::Revealed);
        } else {
            assert(g.at(q).visibility == g0.at(q).visibility);
        }
    }
    lemma_equal(g, after);
}

/// Sees to one neighbour of the cell in hand: reveals it unless it holds a
/// mine, and lets it wait for its own turn if the flood goes on through it.
fn flood_visit(
    grid: &mut Grid,
    queue: &mut VecDeque<(usize, usize)>,
    col: usize,
    row: usize,
    Ghost(g0): Ghost<GridView>,
    Ghost(s): Ghost<(int, int)>,
    Ghost(done): Ghost<Set<(int, int)>>,
    Ghost(cur): Ghost<(int, int)>,
)
    requires
        flooding(g0, old(grid)@, s, done, cells(old(queue)@), Some(cur)),
        old(grid).wf(),
        old(grid)@.in_bounds(cell(col, row)),
        adjacent(cur, cell(col, row)),
    ensures
        flooding(g0, final(grid)@, s, done, cells(final(queue)@), Some(cur)),
        final(grid).wf(),
        final(grid)@.width == old(grid)@.width,
        final(grid)@.height == old(grid)@.height,
        final(grid)@.total(Mark::Unrevealed) + final(queue)@.len() <= old(grid)@.total(
            Mark::Unrevealed,
        ) + old(queue)@.len(),
        forall|p: (int, int)|
            old(grid)@.in_bounds(p) ==> (#[trigger] final(grid)@.at(p)).mine == old(grid)@.at(
                p,
            ).mine && (old(grid)@.at(p).visibility == Visibility::Revealed ==> final(grid)@.at(
                p,
            ).visibility == Visibility::Revealed),
        !final(grid)@.at(cell(col, row)).mine ==> final(grid)@.at(cell(col, row)).visibility
            == Visibility::Revealed,
{
    let ghost n = cell(col, row);
    let ghost before = grid@;
    let ghost waiting = cells(queue@);
    let tile = grid.tile(col, row);
    if !tile.mine {
        if tile.neighbour_mine_count == 0 && tile.visibility != Visibility::Revealed {
            queue.push_back((col, row));
            proof {
                assert(cells(queue@) =~= waiting.push(n));
            }
        }
        grid.set_visibility(col, row, Visibility::Revealed);
        proof {
            lemma_flood_visits(g0, before, s, done, waiting, cur, n);
        }
    }
}

/// Floods from the cell at (`col`, `row`): reveals every neighbour of it
/// that holds no mine, and goes on in the same way from each neighbour that
/// was not revealed before, holds no mine and has none around it. Mines are
/// never revealed, and a cell that was revealed already stays so.
pub fn flood(grid: &mut Grid, col: usize, row: usize)
    requires
        old(grid).wf(),
        old(grid)@.in_bounds(cell(col, row)),
    ensures
        final(grid).wf(),
        final(grid)@ == old(grid)@.after_flood(cell(col, row)),
        old(grid)@.opened_into(final(grid)@),
        old(grid)@.spared_in(final(grid)@),
{
    let ghost g0 = grid@;
    let ghost s = cell(col, row);
    let ghost mut done: Set<(int, int)> = Set::empty();
    let width = grid.width();
    let height = grid.height();
    let mut queue: VecDeque<(usize, usize)> = VecDeque::new();
    queue.push_back((col, row));
    proof {
        lemma_flood_begins(g0, s);
        assert(cells(queue@) =~= seq![s]);
    }
    while queue.len() > 0
        invariant
            flooding(g0, grid@, s, done, cells(queue@), None),
            grid.wf(),
            width == grid@.width,
            height == grid@.height,
        decreases grid@.total(Mark::Unrevealed) + queue@.len(),
    {
        let ghost waiting = cells(queue@);
        let ghost budget = grid@.total(Mark::Unrevealed) + queue@.len();
        let (c, r) = queue.pop_back().unwrap();
        let ghost cur = cell(c, r);
        proof {
            lemma_flood_takes(g0, grid@, s, done, waiting);
            assert(cells(queue@) =~= waiting.drop_last());
            assert(waiting.last() == cur);
        }
        let near = neighbours(c, r, width, height);
        let ghost list = neighbour_seq(cur, width as int, height as int);
        proof {
            lemma_neighbours(cur, width as int, height as int);
        }
        let mut k: usize = 0;
        while k < near.len()
            invariant
                flooding(g0, grid@, s, done, cells(queue@), Some(cur)),
                grid.wf(),
                width == grid@.width,
                height == grid@.height,
                cells(near@) == list,
                k <= near.len(),
                forall|i: int|
                    0 <= i < list.len() ==> in_bounds(
                        #[trigger] list[i],
                        width as int,
                        height as int,
                    ) && adjacent(cur, list[i]),
                forall|i: int|
                    0 <= i < k && !grid@.at(#[trigger] list[i]).mine ==> grid@.at(
                        list[i],
                    ).visibility == Visibility::Revealed,
                grid@.total(Mark::Unrevealed) + queue@.len() < budget,
            decreases near.len() - k,
        {
            let (nc, nr) = near[k];
            let ghost before = grid@;
            proof {
                assert(list[k as int] == cell(nc, nr));
            }
            flood_visit(grid, &mut queue, nc, nr, Ghost(g0), Ghost(s), Ghost(done), Ghost(cur));
            proof {
                assert forall|i: int| 0 <= i < k + 1 && !grid@.at(
                    #[trigger] list[i],
                ).mine implies grid@.at(list[i]).visibility == Visibility::Revealed by {
                    if i < k {
                        assert(grid@.at(list[i]).mine == before.at(list[i]).mine);
                    }
                }
            }
            k = k + 1;
        }
        proof {
            let g = grid@;
            assert forall|n: (int, int)|
                g.in_bounds(n) && adjacent(cur, n) && !(#[trigger] g.at(n)).mine implies g.at(
                n,
            ).visibility == Visibility::Revealed by {
                assert(list.contains(n));
                let i = choose|i: int| 0 <= i < list.len() && list[i] == n;
                assert(!g.at(list[i]).mine);
            }
            lemma_flood_leaves(g0, g, s, done, cells(queue@), cur);
            done = done.insert(cur);
        }
    }
    proof {
        assert(cells(queue@) =~= Seq::empty());
        lemma_flood_ends(g0, grid@, s, done);
        law_flood_spares_mines(g0, s);
    }
}

/// Reveals the cell at (`col`, `row`). If the cell holds no mine and has
/// none around it, a flood starts from it.
pub fn reveal_at(grid: &mut Grid, col: usize, row: usize)
    requires
        old(grid).wf(),
        old(grid)@.in_bounds(cell(col, row)),
    ensures
        final(grid).wf(),
        final(grid)@ == old(grid)@.after_reveal(cell(col, row)),
{
    let tile = grid.tile(col, row);
    grid.set_visibility(col, row, Visibility::Revealed);
    proof {
        lemma_with_visibility(old(grid)@, cell(col, row), Visibility::Revealed);
    }
    if !tile.mine && tile.neighbour_mine_count == 0 {
        flood(grid, col, row);
    }
}

/// Opens the listed cells in turn and reports the first mine that went off.
/// A flagged cell is passed over. A mine is revealed and goes off. Any other
/// cell is revealed, with the flood that follows from it as long as no mine
/// has gone off.
pub fn open_each(grid: &mut Grid, list: &Vec<(usize, usize)>) -> (blown: Option<
    (usize, usize),
>)
    requires
        old(grid).wf(),
        forall|i: int| 0 <= i < list@.len() ==> old(grid)@.in_bounds(#[trigger] cells(list@)[i]),
    ensures
        final(grid).wf(),
        final(grid)@.width == old(grid)@.width,
        final(grid)@.height == old(grid)@.height,
        final(grid)@ == old(grid)@.open_each(cells(list@)).grid,
        old(grid)@.open_each(cells(list@)).reports(blown),
{
    let ghost g0 = grid@;
    let ghost all = cells(list@);
    let mut blown: Option<(usize, usize)> = None;
    let mut k: usize = 0;
    while k < list.len()
        invariant
            k <= list@.len(),
            all == cells(list@),
            grid.wf(),
            grid@.width == g0.width,
            grid@.height == g0.height,
            forall|i: int| 0 <= i < list@.len() ==> g0.in_bounds(#[trigger] all[i]),
            grid@ == g0.open_each(all.take(k as int)).grid,
            g0.open_each(all.take(k as int)).reports(blown),
        decreases list@.len() - k,
    {
        let (col, row) = list[k];
        let ghost p = cell(col, row);
        let ghost before = g0.open_each(all.take(k as int));
        proof {
            assert(all[k as int] == p);
            assert(all.take(k + 1).drop_last() =~= all.take(k as int));
            assert(all.take(k + 1).last() == p);
            assert(g0.open_each(all.take(k + 1)) == before.open_next(p));
        }
        let tile = grid.tile(col, row);
        let skip = tile.visibility == Visibility::Flagged;
        if !skip {
            if tile.mine {
                grid.set_visibility(col, row, Visibility::Revealed);
                if blown.is_none() {
                    blown = Some((col, row));
                }
            } else if blown.is_some() {
                grid.set_visibility(col, row, Visibility::Revealed);
            } else {
                reveal_at(grid, col, row);
            }
        }
        proof {
            lemma_sweep_keeps(before, p);
        }
        k = k + 1;
    }
    proof {
        assert(all.take(k as int) =~= all);
    }
    blown
}

/// Opens one cell as `open_each` does, and reports the cell if it held a
/// mine.
pub fn open_one(grid: &mut Grid, col: usize, row: usize) -> (blown: Option<(usize, usize)>)
    requires
        old(grid).wf(),
        old(grid)@.in_bounds(cell(col, row)),
    ensures
        final(grid).wf(),
        final(grid)@.width == old(grid)@.width,
        final(grid)@.height == old(grid)@.height,
        final(grid)@ == (Sweep { grid: old(grid)@, blown: None }).open_next(
            cell(col, row),
        ).grid,
        (Sweep { grid: old(grid)@, blown: None }).open_next(cell(col, row)).reports(blown),
{
    let mut list: Vec<(usize, usize)> = Vec::new();
    list.push((col, row));
    proof {
        let g = grid@;
        let one = cells(list@);
        assert(one =~= seq![cell(col, row)]);
        assert(one.drop_last() =~= Seq::empty());
        assert(g.open_each(one) == g.open_each(one.drop_last()).open_next(
            one.last(),
        ));
    }
    open_each(grid, &list)
}

/// A step of a sweep leaves the grid with its size.
proof fn lemma_sweep_keeps(sweep: Sweep, p: (int, int))
    requires
        sweep.grid.wf(),
        sweep.grid.in_bounds(p),
    ensures
        sweep.open_next(p).grid.wf(),
        sweep.open_next(p).grid.width == sweep.grid.width,
        sweep.open_next(p).grid.height == sweep.grid.height,
{
    let g = sweep.grid;
    lemma_with_visibility(g, p, Visibility::Revealed);
    let seen = g.with_visibility(p, Visibility::Revealed);
    let paint = |q: (int, int)|
        if seen.flood_opens(p, q) {
            Visibility::Revealed
        } else {
            seen.at(q).visibility
        };
    lemma_repaint(seen, paint);
}

/// The chord on the cell at (`col`, `row`). Where the cell is revealed and
/// has as many flags around it as mines, each neighbour without a flag is
/// revealed, in the order of `neighbours`: a mine among them goes off, and
/// the first to do so is reported; the others are revealed with the flood
/// that follows, as long as no mine has gone off. Where the cell is not
/// revealed or not satisfied, nothing is changed.
pub fn chord(grid: &mut Grid, col: usize, row: usize) -> (outcome: Outcome)
    requires
        old(grid).wf(),
        old(grid)@.in_bounds(cell(col, row)),
    ensures
        final(grid).wf(),
        final(grid)@.width == old(grid)@.width,
        final(grid)@.height == old(grid)@.height,
        final(grid)@ == old(grid)@.after_chord(cell(col, row)).grid,
        old(grid)@.at(cell(col, row)).visibility == Visibility::Revealed && old(grid)@.satisfied(
            cell(col, row),
        ) ==> match outcome {
            Outcome::NoOp => false,
            Outcome::Cleared => old(grid)@.after_chord(cell(col, row)).blown is None,
            Outcome::Detonated(c, r) => old(grid)@.after_chord(cell(col, row)).blown == Some(
                cell(c, r),
            ),
        },
        !(old(grid)@.at(cell(col, row)).visibility == Visibility::Revealed && old(
            grid,
        )@.satisfied(cell(col, row))) ==> outcome == Outcome::NoOp && final(grid)@ == old(grid)@,
{
    let tile = grid.tile(col, row);
    let flags = grid.count_around(col, row, Mark::Flagged);
    if tile.visibility != Visibility::Revealed || flags != tile.neighbour_mine_count {
        return Outcome::NoOp;
    }
    let near = neighbours(col, row, grid.width(), grid.height());
    proof {
        lemma_neighbours(cell(col, row), grid@.width as int, grid@.height as int);
    }
    match open_each(grid, &near) {
        Some((c, r)) => Outcome::Detonated(c, r),
        None => Outcome::Cleared,
    }
}

impl GridView {
    /// Whether `later` is this grid with more of it seen: the same mines on
    /// the same board, and every cell either seen as before or revealed.
    pub open spec fn opened_into(self, later: GridView) -> bool {
        &&& later.width == self.width
        &&& later.height == self.height
        &&& later.mine_count == self.mine_count
        &&& later.populated == self.populated
        &&& forall|p: (int, int)|
            self.in_bounds(p) ==> (#[trigger] later.at(p)).mine == self.at(p).mine && later.at(
                p,
            ).neighbour_mine_count == self.at(p).neighbour_mine_count && (later.at(p).visibility
                == self.at(p).visibility || later.at(p).visibility == Visibility::Revealed)
    }

    /// Whether no mine is revealed in `later` that is not revealed in this grid.
    pub open spec fn spared_in(self, later: GridView) -> bool {
        forall|p: (int, int)|
            self.in_bounds(p) && self.at(p).mine ==> (#[trigger] later.at(p)).visibility
                == self.at(p).visibility
    }
}

/// A flood never reveals a mine: it leaves every mine as it was, and every
/// other cell as it was or revealed.
pub proof fn law_flood_spares_mines(g: GridView, start: (int, int))
    requires
        g.wf(),
    ensures
        g.after_flood(start).wf(),
        g.opened_into(g.after_flood(start)),
        g.spared_in(g.after_flood(start)),
{
    let paint = |q: (int, int)|
        if g.flood_opens(start, q) {
            Visibility::Revealed
        } else {
            g.at(q).visibility
        };
    lemma_repaint(g, paint);
}

/// Revealing a cell reveals it, leaves every mine elsewhere as it was, and
/// every other cell as it was or revealed.
pub proof fn lemma_reveal_opens(g: GridView, p: (int, int))
    requires
        g.wf(),
        g.in_bounds(p),
    ensures
        g.after_reveal(p).wf(),
        g.opened_into(g.after_reveal(p)),
        g.after_reveal(p).at(p).visibility == Visibility::Revealed,
        forall|q: (int, int)|
            g.in_bounds(q) && g.at(q).mine && q != p ==> (#[trigger] g.after_reveal(p).at(
                q,
            )).visibility == g.at(q).visibility,
{
    let seen = g.with_visibility(p, Visibility::Revealed);
    lemma_with_visibility(g, p, Visibility::Revealed);
    lemma_same_ground(g, seen);
    if !g.at(p).mine && g.at(p).neighbour_mine_count == 0 {
        law_flood_spares_mines(seen, p);
        let after = seen.after_flood(p);
        assert forall|q: (int, int)| g.in_bounds(q) implies (#[trigger] after.at(q)).mine == g.at(
            q,
        ).mine && after.at(q).neighbour_mine_count == g.at(q).neighbour_mine_count && (after.at(
            q,
        ).visibility == g.at(q).visibility || after.at(q).visibility
            == Visibility::Revealed) by {
            assert(seen.at(q).mine == g.at(q).mine);
            if q != p {
                assert(seen.at(q) == g.at(q));
            }
        }
        assert forall|q: (int, int)| g.in_bounds(q) && g.at(q).mine && q != p implies (
        #[trigger] after.at(q)).visibility == g.at(q).visibility by {
            assert(seen.at(q) == g.at(q));
        }
    }
}

impl Sweep {
    /// Whether the sweep is as a run of reveals during play leaves it: the
    /// grid is well-formed; if no mine went off, no mine is revealed and the
    /// revealed regions are whole; and the mine that went off is a revealed
    /// mine of the grid.
    pub open spec fn sound(self) -> bool {
        &&& self.grid.wf()
        &&& match self.blown {
            Some(m) => self.grid.in_bounds(m) && self.grid.at(m).mine && self.grid.at(
                m,
            ).visibility == Visibility::Revealed,
            None => self.grid.safe() && self.grid.regions_whole(),
        }
    }

    /// Whether this sweep can come after `earlier`: on the same board with
    /// the same mines, with every cell that was revealed still revealed, and
    /// with the mine that went off, if one did, still the one reported.
    pub open spec fn follows(self, earlier: Sweep) -> bool {
        &&& self.grid.width == earlier.grid.width
        &&& self.grid.height == earlier.grid.height
        &&& self.grid.mine_count == earlier.grid.mine_count
        &&& self.grid.populated == earlier.grid.populated
        &&& forall|p: (int, int)|
            earlier.grid.in_bounds(p) ==> (#[trigger] self.grid.at(p)).mine == earlier.grid.at(
                p,
            ).mine && self.grid.at(p).neighbour_mine_count == earlier.grid.at(
                p,
            ).neighbour_mine_count && (earlier.grid.at(p).visibility == Visibility::Revealed
                ==> self.grid.at(p).visibility == Visibility::Revealed)
        &&& earlier.blown is Some ==> self.blown == earlier.blown
    }
}

/// One step of a run of reveals keeps the sweep sound.
pub proof fn lemma_open_next_sound(sweep: Sweep, p: (int, int))
    requires
        sweep.sound(),
        sweep.grid.in_bounds(p),
    ensures
        sweep.open_next(p).sound(),
        sweep.open_next(p).follows(sweep),
{
    let g = sweep.grid;
    let next = sweep.open_next(p);
    let tile = g.at(p);
    if tile.visibility == Visibility::Flagged {
    } else if tile.mine || sweep.blown is Some {
        lemma_with_visibility(g, p, Visibility::Revealed);
        lemma_same_ground(g, next.grid);
        assert forall|q: (int, int)| g.in_bounds(q) implies (#[trigger] next.grid.at(q)).mine
            == g.at(q).mine && next.grid.at(q).neighbour_mine_count == g.at(
            q,
        ).neighbour_mine_count && (g.at(q).visibility == Visibility::Revealed ==> next.grid.at(
            q,
        ).visibility == Visibility::Revealed) by {
            if q != p {
                assert(next.grid.at(q) == g.at(q));
            }
        }
    } else {
        lemma_reveal_opens(g, p);
        law_reveal_keeps_regions_whole(g, p);
        assert forall|q: (int, int)|
            next.grid.in_bounds(q) && (#[trigger] next.grid.at(q)).visibility
                == Visibility::Revealed implies !next.grid.at(q).mine by {
            if q != p && g.at(q).mine {
                assert(next.grid.at(q).visibility == g.at(q).visibility);
                assert(g.at(q).visibility != Visibility::Revealed);
            }
        }
    }
}

/// A run of reveals from a grid on which no mine is revealed and the regions
/// are whole leaves a sound sweep.
pub proof fn lemma_open_each_sound(g: GridView, list: Seq<(int, int)>)
    requires
        g.wf(),
        g.safe(),
        g.regions_whole(),
        forall|i: int| 0 <= i < list.len() ==> g.in_bounds(#[trigger] list[i]),
    ensures
        g.open_each(list).sound(),
        g.open_each(list).follows(Sweep { grid: g, blown: None }),
    decreases list.len(),
{
    if list.len() > 0 {
        let front = list.drop_last();
        assert forall|i: int| 0 <= i < front.len() implies g.in_bounds(#[trigger] front[i]) by {
            assert(front[i] == list[i]);
        }
        lemma_open_each_sound(g, front);
        assert(list.last() == list[list.len() - 1]);
        lemma_open_next_sound(g.open_each(front), list.last());
    }
}

/// A chord during play leaves a sound sweep.
pub proof fn lemma_chord_sound(g: GridView, p: (int, int))
    requires
        g.wf(),
        g.safe(),
        g.regions_whole(),
        g.in_bounds(p),
    ensures
        g.after_chord(p).sound(),
        g.after_chord(p).follows(Sweep { grid: g, blown: None }),
{
    lemma_neighbours(p, g.width as int, g.height as int);
    lemma_open_each_sound(g, g.neighbours(p));
}

/// What is seen more of once more stays so: the relation goes on over two
/// steps.
pub proof fn lemma_opened_on(a: GridView, b: GridView, c: GridView)
    requires
        a.opened_into(b),
        b.opened_into(c),
    ensures
        a.opened_into(c),
{
    assert forall|p: (int, int)| a.in_bounds(p) implies (#[trigger] c.at(p)).mine == a.at(p).mine
        && c.at(p).neighbour_mine_count == a.at(p).neighbour_mine_count && (c.at(p).visibility
        == a.at(p).visibility || c.at(p).visibility == Visibility::Revealed) by {
        assert(b.at(p).mine == a.at(p).mine);
    }
}

/// One step of a run of reveals hides nothing and sets no flag.
pub proof fn lemma_open_next_opens(sweep: Sweep, p: (int, int))
    requires
        sweep.grid.wf(),
        sweep.grid.in_bounds(p),
    ensures
        sweep.open_next(p).grid.wf(),
        sweep.grid.opened_into(sweep.open_next(p).grid),
{
    lemma_with_visibility(sweep.grid, p, Visibility::Revealed);
    lemma_same_ground(sweep.grid, sweep.grid.with_visibility(p, Visibility::Revealed));
    lemma_reveal_opens(sweep.grid, p);
}

/// A run of reveals hides nothing and sets no flag.
pub proof fn lemma_open_each_opens(g: GridView, list: Seq<(int, int)>)
    requires
        g.wf(),
        forall|i: int| 0 <= i < list.len() ==> g.in_bounds(#[trigger] list[i]),
    ensures
        g.open_each(list).grid.wf(),
        g.opened_into(g.open_each(list).grid),
    decreases list.len(),
{
    if list.len() > 0 {
        let front = list.drop_last();
        assert forall|i: int| 0 <= i < front.len() implies g.in_bounds(#[trigger] front[i]) by {
            assert(front[i] == list[i]);
        }
        lemma_open_each_opens(g, front);
        assert(list.last() == list[list.len() - 1]);
        let before = g.open_each(front);
        lemma_open_next_opens(before, list.last());
        lemma_opened_on(g, before.grid, before.open_next(list.last()).grid);
    }
}

/// A chord hides nothing and sets no flag.
pub proof fn lemma_chord_opens(g: GridView, p: (int, int))
    requires
        g.wf(),
        g.in_bounds(p),
    ensures
        g.after_chord(p).grid.wf(),
        g.opened_into(g.after_chord(p).grid),
{
    lemma_neighbours(p, g.width as int, g.height as int);
    lemma_open_each_opens(g, g.neighbours(p));
}

} // verus!
