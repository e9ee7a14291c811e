//! Laying the mines: at random over the whole board, or so that a chosen
//! start and everything around it stays clear.

use crate::error::ConfigError;
use crate::grid::{lemma_cell_at, lemma_count_in_zero, lemma_count_tiles_range,
    lemma_count_tiles_update, lemma_counted, lemma_index, one_if, place, raw, Grid, GridView};
use crate::neighbourhood::{adjacent, cell, cells, lemma_neighbours, neighbour_seq, neighbours};
use crate::tile::{Mark, Tile, Visibility};
use vstd::prelude::*;

verus! {

/// How many draws of a cell the generator spends on each mine, taken over
/// all mines together, before it draws among the free cells only.
pub const DRAWS_PER_MINE: usize = 16;

/// How many whole layouts the fair generator draws and discards before it
/// lays the mines outside the start's surroundings directly.
pub const FAIR_ATTEMPTS: usize = 256;

/// The random number generator of the `fastrand` crate, `fastrand::Rng`.
/// Nothing is known of what it holds.
#[verifier::external_type_specification]
#[verifier::external_body]
pub struct ExRng(fastrand::Rng);

/// Draws a number with `fastrand::Rng::usize` from the range `0..bound`.
/// Of the number drawn only this is claimed: it lies in that range. The
/// range must not be empty, or `fastrand` would panic.
#[verifier::external_body]
fn draw_below(rng: &mut fastrand::Rng, bound: usize) -> (drawn: usize)
    requires
        bound > 0,
    ensures
        drawn < bound,
{
    rng.usize(0..bound)
}

/// How many of the flags are set.
pub open spec fn count_true(flags: Seq<bool>) -> nat
    decreases flags.len(),
{
    if flags.len() == 0 {
        0
    } else {
        count_true(flags.drop_last()) + one_if(flags.last())
    }
}

/// What setting or clearing one flag does to the count.
proof fn lemma_count_true_update(flags: Seq<bool>, i: int, flag: bool)
    requires
        0 <= i < flags.len(),
    ensures
        count_true(flags.update(i, flag)) + one_if(flags[i]) == count_true(flags) + one_if(flag),
    decreases flags.len(),
{
    let after = flags.update(i, flag);
    if i == flags.len() - 1 {
        assert(after.drop_last() =~= flags.drop_last());
    } else {
        assert(after.drop_last() =~= flags.drop_last().update(i, flag));
        lemma_count_true_update(flags.drop_last(), i, flag);
    }
}

/// What one more flag does to the count.
proof fn lemma_count_true_push(flags: Seq<bool>, flag: bool)
    ensures
        count_true(flags.push(flag)) == count_true(flags) + one_if(flag),
{
    assert(flags.push(flag).drop_last() =~= flags);
}

/// No more flags are set than there are.
proof fn lemma_count_true_bound(flags: Seq<bool>)
    ensures
        count_true(flags) <= flags.len(),
    decreases flags.len(),
{
    if flags.len() > 0 {
        lemma_count_true_bound(flags.drop_last());
    }
}

/// The model of a mine field in the making: the ground with the mines laid
/// so far, and the start that is kept clear with its surroundings, if any.
pub struct MineFieldView {
    pub ground: GridView,
    pub keep_clear: Option<(int, int)>,
}

impl MineFieldView {
    /// Whether the cell is kept clear of mines: it is the start or lies next
    /// to it.
    pub open spec fn kept(self, p: (int, int)) -> bool {
        match self.keep_clear {
            Some(s) => p == s || adjacent(s, p),
            None => false,
        }
    }

    /// Whether a mine can still be laid on the cell.
    pub open spec fn free(self, p: (int, int)) -> bool {
        self.ground.in_bounds(p) && !self.ground.at(p).mine && !self.kept(p)
    }

    /// How many cells of the board are kept clear.
    pub open spec fn zone(self) -> nat {
        match self.keep_clear {
            Some(s) => self.ground.neighbours(s).len() + 1,
            None => 0,
        }
    }

    /// How many mines have been laid.
    pub open spec fn placed(self) -> nat {
        self.ground.total(Mark::Mine)
    }

    /// How many cells are free.
    pub open spec fn free_count(self) -> int {
        self.ground.width * self.ground.height - self.placed() - self.zone()
    }

    /// How many of the first `i` cells, taken row by row, are free.
    pub open spec fn free_before(self, i: int) -> nat
        decreases i,
    {
        if i <= 0 {
            0
        } else {
            self.free_before(i - 1) + one_if(self.free(self.ground.cell_at(i - 1)))
        }
    }

    /// The field with one more mine.
    pub open spec fn with_mine(self, p: (int, int)) -> MineFieldView {
        MineFieldView {
            ground: GridView {
                tiles: self.ground.tiles.update(
                    self.ground.index(p),
                    Tile { mine: true, ..self.ground.at(p) },
                ),
                ..self.ground
            },
            ..self
        }
    }
}

/// A mine field in the making. Mines are laid one at a time on free cells:
/// cells that hold no mine yet and are not kept clear.
pub struct MineField {
    width: usize,
    height: usize,
    keep_clear: Option<(usize, usize)>,
    tiles: Vec<Tile>,
    blocked: Vec<bool>,
    taken: usize,
    placed: usize,
}

impl View for MineField {
    type V = MineFieldView;

    closed spec fn view(&self) -> MineFieldView {
        MineFieldView {
            ground: raw(self.tiles@, self.width, self.height),
            keep_clear: match self.keep_clear {
                Some(s) => Some(cell(s.0, s.1)),
                None => None,
            },
        }
    }
}

impl MineField {
    /// The field's invariant: a cell is blocked exactly when it is not free,
    /// the counts are right, the start lies on the board, and every tile is
    /// hidden.
    pub closed spec fn wf(&self) -> bool {
        &&& self@.ground.shaped()
        &&& self.blocked@.len() == self.tiles@.len()
        &&& forall|i: int|
            0 <= i < self.blocked@.len() ==> #[trigger] self.blocked@[i] == !self@.free(
                self@.ground.cell_at(i),
            )
        &&& self.taken == count_true(self.blocked@)
        &&& self.placed == self@.placed()
        &&& self.taken == self@.placed() + self@.zone()
        &&& self@.keep_clear matches Some(s) ==> self@.ground.in_bounds(s)
        &&& forall|i: int|
            0 <= i < self.tiles@.len() ==> (#[trigger] self.tiles@[i]).visibility
                == Visibility::Hidden && self.tiles@[i].neighbour_mine_count == 0 && !(
            self.tiles@[i].mine && self@.kept(self@.ground.cell_at(i)))
    }

    /// Of the first `i` cells, those that are not blocked are free.
    proof fn lemma_free_before(&self, i: int)
        requires
            self.wf(),
            0 <= i <= self.blocked@.len(),
        ensures
            self@.free_before(i) + count_true(self.blocked@.take(i)) == i,
        decreases i,
    {
        if i > 0 {
            self.lemma_free_before(i - 1);
            assert(self.blocked@.take(i).drop_last() =~= self.blocked@.take(i - 1));
            assert(self.blocked@.take(i).last() == self.blocked@[i - 1]);
        }
    }

    /// A field without mines on a board of the given size. With a start given,
    /// the start and its neighbours are kept clear. The field is refused only
    /// when the board would have more cells than the machine can count.
    pub fn new(width: usize, height: usize, keep_clear: Option<(usize, usize)>) -> (made: Result<
        MineField,
        ConfigError,
    >)
        requires
            keep_clear matches Some(s) ==> s.0 < width && s.1 < height,
        ensures
            match made {
                Ok(field) => {
                    &&& width * height <= usize::MAX
                    &&& field.wf()
                    &&& field@.ground.shaped()
                    &&& field@.ground.width == width
                    &&& field@.ground.height == height
                    &&& field@.placed() == 0
                    &&& field@.keep_clear == match keep_clear {
                        Some(s) => Some(cell(s.0, s.1)),
                        None => None,
                    }
                    &&& forall|p: (int, int)|
                        field@.ground.in_bounds(p) ==> !(#[trigger] field@.ground.at(p)).mine
                },
                Err(e) => e == ConfigError::TooLarge && width * height > usize::MAX,
            },
    {
        let area = match width.checked_mul(height) {
            Some(area) => area,
            None => {
                return Err(ConfigError::TooLarge);
            },
        };
        let mut tiles: Vec<Tile> = Vec::new();
        let mut blocked: Vec<bool> = Vec::new();
        while tiles.len() < area
            invariant
                tiles@.len() <= area,
                blocked@.len() == tiles@.len(),
                count_true(blocked@) == 0,
                forall|i: int| 0 <= i < tiles@.len() ==> #[trigger] tiles@[i] == Tile::empty(),
                forall|i: int| 0 <= i < blocked@.len() ==> !#[trigger] blocked@[i],
            decreases area - tiles@.len(),
        {
            proof {
                lemma_count_true_push(blocked@, false);
            }
            tiles.push(Tile::blank());
            blocked.push(false);
        }
        let ghost ground = raw(tiles@, width, height);
        proof {
            lemma_count_tiles_range(tiles@, Mark::Mine);
            assert forall|p: (int, int)| ground.in_bounds(p) implies !(#[trigger] ground.at(
                p,
            )).mine by {
                lemma_index(ground, p);
            }
        }
        let mut taken: usize = 0;
        if let Some((col, row)) = keep_clear {
            let ghost s = cell(col, row);
            let near = neighbours(col, row, width, height);
            let ghost list = neighbour_seq(s, width as int, height as int);
            proof {
                lemma_neighbours(s, width as int, height as int);
                lemma_index(ground, s);
                lemma_count_true_update(blocked@, ground.index(s), true);
            }
            let at = place(&tiles, width, height, col, row);
            blocked[at] = true;
            taken = 1;
            let mut k: usize = 0;
            proof {
                assert forall|i: int| 0 <= i < blocked@.len() implies #[trigger] blocked@[i] == (
                ground.cell_at(i) == s || list.take(0).contains(ground.cell_at(i))) by {
                    lemma_cell_at(ground, i);
                }
            }
            while k < near.len()
                invariant
                    k <= near.len() <= 8,
                    cells(near@) == list,
                    list == neighbour_seq(s, width as int, height as int),
                    list.no_duplicates(),
                    forall|i: int|
                        0 <= i < list.len() ==> ground.in_bounds(#[trigger] list[i]) && adjacent(
                            s,
                            list[i],
                        ),
                    ground == raw(tiles@, width, height),
                    ground.shaped(),
                    ground.in_bounds(s),
                    blocked@.len() == tiles@.len(),
                    taken == count_true(blocked@),
                    taken == 1 + k,
                    forall|i: int|
                        0 <= i < blocked@.len() ==> #[trigger] blocked@[i] == (ground.cell_at(i)
                            == s || list.take(k as int).contains(ground.cell_at(i))),
                decreases near.len() - k,
            {
                let (c, r) = near[k];
                let ghost n = cell(c, r);
                let ghost then = list.take(k as int);
                let ghost now = list.take(k + 1);
                let ghost before = blocked@;
                proof {
                    assert(list[k as int] == n);
                    lemma_index(ground, n);
                    if then.contains(n) {
                        let i = choose|i: int| 0 <= i < then.len() && then[i] == n;
                        assert(list[i] == list[k as int]);
                    }
                    assert(!before[ground.index(n)]);
                    lemma_count_true_update(before, ground.index(n), true);
                }
                let at = place(&tiles, width, height, c, r);
                blocked[at] = true;
                taken = taken + 1;
                proof {
                    assert(now[k as int] == n);
                    assert forall|i: int| 0 <= i < blocked@.len() implies #[trigger] blocked@[i]
                        == (ground.cell_at(i) == s || now.contains(ground.cell_at(i))) by {
                        lemma_cell_at(ground, i);
                        let q = ground.cell_at(i);
                        if then.contains(q) {
                            let j = choose|j: int| 0 <= j < then.len() && then[j] == q;
                            assert(now[j] == q);
                        }
                        if now.contains(q) && q != n {
                            let j = choose|j: int| 0 <= j < now.len() && now[j] == q;
                            assert(then[j] == q);
                        }
                    }
                }
                k = k + 1;
            }
            proof {
                assert(list.take(k as int) =~= list);
            }
        }
        let field = MineField { width, height, keep_clear, tiles, blocked, taken, placed: 0 };
        proof {
            assert forall|i: int| 0 <= i < field.blocked@.len() implies #[trigger] field.blocked@[i]
                == !field@.free(field@.ground.cell_at(i)) by {
                lemma_cell_at(ground, i);
                match keep_clear {
                    Some(s) => {
                        lemma_neighbours(cell(s.0, s.1), width as int, height as int);
                    },
                    None => {},
                }
            }
        }
        Ok(field)
    }

    /// How many mines have been laid.
    pub fn placed(&self) -> (n: usize)
        requires
            self.wf(),
        ensures
            n == self@.placed(),
    {
        self.placed
    }

    /// How many cells are free.
    pub fn free(&self) -> (n: usize)
        requires
            self.wf(),
        ensures
            n == self@.free_count(),
    {
        proof {
            lemma_count_true_bound(self.blocked@);
        }
        self.blocked.len() - self.taken
    }

    /// The number of columns.
    pub fn width(&self) -> (width: usize)
        ensures
            width == self@.ground.width,
    {
        self.width
    }

    /// The number of rows.
    pub fn height(&self) -> (height: usize)
        ensures
            height == self@.ground.height,
    {
        self.height
    }

    /// Lays a mine on the tile at place `at`, which is free.
    fn lay(&mut self, at: usize)
        requires
            old(self).wf(),
            at < old(self).tiles@.len(),
            old(self)@.free(old(self)@.ground.cell_at(at as int)),
        ensures
            final(self).wf(),
            final(self)@ == old(self)@.with_mine(old(self)@.ground.cell_at(at as int)),
            final(self)@.placed() == old(self)@.placed() + 1,
    {
        let ghost before = self@;
        let ghost p = before.ground.cell_at(at as int);
        proof {
            lemma_cell_at(before.ground, at as int);
            lemma_count_true_update(self.blocked@, at as int, true);
            lemma_count_tiles_update(
                self.tiles@,
                at as int,
                Tile { mine: true, ..self.tiles@[at as int] },
                Mark::Mine,
            );
            assert(!self.blocked@[at as int]);
            assert(self.blocked@.len() == self.blocked.len());
            lemma_count_true_bound(self.blocked@.update(at as int, true));
            lemma_count_tiles_range(
                self.tiles@.update(at as int, Tile { mine: true, ..self.tiles@[at as int] }),
                Mark::Mine,
            );
        }
        let tile = self.tiles[at];
        self.tiles[at] = Tile {
            mine: true,
            neighbour_mine_count: tile.neighbour_mine_count,
            visibility: tile.visibility,
        };
        self.blocked[at] = true;
        self.taken = self.taken + 1;
        self.placed = self.placed + 1;
        proof {
            let after = self@;
            assert(after.ground.tiles =~= before.with_mine(p).ground.tiles);
            assert forall|i: int| 0 <= i < self.blocked@.len() implies #[trigger] self.blocked@[i]
                == !after.free(after.ground.cell_at(i)) by {
                lemma_cell_at(before.ground, i);
            }
        }
    }

    /// Lays a mine on the cell at (`col`, `row`) if the cell is free, and
    /// says whether it did.
    pub fn offer(&mut self, col: usize, row: usize) -> (laid: bool)
        requires
            old(self).wf(),
            old(self)@.ground.in_bounds(cell(col, row)),
        ensures
            final(self).wf(),
            old(self)@.ground.shaped(),
            final(self)@.ground.shaped(),
            laid == old(self)@.free(cell(col, row)),
            final(self)@ == if laid {
                old(self)@.with_mine(cell(col, row))
            } else {
                old(self)@
            },
            final(self)@.placed() == old(self)@.placed() + one_if(laid),
    {
        proof {
            lemma_index(self@.ground, cell(col, row));
        }
        let at = place(&self.tiles, self.width, self.height, col, row);
        if self.blocked[at] {
            return false;
        }
        self.lay(at);
        true
    }

    /// Lays a mine on one of the free cells: on the one that has `k` free
    /// cells before it where the cells are taken row by row. Returns its
    /// column and row.
    pub fn place_nth_free(&mut self, k: usize) -> (at: (usize, usize))
        requires
            old(self).wf(),
            k < old(self)@.free_count(),
        ensures
            final(self).wf(),
            old(self)@.ground.shaped(),
            final(self)@.ground.shaped(),
            old(self)@.free(cell(at.0, at.1)),
            old(self)@.free_before(old(self)@.ground.index(cell(at.0, at.1))) == k,
            final(self)@ == old(self)@.with_mine(cell(at.0, at.1)),
            final(self)@.placed() == old(self)@.placed() + 1,
    {
        let ghost field = self@;
        let len = self.blocked.len();
        proof {
            self.lemma_free_before(len as int);
            assert(self.blocked@.take(len as int) =~= self.blocked@);
        }
        let mut i: usize = 0;
        let mut seen: usize = 0;
        while self.blocked[i] || seen < k
            invariant
                self.wf(),
                self@ == field,
                len == self.blocked@.len(),
                i < len,
                seen == field.free_before(i as int),
                seen <= k < field.free_before(len as int),
            decreases len - i,
        {
            if !self.blocked[i] {
                seen = seen + 1;
            }
            i = i + 1;
            proof {
                if i == len {
                    assert(false);
                }
            }
        }
        proof {
            lemma_cell_at(field.ground, i as int);
            assert(self.width > 0) by (nonlinear_arith)
                requires
                    self.width * self.height > 0,
            ;
        }
        self.lay(i);
        (i % self.width, i / self.width)
    }

    /// The grid with the mines that were laid: every tile hidden and counted.
    /// Where a start was kept clear, it holds no mine and has none around it.
    pub fn into_grid(self) -> (grid: Grid)
        requires
            self.wf(),
        ensures
            grid.wf(),
            grid@.populated,
            grid@.width == self@.ground.width,
            grid@.height == self@.ground.height,
            grid@.mine_count == self@.placed(),
            forall|p: (int, int)|
                grid@.in_bounds(p) ==> (#[trigger] grid@.at(p)).mine == self@.ground.at(p).mine
                    && grid@.at(p).visibility == Visibility::Hidden,
            self@.keep_clear matches Some(s) ==> !grid@.at(s).mine && grid@.at(
                s,
            ).neighbour_mine_count == 0,
    {
        let ghost field = self@;
        let grid = Grid::assemble(self.width, self.height, self.tiles);
        proof {
            let g = grid@;
            assert forall|p: (int, int)| g.in_bounds(p) implies (#[trigger] g.at(p)).mine
                == field.ground.at(p).mine && g.at(p).visibility == Visibility::Hidden && (
            field.kept(p) ==> !g.at(p).mine) by {
                lemma_index(g, p);
                lemma_index(field.ground, p);
            }
            match field.keep_clear {
                Some(s) => {
                    let list = g.neighbours(s);
                    lemma_neighbours(s, g.width as int, g.height as int);
                    assert forall|i: int| 0 <= i < list.len() implies !g.at(
                        #[trigger] list[i],
                    ).has(Mark::Mine) by {
                        assert(field.kept(list[i]));
                        assert(!g.at(list[i]).mine);
                    }
                    lemma_count_in_zero(g, list, Mark::Mine);
                    lemma_counted(g, s);
                    assert(field.kept(s));
                    assert(!g.at(s).mine);
                },
                None => {},
            }
        }
        grid
    }
}

/// Lays `mine_count` more mines on free cells of the field. A cell is drawn
/// at random and takes the mine if it is free; after `DRAWS_PER_MINE` draws
/// for each mine, the mines that are still to be laid go to cells drawn at
/// random among the free ones.
fn fill(field: &mut MineField, mine_count: usize, rng: &mut fastrand::Rng)
    requires
        old(field).wf(),
        mine_count <= old(field)@.free_count(),
    ensures
        final(field).wf(),
        final(field)@.placed() == old(field)@.placed() + mine_count,
        final(field)@.keep_clear == old(field)@.keep_clear,
        final(field)@.ground.width == old(field)@.ground.width,
        final(field)@.ground.height == old(field)@.ground.height,
{
    let ghost start = field@;
    let width = field.width();
    let height = field.height();
    let first = field.placed();
    let mut budget = match mine_count.checked_mul(DRAWS_PER_MINE) {
        Some(budget) => budget,
        None => usize::MAX,
    };
    let mut laid: usize = 0;
    while laid < mine_count && budget > 0
        invariant
            field.wf(),
            width == field@.ground.width,
            height == field@.ground.height,
            field@.keep_clear == start.keep_clear,
            field@.ground.width == start.ground.width,
            field@.ground.height == start.ground.height,
            laid <= mine_count <= start.free_count(),
            field@.placed() == start.placed() + laid,
        decreases budget,
    {
        proof {
            assert(width > 0 && height > 0) by (nonlinear_arith)
                requires
                    width * height > 0,
            ;
        }
        let col = draw_below(rng, width);
        let row = draw_below(rng, height);
        if field.offer(col, row) {
            laid = laid + 1;
        }
        budget = budget - 1;
    }
    while laid < mine_count
        invariant
            field.wf(),
            field@.keep_clear == start.keep_clear,
            field@.ground.width == start.ground.width,
            field@.ground.height == start.ground.height,
            laid <= mine_count <= start.free_count(),
            field@.placed() == start.placed() + laid,
        decreases mine_count - laid,
    {
        let free = field.free();
        let k = draw_below(rng, free);
        field.place_nth_free(k);
        laid = laid + 1;
    }
}

/// A grid of the given size with `mine_count` mines laid at random, every
/// tile hidden, and each tile's count set to the number of mines around it.
/// For each mine a cell is drawn from the whole board, and drawn again if it
/// holds a mine already; after `DRAWS_PER_MINE` draws for each mine the
/// mines that are left go to cells drawn among the free ones, so that the
/// generator comes to an end. The grid is refused when the board would have
/// more cells than the machine can count, and otherwise when it has fewer
/// cells than mines are asked for.
pub fn generate(mine_count: usize, width: usize, height: usize, rng: &mut fastrand::Rng) -> (made:
    Result<Grid, ConfigError>)
    ensures
        match made {
            Ok(grid) => {
                &&& mine_count <= width * height <= usize::MAX
                &&& grid.wf()
                &&& grid@.populated
                &&& grid@.width == width
                &&& grid@.height == height
                &&& grid@.mine_count == mine_count
                &&& grid@.total(Mark::Mine) == mine_count
                &&& forall|p: (int, int)|
                    grid@.in_bounds(p) ==> (#[trigger] grid@.at(p)).visibility
                        == Visibility::Hidden
            },
            Err(e) => if width * height > usize::MAX {
                e == ConfigError::TooLarge
            } else {
                e == ConfigError::TooManyMines && mine_count > width * height
            },
        },
{
    let mut field = match MineField::new(width, height, None) {
        Ok(field) => field,
        Err(e) => {
            return Err(e);
        },
    };
    if mine_count > field.free() {
        return Err(ConfigError::TooManyMines);
    }
    fill(&mut field, mine_count, rng);
    Ok(field.into_grid())
}

/// A grid as `generate` makes it on which the start at (`start_col`,
/// `start_row`) holds no mine and has none around it. Layouts are drawn with
/// `generate` until one is fair; after `FAIR_ATTEMPTS` of them the mines are
/// laid at random on the cells outside the start's surroundings. The grid is
/// refused when the board would have more cells than the machine can count,
/// and otherwise when the mines do not fit beside the start and its
/// neighbours.
pub fn generate_fair(
    start_col: usize,
    start_row: usize,
    mine_count: usize,
    width: usize,
    height: usize,
    rng: &mut fastrand::Rng,
) -> (made: Result<Grid, ConfigError>)
    requires
        start_col < width,
        start_row < height,
    ensures
        match made {
            Ok(grid) => {
                &&& width * height <= usize::MAX
                &&& mine_count + neighbour_seq(
                    cell(start_col, start_row),
                    width as int,
                    height as int,
                ).len() + 1 <= width * height
                &&& grid.wf()
                &&& grid@.populated
                &&& grid@.width == width
                &&& grid@.height == height
                &&& grid@.mine_count == mine_count
                &&& grid@.total(Mark::Mine) == mine_count
                &&& forall|p: (int, int)|
                    grid@.in_bounds(p) ==> (#[trigger] grid@.at(p)).visibility
                        == Visibility::Hidden
                &&& !grid@.at(cell(start_col, start_row)).mine
                &&& grid@.at(cell(start_col, start_row)).neighbour_mine_count == 0
            },
            Err(e) => if width * height > usize::MAX {
                e == ConfigError::TooLarge
            } else {
                e == ConfigError::NoFairStart && mine_count + neighbour_seq(
                    cell(start_col, start_row),
                    width as int,
                    height as int,
                ).len() + 1 > width * height
            },
        },
{
    let mut field = match MineField::new(width, height, Some((start_col, start_row))) {
        Ok(field) => field,
        Err(e) => {
            return Err(e);
        },
    };
    if mine_count > field.free() {
        return Err(ConfigError::NoFairStart);
    }
    let mut attempts: usize = 0;
    while attempts < FAIR_ATTEMPTS
        invariant
            start_col < width,
            start_row < height,
            mine_count <= width * height <= usize::MAX,
            mine_count + neighbour_seq(
                cell(start_col, start_row),
                width as int,
                height as int,
            ).len() + 1 <= width * height,
        decreases FAIR_ATTEMPTS - attempts,
    {
        if let Ok(grid) = generate(mine_count, width, height, rng) {
            let tile = grid.tile(start_col, start_row);
            if !tile.mine && tile.neighbour_mine_count == 0 {
                return Ok(grid);
            }
        }
        attempts = attempts + 1;
    }
    fill(&mut field, mine_count, rng);
    Ok(field.into_grid())
}

} // verus!
