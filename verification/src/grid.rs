//! The grid: a rectangle of tiles stored row by row, and its model.

use crate::error::ConfigError;
use crate::neighbourhood::{cell, cells, in_bounds, lemma_neighbours, neighbour_seq, neighbours};
use crate::tile::{Mark, Tile, Visibility};
use vstd::prelude::*;

verus! {

/// One if the condition holds, zero otherwise.
pub open spec fn one_if(b: bool) -> nat {
    if b {
        1
    } else {
        0
    }
}

/// How many of the tiles have the mark.
pub open spec fn count_tiles(tiles: Seq<Tile>, mark: Mark) -> nat
    decreases tiles.len(),
{
    if tiles.len() == 0 {
        0
    } else {
        count_tiles(tiles.drop_last(), mark) + one_if(tiles.last().has(mark))
    }
}

/// Whether `mine_count` mines fit on a board of the given size beside the
/// cell `s` and its neighbours.
pub open spec fn fits_beside(s: (int, int), width: nat, height: nat, mine_count: nat) -> bool {
    mine_count + neighbour_seq(s, width as int, height as int).len() + 1 <= width * height
}

/// Whether a board of the given size has a cell beside which, and beside
/// whose neighbours, `mine_count` mines fit.
pub open spec fn fair_start_exists(width: nat, height: nat, mine_count: nat) -> bool {
    exists|s: (int, int)|
        in_bounds(s, width as int, height as int) && #[trigger] fits_beside(
            s,
            width,
            height,
            mine_count,
        )
}

/// The model of a grid: its size, the number of mines it is configured for,
/// whether the mines have been laid, and its tiles row by row.
pub struct GridView {
    pub width: nat,
    pub height: nat,
    pub mine_count: nat,
    pub populated: bool,
    pub tiles: Seq<Tile>,
}

impl GridView {
    /// Whether the point is a cell of this grid.
    pub open spec fn in_bounds(self, p: (int, int)) -> bool {
        in_bounds(p, self.width as int, self.height as int)
    }

    /// Where the cell stands among the tiles.
    pub open spec fn index(self, p: (int, int)) -> int {
        p.1 * self.width + p.0
    }

    /// The cell that stands at the given place among the tiles.
    pub open spec fn cell_at(self, i: int) -> (int, int) {
        (i % (self.width as int), i / (self.width as int))
    }

    /// The tile of a cell.
    pub open spec fn at(self, p: (int, int)) -> Tile {
        self.tiles[self.index(p)]
    }

    /// The neighbours of a cell on this grid.
    pub open spec fn neighbours(self, p: (int, int)) -> Seq<(int, int)> {
        neighbour_seq(p, self.width as int, self.height as int)
    }

    /// How many cells of the list have the mark; a cell listed twice counts twice.
    pub open spec fn count_in(self, list: Seq<(int, int)>, mark: Mark) -> nat
        decreases list.len(),
    {
        if list.len() == 0 {
            0
        } else {
            self.count_in(list.drop_last(), mark) + one_if(self.at(list.last()).has(mark))
        }
    }

    /// How many neighbours of the cell have the mark.
    pub open spec fn around(self, p: (int, int), mark: Mark) -> nat {
        self.count_in(self.neighbours(p), mark)
    }

    /// How many cells of the grid have the mark.
    pub open spec fn total(self, mark: Mark) -> nat {
        count_tiles(self.tiles, mark)
    }

    /// There is one tile for each cell.
    pub open spec fn shaped(self) -> bool {
        self.tiles.len() == self.width * self.height
    }

    /// Each tile's count is the number of mines around it.
    #[verifier::opaque]
    pub open spec fn counted(self) -> bool {
        forall|p: (int, int)|
            self.in_bounds(p) ==> (#[trigger] self.at(p)).neighbour_mine_count == self.around(
                p,
                Mark::Mine,
            )
    }

    /// The grid's invariant: one tile for each cell, each tile's count is the
    /// number of mines around it, and the grid holds no mine before the mines
    /// are laid and as many as it is configured for afterwards.
    pub open spec fn wf(self) -> bool {
        &&& self.shaped()
        &&& self.counted()
        &&& self.total(Mark::Mine) == if self.populated {
            self.mine_count
        } else {
            0
        }
    }

    /// Whether two grids have the same size, configuration and mines: they
    /// differ in what the player sees at most.
    pub open spec fn same_ground(self, other: GridView) -> bool {
        &&& self.width == other.width
        &&& self.height == other.height
        &&& self.mine_count == other.mine_count
        &&& self.populated == other.populated
        &&& self.tiles.len() == other.tiles.len()
        &&& forall|i: int|
            0 <= i < self.tiles.len() ==> (#[trigger] self.tiles[i]).mine == other.tiles[i].mine
                && self.tiles[i].neighbour_mine_count == other.tiles[i].neighbour_mine_count
    }

    /// The grid with one cell seen differently.
    pub open spec fn with_visibility(self, p: (int, int), visibility: Visibility) -> GridView {
        GridView {
            tiles: self.tiles.update(self.index(p), self.at(p).seen_as(visibility)),
            ..self
        }
    }

    /// The grid with every cell seen as the function says.
    pub open spec fn repaint(self, paint: spec_fn((int, int)) -> Visibility) -> GridView {
        GridView {
            tiles: Seq::new(
                self.tiles.len(),
                |i: int| self.tiles[i].seen_as(paint(self.cell_at(i))),
            ),
            ..self
        }
    }

    /// No mine is revealed.
    pub open spec fn safe(self) -> bool {
        forall|p: (int, int)|
            self.in_bounds(p) && (#[trigger] self.at(p)).visibility == Visibility::Revealed
                ==> !self.at(p).mine
    }

    /// Every cell without a mine is revealed.
    pub open spec fn cleared(self) -> bool {
        forall|p: (int, int)|
            self.in_bounds(p) && !(#[trigger] self.at(p)).mine ==> self.at(p).visibility
                == Visibility::Revealed
    }

    /// Every cell is hidden.
    pub open spec fn untouched(self) -> bool {
        forall|p: (int, int)|
            self.in_bounds(p) ==> (#[trigger] self.at(p)).visibility == Visibility::Hidden
    }

    /// The cells of the grid that have the mark.
    pub open spec fn marked(self, mark: Mark) -> Set<(int, int)> {
        Set::new(|p: (int, int)| self.in_bounds(p) && self.at(p).has(mark))
    }

    /// The grid with every cell that has the mark revealed.
    pub open spec fn revealing(self, mark: Mark) -> GridView {
        self.repaint(
            |p: (int, int)|
                if self.at(p).has(mark) {
                    Visibility::Revealed
                } else {
                    self.at(p).visibility
                },
        )
    }

    /// The grid as it is shown after a loss: every mine without a flag is
    /// revealed, and so is every flag without a mine.
    pub open spec fn laid_bare(self) -> GridView {
        self.revealing(Mark::UnflaggedMine).revealing(Mark::Misflagged)
    }

    /// Whether some layout of the grid's mines leaves a start and everything
    /// around it clear.
    pub open spec fn admits_fair_start(self) -> bool {
        fair_start_exists(self.width, self.height, self.mine_count)
    }

    /// Whether the mines fit on the cells other than `s` and its neighbours.
    pub open spec fn fair_start(self, s: (int, int)) -> bool {
        fits_beside(s, self.width, self.height, self.mine_count)
    }
}

/// A cell of the grid stands among the tiles, and no two cells at the same place.
pub proof fn lemma_index(g: GridView, p: (int, int))
    requires
        g.shaped(),
        g.in_bounds(p),
    ensures
        0 <= g.index(p) < g.tiles.len(),
        g.cell_at(g.index(p)) == p,
{
    let w = g.width as int;
    let h = g.height as int;
    assert(0 <= p.1 * w + p.0 < w * h) by (nonlinear_arith)
        requires
            0 <= p.0 < w,
            0 <= p.1 < h,
    ;
    assert((p.1 * w + p.0) % w == p.0 && (p.1 * w + p.0) / w == p.1) by (nonlinear_arith)
        requires
            0 <= p.0 < w,
            0 <= p.1,
    ;
}

/// Each place among the tiles is that of one cell of the grid.
pub proof fn lemma_cell_at(g: GridView, i: int)
    requires
        g.shaped(),
        0 <= i < g.tiles.len(),
    ensures
        g.in_bounds(g.cell_at(i)),
        g.index(g.cell_at(i)) == i,
{
    let w = g.width as int;
    let h = g.height as int;
    assert(w > 0) by (nonlinear_arith)
        requires
            0 <= i < w * h,
            w >= 0,
    ;
    assert(0 <= i % w < w && 0 <= i / w < h && (i / w) * w + i % w == i) by (nonlinear_arith)
        requires
            0 <= i < w * h,
            w > 0,
    ;
}

/// Two grids of the same size and configuration that agree on every cell are equal.
pub proof fn lemma_equal(a: GridView, b: GridView)
    requires
        a.shaped(),
        b.shaped(),
        a.width == b.width,
        a.height == b.height,
        a.mine_count == b.mine_count,
        a.populated == b.populated,
        forall|p: (int, int)| a.in_bounds(p) ==> a.at(p) == b.at(p),
    ensures
        a == b,
{
    assert forall|i: int| 0 <= i < a.tiles.len() implies a.tiles[i] == b.tiles[i] by {
        lemma_cell_at(a, i);
        let p = a.cell_at(i);
        assert(a.at(p) == b.at(p));
    }
    assert(a.tiles =~= b.tiles);
}

/// What replacing one tile does to a count.
pub proof fn lemma_count_tiles_update(tiles: Seq<Tile>, i: int, tile: Tile, mark: Mark)
    requires
        0 <= i < tiles.len(),
    ensures
        count_tiles(tiles.update(i, tile), mark) + one_if(tiles[i].has(mark)) == count_tiles(
            tiles,
            mark,
        ) + one_if(tile.has(mark)),
    decreases tiles.len(),
{
    let after = tiles.update(i, tile);
    if i == tiles.len() - 1 {
        assert(after.drop_last() =~= tiles.drop_last());
    } else {
        assert(after.drop_last() =~= tiles.drop_last().update(i, tile));
        lemma_count_tiles_update(tiles.drop_last(), i, tile, mark);
    }
}

/// What one more tile does to a count.
pub proof fn lemma_count_tiles_push(tiles: Seq<Tile>, tile: Tile, mark: Mark)
    ensures
        count_tiles(tiles.push(tile), mark) == count_tiles(tiles, mark) + one_if(tile.has(mark)),
{
    assert(tiles.push(tile).drop_last() =~= tiles);
}

/// A count is zero exactly when no tile has the mark, and it never exceeds
/// the number of tiles.
pub proof fn lemma_count_tiles_range(tiles: Seq<Tile>, mark: Mark)
    ensures
        count_tiles(tiles, mark) <= tiles.len(),
        count_tiles(tiles, mark) == 0 <==> forall|i: int|
            0 <= i < tiles.len() ==> !(#[trigger] tiles[i]).has(mark),
    decreases tiles.len(),
{
    if tiles.len() > 0 {
        let front = tiles.drop_last();
        lemma_count_tiles_range(front, mark);
        if count_tiles(tiles, mark) == 0 {
            assert forall|i: int| 0 <= i < tiles.len() implies !(#[trigger] tiles[i]).has(
                mark,
            ) by {
                if i < front.len() {
                    assert(front[i] == tiles[i]);
                }
            }
        } else if forall|i: int| 0 <= i < tiles.len() ==> !(#[trigger] tiles[i]).has(mark) {
            assert forall|i: int| 0 <= i < front.len() implies !(#[trigger] front[i]).has(
                mark,
            ) by {
                assert(front[i] == tiles[i]);
            }
            assert(!tiles[tiles.len() - 1].has(mark));
        }
    }
}

/// Tiles that agree on a mark one by one have the same count of it.
pub proof fn lemma_count_tiles_same(a: Seq<Tile>, b: Seq<Tile>, mark: Mark)
    requires
        a.len() == b.len(),
        forall|i: int| 0 <= i < a.len() ==> (#[trigger] a[i]).has(mark) == b[i].has(mark),
    ensures
        count_tiles(a, mark) == count_tiles(b, mark),
    decreases a.len(),
{
    if a.len() > 0 {
        assert forall|i: int| 0 <= i < a.drop_last().len() implies (#[trigger] a.drop_last()[i]).has(
            mark,
        ) == b.drop_last()[i].has(mark) by {
            assert(a.drop_last()[i] == a[i]);
        }
        lemma_count_tiles_same(a.drop_last(), b.drop_last(), mark);
        assert(a.last() == a[a.len() - 1]);
    }
}

/// Where every tile that has the mark in the first list has it in the second,
/// the first count is at most the second.
pub proof fn lemma_count_tiles_le(a: Seq<Tile>, b: Seq<Tile>, mark: Mark)
    requires
        a.len() == b.len(),
        forall|i: int| 0 <= i < a.len() && (#[trigger] a[i]).has(mark) ==> b[i].has(mark),
    ensures
        count_tiles(a, mark) <= count_tiles(b, mark),
    decreases a.len(),
{
    if a.len() > 0 {
        assert forall|i: int|
            0 <= i < a.drop_last().len() && (#[trigger] a.drop_last()[i]).has(
                mark,
            ) implies b.drop_last()[i].has(mark) by {
            assert(a.drop_last()[i] == a[i]);
        }
        lemma_count_tiles_le(a.drop_last(), b.drop_last(), mark);
        assert(a.last() == a[a.len() - 1]);
    }
}

/// The cells that are not revealed are the flagged and the hidden ones.
pub proof fn lemma_count_tiles_split(tiles: Seq<Tile>)
    ensures
        count_tiles(tiles, Mark::Unrevealed) == count_tiles(tiles, Mark::Flagged) + count_tiles(
            tiles,
            Mark::Hidden,
        ),
    decreases tiles.len(),
{
    if tiles.len() > 0 {
        lemma_count_tiles_split(tiles.drop_last());
    }
}

/// Where every cell that has the mark on the first grid has it on the
/// second, the first grid has at most as many cells with it.
pub proof fn lemma_total_le(a: GridView, b: GridView, mark: Mark)
    requires
        a.shaped(),
        b.shaped(),
        a.width == b.width,
        a.height == b.height,
        forall|p: (int, int)| a.in_bounds(p) && (#[trigger] a.at(p)).has(mark) ==> b.at(p).has(mark),
    ensures
        a.total(mark) <= b.total(mark),
{
    assert forall|i: int| 0 <= i < a.tiles.len() && (#[trigger] a.tiles[i]).has(
        mark,
    ) implies b.tiles[i].has(mark) by {
        lemma_cell_at(a, i);
        assert(a.at(a.cell_at(i)) == a.tiles[i]);
        assert(b.at(a.cell_at(i)) == b.tiles[i]);
    }
    lemma_count_tiles_le(a.tiles, b.tiles, mark);
}

/// Two grids that agree on a mark on every cell of a list count the same
/// number of marked cells in it.
pub proof fn lemma_count_in_same(a: GridView, b: GridView, list: Seq<(int, int)>, mark: Mark)
    requires
        forall|i: int|
            0 <= i < list.len() ==> a.at(#[trigger] list[i]).has(mark) == b.at(list[i]).has(mark),
    ensures
        a.count_in(list, mark) == b.count_in(list, mark),
    decreases list.len(),
{
    if list.len() > 0 {
        assert forall|i: int| 0 <= i < list.drop_last().len() implies a.at(
            #[trigger] list.drop_last()[i],
        ).has(mark) == b.at(list.drop_last()[i]).has(mark) by {
            assert(list.drop_last()[i] == list[i]);
        }
        lemma_count_in_same(a, b, list.drop_last(), mark);
        assert(list.last() == list[list.len() - 1]);
    }
}

/// Where every cell of a list that has the first mark has the second too,
/// the first count is at most the second; where the two counts are equal,
/// the cells with the second mark are those with the first. A count never
/// exceeds the length of the list.
pub proof fn lemma_count_in_compare(g: GridView, list: Seq<(int, int)>, few: Mark, many: Mark)
    requires
        forall|i: int|
            0 <= i < list.len() && g.at(#[trigger] list[i]).has(few) ==> g.at(list[i]).has(many),
    ensures
        g.count_in(list, few) <= g.count_in(list, many) <= list.len(),
        g.count_in(list, few) == g.count_in(list, many) ==> forall|i: int|
            0 <= i < list.len() && g.at(#[trigger] list[i]).has(many) ==> g.at(list[i]).has(few),
    decreases list.len(),
{
    if list.len() > 0 {
        let front = list.drop_last();
        assert forall|i: int| 0 <= i < front.len() && g.at(#[trigger] front[i]).has(
            few,
        ) implies g.at(front[i]).has(many) by {
            assert(front[i] == list[i]);
        }
        lemma_count_in_compare(g, front, few, many);
        assert(list.last() == list[list.len() - 1]);
        if g.count_in(list, few) == g.count_in(list, many) {
            assert forall|i: int| 0 <= i < list.len() && g.at(#[trigger] list[i]).has(
                many,
            ) implies g.at(list[i]).has(few) by {
                if i < front.len() {
                    assert(front[i] == list[i]);
                }
            }
        }
    }
}

/// A count over a list is zero exactly when no cell of the list has the mark.
pub proof fn lemma_count_in_zero(g: GridView, list: Seq<(int, int)>, mark: Mark)
    ensures
        g.count_in(list, mark) == 0 <==> forall|i: int|
            0 <= i < list.len() ==> !g.at(#[trigger] list[i]).has(mark),
    decreases list.len(),
{
    if list.len() > 0 {
        let front = list.drop_last();
        lemma_count_in_zero(g, front, mark);
        assert(list.last() == list[list.len() - 1]);
        if g.count_in(list, mark) == 0 {
            assert forall|i: int| 0 <= i < list.len() implies !g.at(#[trigger] list[i]).has(
                mark,
            ) by {
                if i < front.len() {
                    assert(front[i] == list[i]);
                }
            }
        } else if forall|i: int| 0 <= i < list.len() ==> !g.at(#[trigger] list[i]).has(mark) {
            assert forall|i: int| 0 <= i < front.len() implies !g.at(#[trigger] front[i]).has(
                mark,
            ) by {
                assert(front[i] == list[i]);
            }
        }
    }
}

/// In a well-formed grid each tile's count is the number of mines around it.
pub proof fn lemma_counted(g: GridView, p: (int, int))
    requires
        g.wf(),
        g.in_bounds(p),
    ensures
        g.at(p).neighbour_mine_count == g.around(p, Mark::Mine),
{
    reveal(GridView::counted);
}

/// Grids of one size with the same mines and counts are well-formed together.
pub proof fn lemma_same_ground(a: GridView, b: GridView)
    requires
        a.wf(),
        a.same_ground(b),
    ensures
        b.wf(),
        forall|p: (int, int)|
            #![trigger a.at(p)]
            #![trigger b.at(p)]
            a.in_bounds(p) ==> a.at(p).mine == b.at(p).mine && a.at(p).neighbour_mine_count
                == b.at(p).neighbour_mine_count,
{
    reveal(GridView::counted);
    assert forall|p: (int, int)| a.in_bounds(p) implies a.at(p).mine == b.at(p).mine && a.at(
        p,
    ).neighbour_mine_count == b.at(p).neighbour_mine_count by {
        lemma_index(a, p);
    }
    assert forall|p: (int, int)| b.in_bounds(p) implies (#[trigger] b.at(
        p,
    )).neighbour_mine_count == b.around(p, Mark::Mine) by {
        lemma_index(a, p);
        let list = a.neighbours(p);
        lemma_neighbours(p, a.width as int, a.height as int);
        assert forall|i: int| 0 <= i < list.len() implies a.at(#[trigger] list[i]).has(
            Mark::Mine,
        ) == b.at(list[i]).has(Mark::Mine) by {
            lemma_index(a, list[i]);
        }
        lemma_count_in_same(a, b, list, Mark::Mine);
        assert(a.at(p).neighbour_mine_count == a.around(p, Mark::Mine));
    }
    lemma_count_tiles_same(a.tiles, b.tiles, Mark::Mine);
}

/// What a grid looks like after one cell is seen differently.
pub proof fn lemma_with_visibility(g: GridView, p: (int, int), visibility: Visibility)
    requires
        g.shaped(),
        g.in_bounds(p),
    ensures
        g.with_visibility(p, visibility).shaped(),
        g.same_ground(g.with_visibility(p, visibility)),
        g.with_visibility(p, visibility).at(p) == g.at(p).seen_as(visibility),
        forall|q: (int, int)|
            g.in_bounds(q) && q != p ==> #[trigger] g.with_visibility(p, visibility).at(q) == g.at(
                q,
            ),
        g.wf() ==> g.with_visibility(p, visibility).wf(),
        forall|mark: Mark| #[trigger]
            g.with_visibility(p, visibility).total(mark) + one_if(g.at(p).has(mark)) == g.total(
                mark,
            ) + one_if(g.at(p).seen_as(visibility).has(mark)),
{
    let after = g.with_visibility(p, visibility);
    lemma_index(g, p);
    assert forall|q: (int, int)| g.in_bounds(q) && q != p implies #[trigger] after.at(q) == g.at(
        q,
    ) by {
        lemma_index(g, q);
    }
    if g.wf() {
        lemma_same_ground(g, after);
    }
    assert forall|mark: Mark| #[trigger]
        after.total(mark) + one_if(g.at(p).has(mark)) == g.total(mark) + one_if(
            g.at(p).seen_as(visibility).has(mark),
        ) by {
        lemma_count_tiles_update(g.tiles, g.index(p), g.at(p).seen_as(visibility), mark);
    }
}

/// What a grid looks like after every cell is seen as a function says.
pub proof fn lemma_repaint(g: GridView, paint: spec_fn((int, int)) -> Visibility)
    requires
        g.shaped(),
    ensures
        g.repaint(paint).shaped(),
        g.same_ground(g.repaint(paint)),
        forall|q: (int, int)|
            g.in_bounds(q) ==> #[trigger] g.repaint(paint).at(q) == g.at(q).seen_as(paint(q)),
        g.wf() ==> g.repaint(paint).wf(),
{
    let after = g.repaint(paint);
    assert forall|q: (int, int)| g.in_bounds(q) implies #[trigger] after.at(q) == g.at(q).seen_as(
        paint(q),
    ) by {
        lemma_index(g, q);
    }
    if g.wf() {
        lemma_same_ground(g, after);
    }
}

/// Tiles laid out as a grid of the given size, with nothing said of mines.
pub open spec fn raw(tiles: Seq<Tile>, width: usize, height: usize) -> GridView {
    GridView { width: width as nat, height: height as nat, mine_count: 0, populated: false, tiles }
}

/// A rectangular grid of tiles, `width` columns by `height` rows, configured
/// for a number of mines. Until the mines are laid no tile holds one.
pub struct Grid {
    width: usize,
    height: usize,
    mine_count: usize,
    populated: bool,
    tiles: Vec<Tile>,
}

impl View for Grid {
    type V = GridView;

    closed spec fn view(&self) -> GridView {
        GridView {
            width: self.width as nat,
            height: self.height as nat,
            mine_count: self.mine_count as nat,
            populated: self.populated,
            tiles: self.tiles@,
        }
    }
}

/// Where the cell at (`col`, `row`) stands among the tiles of a grid.
pub(crate) fn place(tiles: &Vec<Tile>, width: usize, height: usize, col: usize, row: usize) -> (i:
    usize)
    requires
        tiles@.len() == width * height,
        col < width,
        row < height,
    ensures
        i == raw(tiles@, width, height).index(cell(col, row)),
        i < tiles@.len(),
{
    proof {
        lemma_index(raw(tiles@, width, height), cell(col, row));
        assert(0 <= row * width) by (nonlinear_arith);
        assert(tiles@.len() == tiles.len());
    }
    row * width + col
}

/// How many neighbours of the cell at (`col`, `row`) have the mark.
fn count_near(
    tiles: &Vec<Tile>,
    width: usize,
    height: usize,
    col: usize,
    row: usize,
    mark: Mark,
) -> (n: u8)
    requires
        tiles@.len() == width * height,
        col < width,
        row < height,
    ensures
        n == raw(tiles@, width, height).around(cell(col, row), mark),
        n <= 8,
{
    let ghost g = raw(tiles@, width, height);
    let ghost list = g.neighbours(cell(col, row));
    let near = neighbours(col, row, width, height);
    proof {
        lemma_neighbours(cell(col, row), width as int, height as int);
    }
    let mut n: u8 = 0;
    let mut k: usize = 0;
    while k < near.len()
        invariant
            tiles@.len() == width * height,
            g == raw(tiles@, width, height),
            list == g.neighbours(cell(col, row)),
            cells(near@) == list,
            k <= near.len() <= 8,
            forall|i: int| 0 <= i < list.len() ==> g.in_bounds(#[trigger] list[i]),
            n == g.count_in(list.take(k as int), mark),
            n <= k,
        decreases near.len() - k,
    {
        let (c, r) = near[k];
        proof {
            assert(list[k as int] == cell(c, r));
            assert(list.take(k + 1).drop_last() =~= list.take(k as int));
        }
        let i = place(tiles, width, height, c, r);
        if tiles[i].is(mark) {
            n = n + 1;
        }
        k = k + 1;
    }
    proof {
        assert(list.take(k as int) =~= list);
    }
    n
}

impl Grid {
    /// The grid's invariant, stated of its model.
    pub open spec fn wf(&self) -> bool {
        self@.wf()
    }

    /// The machine can count the cells of a grid that it holds.
    pub proof fn lemma_fits(&self)
        requires
            self.wf(),
        ensures
            self@.width * self@.height <= usize::MAX,
            self@.tiles.len() <= usize::MAX,
    {
        assert(self.tiles@.len() == self.tiles.len());
    }

    /// A grid of hidden tiles without mines, configured for `mine_count` mines.
    /// It is refused only when it would have more cells than the machine can
    /// count.
    pub fn new(width: usize, height: usize, mine_count: usize) -> (made: Result<Grid, ConfigError>)
        ensures
            match made {
                Ok(grid) => {
                    &&& width * height <= usize::MAX
                    &&& grid.wf()
                    &&& grid@.width == width
                    &&& grid@.height == height
                    &&& grid@.mine_count == mine_count
                    &&& !grid@.populated
                    &&& forall|p: (int, int)|
                        grid@.in_bounds(p) ==> #[trigger] grid@.at(p) == (Tile {
                            mine: false,
                            neighbour_mine_count: 0,
                            visibility: Visibility::Hidden,
                        })
                },
                Err(e) => e == ConfigError::TooLarge && width * height > usize::MAX,
            },
    {
        let area = match width.checked_mul(height) {
            Some(area) => area,
            None => {
                return Err(ConfigError::TooLarge);
            },
        };
        let mut tiles: Vec<Tile> = Vec::new();
        while tiles.len() < area
            invariant
                tiles@.len() <= area,
                forall|i: int| 0 <= i < tiles@.len() ==> #[trigger] tiles@[i] == Tile::empty(),
            decreases area - tiles@.len(),
        {
            tiles.push(Tile::blank());
        }
        let grid = Grid { width, height, mine_count, populated: false, tiles };
        proof {
            reveal(GridView::counted);
            let g = grid@;
            lemma_count_tiles_range(g.tiles, Mark::Mine);
            assert forall|p: (int, int)| g.in_bounds(p) implies #[trigger] g.at(p)
                == Tile::empty() by {
                lemma_index(g, p);
            }
            assert forall|p: (int, int)| g.in_bounds(p) implies (#[trigger] g.at(
                p,
            )).neighbour_mine_count == g.around(p, Mark::Mine) by {
                let list = g.neighbours(p);
                lemma_neighbours(p, g.width as int, g.height as int);
                assert forall|i: int| 0 <= i < list.len() implies !g.at(#[trigger] list[i]).has(
                    Mark::Mine,
                ) by {
                    lemma_index(g, list[i]);
                }
                lemma_count_in_zero(g, list, Mark::Mine);
            }
        }
        Ok(grid)
    }

    /// Makes a grid of tiles that hold their mines already: sets each tile's
    /// count to the number of mines around it. The grid is configured for as
    /// many mines as the tiles hold.
    pub(crate) fn assemble(width: usize, height: usize, tiles: Vec<Tile>) -> (grid: Grid)
        requires
            tiles@.len() == width * height,
        ensures
            grid.wf(),
            grid@.width == width,
            grid@.height == height,
            grid@.populated,
            grid@.mine_count == count_tiles(tiles@, Mark::Mine),
            grid@.tiles.len() == tiles@.len(),
            forall|i: int|
                0 <= i < tiles@.len() ==> (#[trigger] grid@.tiles[i]).mine == tiles@[i].mine
                    && grid@.tiles[i].visibility == tiles@[i].visibility,
    {
        let ghost before = raw(tiles@, width, height);
        let mut counted: Vec<Tile> = Vec::new();
        let mut mines: usize = 0;
        let mut row: usize = 0;
        while row < height
            invariant
                tiles@.len() == width * height,
                before == raw(tiles@, width, height),
                row <= height,
                counted@.len() == row * width,
                mines == count_tiles(counted@, Mark::Mine),
                mines <= counted@.len(),
                forall|i: int|
                    0 <= i < counted@.len() ==> (#[trigger] counted@[i]).mine == tiles@[i].mine
                        && counted@[i].visibility == tiles@[i].visibility
                        && counted@[i].neighbour_mine_count == before.around(
                        before.cell_at(i),
                        Mark::Mine,
                    ),
            decreases height - row,
        {
            let mut col: usize = 0;
            while col < width
                invariant
                    tiles@.len() == width * height,
                    before == raw(tiles@, width, height),
                    row < height,
                    col <= width,
                    counted@.len() == row * width + col,
                    mines == count_tiles(counted@, Mark::Mine),
                    mines <= counted@.len(),
                    forall|i: int|
                        0 <= i < counted@.len() ==> (#[trigger] counted@[i]).mine == tiles@[i].mine
                            && counted@[i].visibility == tiles@[i].visibility
                            && counted@[i].neighbour_mine_count == before.around(
                            before.cell_at(i),
                            Mark::Mine,
                        ),
                decreases width - col,
            {
                let i = place(&tiles, width, height, col, row);
                let n = count_near(&tiles, width, height, col, row, Mark::Mine);
                let tile = Tile {
                    mine: tiles[i].mine,
                    neighbour_mine_count: n,
                    visibility: tiles[i].visibility,
                };
                proof {
                    lemma_index(before, cell(col, row));
                    lemma_count_tiles_push(counted@, tile, Mark::Mine);
                }
                if tile.mine {
                    mines = mines + 1;
                }
                counted.push(tile);
                col = col + 1;
            }
            proof {
                assert((row + 1) * width == row * width + width) by (nonlinear_arith);
            }
            row = row + 1;
        }
        let grid = Grid { width, height, mine_count: mines, populated: true, tiles: counted };
        proof {
            reveal(GridView::counted);
            let g = grid@;
            assert(g.tiles.len() == tiles@.len()) by (nonlinear_arith)
                requires
                    g.tiles.len() == row * width,
                    row == height,
                    tiles@.len() == width * height,
            ;
            assert forall|p: (int, int)| g.in_bounds(p) implies (#[trigger] g.at(
                p,
            )).neighbour_mine_count == g.around(p, Mark::Mine) by {
                lemma_index(g, p);
                lemma_index(before, p);
                let list = g.neighbours(p);
                lemma_neighbours(p, g.width as int, g.height as int);
                assert forall|i: int| 0 <= i < list.len() implies before.at(
                    #[trigger] list[i],
                ).has(Mark::Mine) == g.at(list[i]).has(Mark::Mine) by {
                    lemma_index(g, list[i]);
                }
                lemma_count_in_same(before, g, list, Mark::Mine);
            }
            lemma_count_tiles_same(g.tiles, tiles@, Mark::Mine);
        }
        grid
    }

    /// A grid whose mines lie on the listed cells and nowhere else, all tiles
    /// hidden and counted, configured for as many mines as it holds. A cell
    /// may be listed more than once. The grid is refused when it would have
    /// more cells than the machine can count, and otherwise when a listed
    /// cell lies off the board.
    pub fn with_mines(width: usize, height: usize, mines: &Vec<(usize, usize)>) -> (made: Result<
        Grid,
        ConfigError,
    >)
        ensures
            match made {
                Ok(grid) => {
                    &&& width * height <= usize::MAX
                    &&& forall|i: int|
                        0 <= i < mines@.len() ==> (#[trigger] mines@[i]).0 < width && mines@[i].1
                            < height
                    &&& grid.wf()
                    &&& grid@.width == width
                    &&& grid@.height == height
                    &&& grid@.populated
                    &&& forall|p: (int, int)|
                        grid@.in_bounds(p) ==> (#[trigger] grid@.at(p)).visibility
                            == Visibility::Hidden && (grid@.at(p).mine <==> cells(mines@).contains(
                            p,
                        ))
                },
                Err(e) => if width * height > usize::MAX {
                    e == ConfigError::TooLarge
                } else {
                    e == ConfigError::OutOfBounds && exists|i: int|
                        0 <= i < mines@.len() && !((#[trigger] mines@[i]).0 < width && mines@[i].1
                            < height)
                },
            },
    {
        let area = match width.checked_mul(height) {
            Some(area) => area,
            None => {
                return Err(ConfigError::TooLarge);
            },
        };
        let mut tiles: Vec<Tile> = Vec::new();
        while tiles.len() < area
            invariant
                tiles@.len() <= area,
                forall|i: int| 0 <= i < tiles@.len() ==> #[trigger] tiles@[i] == Tile::empty(),
            decreases area - tiles@.len(),
        {
            tiles.push(Tile::blank());
        }
        let mut k: usize = 0;
        proof {
            let g = raw(tiles@, width, height);
            assert forall|p: (int, int)| g.in_bounds(p) implies #[trigger] g.at(p)
                == Tile::empty() && !cells(mines@.take(0)).contains(p) by {
                lemma_index(g, p);
            }
        }
        while k < mines.len()
            invariant
                tiles@.len() == width * height,
                width * height <= usize::MAX,
                k <= mines@.len(),
                forall|i: int|
                    0 <= i < k ==> (#[trigger] mines@[i]).0 < width && mines@[i].1 < height,
                forall|p: (int, int)|
                    raw(tiles@, width, height).in_bounds(p) ==> (#[trigger] raw(
                        tiles@,
                        width,
                        height,
                    ).at(p)).visibility == Visibility::Hidden && (raw(tiles@, width, height).at(
                        p,
                    ).mine <==> cells(mines@.take(k as int)).contains(p)),
            decreases mines@.len() - k,
        {
            let (col, row) = mines[k];
            if col >= width || row >= height {
                assert(!(mines@[k as int].0 < width && mines@[k as int].1 < height));
                return Err(ConfigError::OutOfBounds);
            }
            let i = place(&tiles, width, height, col, row);
            let ghost before = raw(tiles@, width, height);
            let tile = Tile { mine: true, neighbour_mine_count: 0, visibility: Visibility::Hidden };
            tiles[i] = tile;
            proof {
                let after = raw(tiles@, width, height);
                let m = cell(col, row);
                let then = cells(mines@.take(k as int));
                let now = cells(mines@.take(k + 1));
                assert(now[k as int] == m);
                assert forall|p: (int, int)| after.in_bounds(p) implies (#[trigger] after.at(
                    p,
                )).visibility == Visibility::Hidden && (after.at(p).mine <==> now.contains(
                    p,
                )) by {
                    lemma_index(before, p);
                    lemma_index(before, m);
                    assert(before.at(p).visibility == Visibility::Hidden);
                    if then.contains(p) {
                        let j = choose|j: int| 0 <= j < then.len() && then[j] == p;
                        assert(now[j] == p);
                    }
                    if now.contains(p) && p != m {
                        let j = choose|j: int| 0 <= j < now.len() && now[j] == p;
                        assert(then[j] == p);
                    }
                }
            }
            k = k + 1;
        }
        let ghost laid = raw(tiles@, width, height);
        let grid = Grid::assemble(width, height, tiles);
        proof {
            assert(mines@.take(k as int) =~= mines@);
            assert forall|p: (int, int)| grid@.in_bounds(p) implies (#[trigger] grid@.at(
                p,
            )).visibility == Visibility::Hidden && (grid@.at(p).mine <==> cells(mines@).contains(
                p,
            )) by {
                lemma_index(grid@, p);
                assert(laid.at(p).visibility == Visibility::Hidden);
            }
        }
        Ok(grid)
    }

    /// The number of columns.
    pub fn width(&self) -> (width: usize)
        ensures
            width == self@.width,
    {
        self.width
    }

    /// The number of rows.
    pub fn height(&self) -> (height: usize)
        ensures
            height == self@.height,
    {
        self.height
    }

    /// The number of mines that the grid is configured for.
    pub fn mine_count(&self) -> (mine_count: usize)
        ensures
            mine_count == self@.mine_count,
    {
        self.mine_count
    }

    /// Whether the mines have been laid.
    pub fn is_populated(&self) -> (populated: bool)
        ensures
            populated == self@.populated,
    {
        self.populated
    }

    /// The tile at (`col`, `row`). Its count is eight at most.
    pub fn tile(&self, col: usize, row: usize) -> (tile: Tile)
        requires
            self.wf(),
            self@.in_bounds(cell(col, row)),
        ensures
            tile == self@.at(cell(col, row)),
            tile.neighbour_mine_count <= 8,
    {
        proof {
            let p = cell(col, row);
            lemma_counted(self@, p);
            lemma_neighbours(p, self@.width as int, self@.height as int);
            lemma_count_in_compare(self@, self@.neighbours(p), Mark::Mine, Mark::Mine);
        }
        let i = place(&self.tiles, self.width, self.height, col, row);
        self.tiles[i]
    }

    /// Changes what the player sees of the cell at (`col`, `row`), and
    /// nothing else.
    pub fn set_visibility(&mut self, col: usize, row: usize, visibility: Visibility)
        requires
            old(self).wf(),
            old(self)@.in_bounds(cell(col, row)),
        ensures
            final(self)@ == old(self)@.with_visibility(cell(col, row), visibility),
            final(self).wf(),
    {
        let i = place(&self.tiles, self.width, self.height, col, row);
        let tile = self.tiles[i];
        self.tiles[i] = Tile {
            mine: tile.mine,
            neighbour_mine_count: tile.neighbour_mine_count,
            visibility,
        };
        proof {
            lemma_with_visibility(old(self)@, cell(col, row), visibility);
        }
    }

    /// How many neighbours of the cell at (`col`, `row`) have the mark.
    pub fn count_around(&self, col: usize, row: usize, mark: Mark) -> (n: u8)
        requires
            self.wf(),
            self@.in_bounds(cell(col, row)),
        ensures
            n == self@.around(cell(col, row), mark),
            n <= 8,
    {
        let n = count_near(&self.tiles, self.width, self.height, col, row, mark);
        proof {
            let g = raw(self.tiles@, self.width, self.height);
            let list = g.neighbours(cell(col, row));
            lemma_neighbours(cell(col, row), self.width as int, self.height as int);
            assert forall|i: int| 0 <= i < list.len() implies g.at(#[trigger] list[i]).has(mark)
                == self@.at(list[i]).has(mark) by {}
            lemma_count_in_same(g, self@, list, mark);
        }
        n
    }

    /// How many cells of the grid have the mark.
    pub fn count(&self, mark: Mark) -> (n: usize)
        requires
            self.wf(),
        ensures
            n == self@.total(mark),
    {
        let mut n: usize = 0;
        let mut i: usize = 0;
        while i < self.tiles.len()
            invariant
                i <= self.tiles@.len(),
                n == count_tiles(self.tiles@.take(i as int), mark),
                n <= i,
            decreases self.tiles@.len() - i,
        {
            proof {
                assert(self.tiles@.take(i + 1).drop_last() =~= self.tiles@.take(i as int));
            }
            if self.tiles[i].is(mark) {
                n = n + 1;
            }
            i = i + 1;
        }
        proof {
            assert(self.tiles@.take(i as int) =~= self.tiles@);
        }
        n
    }
}

impl Grid {
    /// Whether every cell without a mine is revealed.
    pub fn is_cleared(&self) -> (yes: bool)
        requires
            self.wf(),
        ensures
            yes == self@.cleared(),
    {
        let unsolved = self.count(Mark::Unsolved);
        proof {
            let g = self@;
            lemma_count_tiles_range(g.tiles, Mark::Unsolved);
            if unsolved == 0 {
                assert forall|p: (int, int)| g.in_bounds(p) && !(#[trigger] g.at(
                    p,
                )).mine implies g.at(p).visibility == Visibility::Revealed by {
                    lemma_index(g, p);
                    assert(!g.tiles[g.index(p)].has(Mark::Unsolved));
                }
            }
            if g.cleared() {
                assert forall|i: int| 0 <= i < g.tiles.len() implies !(#[trigger] g.tiles[i]).has(
                    Mark::Unsolved,
                ) by {
                    lemma_cell_at(g, i);
                    assert(g.at(g.cell_at(i)) == g.tiles[i]);
                }
            }
        }
        unsolved == 0
    }

    /// Whether every cell is hidden.
    pub fn is_untouched(&self) -> (yes: bool)
        requires
            self.wf(),
        ensures
            yes == self@.untouched(),
    {
        let seen = self.count(Mark::Revealed);
        let flagged = self.count(Mark::Flagged);
        proof {
            let g = self@;
            lemma_count_tiles_range(g.tiles, Mark::Revealed);
            lemma_count_tiles_range(g.tiles, Mark::Flagged);
            if seen == 0 && flagged == 0 {
                assert forall|p: (int, int)| g.in_bounds(p) implies (#[trigger] g.at(
                    p,
                )).visibility == Visibility::Hidden by {
                    lemma_index(g, p);
                    assert(!g.tiles[g.index(p)].has(Mark::Revealed));
                    assert(!g.tiles[g.index(p)].has(Mark::Flagged));
                }
            }
            if g.untouched() {
                assert forall|i: int| 0 <= i < g.tiles.len() implies !(#[trigger] g.tiles[i]).has(
                    Mark::Revealed,
                ) && !g.tiles[i].has(Mark::Flagged) by {
                    lemma_cell_at(g, i);
                    assert(g.at(g.cell_at(i)) == g.tiles[i]);
                }
            }
        }
        seen == 0 && flagged == 0
    }

    /// The cells that have the mark, each once, row by row and from left to
    /// right within a row.
    pub fn cells_with(&self, mark: Mark) -> (list: Vec<(usize, usize)>)
        requires
            self.wf(),
        ensures
            cells(list@).to_set() == self@.marked(mark),
            cells(list@).no_duplicates(),
            forall|a: int, b: int|
                0 <= a < b < list@.len() ==> self@.index(#[trigger] cells(list@)[a]) < self@.index(
                    #[trigger] cells(list@)[b],
                ),
    {
        let ghost g = self@;
        let mut list: Vec<(usize, usize)> = Vec::new();
        let mut i: usize = 0;
        while i < self.tiles.len()
            invariant
                self.wf(),
                g == self@,
                i <= self.tiles@.len(),
                forall|p: (int, int)| #[trigger]
                    cells(list@).contains(p) <==> g.in_bounds(p) && g.index(p) < i && g.at(p).has(
                        mark,
                    ),
                forall|a: int| 0 <= a < list@.len() ==> g.index(#[trigger] cells(list@)[a]) < i,
                forall|a: int, b: int|
                    0 <= a < b < list@.len() ==> g.index(#[trigger] cells(list@)[a]) < g.index(
                        #[trigger] cells(list@)[b],
                    ),
            decreases self.tiles@.len() - i,
        {
            proof {
                lemma_cell_at(g, i as int);
                assert(self.width > 0) by (nonlinear_arith)
                    requires
                        self.width * self.height > 0,
                ;
            }
            if self.tiles[i].is(mark) {
                let ghost before = cells(list@);
                list.push((i % self.width, i / self.width));
                proof {
                    let now = cells(list@);
                    let added = g.cell_at(i as int);
                    assert(now =~= before.push(added));
                    assert forall|p: (int, int)| #[trigger]
                        now.contains(p) <==> g.in_bounds(p) && g.index(p) < i + 1 && g.at(p).has(
                            mark,
                        ) by {
                        if g.in_bounds(p) {
                            lemma_index(g, p);
                        }
                        if before.contains(p) {
                            let j = choose|j: int| 0 <= j < before.len() && before[j] == p;
                            assert(now[j] == p);
                        }
                        if now.contains(p) {
                            let j = choose|j: int| 0 <= j < now.len() && now[j] == p;
                            if j < before.len() {
                                assert(before[j] == p);
                            }
                        }
                        if p == added {
                            assert(now[before.len() as int] == p);
                        }
                    }
                }
            } else {
                proof {
                    assert forall|p: (int, int)| #[trigger]
                        cells(list@).contains(p) <==> g.in_bounds(p) && g.index(p) < i + 1 && g.at(
                            p,
                        ).has(mark) by {
                        if g.in_bounds(p) {
                            lemma_index(g, p);
                        }
                    }
                }
            }
            i = i + 1;
        }
        proof {
            assert forall|p: (int, int)| cells(list@).to_set().contains(p) <==> g.marked(
                mark,
            ).contains(p) by {
                if g.in_bounds(p) {
                    lemma_index(g, p);
                }
            }
            assert(cells(list@).to_set() =~= g.marked(mark));
            assert forall|a: int, b: int|
                0 <= a < cells(list@).len() && 0 <= b < cells(list@).len() && a
                    != b implies cells(list@)[a] != cells(list@)[b] by {
                if a < b {
                    assert(g.index(cells(list@)[a]) < g.index(cells(list@)[b]));
                } else {
                    assert(g.index(cells(list@)[b]) < g.index(cells(list@)[a]));
                }
            }
        }
        list
    }

    /// Reveals every cell that has the mark.
    pub fn reveal_where(&mut self, mark: Mark)
        requires
            old(self).wf(),
        ensures
            final(self).wf(),
            final(self)@ == old(self)@.revealing(mark),
    {
        let ghost g = self@;
        let ghost paint = |p: (int, int)|
            if g.at(p).has(mark) {
                Visibility::Revealed
            } else {
                g.at(p).visibility
            };
        let mut i: usize = 0;
        while i < self.tiles.len()
            invariant
                g.wf(),
                self.width == g.width,
                self.height == g.height,
                self.mine_count == g.mine_count,
                self.populated == g.populated,
                self.tiles@.len() == g.tiles.len(),
                i <= self.tiles@.len(),
                paint == (|p: (int, int)|
                    if g.at(p).has(mark) {
                        Visibility::Revealed
                    } else {
                        g.at(p).visibility
                    }),
                forall|j: int|
                    0 <= j < self.tiles@.len() ==> #[trigger] self.tiles@[j] == if j < i {
                        g.tiles[j].seen_as(paint(g.cell_at(j)))
                    } else {
                        g.tiles[j]
                    },
            decreases self.tiles@.len() - i,
        {
            proof {
                lemma_cell_at(g, i as int);
            }
            let tile = self.tiles[i];
            if tile.is(mark) {
                self.tiles[i] = Tile {
                    mine: tile.mine,
                    neighbour_mine_count: tile.neighbour_mine_count,
                    visibility: Visibility::Revealed,
                };
            }
            i = i + 1;
        }
        proof {
            lemma_repaint(g, paint);
            assert(self@.tiles =~= g.repaint(paint).tiles);
        }
    }
}

} // verus!
