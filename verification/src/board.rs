//! The game: a board that owns its grid, counts flags and seconds, and moves
//! from a new game through play to a win or a loss.

use crate::error::ConfigError;
use crate::generator::generate_fair;
use crate::grid::{fair_start_exists, fits_beside, lemma_cell_at, lemma_count_tiles_range,
    lemma_count_tiles_split, lemma_index, lemma_repaint, lemma_total_le, lemma_with_visibility,
    one_if, Grid, GridView};
use crate::neighbourhood::{cell, cells, in_bounds, lemma_neighbours, neighbours, span};
use crate::reveal_engine::{chord, lemma_chord_opens, lemma_chord_sound, lemma_open_next_opens,
    lemma_open_next_sound, lemma_reveal_opens, open_one, Outcome, Sweep};
use crate::regions::{flood_open_cells, lemma_cover_keeps_regions_whole};
use crate::solver::{law_pass_works_on_hidden_cells, lemma_follows, lemma_solving_tame, satisfied,
    solve_pass};
use crate::tile::{Mark, Tile, Visibility};
use vstd::prelude::*;

verus! {

/// Where a game stands. `Dead` and `Won` are final.
#[derive(Clone, Copy, Debug, PartialEq, Eq, Structural)]
pub enum GameState {
    NewGame,
    Playing,
    Dead,
    Won,
}

/// What a mouse button did in one tick.
#[derive(Clone, Copy, Debug, PartialEq, Eq, Structural)]
pub struct Button {
    /// The button went down in this tick.
    pub pressed: bool,
    /// The button came up in this tick.
    pub released: bool,
    /// The button is held down.
    pub down: bool,
}

/// What the player did in one tick, and when.
#[derive(Clone, Copy, Debug, PartialEq, Eq, Structural)]
pub struct Input {
    /// The column of the cell under the pointer, or of the nearest cell.
    pub col: usize,
    /// The row of the cell under the pointer, or of the nearest cell.
    pub row: usize,
    /// Whether the pointer is over that cell.
    pub hovering: bool,
    pub left: Button,
    pub right: Button,
    pub middle: Button,
    /// The time of the tick in whole seconds, on a clock that does not run
    /// backwards.
    pub now: u64,
    /// Whether the solver makes a pass in this tick.
    pub solver: bool,
}

impl Input {
    /// Whether the buttons ask for a chord: both were released, one was
    /// released while the other is held, or the middle one was released.
    pub open spec fn chords(self) -> bool {
        ||| self.left.released && self.right.released
        ||| self.left.down && self.right.released
        ||| self.right.down && self.left.released
        ||| self.middle.released
    }
}

/// The model of a board.
pub struct BoardView {
    pub grid: GridView,
    pub state: GameState,
    /// The flags that the player and the solver have set, less those that
    /// the player has taken back. A flag that a flood or a loss reveals is
    /// not taken off the count.
    pub flagged_count: nat,
    /// When play began, in seconds on the caller's clock.
    pub started_at: nat,
    /// How long play has lasted, in seconds.
    pub elapsed_seconds: nat,
    /// The mines that went off.
    pub detonated: Set<(int, int)>,
    /// The flags that stood on cells without a mine when the game was lost.
    pub misflagged: Set<(int, int)>,
}

impl BoardView {
    /// The board's invariant. The grid is well-formed and its mines fit
    /// beside some start and its neighbours. The flags that are counted are
    /// at least those on the grid, and together with the hidden cells no
    /// more than the grid has cells. The mines are laid exactly when the game is not
    /// new, and the grid of a new game is untouched. Unless the game is lost,
    /// no mine is revealed, the revealed regions are whole, and no mine and
    /// no wrong flag is recorded. A won game is cleared. In a lost game a
    /// mine went off; the recorded mines are revealed mines, the recorded
    /// wrong flags are revealed cells without a mine, and every cell is
    /// revealed or carries a flag exactly if it holds a mine.
    pub open spec fn wf(self) -> bool {
        &&& self.grid.wf()
        &&& self.grid.admits_fair_start()
        &&& self.grid.total(Mark::Flagged) <= self.flagged_count
        &&& self.flagged_count + self.grid.total(Mark::Hidden) <= self.grid.tiles.len()
        &&& self.grid.populated == (self.state != GameState::NewGame)
        &&& self.state == GameState::NewGame ==> self.grid.untouched() && self.elapsed_seconds == 0
        &&& self.state != GameState::Dead ==> self.grid.safe() && self.grid.regions_whole()
            && self.detonated == Set::<(int, int)>::empty() && self.misflagged == Set::<
            (int, int),
        >::empty()
        &&& self.state == GameState::Won ==> self.grid.cleared()
        &&& self.state == GameState::Dead ==> {
            &&& exists|p: (int, int)| self.detonated.contains(p)
            &&& forall|p: (int, int)|
                self.detonated.contains(p) ==> self.grid.in_bounds(p) && self.grid.at(p).mine
                    && self.grid.at(p).visibility == Visibility::Revealed
            &&& forall|p: (int, int)|
                self.misflagged.contains(p) ==> self.grid.in_bounds(p) && !self.grid.at(p).mine
                    && self.grid.at(p).visibility == Visibility::Revealed
            &&& forall|p: (int, int)|
                self.grid.in_bounds(p) ==> ((#[trigger] self.grid.at(p)).mine
                    <==> self.grid.at(p).visibility == Visibility::Flagged) || self.grid.at(
                    p,
                ).visibility == Visibility::Revealed
        }
    }

    /// The mines that are left to find as the counter shows them: the mines
    /// less the flags, and zero where there are more flags than mines.
    pub open spec fn mines_remaining(self) -> nat {
        if self.flagged_count >= self.grid.mine_count {
            0
        } else {
            (self.grid.mine_count - self.flagged_count) as nat
        }
    }

    /// The board after a right click on the cell: during play a hidden cell
    /// gets a flag and a flagged cell loses it. Nothing else changes anything.
    pub open spec fn after_flag(self, p: (int, int)) -> BoardView {
        if self.state != GameState::Playing {
            self
        } else if self.grid.at(p).visibility == Visibility::Hidden {
            BoardView {
                grid: self.grid.with_visibility(p, Visibility::Flagged),
                flagged_count: self.flagged_count + 1,
                ..self
            }
        } else if self.grid.at(p).visibility == Visibility::Flagged {
            BoardView {
                grid: self.grid.with_visibility(p, Visibility::Hidden),
                flagged_count: (self.flagged_count - 1) as nat,
                ..self
            }
        } else {
            self
        }
    }

    /// The board after a loss on the grid `fatal`, on which the mines that
    /// went off are revealed: these are recorded, the game is over, and the
    /// grid is laid bare.
    pub open spec fn lost(self, fatal: GridView) -> BoardView {
        BoardView {
            grid: fatal.laid_bare(),
            state: GameState::Dead,
            detonated: fatal.marked(Mark::Burst),
            misflagged: fatal.marked(Mark::Misflagged),
            ..self
        }
    }

    /// The board after a run made during play that set `flags_set` flags and
    /// left the given sweep: the flags are added to the count; the game goes
    /// on with the grid that the run left if no mine went off, and is lost on
    /// that grid otherwise.
    pub open spec fn after_sweep(self, sweep: Sweep, flags_set: nat) -> BoardView {
        let counted = BoardView { flagged_count: self.flagged_count + flags_set, ..self };
        if sweep.blown is Some {
            counted.lost(sweep.grid)
        } else {
            BoardView { grid: sweep.grid, ..counted }
        }
    }

    /// The board after a left click on the cell: during play a hidden cell is
    /// revealed, with the flood that follows, and the game is lost if it holds
    /// a mine. Nothing else changes anything.
    pub open spec fn after_open(self, p: (int, int)) -> BoardView {
        if self.state == GameState::Playing && self.grid.at(p).visibility == Visibility::Hidden {
            self.after_sweep((Sweep { grid: self.grid, blown: None }).open_next(p), 0)
        } else {
            self
        }
    }

    /// The board after a chord on the cell during play.
    pub open spec fn after_chord(self, p: (int, int)) -> BoardView {
        if self.state == GameState::Playing {
            self.after_sweep(self.grid.after_chord(p), 0)
        } else {
            self
        }
    }

    /// The board after a pass of the solver during play. The flags that the
    /// pass set are added to the count. If no mine went off, a round of
    /// floods follows, which opens the regions around the cells that the
    /// pass revealed.
    pub open spec fn after_solver(self) -> BoardView {
        if self.state == GameState::Playing {
            self.after_sweep(
                if self.grid.after_solving().blown is None {
                    Sweep { grid: self.grid.after_solving().grid.after_floods(), blown: None }
                } else {
                    self.grid.after_solving()
                },
                (self.grid.after_solving().grid.total(Mark::Flagged) - self.grid.total(
                    Mark::Flagged,
                )) as nat,
            )
        } else {
            self
        }
    }

    /// The board at the end of a tick at the time `now`: during play the
    /// seconds since the start are counted, and the game is won if every cell
    /// without a mine is revealed.
    pub open spec fn settled(self, now: nat) -> BoardView {
        if self.state == GameState::Playing {
            BoardView {
                elapsed_seconds: if now >= self.started_at {
                    (now - self.started_at) as nat
                } else {
                    0
                },
                state: if self.grid.cleared() {
                    GameState::Won
                } else {
                    GameState::Playing
                },
                ..self
            }
        } else {
            self
        }
    }

    /// The board after the first click, at the time `now`, on the cell `p` of
    /// a new game for which the mines were laid as in `layout`.
    pub open spec fn started(self, layout: GridView, p: (int, int), now: nat) -> BoardView {
        BoardView {
            grid: layout.after_reveal(p),
            state: GameState::Playing,
            flagged_count: 0,
            started_at: now,
            elapsed_seconds: 0,
            ..self
        }
    }

    /// Whether a grid can be the layout of this board's game with the first
    /// click on `p`: it has the board's size and number of mines, the mines
    /// are laid, every cell is hidden, and `p` holds no mine and has none
    /// around it.
    pub open spec fn fair_layout(self, layout: GridView, p: (int, int)) -> bool {
        &&& layout.wf()
        &&& layout.populated
        &&& layout.width == self.grid.width
        &&& layout.height == self.grid.height
        &&& layout.mine_count == self.grid.mine_count
        &&& layout.untouched()
        &&& !layout.at(p).mine
        &&& layout.at(p).neighbour_mine_count == 0
    }

    /// The board after the player's input of one tick during play: a chord
    /// where the buttons ask for one on a revealed, satisfied cell; else a
    /// flag set or taken where the right button was pressed over a cell that
    /// is not revealed; else a reveal where the left button was pressed over
    /// a cell without a flag.
    pub open spec fn after_input(self, input: Input) -> BoardView {
        let p = cell(input.col, input.row);
        if self.state != GameState::Playing {
            self
        } else if input.chords() && self.grid.at(p).visibility == Visibility::Revealed
            && self.grid.satisfied(p) {
            self.after_chord(p)
        } else if self.grid.at(p).visibility != Visibility::Revealed && input.right.pressed
            && input.hovering {
            self.after_flag(p)
        } else if input.left.pressed && input.hovering && self.grid.at(p).visibility
            != Visibility::Flagged {
            self.after_open(p)
        } else {
            self
        }
    }

    /// The board after what follows the input in a tick: the solver's pass,
    /// if one is asked for, and the count of seconds and the test for a win.
    pub open spec fn after_rest(self, input: Input) -> BoardView {
        (if input.solver {
            self.after_solver()
        } else {
            self
        }).settled(input.now as nat)
    }
}

/// A game of Minesweeper: the grid, the state of the game, the number of
/// flags, the seconds played, the mines that went off and the flags that
/// were found wrong when the game was lost.
pub struct Board {
    grid: Grid,
    state: GameState,
    flagged_count: usize,
    started_at: u64,
    elapsed_seconds: u64,
    detonated_mines: Vec<(usize, usize)>,
    misflagged: Vec<(usize, usize)>,
}

impl View for Board {
    type V = BoardView;

    closed spec fn view(&self) -> BoardView {
        BoardView {
            grid: self.grid@,
            state: self.state,
            flagged_count: self.flagged_count as nat,
            started_at: self.started_at as nat,
            elapsed_seconds: self.elapsed_seconds as nat,
            detonated: cells(self.detonated_mines@).to_set(),
            misflagged: cells(self.misflagged@).to_set(),
        }
    }
}

/// The corner has the fewest neighbours: where the mines fit beside any cell
/// and its neighbours, they fit beside the corner and its neighbours.
proof fn lemma_corner_fits(s: (int, int), width: nat, height: nat, mine_count: nat)
    requires
        in_bounds(s, width as int, height as int),
        fits_beside(s, width, height, mine_count),
    ensures
        fits_beside((0, 0), width, height, mine_count),
{
    lemma_neighbours(s, width as int, height as int);
    lemma_neighbours((0, 0), width as int, height as int);
    let a = span(0, width as int);
    let b = span(0, height as int);
    let c = span(s.0, width as int);
    let d = span(s.1, height as int);
    assert(a * b <= c * d) by (nonlinear_arith)
        requires
            1 <= a <= c,
            1 <= b <= d,
    ;
}

impl Board {
    /// The board's invariant: that of its model, and no cell is listed twice
    /// among the mines that went off or among the wrong flags.
    pub open spec fn wf(&self) -> bool {
        self@.wf() && self.lists_once()
    }

    /// Whether no cell is listed twice among the mines that went off, nor
    /// among the wrong flags.
    pub closed spec fn lists_once(&self) -> bool {
        cells(self.detonated_mines@).no_duplicates() && cells(self.misflagged@).no_duplicates()
    }

    /// A new game on a board of the given size with `mine_count` mines to be
    /// laid at the first click. The board is refused when it would have more
    /// cells than the machine can count, and otherwise when it has no cell
    /// beside which, and beside whose neighbours, the mines fit.
    pub fn new(width: usize, height: usize, mine_count: usize) -> (made: Result<Board, ConfigError>)
        ensures
            match made {
                Ok(board) => {
                    &&& width * height <= usize::MAX
                    &&& fair_start_exists(width as nat, height as nat, mine_count as nat)
                    &&& board.wf()
                    &&& board@.state == GameState::NewGame
                    &&& board@.grid.width == width
                    &&& board@.grid.height == height
                    &&& board@.grid.mine_count == mine_count
                    &&& board@.flagged_count == 0
                    &&& board@.elapsed_seconds == 0
                },
                Err(e) => if width * height > usize::MAX {
                    e == ConfigError::TooLarge
                } else {
                    e == ConfigError::NoFairStart && !fair_start_exists(
                        width as nat,
                        height as nat,
                        mine_count as nat,
                    )
                },
            },
    {
        let grid = match Grid::new(width, height, mine_count) {
            Ok(grid) => grid,
            Err(e) => {
                return Err(e);
            },
        };
        let corner = neighbours(0, 0, width, height);
        let around_corner = corner.len();
        let area = width * height;
        proof {
            lemma_neighbours((0, 0), width as int, height as int);
            assert(cells(corner@).len() == corner@.len());
        }
        let fits = width >= 1 && height >= 1 && around_corner + 1 <= area && mine_count <= area
            - around_corner - 1;
        proof {
            lemma_neighbours((0, 0), width as int, height as int);
            if fits {
                assert(fits_beside((0, 0), width as nat, height as nat, mine_count as nat));
            } else if fair_start_exists(width as nat, height as nat, mine_count as nat) {
                let s = choose|s: (int, int)|
                    in_bounds(s, width as int, height as int) && #[trigger] fits_beside(
                        s,
                        width as nat,
                        height as nat,
                        mine_count as nat,
                    );
                lemma_corner_fits(s, width as nat, height as nat, mine_count as nat);
            }
        }
        if !fits {
            return Err(ConfigError::NoFairStart);
        }
        let board = Board {
            grid,
            state: GameState::NewGame,
            flagged_count: 0,
            started_at: 0,
            elapsed_seconds: 0,
            detonated_mines: Vec::new(),
            misflagged: Vec::new(),
        };
        proof {
            let g = board@.grid;
            lemma_count_tiles_range(g.tiles, Mark::Flagged);
            lemma_count_tiles_range(g.tiles, Mark::Hidden);
            assert(cells(board.detonated_mines@) =~= Seq::empty());
            assert(cells(board.misflagged@) =~= Seq::empty());
            assert forall|i: int| 0 <= i < g.tiles.len() implies !(#[trigger] g.tiles[i]).has(
                Mark::Flagged,
            ) by {
                lemma_cell_at(g, i);
                assert(g.at(g.cell_at(i)) == g.tiles[i]);
            }
            assert(cells(board.detonated_mines@).to_set() =~= Set::<(int, int)>::empty());
            assert(cells(board.misflagged@).to_set() =~= Set::<(int, int)>::empty());
        }
        Ok(board)
    }

    /// Where the game stands.
    pub fn state(&self) -> (state: GameState)
        ensures
            state == self@.state,
    {
        self.state
    }

    /// The number of columns.
    pub fn width(&self) -> (width: usize)
        ensures
            width == self@.grid.width,
    {
        self.grid.width()
    }

    /// The number of rows.
    pub fn height(&self) -> (height: usize)
        ensures
            height == self@.grid.height,
    {
        self.grid.height()
    }

    /// The number of mines of the game.
    pub fn mine_count(&self) -> (mine_count: usize)
        ensures
            mine_count == self@.grid.mine_count,
    {
        self.grid.mine_count()
    }

    /// The flags that the player and the solver have set, less those that
    /// the player has taken back.
    pub fn flagged_count(&self) -> (flagged_count: usize)
        ensures
            flagged_count == self@.flagged_count,
    {
        self.flagged_count
    }

    /// How long play has lasted, in seconds.
    pub fn elapsed_seconds(&self) -> (seconds: u64)
        ensures
            seconds == self@.elapsed_seconds,
    {
        self.elapsed_seconds
    }

    /// The grid.
    pub fn grid(&self) -> (grid: &Grid)
        ensures
            grid@ == self@.grid,
    {
        &self.grid
    }

    /// The tile at (`col`, `row`).
    pub fn tile(&self, col: usize, row: usize) -> (tile: Tile)
        requires
            self@.grid.wf(),
            self@.grid.in_bounds(cell(col, row)),
        ensures
            tile == self@.grid.at(cell(col, row)),
    {
        self.grid.tile(col, row)
    }

    /// The mines that went off, each once.
    pub fn detonated_mines(&self) -> (list: &Vec<(usize, usize)>)
        ensures
            cells(list@).to_set() == self@.detonated,
            self.wf() ==> cells(list@).no_duplicates(),
    {
        &self.detonated_mines
    }

    /// The flags that stood on cells without a mine when the game was lost,
    /// each once.
    pub fn misflagged(&self) -> (list: &Vec<(usize, usize)>)
        ensures
            cells(list@).to_set() == self@.misflagged,
            self.wf() ==> cells(list@).no_duplicates(),
    {
        &self.misflagged
    }

    /// The mines that are left to find as the counter shows them: the mines
    /// less the flags, and zero where there are more flags than mines.
    pub fn mines_remaining(&self) -> (n: usize)
        ensures
            n == self@.mines_remaining(),
    {
        let mines = self.grid.mine_count();
        if self.flagged_count >= mines {
            0
        } else {
            mines - self.flagged_count
        }
    }

    /// Whether every cell without a mine is revealed. Flags do not count: a
    /// flagged cell without a mine is not revealed.
    pub fn is_game_won(&self) -> (won: bool)
        requires
            self@.grid.wf(),
        ensures
            won == self@.grid.cleared(),
    {
        self.grid.is_cleared()
    }
}

/// What a grid laid bare looks like.
proof fn lemma_laid_bare(g: GridView)
    requires
        g.wf(),
    ensures
        g.laid_bare().wf(),
        g.laid_bare().width == g.width,
        g.laid_bare().height == g.height,
        g.laid_bare().mine_count == g.mine_count,
        g.laid_bare().populated == g.populated,
        forall|p: (int, int)|
            g.in_bounds(p) ==> #[trigger] g.laid_bare().at(p) == g.at(p).seen_as(
                if g.at(p).mine != (g.at(p).visibility == Visibility::Flagged) {
                    Visibility::Revealed
                } else {
                    g.at(p).visibility
                },
            ),
{
    let first = |p: (int, int)|
        if g.at(p).has(Mark::UnflaggedMine) {
            Visibility::Revealed
        } else {
            g.at(p).visibility
        };
    lemma_repaint(g, first);
    let half = g.revealing(Mark::UnflaggedMine);
    let second = |p: (int, int)|
        if half.at(p).has(Mark::Misflagged) {
            Visibility::Revealed
        } else {
            half.at(p).visibility
        };
    lemma_repaint(half, second);
    assert forall|p: (int, int)| g.in_bounds(p) implies #[trigger] g.laid_bare().at(p) == g.at(
        p,
    ).seen_as(
        if g.at(p).mine != (g.at(p).visibility == Visibility::Flagged) {
            Visibility::Revealed
        } else {
            g.at(p).visibility
        },
    ) by {
        assert(half.at(p) == g.at(p).seen_as(first(p)));
    }
}

/// A game lost on a grid with a revealed mine is a well-formed board.
proof fn lemma_lost(board: BoardView, fatal: GridView, m: (int, int))
    requires
        board.grid.admits_fair_start(),
        fatal.wf(),
        fatal.populated,
        fatal.width == board.grid.width,
        fatal.height == board.grid.height,
        fatal.mine_count == board.grid.mine_count,
        fatal.in_bounds(m),
        fatal.at(m).mine,
        fatal.at(m).visibility == Visibility::Revealed,
        fatal.total(Mark::Flagged) <= board.flagged_count,
        board.flagged_count + fatal.total(Mark::Hidden) <= fatal.tiles.len(),
    ensures
        board.lost(fatal).wf(),
{
    lemma_laid_bare(fatal);
    assert(fatal.at(m).has(Mark::Burst));
    assert(board.lost(fatal).detonated.contains(m));
    lemma_total_le(fatal.laid_bare(), fatal, Mark::Flagged);
    lemma_total_le(fatal.laid_bare(), fatal, Mark::Hidden);
}

/// The board after a run during play is well-formed.
proof fn lemma_after_sweep(board: BoardView, sweep: Sweep, flags_set: nat)
    requires
        board.wf(),
        board.state == GameState::Playing,
        sweep.sound(),
        sweep.follows(Sweep { grid: board.grid, blown: None }),
        sweep.grid.total(Mark::Flagged) <= board.flagged_count + flags_set,
        board.flagged_count + flags_set + sweep.grid.total(Mark::Hidden) <= sweep.grid.tiles.len(),
    ensures
        board.after_sweep(sweep, flags_set).wf(),
{
    let counted = BoardView { flagged_count: board.flagged_count + flags_set, ..board };
    match sweep.blown {
        Some(m) => {
            lemma_lost(counted, sweep.grid, m);
        },
        None => {},
    }
}

/// A grid with more of it seen has no more flags and no more hidden cells.
proof fn lemma_opened_counts(g: GridView, later: GridView)
    requires
        g.shaped(),
        later.shaped(),
        g.opened_into(later),
    ensures
        later.total(Mark::Flagged) <= g.total(Mark::Flagged),
        later.total(Mark::Hidden) <= g.total(Mark::Hidden),
        later.tiles.len() == g.tiles.len(),
{
    lemma_total_le(later, g, Mark::Flagged);
    lemma_total_le(later, g, Mark::Hidden);
}

/// Setting a flag and taking it again, or taking a flag and setting it
/// again, leaves the board as it was: the tile and the count of flags are
/// those from before.
pub proof fn law_flag_twice(board: BoardView, p: (int, int))
    requires
        board.wf(),
        board.grid.in_bounds(p),
    ensures
        board.after_flag(p).after_flag(p) == board,
{
    let g = board.grid;
    if board.state == GameState::Playing && g.at(p).visibility != Visibility::Revealed {
        let there = if g.at(p).visibility == Visibility::Hidden {
            Visibility::Flagged
        } else {
            Visibility::Hidden
        };
        lemma_with_visibility(g, p, there);
        lemma_index(g, p);
        let once = g.with_visibility(p, there);
        let twice = once.with_visibility(p, g.at(p).visibility);
        assert(twice.tiles =~= g.tiles);
        lemma_count_tiles_range(g.tiles, Mark::Flagged);
        if g.at(p).visibility == Visibility::Flagged && g.total(Mark::Flagged) == 0 {
            assert(g.tiles[g.index(p)].has(Mark::Flagged));
        }
    }
}

/// The board after a flag is set or taken is well-formed.
proof fn lemma_after_flag(board: BoardView, p: (int, int))
    requires
        board.wf(),
        board.grid.in_bounds(p),
    ensures
        board.after_flag(p).wf(),
{
    let g = board.grid;
    if board.state == GameState::Playing && g.at(p).visibility != Visibility::Revealed {
        let visibility = if g.at(p).visibility == Visibility::Hidden {
            Visibility::Flagged
        } else {
            Visibility::Hidden
        };
        let after = g.with_visibility(p, visibility);
        lemma_with_visibility(g, p, visibility);
        assert(after.total(Mark::Flagged) + one_if(g.at(p).has(Mark::Flagged)) == g.total(
            Mark::Flagged,
        ) + one_if(g.at(p).seen_as(visibility).has(Mark::Flagged)));
        assert forall|q: (int, int)|
            after.in_bounds(q) && (#[trigger] after.at(q)).visibility
                == Visibility::Revealed implies !after.at(q).mine by {
            if q != p {
                assert(after.at(q) == g.at(q));
            }
        }
        assert forall|q: (int, int)| g.in_bounds(q) implies (#[trigger] after.at(q)).mine == g.at(
            q,
        ).mine && after.at(q).neighbour_mine_count == g.at(q).neighbour_mine_count && (after.at(
            q,
        ).visibility == Visibility::Revealed <==> g.at(q).visibility
            == Visibility::Revealed) by {
            if q != p {
                assert(after.at(q) == g.at(q));
            }
        }
        lemma_cover_keeps_regions_whole(g, after);
    }
}

/// The board after the first click is well-formed.
proof fn lemma_started(board: BoardView, layout: GridView, p: (int, int), now: nat)
    requires
        board.wf(),
        board.state == GameState::NewGame,
        board.fair_layout(layout, p),
        layout.in_bounds(p),
    ensures
        board.started(layout, p, now).wf(),
{
    let first = Sweep { grid: layout, blown: None };
    lemma_open_next_sound(first, p);
    lemma_reveal_opens(layout, p);
    let after = layout.after_reveal(p);
    assert(first.open_next(p) == Sweep { grid: after, blown: None });
    lemma_count_tiles_range(after.tiles, Mark::Flagged);
    lemma_count_tiles_range(after.tiles, Mark::Hidden);
    assert forall|i: int| 0 <= i < after.tiles.len() implies !(#[trigger] after.tiles[i]).has(
        Mark::Flagged,
    ) by {
        lemma_cell_at(after, i);
        let q = after.cell_at(i);
        assert(after.at(q) == after.tiles[i]);
        assert(layout.at(q).visibility == Visibility::Hidden);
    }
}

impl Board {
    /// Takes in what a run during play left on the grid: the flags that the
    /// run set are added to the count, and the game is lost if a mine went
    /// off.
    fn absorb(
        &mut self,
        blown: Option<(usize, usize)>,
        flags_set: usize,
        Ghost(before): Ghost<BoardView>,
        Ghost(sweep): Ghost<Sweep>,
    )
        requires
            before.wf(),
            before.state == GameState::Playing,
            sweep.sound(),
            sweep.follows(Sweep { grid: before.grid, blown: None }),
            sweep.reports(blown),
            sweep.grid.total(Mark::Flagged) <= before.flagged_count + flags_set,
            before.flagged_count + flags_set + sweep.grid.total(Mark::Hidden)
                <= sweep.grid.tiles.len(),
            old(self)@ == (BoardView { grid: sweep.grid, ..before }),
            old(self).lists_once(),
        ensures
            final(self)@ == before.after_sweep(sweep, flags_set as nat),
            final(self).wf(),
    {
        proof {
            lemma_after_sweep(before, sweep, flags_set as nat);
            self.grid.lemma_fits();
        }
        self.flagged_count = self.flagged_count + flags_set;
        if blown.is_some() {
            self.detonated_mines = self.grid.cells_with(Mark::Burst);
            self.misflagged = self.grid.cells_with(Mark::Misflagged);
            self.grid.reveal_where(Mark::UnflaggedMine);
            self.grid.reveal_where(Mark::Misflagged);
            self.state = GameState::Dead;
        }
    }

    /// A right click on the cell at (`col`, `row`): during play a hidden cell
    /// gets a flag, and a flagged cell loses it. On a revealed cell and
    /// outside play nothing happens.
    pub fn toggle_flag(&mut self, col: usize, row: usize)
        requires
            old(self).wf(),
            old(self)@.grid.in_bounds(cell(col, row)),
        ensures
            final(self).wf(),
            final(self)@ == old(self)@.after_flag(cell(col, row)),
    {
        proof {
            lemma_after_flag(self@, cell(col, row));
            lemma_count_tiles_range(self@.grid.tiles, Mark::Flagged);
            lemma_index(self@.grid, cell(col, row));
        }
        if self.state != GameState::Playing {
            return ;
        }
        match self.grid.tile(col, row).visibility {
            Visibility::Hidden => {
                self.grid.set_visibility(col, row, Visibility::Flagged);
                proof {
                    self.grid.lemma_fits();
                    lemma_count_tiles_range(self.grid@.tiles, Mark::Flagged);
                }
                self.flagged_count = self.flagged_count + 1;
            },
            Visibility::Flagged => {
                self.grid.set_visibility(col, row, Visibility::Hidden);
                self.flagged_count = self.flagged_count - 1;
            },
            Visibility::Revealed => {},
        }
    }

    /// A left click on the cell at (`col`, `row`): during play a hidden cell
    /// is revealed, with the flood that follows if it holds no mine and has
    /// none around it, and the game is lost if it holds a mine. On a cell
    /// that is revealed or flagged and outside play nothing happens.
    pub fn open(&mut self, col: usize, row: usize)
        requires
            old(self).wf(),
            old(self)@.grid.in_bounds(cell(col, row)),
        ensures
            final(self).wf(),
            final(self)@ == old(self)@.after_open(cell(col, row)),
    {
        if self.state != GameState::Playing || self.grid.tile(col, row).visibility
            != Visibility::Hidden {
            return ;
        }
        let ghost before = self@;
        let ghost p = cell(col, row);
        proof {
            let first = Sweep { grid: before.grid, blown: None };
            lemma_open_next_sound(first, p);
            lemma_open_next_opens(first, p);
            lemma_opened_counts(before.grid, first.open_next(p).grid);
        }
        let blown = open_one(&mut self.grid, col, row);
        self.absorb(
            blown,
            0,
            Ghost(before),
            Ghost((Sweep { grid: before.grid, blown: None }).open_next(p)),
        );
    }

    /// A chord on the cell at (`col`, `row`) during play, as `chord` makes it
    /// on the grid. The game is lost if a mine goes off.
    pub fn chord(&mut self, col: usize, row: usize)
        requires
            old(self).wf(),
            old(self)@.grid.in_bounds(cell(col, row)),
        ensures
            final(self).wf(),
            final(self)@ == old(self)@.after_chord(cell(col, row)),
    {
        if self.state != GameState::Playing {
            return ;
        }
        let ghost before = self@;
        proof {
            lemma_chord_sound(before.grid, cell(col, row));
            lemma_chord_opens(before.grid, cell(col, row));
            lemma_opened_counts(before.grid, before.grid.after_chord(cell(col, row)).grid);
        }
        let blown = match chord(&mut self.grid, col, row) {
            Outcome::Detonated(c, r) => Some((c, r)),
            _ => None,
        };
        self.absorb(blown, 0, Ghost(before), Ghost(before.grid.after_chord(cell(col, row))));
    }

    /// A pass of the solver during play, as `solve_pass` makes it on the
    /// grid. The flags that the pass set are added to the count. The game is
    /// lost if a mine goes off. Otherwise a round of floods follows, as
    /// `flood_open_cells` makes it.
    pub fn run_solver(&mut self)
        requires
            old(self).wf(),
        ensures
            final(self).wf(),
            final(self)@ == old(self)@.after_solver(),
    {
        if self.state != GameState::Playing {
            return ;
        }
        let ghost before = self@;
        let ghost pass = before.grid.after_solving();
        proof {
            lemma_solving_tame(before.grid);
            law_pass_works_on_hidden_cells(before.grid);
            lemma_count_tiles_split(before.grid.tiles);
            lemma_count_tiles_split(pass.grid.tiles);
        }
        let flags_before = self.grid.count(Mark::Flagged);
        let blown = solve_pass(&mut self.grid);
        let flags_set = self.grid.count(Mark::Flagged) - flags_before;
        if blown.is_none() {
            flood_open_cells(&mut self.grid);
        }
        let ghost sweep = if pass.blown is None {
            Sweep { grid: pass.grid.after_floods(), blown: None }
        } else {
            pass
        };
        proof {
            if pass.blown is None {
                let swept = pass.grid.after_floods();
                assert forall|p: (int, int)|
                    swept.in_bounds(p) && (#[trigger] swept.at(p)).visibility
                        == Visibility::Revealed implies !swept.at(p).mine by {
                    if swept.at(p).mine {
                        assert(pass.grid.at(p).mine);
                        assert(swept.at(p).visibility == pass.grid.at(p).visibility);
                    }
                }
                assert(sweep.follows(pass));
                lemma_follows(Sweep { grid: before.grid, blown: None }, pass, sweep);
                lemma_opened_counts(pass.grid, swept);
            }
        }
        self.absorb(blown, flags_set, Ghost(before), Ghost(sweep));
    }

    /// The end of a tick at the time `now`: during play the seconds since the
    /// start are counted, and the game is won if every cell without a mine
    /// is revealed.
    pub fn settle(&mut self, now: u64)
        requires
            old(self).wf(),
        ensures
            final(self).wf(),
            final(self)@ == old(self)@.settled(now as nat),
    {
        if self.state != GameState::Playing {
            return ;
        }
        self.elapsed_seconds = if now >= self.started_at {
            now - self.started_at
        } else {
            0
        };
        if self.grid.is_cleared() {
            self.state = GameState::Won;
        }
    }

    /// Starts a new game on the given layout with the first click on the cell
    /// at (`col`, `row`), at the time `now`: the layout becomes the grid, the
    /// cell is revealed with the flood that follows, and play begins. The
    /// layout is taken only for a new game, and only if it has the board's
    /// size and number of mines, its mines are laid, every cell of it is
    /// hidden, and the cell holds no mine and has none around it. Returns
    /// whether it was taken.
    pub fn start_with(&mut self, layout: Grid, col: usize, row: usize, now: u64) -> (taken: bool)
        requires
            old(self).wf(),
            layout.wf(),
            old(self)@.grid.in_bounds(cell(col, row)),
        ensures
            final(self).wf(),
            taken == (old(self)@.state == GameState::NewGame && old(self)@.fair_layout(
                layout@,
                cell(col, row),
            )),
            final(self)@ == if taken {
                old(self)@.started(layout@, cell(col, row), now as nat)
            } else {
                old(self)@
            },
    {
        if self.state != GameState::NewGame || layout.width() != self.grid.width()
            || layout.height() != self.grid.height() || layout.mine_count()
            != self.grid.mine_count() || !layout.is_populated() || !layout.is_untouched() {
            return false;
        }
        let tile = layout.tile(col, row);
        if tile.mine || tile.neighbour_mine_count != 0 {
            return false;
        }
        proof {
            lemma_started(self@, layout@, cell(col, row), now as nat);
        }
        self.grid = layout;
        crate::reveal_engine::reveal_at(&mut self.grid, col, row);
        self.state = GameState::Playing;
        self.flagged_count = 0;
        self.started_at = now;
        self.elapsed_seconds = 0;
        true
    }

    /// The first click of a new game on the cell at (`col`, `row`), at the
    /// time `now`: the mines are laid with `generate_fair` so that the cell
    /// and its neighbours are clear, the cell is revealed with the flood that
    /// follows, and play begins. The click is not taken unless the game is
    /// new and the mines fit beside the cell and its neighbours. Returns
    /// whether it was taken.
    pub fn start(&mut self, col: usize, row: usize, now: u64, rng: &mut fastrand::Rng) -> (taken:
        bool)
        requires
            old(self).wf(),
            old(self)@.grid.in_bounds(cell(col, row)),
        ensures
            final(self).wf(),
            taken == (old(self)@.state == GameState::NewGame && old(self)@.grid.fair_start(
                cell(col, row),
            )),
            taken ==> exists|layout: GridView|
                old(self)@.fair_layout(layout, cell(col, row)) && final(self)@ == #[trigger] old(
                    self,
                )@.started(layout, cell(col, row), now as nat),
            !taken ==> final(self)@ == old(self)@,
    {
        if self.state != GameState::NewGame {
            return false;
        }
        proof {
            self.grid.lemma_fits();
        }
        let made = generate_fair(
            col,
            row,
            self.grid.mine_count(),
            self.grid.width(),
            self.grid.height(),
            rng,
        );
        match made {
            Ok(layout) => {
                let ghost chosen = layout@;
                let taken = self.start_with(layout, col, row, now);
                proof {
                    assert(old(self)@.fair_layout(chosen, cell(col, row)));
                    assert(self@ == old(self)@.started(chosen, cell(col, row), now as nat));
                }
                taken
            },
            Err(_) => false,
        }
    }
}

/// What a cell looks like to the player.
#[derive(Clone, Copy, Debug, PartialEq, Eq, Structural)]
pub enum Face {
    /// A hidden cell.
    Covered,
    /// A cell with a flag.
    Flag,
    /// A revealed cell without a mine and with none around it.
    Empty,
    /// A revealed cell without a mine, with the number of mines around it.
    Number(u8),
    /// A revealed mine that did not go off.
    Mine,
    /// A mine that went off.
    Detonated,
    /// A flag that stood on a cell without a mine when the game was lost.
    Misflag,
}

impl BoardView {
    /// What the cell looks like.
    pub open spec fn face(self, p: (int, int)) -> Face {
        let tile = self.grid.at(p);
        match tile.visibility {
            Visibility::Hidden => Face::Covered,
            Visibility::Flagged => Face::Flag,
            Visibility::Revealed => if tile.mine {
                if self.detonated.contains(p) {
                    Face::Detonated
                } else {
                    Face::Mine
                }
            } else if self.misflagged.contains(p) {
                Face::Misflag
            } else if tile.neighbour_mine_count == 0 {
                Face::Empty
            } else {
                Face::Number(tile.neighbour_mine_count)
            },
        }
    }
}

/// Whether the cell is in the list.
fn listed(list: &Vec<(usize, usize)>, col: usize, row: usize) -> (found: bool)
    ensures
        found == cells(list@).to_set().contains(cell(col, row)),
{
    let mut i: usize = 0;
    while i < list.len()
        invariant
            i <= list@.len(),
            forall|j: int| 0 <= j < i ==> cells(list@)[j] != cell(col, row),
        decreases list@.len() - i,
    {
        let (c, r) = list[i];
        if c == col && r == row {
            assert(cells(list@)[i as int] == cell(col, row));
            return true;
        }
        i = i + 1;
    }
    false
}

/// The three digits that a counter shows for a number: its hundreds, tens
/// and ones. Thousands are not shown.
pub fn counter_digits(number: usize) -> (digits: [u8; 3])
    ensures
        digits[0] == (number / 100) % 10,
        digits[1] == (number / 10) % 10,
        digits[2] == number % 10,
{
    [((number / 100) % 10) as u8, ((number / 10) % 10) as u8, (number % 10) as u8]
}

impl Board {
    /// What the cell at (`col`, `row`) looks like.
    pub fn face(&self, col: usize, row: usize) -> (face: Face)
        requires
            self@.grid.wf(),
            self@.grid.in_bounds(cell(col, row)),
        ensures
            face == self@.face(cell(col, row)),
    {
        let tile = self.grid.tile(col, row);
        match tile.visibility {
            Visibility::Hidden => Face::Covered,
            Visibility::Flagged => Face::Flag,
            Visibility::Revealed => if tile.mine {
                if listed(&self.detonated_mines, col, row) {
                    Face::Detonated
                } else {
                    Face::Mine
                }
            } else if listed(&self.misflagged, col, row) {
                Face::Misflag
            } else if tile.neighbour_mine_count == 0 {
                Face::Empty
            } else {
                Face::Number(tile.neighbour_mine_count)
            },
        }
    }

    /// The player's input of one tick during play. The buttons may ask for a
    /// chord: it is made if the cell is revealed and satisfied. Else a press
    /// of the right button over a cell that is not revealed sets a flag or
    /// takes it. Else a press of the left button over a cell without a flag
    /// reveals the cell. Outside play nothing happens.
    pub fn handle_input(&mut self, input: &Input)
        requires
            old(self).wf(),
            old(self)@.grid.in_bounds(cell(input.col, input.row)),
        ensures
            final(self).wf(),
            final(self)@ == old(self)@.after_input(*input),
    {
        if self.state != GameState::Playing {
            return ;
        }
        let col = input.col;
        let row = input.row;
        let tile = self.grid.tile(col, row);
        let chords = (input.left.released && input.right.released) || (input.left.down
            && input.right.released) || (input.right.down && input.left.released)
            || input.middle.released;
        if chords && tile.visibility == Visibility::Revealed && satisfied(&self.grid, col, row) {
            self.chord(col, row);
        } else if tile.visibility != Visibility::Revealed && input.right.pressed
            && input.hovering {
            self.toggle_flag(col, row);
        } else if input.left.pressed && input.hovering && tile.visibility != Visibility::Flagged {
            self.open(col, row);
        }
    }

    /// One tick of the game. In a new game a press of the left button over
    /// a cell starts play with `start`. During play the player's input is
    /// handled with `handle_input`. Then the solver makes a pass with
    /// `run_solver` if the input asks for one, and the tick ends with
    /// `settle`. After a win or a loss nothing changes any more.
    pub fn tick(&mut self, input: &Input, rng: &mut fastrand::Rng)
        requires
            old(self).wf(),
            old(self)@.grid.in_bounds(cell(input.col, input.row)),
        ensures
            final(self).wf(),
            old(self)@.state != GameState::NewGame ==> final(self)@ == old(self)@.after_input(
                *input,
            ).after_rest(*input),
            old(self)@.state == GameState::NewGame ==> if input.left.pressed && input.hovering
                && old(self)@.grid.fair_start(cell(input.col, input.row)) {
                exists|layout: GridView|
                    old(self)@.fair_layout(layout, cell(input.col, input.row)) && final(self)@
                        == (#[trigger] old(self)@.started(
                        layout,
                        cell(input.col, input.row),
                        input.now as nat,
                    )).after_rest(*input)
            } else {
                final(self)@ == old(self)@
            },
    {
        let ghost p = cell(input.col, input.row);
        if self.state == GameState::NewGame {
            if input.left.pressed && input.hovering {
                self.start(input.col, input.row, input.now, rng);
            }
        } else {
            self.handle_input(input);
        }
        let ghost begun = self@;
        if input.solver {
            self.run_solver();
        }
        self.settle(input.now);
        proof {
            if old(self)@.state == GameState::NewGame && input.left.pressed && input.hovering
                && old(self)@.grid.fair_start(p) {
                let layout = choose|layout: GridView|
                    old(self)@.fair_layout(layout, p) && begun == #[trigger] old(self)@.started(
                        layout,
                        p,
                        input.now as nat,
                    );
                assert(self@ == old(self)@.started(layout, p, input.now as nat).after_rest(
                    *input,
                ));
            }
        }
    }
}

} // verus!
