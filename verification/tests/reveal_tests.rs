use minesweeper::grid::Grid;
use minesweeper::neighbourhood::neighbours;
use minesweeper::regions::flood_open_cells;
use minesweeper::reveal_engine::{chord, flood, open_each, open_one, reveal_at, Outcome};
use minesweeper::tile::{Mark, Visibility};

fn grid_with(width: usize, height: usize, mines: &[(usize, usize)]) -> Grid {
    Grid::with_mines(width, height, &mines.to_vec()).unwrap()
}

fn seen(grid: &Grid, col: usize, row: usize) -> Visibility {
    grid.tile(col, row).visibility
}

#[test]
fn reveal_of_a_numbered_cell_reveals_that_cell_only() {
    let mut grid = grid_with(3, 3, &[(0, 0), (2, 2)]);
    reveal_at(&mut grid, 1, 1);
    assert_eq!(grid.cells_with(Mark::Revealed), vec![(1, 1)]);
}

#[test]
fn reveal_of_a_mine_reveals_it_without_a_flood() {
    let mut grid = grid_with(3, 3, &[(0, 0)]);
    assert_eq!(grid.tile(0, 0).neighbour_mine_count, 0);
    reveal_at(&mut grid, 0, 0);
    assert_eq!(grid.cells_with(Mark::Revealed), vec![(0, 0)]);
}

#[test]
fn reveal_of_an_empty_cell_floods_the_region_and_its_border() {
    let mut grid = grid_with(3, 3, &[(2, 2)]);
    reveal_at(&mut grid, 0, 0);
    for col in 0..3 {
        for row in 0..3 {
            let expected = if (col, row) == (2, 2) {
                Visibility::Hidden
            } else {
                Visibility::Revealed
            };
            assert_eq!(seen(&grid, col, row), expected, "at {col},{row}");
        }
    }
    assert!(grid.is_cleared());
}

#[test]
fn flood_stops_at_the_numbered_border() {
    // A wall of mines in column 2 parts the board.
    let mut grid = grid_with(5, 3, &[(2, 0), (2, 1), (2, 2)]);
    reveal_at(&mut grid, 0, 1);
    assert_eq!(
        grid.cells_with(Mark::Revealed),
        vec![(0, 0), (1, 0), (0, 1), (1, 1), (0, 2), (1, 2)]
    );
    assert_eq!(seen(&grid, 3, 1), Visibility::Hidden);
    assert_eq!(seen(&grid, 4, 1), Visibility::Hidden);
}

#[test]
fn flood_never_reveals_a_mine() {
    let mines = [(3, 0), (0, 3), (3, 3), (5, 1)];
    let mut grid = grid_with(6, 4, &mines);
    assert_eq!(grid.tile(0, 0).neighbour_mine_count, 0);
    flood(&mut grid, 0, 0);
    for (col, row) in mines {
        assert_eq!(seen(&grid, col, row), Visibility::Hidden);
    }
    assert_eq!(grid.count(Mark::Burst), 0);
    assert!(grid.count(Mark::Revealed) > 0);
}

#[test]
fn flood_from_a_numbered_cell_opens_its_safe_neighbours() {
    let mut grid = grid_with(3, 3, &[(0, 0), (2, 2)]);
    flood(&mut grid, 1, 1);
    assert_eq!(seen(&grid, 0, 0), Visibility::Hidden);
    assert_eq!(seen(&grid, 2, 2), Visibility::Hidden);
    assert_eq!(seen(&grid, 1, 0), Visibility::Revealed);
    // (2, 0) and (0, 2) have no mine around them: the flood went on from
    // them and came back to the start.
    assert_eq!(grid.tile(2, 0).neighbour_mine_count, 0);
    assert_eq!(seen(&grid, 1, 1), Visibility::Revealed);
    assert_eq!(grid.count(Mark::Revealed), 7);
}

#[test]
fn flood_does_not_touch_a_start_that_nothing_leads_back_to() {
    let mut grid = grid_with(3, 1, &[(0, 0), (2, 0)]);
    flood(&mut grid, 1, 0);
    assert_eq!(grid.count(Mark::Revealed), 0);
    let mut grid = grid_with(5, 1, &[(0, 0), (4, 0)]);
    flood(&mut grid, 1, 0);
    // (2, 0) is opened and lets the flood through; (1, 0) and (3, 0) are
    // opened from it.
    assert_eq!(grid.cells_with(Mark::Revealed), vec![(1, 0), (2, 0), (3, 0)]);
}

#[test]
fn flood_reveals_wrong_flags_and_keeps_flags_on_mines() {
    let mut grid = grid_with(3, 3, &[(2, 2)]);
    grid.set_visibility(1, 1, Visibility::Flagged);
    grid.set_visibility(2, 2, Visibility::Flagged);
    reveal_at(&mut grid, 0, 0);
    assert_eq!(seen(&grid, 1, 1), Visibility::Revealed);
    assert_eq!(seen(&grid, 2, 2), Visibility::Flagged);
    assert_eq!(grid.count(Mark::Flagged), 1);
}

#[test]
fn flood_is_idempotent() {
    let mut grid = grid_with(5, 3, &[(2, 0), (2, 1), (2, 2)]);
    reveal_at(&mut grid, 0, 1);
    let before = grid.cells_with(Mark::Revealed);
    flood(&mut grid, 0, 1);
    reveal_at(&mut grid, 0, 0);
    assert_eq!(grid.cells_with(Mark::Revealed), before);
}

#[test]
fn flood_covers_a_large_empty_board() {
    let mut grid = grid_with(30, 16, &[]);
    reveal_at(&mut grid, 17, 9);
    assert_eq!(grid.count(Mark::Revealed), 480);
}

#[test]
fn chord_without_enough_flags_is_a_no_op() {
    let mut grid = grid_with(3, 3, &[(0, 0), (2, 2)]);
    reveal_at(&mut grid, 1, 1);
    grid.set_visibility(0, 0, Visibility::Flagged);
    assert_eq!(grid.tile(1, 1).neighbour_mine_count, 2);
    assert_eq!(chord(&mut grid, 1, 1), Outcome::NoOp);
    assert_eq!(grid.cells_with(Mark::Revealed), vec![(1, 1)]);
    assert_eq!(grid.cells_with(Mark::Flagged), vec![(0, 0)]);
    assert_eq!(grid.count(Mark::Hidden), 7);
}

#[test]
fn chord_with_too_many_flags_is_a_no_op() {
    let mut grid = grid_with(3, 3, &[(0, 0)]);
    reveal_at(&mut grid, 1, 1);
    grid.set_visibility(0, 0, Visibility::Flagged);
    grid.set_visibility(2, 2, Visibility::Flagged);
    assert_eq!(chord(&mut grid, 1, 1), Outcome::NoOp);
    assert_eq!(grid.count(Mark::Revealed), 1);
}

#[test]
fn chord_on_a_cell_that_is_not_revealed_is_a_no_op() {
    let mut grid = grid_with(3, 3, &[(0, 0)]);
    grid.set_visibility(0, 0, Visibility::Flagged);
    assert_eq!(chord(&mut grid, 1, 1), Outcome::NoOp);
    assert_eq!(grid.count(Mark::Revealed), 0);
    grid.set_visibility(1, 1, Visibility::Flagged);
    assert_eq!(chord(&mut grid, 1, 1), Outcome::NoOp);
    assert_eq!(grid.count(Mark::Revealed), 0);
}

#[test]
fn satisfied_chord_reveals_the_neighbours_without_a_flag() {
    let mut grid = grid_with(3, 3, &[(0, 0), (2, 2)]);
    reveal_at(&mut grid, 1, 1);
    grid.set_visibility(0, 0, Visibility::Flagged);
    grid.set_visibility(2, 2, Visibility::Flagged);
    assert_eq!(chord(&mut grid, 1, 1), Outcome::Cleared);
    assert_eq!(grid.count(Mark::Revealed), 7);
    assert_eq!(grid.cells_with(Mark::Flagged), vec![(0, 0), (2, 2)]);
    assert!(grid.is_cleared());
}

#[test]
fn chord_with_a_wrong_flag_sets_off_the_mine() {
    let mut grid = grid_with(3, 3, &[(0, 0), (2, 2)]);
    reveal_at(&mut grid, 1, 1);
    grid.set_visibility(0, 0, Visibility::Flagged);
    grid.set_visibility(2, 0, Visibility::Flagged);
    assert_eq!(chord(&mut grid, 1, 1), Outcome::Detonated(2, 2));
    assert_eq!(seen(&grid, 2, 2), Visibility::Revealed);
    assert_eq!(seen(&grid, 0, 0), Visibility::Flagged);
    assert_eq!(seen(&grid, 2, 0), Visibility::Flagged);
    assert_eq!(grid.cells_with(Mark::Burst), vec![(2, 2)]);
    assert_eq!(grid.count(Mark::Hidden), 0);
}

#[test]
fn chord_reports_the_first_of_several_mines_and_reveals_all() {
    let mut grid = grid_with(3, 3, &[(0, 1), (2, 1)]);
    reveal_at(&mut grid, 1, 1);
    grid.set_visibility(0, 0, Visibility::Flagged);
    grid.set_visibility(2, 2, Visibility::Flagged);
    assert_eq!(chord(&mut grid, 1, 1), Outcome::Detonated(0, 1));
    assert_eq!(grid.cells_with(Mark::Burst), vec![(0, 1), (2, 1)]);
}

#[test]
fn chord_does_not_flood_after_a_mine_went_off() {
    let mut grid = grid_with(5, 5, &[(0, 0)]);
    reveal_at(&mut grid, 1, 1);
    grid.set_visibility(2, 2, Visibility::Flagged);
    assert_eq!(grid.tile(0, 2).neighbour_mine_count, 0);
    assert_eq!(chord(&mut grid, 1, 1), Outcome::Detonated(0, 0));
    assert_eq!(seen(&grid, 0, 2), Visibility::Revealed);
    assert_eq!(seen(&grid, 0, 3), Visibility::Hidden);
    assert_eq!(seen(&grid, 2, 2), Visibility::Flagged);
    assert_eq!(grid.count(Mark::Revealed), 8);
}

#[test]
fn chord_floods_from_empty_neighbours_before_any_mine() {
    let mut grid = grid_with(5, 5, &[(2, 2)]);
    reveal_at(&mut grid, 1, 1);
    assert_eq!(grid.count(Mark::Revealed), 1);
    grid.set_visibility(2, 2, Visibility::Flagged);
    assert_eq!(chord(&mut grid, 1, 1), Outcome::Cleared);
    assert_eq!(grid.count(Mark::Revealed), 24);
    assert_eq!(seen(&grid, 4, 4), Visibility::Revealed);
}

#[test]
fn open_each_passes_over_flags_and_sets_off_mines() {
    let mut grid = grid_with(4, 1, &[(3, 0)]);
    grid.set_visibility(1, 0, Visibility::Flagged);
    grid.set_visibility(2, 0, Visibility::Revealed);
    let blown = open_each(&mut grid, &vec![(1, 0), (2, 0)]);
    assert_eq!(blown, None);
    assert_eq!(seen(&grid, 0, 0), Visibility::Hidden);
    assert_eq!(seen(&grid, 1, 0), Visibility::Flagged);
    let blown = open_each(&mut grid, &vec![(3, 0), (0, 0)]);
    assert_eq!(blown, Some((3, 0)));
    assert_eq!(seen(&grid, 3, 0), Visibility::Revealed);
    assert_eq!(seen(&grid, 0, 0), Visibility::Revealed);
    assert_eq!(seen(&grid, 1, 0), Visibility::Flagged);
}

fn is_open(grid: &Grid, col: usize, row: usize) -> bool {
    let tile = grid.tile(col, row);
    tile.visibility == Visibility::Revealed && !tile.mine && tile.neighbour_mine_count == 0
}

/// Every open cell has all its neighbours revealed, and every revealed
/// numbered cell is a target or lies next to an open cell.
fn assert_regions(grid: &Grid, targets: &[(usize, usize)]) {
    for col in 0..grid.width() {
        for row in 0..grid.height() {
            let around = neighbours(col, row, grid.width(), grid.height());
            let tile = grid.tile(col, row);
            if is_open(grid, col, row) {
                for &(c, r) in &around {
                    assert_eq!(grid.tile(c, r).visibility, Visibility::Revealed);
                }
            }
            if tile.visibility == Visibility::Revealed
                && !tile.mine
                && tile.neighbour_mine_count > 0
            {
                assert!(
                    targets.contains(&(col, row)) || around.iter().any(|&(c, r)| is_open(grid, c, r)),
                    "nothing accounts for {col},{row}"
                );
            }
        }
    }
}

#[test]
fn revealed_cells_form_whole_regions_with_their_borders() {
    let mines = [(2, 0), (2, 1), (2, 2), (6, 3), (0, 5), (7, 7), (4, 5)];
    let mut grid = grid_with(8, 8, &mines);
    let mut targets = Vec::new();
    assert_regions(&grid, &targets);
    for (col, row) in [(0, 0), (3, 1), (7, 0), (1, 5), (4, 7), (3, 1)] {
        assert!(!grid.tile(col, row).mine);
        reveal_at(&mut grid, col, row);
        targets.push((col, row));
        assert_regions(&grid, &targets);
    }
    // A chord on (3, 1), which shows 3: its neighbours are the targets.
    assert_eq!(grid.tile(3, 1).neighbour_mine_count, 3);
    for (col, row) in [(2, 0), (2, 1), (2, 2)] {
        grid.set_visibility(col, row, Visibility::Flagged);
    }
    assert_eq!(chord(&mut grid, 3, 1), Outcome::Cleared);
    targets.extend(neighbours(3, 1, 8, 8));
    assert_regions(&grid, &targets);
    assert_eq!(grid.count(Mark::Burst), 0);
}

#[test]
fn a_round_of_floods_opens_the_regions_around_open_cells() {
    let mut grid = grid_with(7, 3, &[(3, 0), (3, 1), (3, 2)]);
    grid.set_visibility(0, 0, Visibility::Revealed);
    grid.set_visibility(6, 2, Visibility::Revealed);
    grid.set_visibility(2, 1, Visibility::Revealed);
    grid.set_visibility(5, 1, Visibility::Flagged);
    flood_open_cells(&mut grid);
    assert_eq!(grid.count(Mark::Revealed), 18);
    assert_eq!(grid.count(Mark::Hidden), 3);
    assert_eq!(grid.count(Mark::Burst), 0);
    assert_regions(&grid, &[]);
    // A second round finds nothing to do.
    flood_open_cells(&mut grid);
    assert_eq!(grid.count(Mark::Revealed), 18);
}

#[test]
fn a_round_of_floods_does_nothing_without_an_open_cell() {
    let mut grid = grid_with(3, 3, &[(0, 0), (2, 2)]);
    grid.set_visibility(1, 1, Visibility::Revealed);
    grid.set_visibility(0, 0, Visibility::Revealed);
    flood_open_cells(&mut grid);
    assert_eq!(grid.cells_with(Mark::Revealed), vec![(0, 0), (1, 1)]);
}

#[test]
fn open_one_opens_a_cell_as_a_run_does() {
    let mut grid = grid_with(3, 3, &[(2, 2)]);
    assert_eq!(open_one(&mut grid, 2, 2), Some((2, 2)));
    assert_eq!(grid.count(Mark::Revealed), 1);
    assert_eq!(open_one(&mut grid, 0, 0), None);
    assert_eq!(grid.count(Mark::Revealed), 9);
    grid.set_visibility(0, 0, Visibility::Flagged);
    assert_eq!(open_one(&mut grid, 0, 0), None);
    assert_eq!(seen(&grid, 0, 0), Visibility::Flagged);
}
