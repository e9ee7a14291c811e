use minesweeper::error::ConfigError;
use minesweeper::grid::Grid;
use minesweeper::neighbourhood::{neighbours, surrounding_bounds};
use minesweeper::tile::{Mark, Tile, Visibility};

fn grid_with(width: usize, height: usize, mines: &[(usize, usize)]) -> Grid {
    Grid::with_mines(width, height, &mines.to_vec()).unwrap()
}

#[test]
fn interior_cell_has_eight_neighbours_column_by_column() {
    assert_eq!(
        neighbours(5, 7, 30, 16),
        vec![(4, 6), (4, 7), (4, 8), (5, 6), (5, 8), (6, 6), (6, 7), (6, 8)]
    );
}

#[test]
fn corner_cells_have_three_neighbours() {
    assert_eq!(neighbours(0, 0, 30, 16), vec![(0, 1), (1, 0), (1, 1)]);
    assert_eq!(neighbours(29, 15, 30, 16), vec![(28, 14), (28, 15), (29, 14)]);
    assert_eq!(neighbours(0, 15, 30, 16), vec![(0, 14), (1, 14), (1, 15)]);
    assert_eq!(neighbours(29, 0, 30, 16), vec![(28, 0), (28, 1), (29, 1)]);
}

#[test]
fn edge_cells_have_five_neighbours() {
    assert_eq!(neighbours(0, 5, 30, 16), vec![(0, 4), (0, 6), (1, 4), (1, 5), (1, 6)]);
    assert_eq!(neighbours(7, 0, 30, 16), vec![(6, 0), (6, 1), (7, 1), (8, 0), (8, 1)]);
    assert_eq!(neighbours(29, 5, 30, 16).len(), 5);
    assert_eq!(neighbours(7, 15, 30, 16).len(), 5);
}

#[test]
fn single_cell_board_has_no_neighbours() {
    assert_eq!(neighbours(0, 0, 1, 1), Vec::<(usize, usize)>::new());
}

#[test]
fn narrow_boards_clamp_on_both_sides() {
    assert_eq!(neighbours(0, 1, 1, 3), vec![(0, 0), (0, 2)]);
    assert_eq!(neighbours(1, 0, 3, 1), vec![(0, 0), (2, 0)]);
}

#[test]
fn a_cell_is_never_its_own_neighbour() {
    for col in 0..4 {
        for row in 0..3 {
            assert!(!neighbours(col, row, 4, 3).contains(&(col, row)));
        }
    }
}

#[test]
fn cells_off_the_board_still_see_the_board_beside_them() {
    assert_eq!(neighbours(3, 1, 3, 3), vec![(2, 0), (2, 1), (2, 2)]);
    assert_eq!(neighbours(5, 5, 3, 3), Vec::<(usize, usize)>::new());
}

#[test]
fn new_grid_is_blank() {
    let grid = Grid::new(30, 16, 99).unwrap();
    assert_eq!(grid.width(), 30);
    assert_eq!(grid.height(), 16);
    assert_eq!(grid.mine_count(), 99);
    assert!(!grid.is_populated());
    assert_eq!(grid.count(Mark::Mine), 0);
    assert_eq!(grid.count(Mark::Hidden), 480);
    assert!(grid.is_untouched());
    assert_eq!(
        grid.tile(29, 15),
        Tile { mine: false, neighbour_mine_count: 0, visibility: Visibility::Hidden }
    );
}

#[test]
fn new_grid_refuses_an_area_that_overflows() {
    assert_eq!(Grid::new(usize::MAX, 2, 0).err(), Some(ConfigError::TooLarge));
    assert_eq!(
        Grid::with_mines(usize::MAX, 2, &vec![]).err(),
        Some(ConfigError::TooLarge)
    );
}

#[test]
fn with_mines_counts_the_mines_around_each_cell() {
    let grid = grid_with(4, 4, &[(3, 3)]);
    assert!(grid.is_populated());
    assert_eq!(grid.mine_count(), 1);
    for col in 0..4 {
        for row in 0..4 {
            let tile = grid.tile(col, row);
            assert_eq!(tile.visibility, Visibility::Hidden);
            assert_eq!(tile.mine, (col, row) == (3, 3));
            let expected = if (col, row) == (2, 2) || (col, row) == (3, 2) || (col, row) == (2, 3) {
                1
            } else {
                0
            };
            assert_eq!(tile.neighbour_mine_count, expected, "at {col},{row}");
        }
    }
}

#[test]
fn a_cell_surrounded_by_mines_counts_eight() {
    let mines = [(0, 0), (0, 1), (0, 2), (1, 0), (1, 2), (2, 0), (2, 1), (2, 2)];
    let grid = grid_with(3, 3, &mines);
    assert_eq!(grid.tile(1, 1).neighbour_mine_count, 8);
    assert!(!grid.tile(1, 1).mine);
    assert_eq!(grid.mine_count(), 8);
    assert_eq!(grid.tile(0, 0).neighbour_mine_count, 2);
    assert_eq!(grid.tile(1, 0).neighbour_mine_count, 4);
}

#[test]
fn with_mines_counts_a_cell_listed_twice_once() {
    let grid = grid_with(3, 3, &[(1, 1), (1, 1), (0, 0)]);
    assert_eq!(grid.mine_count(), 2);
    assert_eq!(grid.count(Mark::Mine), 2);
    assert_eq!(grid.tile(2, 2).neighbour_mine_count, 1);
    assert_eq!(grid.tile(1, 0).neighbour_mine_count, 2);
}

#[test]
fn with_mines_refuses_a_mine_off_the_board() {
    assert_eq!(
        Grid::with_mines(3, 3, &vec![(0, 0), (3, 0)]).err(),
        Some(ConfigError::OutOfBounds)
    );
    assert_eq!(
        Grid::with_mines(3, 3, &vec![(0, 3)]).err(),
        Some(ConfigError::OutOfBounds)
    );
}

#[test]
fn set_visibility_changes_one_cell_only() {
    let mut grid = grid_with(3, 2, &[(1, 1)]);
    grid.set_visibility(2, 0, Visibility::Flagged);
    for col in 0..3 {
        for row in 0..2 {
            let expected = if (col, row) == (2, 0) {
                Visibility::Flagged
            } else {
                Visibility::Hidden
            };
            assert_eq!(grid.tile(col, row).visibility, expected);
        }
    }
    assert!(grid.tile(1, 1).mine);
    assert_eq!(grid.tile(2, 0).neighbour_mine_count, 1);
    assert_eq!(grid.count(Mark::Flagged), 1);
    assert_eq!(grid.count(Mark::Mine), 1);
}

#[test]
fn count_around_counts_each_mark() {
    let mut grid = grid_with(3, 3, &[(0, 0), (2, 2)]);
    grid.set_visibility(0, 0, Visibility::Flagged);
    grid.set_visibility(1, 0, Visibility::Revealed);
    grid.set_visibility(0, 1, Visibility::Flagged);
    assert_eq!(grid.count_around(1, 1, Mark::Mine), 2);
    assert_eq!(grid.count_around(1, 1, Mark::Flagged), 2);
    assert_eq!(grid.count_around(1, 1, Mark::Revealed), 1);
    assert_eq!(grid.count_around(1, 1, Mark::Unrevealed), 7);
    assert_eq!(grid.count_around(1, 1, Mark::Hidden), 5);
    assert_eq!(grid.count_around(1, 1, Mark::Misflagged), 1);
    assert_eq!(grid.count_around(0, 0, Mark::Flagged), 1);
}

#[test]
fn cells_with_lists_row_by_row() {
    let mut grid = grid_with(3, 2, &[(2, 0), (0, 1)]);
    assert_eq!(grid.cells_with(Mark::Mine), vec![(2, 0), (0, 1)]);
    grid.set_visibility(1, 1, Visibility::Flagged);
    grid.set_visibility(2, 0, Visibility::Flagged);
    assert_eq!(grid.cells_with(Mark::Misflagged), vec![(1, 1)]);
    assert_eq!(grid.cells_with(Mark::UnflaggedMine), vec![(0, 1)]);
    assert_eq!(grid.cells_with(Mark::Burst), Vec::<(usize, usize)>::new());
}

#[test]
fn reveal_where_reveals_the_marked_cells_only() {
    let mut grid = grid_with(3, 2, &[(2, 0), (0, 1)]);
    grid.set_visibility(2, 0, Visibility::Flagged);
    grid.set_visibility(1, 0, Visibility::Flagged);
    grid.reveal_where(Mark::UnflaggedMine);
    assert_eq!(grid.tile(0, 1).visibility, Visibility::Revealed);
    assert_eq!(grid.tile(2, 0).visibility, Visibility::Flagged);
    assert_eq!(grid.tile(1, 0).visibility, Visibility::Flagged);
    grid.reveal_where(Mark::Misflagged);
    assert_eq!(grid.tile(1, 0).visibility, Visibility::Revealed);
    assert_eq!(grid.tile(2, 0).visibility, Visibility::Flagged);
    assert_eq!(grid.tile(0, 0).visibility, Visibility::Hidden);
}

#[test]
fn is_cleared_ignores_flags() {
    let mut grid = grid_with(2, 1, &[(1, 0)]);
    assert!(!grid.is_cleared());
    grid.set_visibility(0, 0, Visibility::Flagged);
    assert!(!grid.is_cleared());
    grid.set_visibility(0, 0, Visibility::Revealed);
    assert!(grid.is_cleared());
    grid.set_visibility(1, 0, Visibility::Flagged);
    assert!(grid.is_cleared());
}

#[test]
fn tile_marks() {
    let tile = Tile { mine: true, neighbour_mine_count: 3, visibility: Visibility::Flagged };
    assert!(tile.is(Mark::Mine));
    assert!(tile.is(Mark::Flagged));
    assert!(tile.is(Mark::Unrevealed));
    assert!(!tile.is(Mark::Hidden));
    assert!(!tile.is(Mark::Revealed));
    assert!(!tile.is(Mark::Unsolved));
    assert!(!tile.is(Mark::Burst));
    assert!(!tile.is(Mark::UnflaggedMine));
    assert!(!tile.is(Mark::Misflagged));
    assert_eq!(
        Tile::blank(),
        Tile { mine: false, neighbour_mine_count: 0, visibility: Visibility::Hidden }
    );
    assert!(Tile::blank().is(Mark::Unsolved));
}

#[test]
fn surrounding_bounds_are_clamped_at_the_edges() {
    assert_eq!(surrounding_bounds(5, 7, 30, 16), ((4, 6), (6, 8)));
    assert_eq!(surrounding_bounds(0, 0, 30, 16), ((0, 0), (1, 1)));
    assert_eq!(surrounding_bounds(29, 15, 30, 16), ((28, 14), (29, 15)));
    assert_eq!(surrounding_bounds(0, 15, 30, 16), ((0, 14), (1, 15)));
    assert_eq!(surrounding_bounds(0, 0, 1, 1), ((0, 0), (0, 0)));
}

#[test]
fn neighbours_are_the_cells_within_the_bounds_but_the_cell() {
    for (col, row) in [(0, 0), (3, 2), (4, 0), (2, 3), (4, 3)] {
        let ((min_col, min_row), (max_col, max_row)) = surrounding_bounds(col, row, 5, 4);
        let mut within = Vec::new();
        for c in min_col..=max_col {
            for r in min_row..=max_row {
                if (c, r) != (col, row) {
                    within.push((c, r));
                }
            }
        }
        assert_eq!(neighbours(col, row, 5, 4), within);
    }
}

#[test]
fn cells_with_lists_each_cell_once_in_the_order_of_the_rows() {
    let mut grid = grid_with(4, 3, &[(3, 2), (0, 0), (2, 1), (1, 0), (0, 2)]);
    assert_eq!(grid.cells_with(Mark::Mine), vec![(0, 0), (1, 0), (2, 1), (0, 2), (3, 2)]);
    grid.set_visibility(3, 0, Visibility::Revealed);
    grid.set_visibility(0, 1, Visibility::Revealed);
    assert_eq!(grid.cells_with(Mark::Revealed), vec![(3, 0), (0, 1)]);
    assert_eq!(grid.cells_with(Mark::Hidden).len(), 10);
}
