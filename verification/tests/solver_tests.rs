use minesweeper::grid::Grid;
use minesweeper::reveal_engine::reveal_at;
use minesweeper::solver::{
    clear_satisfied, effective_neighbour_mines, flag_certain_mines, satisfied, solve_121s, solve_at,
    solve_pass, uncover_each,
};
use minesweeper::tile::{Mark, Visibility};

fn grid_with(width: usize, height: usize, mines: &[(usize, usize)]) -> Grid {
    Grid::with_mines(width, height, &mines.to_vec()).unwrap()
}

fn seen(grid: &Grid, col: usize, row: usize) -> Visibility {
    grid.tile(col, row).visibility
}

fn snapshot(grid: &Grid) -> Vec<Visibility> {
    let mut all = Vec::new();
    for row in 0..grid.height() {
        for col in 0..grid.width() {
            all.push(grid.tile(col, row).visibility);
        }
    }
    all
}

/// Row 0 shows 1 1 2 1 1 over the mines at (1, 1) and (3, 1).
fn one_two_one_below() -> Grid {
    let mut grid = grid_with(5, 2, &[(1, 1), (3, 1)]);
    for col in 0..5 {
        grid.set_visibility(col, 0, Visibility::Revealed);
    }
    grid
}

#[test]
fn effective_count_subtracts_the_flags() {
    let mut grid = grid_with(3, 3, &[(0, 0), (2, 2)]);
    assert_eq!(effective_neighbour_mines(&grid, 1, 1), 2);
    grid.set_visibility(0, 0, Visibility::Flagged);
    assert_eq!(effective_neighbour_mines(&grid, 1, 1), 1);
    assert!(!satisfied(&grid, 1, 1));
    grid.set_visibility(0, 1, Visibility::Flagged);
    assert_eq!(effective_neighbour_mines(&grid, 1, 1), 0);
    assert!(satisfied(&grid, 1, 1));
    grid.set_visibility(0, 2, Visibility::Flagged);
    assert_eq!(effective_neighbour_mines(&grid, 1, 1), -1);
    assert!(!satisfied(&grid, 1, 1));
}

#[test]
fn first_rule_flags_the_only_hidden_neighbour() {
    let mut grid = grid_with(3, 3, &[(0, 0)]);
    reveal_at(&mut grid, 2, 2);
    assert_eq!(grid.count(Mark::Revealed), 8);
    assert!(flag_certain_mines(&mut grid, 1, 1));
    assert_eq!(seen(&grid, 0, 0), Visibility::Flagged);
    assert_eq!(grid.count(Mark::Flagged), 1);
    assert_eq!(grid.count(Mark::Revealed), 8);
}

#[test]
fn first_rule_does_nothing_when_more_cells_are_hidden_than_mines() {
    let mut grid = grid_with(3, 3, &[(0, 0)]);
    grid.set_visibility(1, 1, Visibility::Revealed);
    let before = snapshot(&grid);
    assert!(!flag_certain_mines(&mut grid, 1, 1));
    assert_eq!(snapshot(&grid), before);
}

#[test]
fn first_rule_counts_flagged_cells_among_the_hidden_ones() {
    let mut grid = grid_with(3, 1, &[(0, 0), (2, 0)]);
    grid.set_visibility(1, 0, Visibility::Revealed);
    grid.set_visibility(0, 0, Visibility::Flagged);
    assert!(flag_certain_mines(&mut grid, 1, 0));
    assert_eq!(seen(&grid, 0, 0), Visibility::Flagged);
    assert_eq!(seen(&grid, 2, 0), Visibility::Flagged);
}

#[test]
fn first_rule_flags_only_mines_while_no_mine_is_revealed() {
    for mines in [
        vec![(0, 0)],
        vec![(0, 0), (2, 2)],
        vec![(1, 0), (0, 1), (2, 1)],
        vec![(0, 0), (1, 0), (2, 0), (0, 1), (2, 1), (0, 2), (1, 2), (2, 2)],
    ] {
        let mut grid = grid_with(3, 3, &mines);
        for col in 0..3 {
            for row in 0..3 {
                if !grid.tile(col, row).mine && (col + row) % 2 == 0 {
                    grid.set_visibility(col, row, Visibility::Revealed);
                }
            }
        }
        for col in 0..3 {
            for row in 0..3 {
                flag_certain_mines(&mut grid, col, row);
            }
        }
        assert_eq!(grid.count(Mark::Misflagged), 0);
    }
}

#[test]
fn first_rule_can_err_once_a_mine_is_revealed() {
    // The mine beside (1, 0) is revealed already, as after a loss: the one
    // hidden neighbour is taken for the mine.
    let mut grid = grid_with(3, 1, &[(0, 0)]);
    grid.set_visibility(1, 0, Visibility::Revealed);
    grid.set_visibility(0, 0, Visibility::Revealed);
    assert!(flag_certain_mines(&mut grid, 1, 0));
    assert_eq!(seen(&grid, 2, 0), Visibility::Flagged);
    assert!(!grid.tile(2, 0).mine);
}

#[test]
fn second_rule_opens_the_hidden_neighbours_of_a_satisfied_cell() {
    let mut grid = grid_with(3, 1, &[(0, 0)]);
    grid.set_visibility(1, 0, Visibility::Revealed);
    grid.set_visibility(0, 0, Visibility::Flagged);
    assert_eq!(clear_satisfied(&mut grid, 1, 0), None);
    assert_eq!(seen(&grid, 2, 0), Visibility::Revealed);
    assert_eq!(seen(&grid, 0, 0), Visibility::Flagged);
}

#[test]
fn second_rule_does_nothing_at_a_cell_that_is_not_satisfied() {
    let mut grid = grid_with(3, 1, &[(0, 0)]);
    grid.set_visibility(1, 0, Visibility::Revealed);
    let before = snapshot(&grid);
    assert_eq!(clear_satisfied(&mut grid, 1, 0), None);
    assert_eq!(snapshot(&grid), before);
}

#[test]
fn second_rule_sets_off_a_mine_behind_a_wrong_flag() {
    let mut grid = grid_with(3, 1, &[(0, 0)]);
    grid.set_visibility(1, 0, Visibility::Revealed);
    grid.set_visibility(2, 0, Visibility::Flagged);
    assert_eq!(clear_satisfied(&mut grid, 1, 0), Some((0, 0)));
    assert_eq!(seen(&grid, 0, 0), Visibility::Revealed);
    assert_eq!(seen(&grid, 2, 0), Visibility::Flagged);
}

#[test]
fn pattern_below_flags_the_wings_and_opens_the_heart() {
    let mut grid = one_two_one_below();
    assert_eq!(grid.tile(1, 0).neighbour_mine_count, 1);
    assert_eq!(grid.tile(2, 0).neighbour_mine_count, 2);
    assert_eq!(grid.tile(3, 0).neighbour_mine_count, 1);
    assert_eq!(solve_121s(&mut grid, 2, 0), None);
    assert_eq!(seen(&grid, 1, 1), Visibility::Flagged);
    assert_eq!(seen(&grid, 2, 1), Visibility::Revealed);
    assert_eq!(seen(&grid, 3, 1), Visibility::Flagged);
    assert_eq!(seen(&grid, 0, 1), Visibility::Hidden);
    assert_eq!(seen(&grid, 4, 1), Visibility::Hidden);
    assert_eq!(grid.count(Mark::Misflagged), 0);
}

#[test]
fn pattern_above() {
    let mut grid = grid_with(5, 2, &[(1, 0), (3, 0)]);
    for col in 0..5 {
        grid.set_visibility(col, 1, Visibility::Revealed);
    }
    assert_eq!(solve_121s(&mut grid, 2, 1), None);
    assert_eq!(seen(&grid, 1, 0), Visibility::Flagged);
    assert_eq!(seen(&grid, 2, 0), Visibility::Revealed);
    assert_eq!(seen(&grid, 3, 0), Visibility::Flagged);
}

#[test]
fn pattern_left() {
    let mut grid = grid_with(2, 5, &[(0, 1), (0, 3)]);
    for row in 0..5 {
        grid.set_visibility(1, row, Visibility::Revealed);
    }
    assert_eq!(solve_121s(&mut grid, 1, 2), None);
    assert_eq!(seen(&grid, 0, 1), Visibility::Flagged);
    assert_eq!(seen(&grid, 0, 2), Visibility::Revealed);
    assert_eq!(seen(&grid, 0, 3), Visibility::Flagged);
}

#[test]
fn pattern_right() {
    let mut grid = grid_with(2, 5, &[(1, 1), (1, 3)]);
    for row in 0..5 {
        grid.set_visibility(0, row, Visibility::Revealed);
    }
    assert_eq!(solve_121s(&mut grid, 0, 2), None);
    assert_eq!(seen(&grid, 1, 1), Visibility::Flagged);
    assert_eq!(seen(&grid, 1, 2), Visibility::Revealed);
    assert_eq!(seen(&grid, 1, 3), Visibility::Flagged);
}

#[test]
fn pattern_needs_effective_counts_of_one_two_one() {
    // With the mine at (1, 1) flagged the cells lack 0, 1 and 1 mines.
    let mut grid = one_two_one_below();
    grid.set_visibility(1, 1, Visibility::Flagged);
    let before = snapshot(&grid);
    assert_eq!(solve_121s(&mut grid, 2, 0), None);
    assert_eq!(snapshot(&grid), before);
}

#[test]
fn pattern_uses_counts_less_flags() {
    // Row 1 shows 2 3 2; the flags on the three mines above bring it to
    // 1 2 1 for the side below.
    let mut grid = grid_with(5, 3, &[(1, 0), (2, 0), (3, 0), (1, 2), (3, 2)]);
    for col in 0..5 {
        grid.set_visibility(col, 1, Visibility::Revealed);
    }
    grid.set_visibility(2, 0, Visibility::Flagged);
    assert_eq!(grid.tile(2, 1).neighbour_mine_count, 5);
    assert_eq!(solve_121s(&mut grid, 2, 1), None);
    assert_eq!(seen(&grid, 1, 2), Visibility::Hidden);
    grid.set_visibility(1, 0, Visibility::Flagged);
    grid.set_visibility(3, 0, Visibility::Flagged);
    assert_eq!(effective_neighbour_mines(&grid, 1, 1), 1);
    assert_eq!(effective_neighbour_mines(&grid, 2, 1), 2);
    assert_eq!(effective_neighbour_mines(&grid, 3, 1), 1);
    assert_eq!(solve_121s(&mut grid, 2, 1), None);
    assert_eq!(seen(&grid, 1, 2), Visibility::Flagged);
    assert_eq!(seen(&grid, 2, 2), Visibility::Revealed);
    assert_eq!(seen(&grid, 3, 2), Visibility::Flagged);
}

#[test]
fn pattern_needs_all_three_side_cells_hidden() {
    let mut grid = one_two_one_below();
    grid.set_visibility(2, 1, Visibility::Revealed);
    let before = snapshot(&grid);
    assert_eq!(solve_121s(&mut grid, 2, 0), None);
    assert_eq!(snapshot(&grid), before);
}

#[test]
fn pattern_needs_revealed_ends() {
    let mut grid = one_two_one_below();
    grid.set_visibility(3, 0, Visibility::Hidden);
    let before = snapshot(&grid);
    assert_eq!(solve_121s(&mut grid, 2, 0), None);
    assert_eq!(snapshot(&grid), before);
}

#[test]
fn pattern_does_not_reach_over_the_edge() {
    let mut grid = one_two_one_below();
    let before = snapshot(&grid);
    assert_eq!(solve_121s(&mut grid, 0, 0), None);
    assert_eq!(solve_121s(&mut grid, 4, 0), None);
    assert_eq!(snapshot(&grid), before);
    // On a board of one row the line stands, but no side lies on the board.
    let mut grid = grid_with(5, 1, &[]);
    for col in 0..5 {
        grid.set_visibility(col, 0, Visibility::Revealed);
    }
    let before = snapshot(&grid);
    assert_eq!(solve_121s(&mut grid, 2, 0), None);
    assert_eq!(snapshot(&grid), before);
}

#[test]
fn pattern_is_not_looked_for_at_a_cell_that_lacks_another_number() {
    let mut grid = one_two_one_below();
    let before = snapshot(&grid);
    assert_eq!(effective_neighbour_mines(&grid, 1, 0), 1);
    assert_eq!(solve_121s(&mut grid, 1, 0), None);
    assert_eq!(solve_121s(&mut grid, 3, 0), None);
    assert_eq!(snapshot(&grid), before);
}

#[test]
fn pattern_can_flag_safe_cells_when_the_mines_lie_on_the_other_side() {
    // Known limit of the pattern rule: it takes each side on which the three
    // cells are hidden. Row 1 shows 1 2 1 because of the mines at (1, 0) and
    // (3, 0); the three cells below are hidden too, so the rule flags two
    // cells there that hold no mine.
    let mut grid = grid_with(5, 4, &[(1, 0), (3, 0), (2, 3)]);
    for col in 0..5 {
        grid.set_visibility(col, 1, Visibility::Revealed);
    }
    assert_eq!(effective_neighbour_mines(&grid, 1, 1), 1);
    assert_eq!(effective_neighbour_mines(&grid, 2, 1), 2);
    assert_eq!(effective_neighbour_mines(&grid, 3, 1), 1);
    assert_eq!(solve_121s(&mut grid, 2, 1), None);
    assert_eq!(seen(&grid, 1, 2), Visibility::Flagged);
    assert_eq!(seen(&grid, 3, 2), Visibility::Flagged);
    assert_eq!(seen(&grid, 2, 2), Visibility::Revealed);
    assert!(!grid.tile(1, 2).mine);
    assert!(!grid.tile(3, 2).mine);
    assert_eq!(grid.cells_with(Mark::Misflagged), vec![(1, 2), (3, 2)]);
    // The side above is taken as well, rightly here.
    assert_eq!(seen(&grid, 1, 0), Visibility::Flagged);
    assert_eq!(seen(&grid, 3, 0), Visibility::Flagged);
    assert_eq!(seen(&grid, 2, 0), Visibility::Revealed);
}

#[test]
fn both_sides_of_a_line_are_taken_when_both_are_hidden() {
    // The numbers are looked at once for the line: the flags that the side
    // below sets do not keep the side above from its turn.
    let mut grid = grid_with(30, 16, &[(4, 6), (6, 6)]);
    for col in 4..7 {
        grid.set_visibility(col, 5, Visibility::Revealed);
    }
    assert_eq!(grid.tile(4, 5).neighbour_mine_count, 1);
    assert_eq!(grid.tile(5, 5).neighbour_mine_count, 2);
    assert_eq!(grid.tile(6, 5).neighbour_mine_count, 1);
    assert_eq!(solve_121s(&mut grid, 5, 5), None);
    assert_eq!(grid.cells_with(Mark::Flagged), vec![(4, 4), (6, 4), (4, 6), (6, 6)]);
    assert_eq!(
        grid.cells_with(Mark::Revealed),
        vec![(5, 4), (4, 5), (5, 5), (6, 5), (5, 6)]
    );
    assert_eq!(grid.cells_with(Mark::Misflagged), vec![(4, 4), (6, 4)]);
    assert_eq!(grid.count(Mark::Hidden), 480 - 9);
}

#[test]
fn both_sides_of_a_column_are_taken_when_both_are_hidden() {
    let mut grid = grid_with(16, 30, &[(6, 4), (6, 6)]);
    for row in 4..7 {
        grid.set_visibility(5, row, Visibility::Revealed);
    }
    assert_eq!(solve_121s(&mut grid, 5, 5), None);
    assert_eq!(grid.cells_with(Mark::Flagged), vec![(4, 4), (6, 4), (4, 6), (6, 6)]);
    assert_eq!(
        grid.cells_with(Mark::Revealed),
        vec![(5, 4), (4, 5), (5, 5), (6, 5), (5, 6)]
    );
    assert_eq!(grid.cells_with(Mark::Misflagged), vec![(4, 4), (4, 6)]);
}

#[test]
fn the_heart_of_the_pattern_goes_off_if_it_holds_a_mine() {
    // Wrong flags at (0, 0) and (4, 0) bring the ends down to one mine each;
    // the middle lacks the mines at (2, 0) and (2, 2). The side below is
    // taken first, and its heart holds a mine: the rule ends there.
    let mut grid = grid_with(5, 3, &[(2, 0), (2, 2)]);
    for col in 0..5 {
        grid.set_visibility(col, 1, Visibility::Revealed);
    }
    grid.set_visibility(0, 0, Visibility::Flagged);
    grid.set_visibility(4, 0, Visibility::Flagged);
    assert_eq!(effective_neighbour_mines(&grid, 1, 1), 1);
    assert_eq!(effective_neighbour_mines(&grid, 2, 1), 2);
    assert_eq!(effective_neighbour_mines(&grid, 3, 1), 1);
    assert_eq!(solve_121s(&mut grid, 2, 1), Some((2, 2)));
    assert_eq!(seen(&grid, 1, 2), Visibility::Flagged);
    assert_eq!(seen(&grid, 3, 2), Visibility::Flagged);
    assert_eq!(seen(&grid, 2, 2), Visibility::Revealed);
    assert_eq!(seen(&grid, 1, 0), Visibility::Hidden);
    assert_eq!(seen(&grid, 2, 0), Visibility::Hidden);
    assert_eq!(seen(&grid, 3, 0), Visibility::Hidden);
}

#[test]
fn the_second_rule_uncovers_without_a_flood() {
    let mut grid = grid_with(4, 1, &[(0, 0)]);
    grid.set_visibility(1, 0, Visibility::Revealed);
    grid.set_visibility(0, 0, Visibility::Flagged);
    assert_eq!(clear_satisfied(&mut grid, 1, 0), None);
    assert_eq!(grid.tile(2, 0).neighbour_mine_count, 0);
    assert_eq!(seen(&grid, 2, 0), Visibility::Revealed);
    assert_eq!(seen(&grid, 3, 0), Visibility::Hidden);
}

#[test]
fn uncover_each_reveals_hidden_cells_and_reports_the_first_mine() {
    let mut grid = grid_with(5, 1, &[(1, 0), (3, 0)]);
    grid.set_visibility(0, 0, Visibility::Flagged);
    let blown = uncover_each(&mut grid, &vec![(0, 0), (2, 0), (3, 0), (1, 0), (4, 0)]);
    assert_eq!(blown, Some((3, 0)));
    assert_eq!(seen(&grid, 0, 0), Visibility::Flagged);
    assert_eq!(grid.cells_with(Mark::Revealed), vec![(1, 0), (2, 0), (3, 0), (4, 0)]);
    assert_eq!(grid.cells_with(Mark::Burst), vec![(1, 0), (3, 0)]);
    let mut grid = grid_with(3, 1, &[(1, 0)]);
    assert_eq!(uncover_each(&mut grid, &vec![(0, 0), (2, 0)]), None);
    assert_eq!(grid.cells_with(Mark::Revealed), vec![(0, 0), (2, 0)]);
}

#[test]
fn rules_are_not_applied_at_a_cell_that_is_not_revealed() {
    let mut grid = grid_with(3, 1, &[(0, 0)]);
    grid.set_visibility(0, 0, Visibility::Flagged);
    let before = snapshot(&grid);
    assert_eq!(solve_at(&mut grid, 1, 0), None);
    assert_eq!(snapshot(&grid), before);
}

#[test]
fn rules_at_one_cell_flag_then_clear() {
    // (1, 0) shows 1 and has one hidden neighbour left: it is flagged by the
    // first rule, which satisfies the cell for the second.
    let mut grid = grid_with(3, 3, &[(0, 0)]);
    reveal_at(&mut grid, 2, 2);
    assert_eq!(solve_at(&mut grid, 1, 0), None);
    assert_eq!(seen(&grid, 0, 0), Visibility::Flagged);
    assert!(satisfied(&grid, 1, 0));
}

#[test]
fn pass_solves_a_board_with_one_mine() {
    let mut grid = grid_with(4, 4, &[(3, 3)]);
    reveal_at(&mut grid, 0, 0);
    assert_eq!(solve_pass(&mut grid), None);
    assert_eq!(grid.cells_with(Mark::Flagged), vec![(3, 3)]);
    assert_eq!(grid.count(Mark::Revealed), 15);
}

#[test]
fn pass_over_a_settled_grid_changes_nothing() {
    let mut grid = grid_with(4, 4, &[(3, 3)]);
    reveal_at(&mut grid, 0, 0);
    assert_eq!(solve_pass(&mut grid), None);
    let settled = snapshot(&grid);
    assert_eq!(solve_pass(&mut grid), None);
    assert_eq!(snapshot(&grid), settled);
    assert_eq!(solve_pass(&mut grid), None);
    assert_eq!(snapshot(&grid), settled);
}

#[test]
fn pass_over_a_grid_with_nothing_revealed_changes_nothing() {
    let mut grid = grid_with(6, 5, &[(0, 0), (3, 2), (5, 4)]);
    grid.set_visibility(3, 2, Visibility::Flagged);
    let before = snapshot(&grid);
    assert_eq!(solve_pass(&mut grid), None);
    assert_eq!(snapshot(&grid), before);
}

#[test]
fn pass_leaves_an_undecided_position_alone() {
    // Two hidden cells beside a 1: no rule applies.
    let mut grid = grid_with(2, 2, &[(0, 0)]);
    grid.set_visibility(1, 1, Visibility::Revealed);
    let before = snapshot(&grid);
    assert_eq!(solve_pass(&mut grid), None);
    assert_eq!(snapshot(&grid), before);
}

#[test]
fn pass_ends_where_a_mine_goes_off() {
    // The wrong flag at (0, 1) satisfies (1, 0), which opens the mine at
    // (0, 0). The cells after (1, 0) are left as they are.
    let mut grid = grid_with(3, 3, &[(0, 0), (2, 2)]);
    reveal_at(&mut grid, 2, 0);
    assert_eq!(grid.cells_with(Mark::Revealed), vec![(1, 0), (2, 0), (1, 1), (2, 1)]);
    grid.set_visibility(0, 1, Visibility::Flagged);
    assert_eq!(solve_pass(&mut grid), Some((0, 0)));
    assert_eq!(seen(&grid, 0, 0), Visibility::Revealed);
    assert_eq!(seen(&grid, 2, 2), Visibility::Hidden);
    assert_eq!(seen(&grid, 1, 2), Visibility::Hidden);
    assert_eq!(seen(&grid, 0, 2), Visibility::Hidden);
}

#[test]
fn passes_converge_over_several_ticks() {
    let mut grid = grid_with(6, 6, &[(0, 5), (5, 0), (5, 5)]);
    reveal_at(&mut grid, 0, 0);
    let mut last = snapshot(&grid);
    for _ in 0..10 {
        assert_eq!(solve_pass(&mut grid), None);
        let now = snapshot(&grid);
        if now == last {
            break;
        }
        last = now;
    }
    assert_eq!(grid.count(Mark::Misflagged), 0);
    assert_eq!(grid.cells_with(Mark::Flagged), vec![(5, 0), (0, 5), (5, 5)]);
    assert!(grid.is_cleared());
}

#[test]
fn second_rule_opens_only_safe_cells_while_the_flags_are_right() {
    for mines in [
        vec![(0, 0)],
        vec![(0, 0), (2, 2)],
        vec![(1, 0), (0, 1), (2, 1)],
        vec![(0, 0), (3, 0), (0, 3), (3, 3), (1, 2)],
    ] {
        let mut grid = grid_with(4, 4, &mines);
        for &(col, row) in &mines {
            grid.set_visibility(col, row, Visibility::Flagged);
        }
        for col in 0..4 {
            for row in 0..4 {
                if grid.tile(col, row).visibility == Visibility::Hidden && (col + row) % 3 == 0 {
                    grid.set_visibility(col, row, Visibility::Revealed);
                }
            }
        }
        for col in 0..4 {
            for row in 0..4 {
                if grid.tile(col, row).visibility == Visibility::Revealed {
                    assert_eq!(clear_satisfied(&mut grid, col, row), None);
                }
            }
        }
        assert_eq!(grid.count(Mark::Burst), 0);
        assert_eq!(grid.count(Mark::Flagged), mines.len());
        assert_eq!(grid.count(Mark::Misflagged), 0);
    }
}
