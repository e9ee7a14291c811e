use minesweeper::error::ConfigError;
use minesweeper::generator::{generate, generate_fair, MineField};
use minesweeper::grid::Grid;
use minesweeper::neighbourhood::neighbours;
use minesweeper::tile::{Mark, Visibility};

fn assert_counted(grid: &Grid) {
    for col in 0..grid.width() {
        for row in 0..grid.height() {
            let mined = neighbours(col, row, grid.width(), grid.height())
                .into_iter()
                .filter(|&(c, r)| grid.tile(c, r).mine)
                .count();
            assert_eq!(grid.tile(col, row).neighbour_mine_count as usize, mined);
        }
    }
}

#[test]
fn generate_lays_exactly_the_mines_asked_for() {
    for seed in 0..40 {
        let mut rng = fastrand::Rng::with_seed(seed);
        let grid = generate(99, 30, 16, &mut rng).unwrap();
        assert_eq!(grid.width(), 30);
        assert_eq!(grid.height(), 16);
        assert_eq!(grid.mine_count(), 99);
        assert!(grid.is_populated());
        assert_eq!(grid.count(Mark::Mine), 99);
        assert_eq!(grid.count(Mark::Hidden), 480);
        assert_counted(&grid);
    }
}

#[test]
fn generate_draws_different_layouts() {
    let mut rng = fastrand::Rng::with_seed(7);
    let first = generate(10, 9, 9, &mut rng).unwrap().cells_with(Mark::Mine);
    let mut differs = false;
    for _ in 0..20 {
        if generate(10, 9, 9, &mut rng).unwrap().cells_with(Mark::Mine) != first {
            differs = true;
        }
    }
    assert!(differs);
}

#[test]
fn generate_reaches_every_cell() {
    let mut rng = fastrand::Rng::with_seed(3);
    let mut hit = vec![false; 12];
    for _ in 0..400 {
        let grid = generate(1, 4, 3, &mut rng).unwrap();
        let mines = grid.cells_with(Mark::Mine);
        assert_eq!(mines.len(), 1);
        hit[mines[0].1 * 4 + mines[0].0] = true;
    }
    assert!(hit.iter().all(|&h| h));
}

#[test]
fn generate_is_the_same_for_the_same_seed() {
    let a = generate(20, 10, 10, &mut fastrand::Rng::with_seed(42)).unwrap();
    let b = generate(20, 10, 10, &mut fastrand::Rng::with_seed(42)).unwrap();
    assert_eq!(a.cells_with(Mark::Mine), b.cells_with(Mark::Mine));
}

#[test]
fn generate_fills_the_whole_board() {
    let mut rng = fastrand::Rng::with_seed(1);
    let grid = generate(12, 4, 3, &mut rng).unwrap();
    assert_eq!(grid.count(Mark::Mine), 12);
    let grid = generate(11, 4, 3, &mut rng).unwrap();
    assert_eq!(grid.count(Mark::Mine), 11);
    assert_counted(&grid);
}

#[test]
fn generate_without_mines() {
    let mut rng = fastrand::Rng::with_seed(1);
    let grid = generate(0, 4, 3, &mut rng).unwrap();
    assert_eq!(grid.count(Mark::Mine), 0);
    assert!(grid.is_populated());
    let grid = generate(0, 0, 0, &mut rng).unwrap();
    assert_eq!(grid.count(Mark::Mine), 0);
}

#[test]
fn generate_refuses_more_mines_than_cells() {
    let mut rng = fastrand::Rng::with_seed(1);
    assert_eq!(generate(13, 4, 3, &mut rng).err(), Some(ConfigError::TooManyMines));
    assert_eq!(generate(1, 0, 5, &mut rng).err(), Some(ConfigError::TooManyMines));
    assert_eq!(generate(1, usize::MAX, 2, &mut rng).err(), Some(ConfigError::TooLarge));
}

#[test]
fn fair_start_is_clear_with_everything_around_it() {
    for seed in 0..40 {
        let mut rng = fastrand::Rng::with_seed(seed);
        let col = (seed as usize * 7) % 30;
        let row = (seed as usize * 5) % 16;
        let grid = generate_fair(col, row, 99, 30, 16, &mut rng).unwrap();
        assert!(!grid.tile(col, row).mine);
        assert_eq!(grid.tile(col, row).neighbour_mine_count, 0);
        for (c, r) in neighbours(col, row, 30, 16) {
            assert!(!grid.tile(c, r).mine);
        }
        assert_eq!(grid.count(Mark::Mine), 99);
        assert_eq!(grid.mine_count(), 99);
        assert_eq!(grid.count(Mark::Hidden), 480);
        assert_counted(&grid);
    }
}

#[test]
fn fair_generation_succeeds_when_the_mines_only_just_fit() {
    // 16 cells, 9 of them kept clear around (1, 1): 7 mines fit, and every
    // layout drawn over the whole board is discarded with near certainty.
    let mut rng = fastrand::Rng::with_seed(5);
    let grid = generate_fair(1, 1, 7, 4, 4, &mut rng).unwrap();
    assert_eq!(
        grid.cells_with(Mark::Mine),
        vec![(3, 0), (3, 1), (3, 2), (0, 3), (1, 3), (2, 3), (3, 3)]
    );
    assert_eq!(grid.tile(1, 1).neighbour_mine_count, 0);
    assert_eq!(grid.tile(2, 2).neighbour_mine_count, 5);
}

#[test]
fn fair_generation_refuses_mines_that_do_not_fit_beside_the_start() {
    let mut rng = fastrand::Rng::with_seed(5);
    assert_eq!(generate_fair(1, 1, 8, 4, 4, &mut rng).err(), Some(ConfigError::NoFairStart));
    // The corner has three neighbours only: twelve mines fit beside it.
    assert_eq!(generate_fair(0, 0, 12, 4, 4, &mut rng).unwrap().count(Mark::Mine), 12);
    assert_eq!(generate_fair(0, 0, 13, 4, 4, &mut rng).err(), Some(ConfigError::NoFairStart));
    assert_eq!(generate_fair(0, 0, 16, 4, 4, &mut rng).err(), Some(ConfigError::NoFairStart));
    assert_eq!(generate_fair(0, 0, 1, 1, 1, &mut rng).err(), Some(ConfigError::NoFairStart));
    assert_eq!(generate_fair(0, 0, 0, 1, 1, &mut rng).unwrap().count(Mark::Mine), 0);
    assert_eq!(
        generate_fair(0, 0, 1, usize::MAX, 2, &mut rng).err(),
        Some(ConfigError::TooLarge)
    );
}

#[test]
fn mine_field_takes_a_mine_on_a_free_cell_only() {
    let mut field = MineField::new(3, 3, Some((2, 0))).unwrap();
    assert_eq!(field.width(), 3);
    assert_eq!(field.height(), 3);
    assert_eq!(field.free(), 5);
    assert_eq!(field.placed(), 0);
    assert!(!field.offer(2, 0));
    assert!(!field.offer(1, 1));
    assert!(field.offer(0, 0));
    assert!(!field.offer(0, 0));
    assert_eq!(field.free(), 4);
    assert_eq!(field.placed(), 1);
    let grid = field.into_grid();
    assert_eq!(grid.cells_with(Mark::Mine), vec![(0, 0)]);
    assert_eq!(grid.mine_count(), 1);
    assert_eq!(grid.tile(1, 0).neighbour_mine_count, 1);
    assert_eq!(grid.tile(2, 0).neighbour_mine_count, 0);
    assert_eq!(grid.tile(0, 0).visibility, Visibility::Hidden);
}

#[test]
fn mine_field_counts_free_cells_row_by_row() {
    let mut field = MineField::new(3, 3, Some((2, 0))).unwrap();
    assert!(field.offer(0, 0));
    // Free now: (0, 1), (0, 2), (1, 2), (2, 2).
    assert_eq!(field.place_nth_free(0), (0, 1));
    assert_eq!(field.place_nth_free(1), (1, 2));
    assert_eq!(field.place_nth_free(1), (2, 2));
    assert_eq!(field.place_nth_free(0), (0, 2));
    assert_eq!(field.free(), 0);
    assert_eq!(field.placed(), 5);
    let grid = field.into_grid();
    assert_eq!(grid.cells_with(Mark::Mine), vec![(0, 0), (0, 1), (0, 2), (1, 2), (2, 2)]);
    assert!(!grid.tile(2, 0).mine);
    assert_eq!(grid.tile(2, 0).neighbour_mine_count, 0);
    assert_eq!(grid.tile(1, 1).neighbour_mine_count, 5);
}

#[test]
fn mine_field_without_a_start_keeps_nothing_clear() {
    let mut field = MineField::new(2, 2, None).unwrap();
    assert_eq!(field.free(), 4);
    assert_eq!(field.place_nth_free(3), (1, 1));
    assert_eq!(field.place_nth_free(0), (0, 0));
    assert!(field.offer(1, 0));
    assert_eq!(field.free(), 1);
    assert_eq!(MineField::new(usize::MAX, 2, None).err(), Some(ConfigError::TooLarge));
}
