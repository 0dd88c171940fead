use grid2048::enums::MoveDirection;
use grid2048::resources::grid::{Grid, GridError};

fn board(rows: Vec<Vec<u32>>) -> Grid {
    let mut grid = Grid::new(rows.len()).unwrap();
    grid.set_state(rows).unwrap();
    grid
}

fn first_row(row: Vec<u32>) -> Grid {
    let size = row.len();
    let mut rows = vec![vec![0u32; size]; size];
    rows[0] = row;
    board(rows)
}

/// Powers of two and gaps from a fixed sequence, so that a run repeats.
fn scattered(size: usize, seed: u64) -> Vec<Vec<u32>> {
    let mut x = seed;
    let mut rows = Vec::new();
    for _ in 0..size {
        let mut row = Vec::new();
        for _ in 0..size {
            x = x.wrapping_mul(6364136223846793005).wrapping_add(1442695040888963407);
            let pick = (x >> 33) % 6;
            row.push(if pick == 0 { 0 } else { 1u32 << pick });
        }
        rows.push(row);
    }
    rows
}

#[test]
fn new_board_is_blank() {
    let grid = Grid::new(4).unwrap();
    assert_eq!(grid.size(), 4);
    assert_eq!(grid.score(), 0);
    assert!(!grid.deadlocked());
    assert_eq!(grid.state(), &vec![vec![0u32; 4]; 4]);
}

#[test]
fn new_refuses_sides_below_two() {
    assert!(matches!(Grid::new(0), Err(GridError::InvalidSize)));
    assert!(matches!(Grid::new(1), Err(GridError::InvalidSize)));
    assert!(Grid::new(2).is_ok());
}

#[test]
fn four_equal_tiles_make_two_pairs() {
    let mut grid = first_row(vec![2, 2, 2, 2]);
    grid.move_left();
    assert_eq!(grid.state()[0], vec![4, 4, 0, 0]);
    assert_eq!(grid.score(), 8);
}

#[test]
fn three_equal_tiles_make_one_pair() {
    let mut grid = first_row(vec![2, 2, 2, 0]);
    grid.move_left();
    assert_eq!(grid.state()[0], vec![4, 2, 0, 0]);
    assert_eq!(grid.score(), 4);
}

#[test]
fn tiles_are_packed_before_they_merge() {
    let mut grid = first_row(vec![2, 0, 2, 2]);
    grid.move_left();
    assert_eq!(grid.state()[0], vec![4, 2, 0, 0]);
    assert_eq!(grid.score(), 4);
}

#[test]
fn a_merged_tile_does_not_merge_again_in_the_same_move() {
    let mut grid = first_row(vec![2, 2, 4, 0]);
    grid.move_in_dir(MoveDirection::Left);
    assert_eq!(grid.state()[0], vec![4, 4, 0, 0]);
    assert_eq!(grid.score(), 4);
    grid.move_in_dir(MoveDirection::Left);
    assert_eq!(grid.state()[0], vec![8, 0, 0, 0]);
    assert_eq!(grid.score(), 12);
}

#[test]
fn unequal_neighbours_stay_apart() {
    let mut grid = first_row(vec![2, 4, 2, 4]);
    grid.move_left();
    assert_eq!(grid.state()[0], vec![2, 4, 2, 4]);
    assert_eq!(grid.score(), 0);
}

#[test]
fn compress_packs_and_keeps_the_order() {
    let mut grid = board(vec![
        vec![0, 2, 0, 4],
        vec![8, 0, 0, 0],
        vec![0, 0, 0, 16],
        vec![2, 2, 0, 2],
    ]);
    grid.compress();
    assert_eq!(
        grid.state(),
        &vec![vec![2, 4, 0, 0], vec![8, 0, 0, 0], vec![16, 0, 0, 0], vec![2, 2, 2, 0]]
    );
    assert_eq!(grid.score(), 0);
}

#[test]
fn merge_empties_the_first_and_doubles_the_second() {
    let mut grid = board(vec![
        vec![2, 2, 4, 4],
        vec![2, 2, 2, 0],
        vec![4, 0, 4, 0],
        vec![0, 0, 8, 8],
    ]);
    grid.merge();
    assert_eq!(
        grid.state(),
        &vec![vec![0, 4, 0, 8], vec![0, 4, 2, 0], vec![4, 0, 4, 0], vec![0, 0, 0, 16]]
    );
    assert_eq!(grid.score(), 4 + 8 + 4 + 16);
}

#[test]
fn transpose_swaps_rows_and_columns() {
    let mut grid = board(vec![vec![2, 4, 8], vec![0, 16, 32], vec![64, 0, 128]]);
    grid.transpose();
    assert_eq!(grid.state(), &vec![vec![2, 0, 64], vec![4, 16, 0], vec![8, 32, 128]]);
}

#[test]
fn reverse_reads_rows_backwards() {
    let mut grid = board(vec![vec![2, 4, 8], vec![0, 16, 32], vec![64, 0, 128]]);
    grid.reverse();
    assert_eq!(grid.state(), &vec![vec![8, 4, 2], vec![32, 16, 0], vec![128, 0, 64]]);
}

#[test]
fn transpose_twice_gives_the_board_back() {
    for seed in 0..50u64 {
        let size = 2 + (seed % 5) as usize;
        let rows = scattered(size, seed);
        let mut grid = board(rows.clone());
        grid.transpose().transpose();
        assert_eq!(grid.state(), &rows);
    }
}

#[test]
fn reverse_twice_gives_the_board_back() {
    for seed in 0..50u64 {
        let size = 2 + (seed % 5) as usize;
        let rows = scattered(size, seed + 1000);
        let mut grid = board(rows.clone());
        grid.reverse().reverse();
        assert_eq!(grid.state(), &rows);
    }
}

#[test]
fn move_left_slides_every_row() {
    let mut grid = board(vec![
        vec![2, 0, 2, 0],
        vec![0, 4, 4, 4],
        vec![8, 8, 8, 8],
        vec![0, 0, 0, 2],
    ]);
    grid.move_in_dir(MoveDirection::Left);
    assert_eq!(
        grid.state(),
        &vec![vec![4, 0, 0, 0], vec![8, 4, 0, 0], vec![16, 16, 0, 0], vec![2, 0, 0, 0]]
    );
    assert_eq!(grid.score(), 4 + 8 + 32);
}

#[test]
fn move_right_slides_every_row() {
    let mut grid = board(vec![
        vec![2, 0, 2, 0],
        vec![0, 4, 4, 4],
        vec![8, 8, 8, 8],
        vec![2, 0, 0, 0],
    ]);
    grid.move_in_dir(MoveDirection::Right);
    assert_eq!(
        grid.state(),
        &vec![vec![0, 0, 0, 4], vec![0, 0, 4, 8], vec![0, 0, 16, 16], vec![0, 0, 0, 2]]
    );
    assert_eq!(grid.score(), 4 + 8 + 32);
}

#[test]
fn move_up_slides_every_column() {
    let mut grid = board(vec![
        vec![2, 0, 8, 0],
        vec![0, 4, 8, 0],
        vec![2, 4, 8, 0],
        vec![0, 4, 8, 2],
    ]);
    grid.move_in_dir(MoveDirection::Up);
    assert_eq!(
        grid.state(),
        &vec![vec![4, 8, 16, 2], vec![0, 4, 16, 0], vec![0, 0, 0, 0], vec![0, 0, 0, 0]]
    );
    assert_eq!(grid.score(), 4 + 8 + 32);
}

#[test]
fn move_down_slides_every_column() {
    let mut grid = board(vec![
        vec![2, 0, 8, 2],
        vec![0, 4, 8, 0],
        vec![2, 4, 8, 0],
        vec![0, 4, 8, 0],
    ]);
    grid.move_in_dir(MoveDirection::Down);
    assert_eq!(
        grid.state(),
        &vec![vec![0, 0, 0, 0], vec![0, 0, 0, 0], vec![0, 4, 16, 0], vec![4, 8, 16, 2]]
    );
    assert_eq!(grid.score(), 4 + 8 + 32);
}

#[test]
fn moves_work_on_other_sides_than_four() {
    let mut small = board(vec![vec![2, 2], vec![0, 4]]);
    small.move_in_dir(MoveDirection::Right);
    assert_eq!(small.state(), &vec![vec![0, 4], vec![0, 4]]);
    small.move_in_dir(MoveDirection::Down);
    assert_eq!(small.state(), &vec![vec![0, 0], vec![0, 8]]);
    assert_eq!(small.score(), 12);

    let mut wide = board(vec![
        vec![2, 2, 2, 2, 2],
        vec![0, 0, 0, 0, 0],
        vec![4, 0, 4, 0, 4],
        vec![0, 0, 0, 0, 0],
        vec![0, 0, 0, 0, 0],
    ]);
    wide.move_in_dir(MoveDirection::Left);
    assert_eq!(wide.state()[0], vec![4, 4, 2, 0, 0]);
    assert_eq!(wide.state()[2], vec![8, 4, 0, 0, 0]);
    assert_eq!(wide.score(), 16);
}

#[test]
fn a_second_move_changes_nothing_where_no_neighbours_are_equal() {
    for seed in 0..50u64 {
        let rows = scattered(4, seed + 2000);
        for direction in [
            MoveDirection::Up,
            MoveDirection::Left,
            MoveDirection::Down,
            MoveDirection::Right,
        ] {
            let mut grid = board(rows.clone());
            grid.move_in_dir(direction);
            let once = grid.state().clone();
            let pairs_left = grid.would_change(direction);
            let score = grid.score();
            grid.move_in_dir(direction);
            assert_eq!(grid.state() != &once, pairs_left);
            if !pairs_left {
                assert_eq!(grid.score(), score);
            }
        }
    }
}

#[test]
fn would_change_tells_without_touching_the_board() {
    let grid = board(vec![
        vec![2, 4, 8, 16],
        vec![0, 0, 0, 0],
        vec![0, 0, 0, 0],
        vec![0, 0, 0, 0],
    ]);
    assert!(!grid.would_change(MoveDirection::Left));
    assert!(!grid.would_change(MoveDirection::Right));
    assert!(!grid.would_change(MoveDirection::Up));
    assert!(grid.would_change(MoveDirection::Down));
    assert_eq!(grid.state()[0], vec![2, 4, 8, 16]);
    assert_eq!(grid.score(), 0);
}

#[test]
fn compare_finds_a_single_different_cell() {
    let rows = vec![vec![2, 4], vec![8, 16]];
    let grid = board(rows.clone());
    assert!(!grid.compare(&rows));
    assert!(grid.compare(&vec![vec![2, 4], vec![8, 0]]));
    assert!(grid.compare(&vec![vec![4, 4], vec![8, 16]]));
}

#[test]
fn move_fits_unless_a_doubled_tile_leaves_32_bits() {
    let top: u32 = 1 << 31;
    let grid = first_row(vec![top, top, 0, 0]);
    assert!(!grid.move_fits(MoveDirection::Left));
    assert!(!grid.move_fits(MoveDirection::Right));
    assert!(grid.move_fits(MoveDirection::Up));
    assert!(grid.move_fits(MoveDirection::Down));
    assert!(grid.would_change(MoveDirection::Left));

    let half: u32 = 1 << 30;
    let mut below = first_row(vec![half, half, 0, 0]);
    assert!(below.move_fits(MoveDirection::Left));
    below.move_in_dir(MoveDirection::Left);
    assert_eq!(below.state()[0], vec![top, 0, 0, 0]);
    assert_eq!(below.score(), top);
}

#[test]
fn move_fits_unless_the_score_leaves_32_bits() {
    let half: u32 = 1 << 30;
    let grid = first_row(vec![half, half, half, half]);
    assert!(!grid.move_fits(MoveDirection::Left));
    assert!(grid.would_change(MoveDirection::Left));

    let mut once = first_row(vec![half, half, 0, 0]);
    once.move_in_dir(MoveDirection::Left);
    assert_eq!(once.score(), 1 << 31);
    let mut rows = vec![vec![0u32; 4]; 4];
    rows[0] = vec![half, half, 0, 0];
    once.set_state(rows).unwrap();
    assert_eq!(once.score(), 1 << 31);
    assert!(!once.move_fits(MoveDirection::Left));
    let mut rows = vec![vec![0u32; 4]; 4];
    rows[0] = vec![2, 2, 0, 0];
    once.set_state(rows).unwrap();
    assert!(once.move_fits(MoveDirection::Left));
    once.move_in_dir(MoveDirection::Left);
    assert_eq!(once.score(), (1 << 31) + 4);
}

#[test]
fn set_state_refuses_what_is_no_board() {
    let mut grid = Grid::new(3).unwrap();
    assert_eq!(grid.set_state(vec![vec![0; 3]; 2]), Err(GridError::InvalidSize));
    assert_eq!(grid.set_state(vec![vec![0; 3], vec![0; 2], vec![0; 3]]), Err(GridError::InvalidSize));
    assert_eq!(
        grid.set_state(vec![vec![0, 2, 4], vec![8, 3, 0], vec![0, 0, 0]]),
        Err(GridError::InvalidTile)
    );
    assert_eq!(
        grid.set_state(vec![vec![0, 2, 4], vec![8, 1, 0], vec![0, 0, 0]]),
        Err(GridError::InvalidTile)
    );
    assert_eq!(grid.state(), &vec![vec![0u32; 3]; 3]);
    assert_eq!(grid.set_state(vec![vec![0, 2, 4], vec![8, 1 << 31, 0], vec![0, 0, 0]]), Ok(()));
    assert_eq!(grid.state()[1], vec![8, 1 << 31, 0]);
}
