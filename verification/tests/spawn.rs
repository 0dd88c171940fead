use grid2048::resources::grid::{is_tile, tile_for_roll, Grid, GridError};

fn tiles_on(grid: &Grid) -> Vec<u32> {
    let mut tiles = Vec::new();
    for row in grid.state() {
        for &cell in row {
            if cell != 0 {
                tiles.push(cell);
            }
        }
    }
    tiles
}

#[test]
fn two_tiles_on_a_blank_board() {
    for _ in 0..200 {
        let mut grid = Grid::new(4).unwrap();
        assert_eq!(grid.add_boxes(2), Ok(()));
        let tiles = tiles_on(&grid);
        assert_eq!(tiles.len(), 2);
        assert!(tiles.iter().all(|&tile| tile == 2 || tile == 4));
        assert_eq!(grid.score(), 0);
        assert!(!grid.deadlocked());
    }
}

#[test]
fn about_one_new_tile_in_ten_is_a_four() {
    let mut fours = 0;
    let mut all = 0;
    for _ in 0..500 {
        let mut grid = Grid::new(4).unwrap();
        grid.add_boxes(8).unwrap();
        for tile in tiles_on(&grid) {
            all += 1;
            if tile == 4 {
                fours += 1;
            }
        }
    }
    assert_eq!(all, 4000);
    assert!(fours > 200 && fours < 600, "{} fours among {} tiles", fours, all);
}

#[test]
fn every_empty_cell_can_be_drawn() {
    let mut hit = vec![vec![false; 3]; 3];
    for _ in 0..2000 {
        let mut grid = Grid::new(3).unwrap();
        grid.add_boxes(1).unwrap();
        for i in 0..3 {
            for j in 0..3 {
                if grid.state()[i][j] != 0 {
                    hit[i][j] = true;
                }
            }
        }
    }
    assert!(hit.iter().all(|row| row.iter().all(|&cell| cell)));
}

#[test]
fn new_tiles_leave_the_old_ones_alone() {
    let mut grid = Grid::new(4).unwrap();
    let rows = vec![vec![8, 0, 0, 16], vec![0, 32, 0, 0], vec![0, 0, 0, 0], vec![64, 0, 0, 128]];
    grid.set_state(rows.clone()).unwrap();
    grid.add_boxes(3).unwrap();
    let mut fresh = 0;
    for i in 0..4 {
        for j in 0..4 {
            if rows[i][j] != 0 {
                assert_eq!(grid.state()[i][j], rows[i][j]);
            } else if grid.state()[i][j] != 0 {
                assert!(grid.state()[i][j] == 2 || grid.state()[i][j] == 4);
                fresh += 1;
            }
        }
    }
    assert_eq!(fresh, 3);
}

#[test]
fn a_board_can_be_filled_to_the_last_cell() {
    let mut grid = Grid::new(4).unwrap();
    assert_eq!(grid.add_boxes(16), Ok(()));
    assert_eq!(tiles_on(&grid).len(), 16);
    assert_eq!(grid.add_boxes(0), Ok(()));
    assert_eq!(grid.add_boxes(1), Err(GridError::NoSpaceToSpawn));
}

#[test]
fn the_last_empty_cell_is_found() {
    for _ in 0..50 {
        let mut grid = Grid::new(4).unwrap();
        let mut rows = vec![vec![8u32; 4]; 4];
        rows[2][1] = 0;
        grid.set_state(rows).unwrap();
        assert_eq!(grid.add_boxes(1), Ok(()));
        assert!(grid.state()[2][1] == 2 || grid.state()[2][1] == 4);
        assert_eq!(tiles_on(&grid).len(), 16);
    }
}

#[test]
fn too_many_tiles_are_refused_and_none_is_put_down() {
    let mut grid = Grid::new(2).unwrap();
    grid.set_state(vec![vec![2, 0], vec![0, 4]]).unwrap();
    assert_eq!(grid.add_boxes(3), Err(GridError::NoSpaceToSpawn));
    assert_eq!(grid.state(), &vec![vec![2, 0], vec![0, 4]]);
    assert_eq!(grid.add_boxes(2), Ok(()));
    assert_eq!(tiles_on(&grid).len(), 4);

    let mut blank = Grid::new(4).unwrap();
    assert_eq!(blank.add_boxes(17), Err(GridError::NoSpaceToSpawn));
    assert_eq!(tiles_on(&blank).len(), 0);
}

#[test]
fn low_rolls_give_a_two_and_the_rest_a_four() {
    for roll in 0..9 {
        assert_eq!(tile_for_roll(roll), 2);
    }
    assert_eq!(tile_for_roll(9), 4);
    assert_eq!(tile_for_roll(10), 4);
}

#[test]
fn spawn_at_fills_an_empty_cell_only() {
    let mut grid = Grid::new(3).unwrap();
    assert!(grid.spawn_at(1, 2, 0));
    assert_eq!(grid.state(), &vec![vec![0, 0, 0], vec![0, 0, 2], vec![0, 0, 0]]);
    assert!(grid.spawn_at(0, 0, 9));
    assert_eq!(grid.state(), &vec![vec![4, 0, 0], vec![0, 0, 2], vec![0, 0, 0]]);
    assert!(!grid.spawn_at(1, 2, 9));
    assert!(!grid.spawn_at(3, 0, 0));
    assert!(!grid.spawn_at(0, 3, 0));
    assert_eq!(grid.state(), &vec![vec![4, 0, 0], vec![0, 0, 2], vec![0, 0, 0]]);
    assert_eq!(grid.score(), 0);
}

#[test]
fn tiles_are_the_powers_of_two_from_two_on() {
    assert!(!is_tile(0));
    assert!(!is_tile(1));
    assert!(is_tile(2));
    assert!(!is_tile(3));
    assert!(is_tile(4));
    assert!(!is_tile(6));
    assert!(is_tile(2048));
    assert!(!is_tile(2050));
    assert!(is_tile(1 << 31));
    assert!(!is_tile(u32::MAX));
}

#[test]
fn reset_starts_over_with_two_tiles() {
    let mut grid = Grid::new(4).unwrap();
    grid.set_state(vec![vec![2, 2, 4, 4], vec![8; 4], vec![16; 4], vec![32; 4]]).unwrap();
    grid.move_left();
    assert!(grid.score() > 0);
    grid.reset();
    assert_eq!(grid.size(), 4);
    assert_eq!(grid.score(), 0);
    assert!(!grid.deadlocked());
    let tiles = tiles_on(&grid);
    assert_eq!(tiles.len(), 2);
    assert!(tiles.iter().all(|&tile| tile == 2 || tile == 4));
}

#[test]
fn empty_cells_are_counted_up_to_a_limit() {
    let mut grid = Grid::new(3).unwrap();
    grid.set_state(vec![vec![2, 0, 4], vec![0, 0, 8], vec![16, 32, 0]]).unwrap();
    assert_eq!(grid.count_vacant(usize::MAX), 4);
    assert_eq!(grid.count_vacant(5), 4);
    assert_eq!(grid.count_vacant(4), 4);
    assert_eq!(grid.count_vacant(3), 3);
    assert_eq!(grid.count_vacant(0), 0);
    assert_eq!(Grid::new(4).unwrap().count_vacant(usize::MAX), 16);
}

#[test]
fn empty_cells_are_found_by_their_rank() {
    let mut grid = Grid::new(3).unwrap();
    grid.set_state(vec![vec![2, 0, 4], vec![0, 0, 8], vec![16, 32, 0]]).unwrap();
    assert_eq!(grid.nth_vacant(0), Some((0, 1)));
    assert_eq!(grid.nth_vacant(1), Some((1, 0)));
    assert_eq!(grid.nth_vacant(2), Some((1, 1)));
    assert_eq!(grid.nth_vacant(3), Some((2, 2)));
    assert_eq!(grid.nth_vacant(4), None);
    assert_eq!(grid.nth_vacant(usize::MAX), None);
}

#[test]
fn a_crowded_board_still_gets_its_tile() {
    for _ in 0..20 {
        let mut grid = Grid::new(12).unwrap();
        let mut rows = vec![vec![64u32; 12]; 12];
        rows[7][3] = 0;
        grid.set_state(rows).unwrap();
        assert_eq!(grid.add_boxes(1), Ok(()));
        assert!(grid.state()[7][3] == 2 || grid.state()[7][3] == 4);
        assert_eq!(grid.count_vacant(usize::MAX), 0);
    }
}
