use game2048::grid::Direction;
use game2048::grid::Grid;
use game2048::grid::GridCoord;

#[test]
fn swipe_right() {
    let mut grid = Grid::new_grid(4, vec![0, 2, 0, 0, 4, 0, 0, 0, 0, 2, 2, 0, 3, 4, 2, 2]);
    grid.move_cells(Direction::Right);

    assert_eq!(vec![0, 0, 0, 2, 0, 0, 0, 4, 0, 0, 0, 4, 0, 3, 4, 4], grid.get_grid());
}

#[test]
fn swipe_left() {
    let mut grid = Grid::new_grid(4, vec![0, 2, 0, 0, 4, 0, 0, 0, 0, 2, 2, 0, 3, 4, 2, 2]);
    grid.move_cells(Direction::Left);

    assert_eq!(vec![2, 0, 0, 0, 4, 0, 0, 0, 4, 0, 0, 0, 3, 4, 4, 0], grid.get_grid());
}

#[test]
fn swipe_up() {
    let mut grid = Grid::new_grid(4, vec![0, 2, 0, 0, 4, 0, 0, 0, 0, 2, 2, 0, 3, 4, 2, 2]);
    grid.move_cells(Direction::Up);

    assert_eq!(vec![4, 4, 4, 2, 3, 4, 0, 0, 0, 0, 0, 0, 0, 0, 0, 0], grid.get_grid());
}

#[test]
fn swipe_down() {
    let mut grid = Grid::new_grid(4, vec![0, 2, 0, 0, 4, 0, 0, 0, 0, 2, 2, 0, 3, 4, 2, 2]);
    grid.move_cells(Direction::Down);

    assert_eq!(vec![0, 0, 0, 0, 0, 0, 0, 0, 4, 4, 0, 0, 3, 4, 4, 2], grid.get_grid());
}

#[test]
fn swipe_scores_follow_merge_rule() {
    // Each direction on the reference board merges two pairs of 2s: 4 + 4.
    for dir in [Direction::Right, Direction::Left, Direction::Up, Direction::Down] {
        let mut grid = Grid::new_grid(4, vec![0, 2, 0, 0, 4, 0, 0, 0, 0, 2, 2, 0, 3, 4, 2, 2]);
        let (score, moved) = grid.move_cells(dir);
        assert!(moved);
        assert_eq!(score, 8);
    }
}

#[test]
fn merge_once_no_cascade() {
    // Four equal tiles merge into two pairs, never into a single 8.
    let mut grid = Grid::new_grid(4, vec![2, 2, 2, 2, 0, 0, 0, 0, 0, 0, 0, 0, 0, 0, 0, 0]);
    let (score, moved) = grid.move_cells(Direction::Left);
    assert!(moved);
    assert_eq!(score, 8);
    assert_eq!(vec![4, 4, 0, 0, 0, 0, 0, 0, 0, 0, 0, 0, 0, 0, 0, 0], grid.get_grid());
}

#[test]
fn merged_slot_is_sealed() {
    // The 4 blocks the first slot; the pair behind it merges into the next.
    let mut grid = Grid::new_grid(4, vec![4, 2, 2, 0, 0, 0, 0, 0, 0, 0, 0, 0, 0, 0, 0, 0]);
    let (score, _) = grid.move_cells(Direction::Left);
    assert_eq!(score, 4);
    assert_eq!(vec![4, 4, 0, 0, 0, 0, 0, 0, 0, 0, 0, 0, 0, 0, 0, 0], grid.get_grid());
}

#[test]
fn conservation_of_mass() {
    // The sum of all tiles is unchanged by a swipe, in every direction.
    for dir in [Direction::Right, Direction::Left, Direction::Up, Direction::Down] {
        let mut grid = Grid::new_grid(4, vec![0, 2, 0, 0, 4, 0, 0, 0, 0, 2, 2, 0, 3, 4, 2, 2]);
        let before = grid.total();
        grid.move_cells(dir);
        assert_eq!(grid.total(), before);
    }
}

#[test]
fn noop_swipe_reports_illegal_and_leaves_grid() {
    let mut grid = Grid::new_grid(4, vec![2, 0, 0, 0, 0, 0, 0, 0, 0, 0, 0, 0, 0, 0, 0, 0]);
    let (score, moved) = grid.move_cells(Direction::Left);
    assert!(!moved);
    assert_eq!(score, 0);
    assert_eq!(vec![2, 0, 0, 0, 0, 0, 0, 0, 0, 0, 0, 0, 0, 0, 0, 0], grid.get_grid());
}

#[test]
fn second_swipe_without_change_is_illegal() {
    let mut grid = Grid::new_grid(4, vec![2, 2, 0, 0, 0, 0, 0, 0, 0, 0, 0, 0, 0, 0, 0, 0]);
    let (_, first_moved) = grid.move_cells(Direction::Left);
    assert!(first_moved);
    assert_eq!(vec![4, 0, 0, 0, 0, 0, 0, 0, 0, 0, 0, 0, 0, 0, 0, 0], grid.get_grid());
    let (_, second_moved) = grid.move_cells(Direction::Left);
    assert!(!second_moved);
    assert_eq!(vec![4, 0, 0, 0, 0, 0, 0, 0, 0, 0, 0, 0, 0, 0, 0, 0], grid.get_grid());
}

#[test]
fn empty_cells_row_major_order() {
    let mut values = vec![9u32; 16];
    values[1] = 0;
    values[4] = 0;
    values[15] = 0;
    let grid = Grid::new_grid(4, values);
    let empties = grid.empty_cells();
    assert_eq!(empties.len(), 3);
    assert_eq!(empties[0], GridCoord { x: 1, y: 0 });
    assert_eq!(empties[1], GridCoord { x: 0, y: 1 });
    assert_eq!(empties[2], GridCoord { x: 3, y: 3 });
}

#[test]
fn spawn_always_lands_on_single_empty_cell() {
    // With exactly one empty cell, every pick chooses it.
    for pick in [0usize, 1, 7, 999, 123456] {
        let mut values = vec![2u32; 16];
        values[5] = 0;
        let mut grid = Grid::new_grid(4, values);
        let placed = grid.add_at_random_position(4, pick);
        assert_eq!(placed, Some(GridCoord { x: 1, y: 1 }));
        assert_eq!(grid.value_at(GridCoord { x: 1, y: 1 }), 4);
    }
}

#[test]
fn spawn_roughly_uniform_over_two_empty_cells() {
    // With two empty cells, pseudo-random picks land on each about half
    // the time.
    let mut counts = [0usize; 2];
    let mut seed: u64 = 0x2545F4914F6CDD1D;
    for _ in 0..1000 {
        seed = seed.wrapping_mul(6364136223846793005).wrapping_add(1442695040888963407);
        let pick = (seed >> 33) as usize;
        let mut values = vec![2u32; 16];
        values[3] = 0;
        values[12] = 0;
        let mut grid = Grid::new_grid(4, values);
        let placed = grid.add_at_random_position(4, pick).unwrap();
        if placed == (GridCoord { x: 3, y: 0 }) {
            counts[0] += 1;
        } else {
            assert_eq!(placed, GridCoord { x: 0, y: 3 });
            counts[1] += 1;
        }
    }
    assert!(counts[0] >= 400 && counts[1] >= 400);
}

#[test]
fn spawn_fails_on_full_board() {
    let mut grid = Grid::new_grid(4, vec![2u32; 16]);
    assert_eq!(grid.add_at_random_position(4, 0), None);
    assert_eq!(grid.get_grid(), vec![2u32; 16]);
}

#[test]
fn game_over_full_board_no_pairs() {
    let grid = Grid::new_grid(4, vec![2, 4, 2, 4, 8, 16, 8, 16, 2, 4, 2, 4, 16, 8, 16, 8]);
    assert!(grid.is_game_over());
}

#[test]
fn not_game_over_with_adjacent_pair() {
    let grid = Grid::new_grid(4, vec![2, 4, 2, 4, 8, 16, 8, 16, 2, 4, 2, 4, 16, 8, 16, 16]);
    assert!(!grid.is_game_over());
}

#[test]
fn not_game_over_with_empty_cell() {
    let grid = Grid::new_grid(4, vec![2, 4, 2, 4, 8, 16, 8, 16, 2, 4, 2, 4, 16, 8, 16, 0]);
    assert!(!grid.is_game_over());
}

#[test]
fn new_grid_starts_empty() {
    let grid = Grid::new(4);
    assert_eq!(grid.get_grid(), vec![0u32; 16]);
    assert!(grid.empty_cells().len() == 16);
}

#[test]
fn default_grid_is_empty_four_by_four() {
    let grid = Grid::default();
    assert_eq!(grid.get_grid(), vec![0u32; 16]);
}

#[test]
fn value_at_and_set_value() {
    let mut grid = Grid::new(4);
    grid.set_value(GridCoord { x: 2, y: 1 }, 32);
    assert_eq!(grid.value_at(GridCoord { x: 2, y: 1 }), 32);
    assert_eq!(grid.value_at(GridCoord { x: 1, y: 2 }), 0);
    assert_eq!(grid.get_index_from_coord(GridCoord { x: 2, y: 1 }), 6);
}

#[test]
fn coord_from_pair() {
    let c = GridCoord::from((3usize, 1usize));
    assert_eq!(c, GridCoord { x: 3, y: 1 });
}
