use game2048::game::Game;
use game2048::game::GameError;
use game2048::game::GameState;
use game2048::grid::Direction;
use game2048::grid::Grid;
use game2048::grid::GridCoord;

#[test]
fn new_game_has_one_spawned_tile() {
    let game = Game::new(true, 5);
    assert_eq!(game.state(), GameState::Playing);
    assert_eq!(game.score(), 0);
    let cells = game.cells();
    assert_eq!(cells.len(), 16);
    assert_eq!(cells[5], 2);
    assert_eq!(cells.iter().filter(|&&v| v != 0).count(), 1);
}

#[test]
fn new_game_coin_false_spawns_four() {
    let game = Game::new(false, 20);
    // pick 20 wraps around the 16 empty cells to cell 4
    assert_eq!(game.cells()[4], 4);
}

#[test]
fn reset_restarts_the_session() {
    let mut game = Game::new(true, 0);
    game.play_swipe(Direction::Right, true, 0).ok();
    game.reset(false, 9);
    assert_eq!(game.state(), GameState::Playing);
    assert_eq!(game.score(), 0);
    let cells = game.cells();
    assert_eq!(cells[9], 4);
    assert_eq!(cells.iter().filter(|&&v| v != 0).count(), 1);
}

#[test]
fn accepted_swipe_scores_and_spawns() {
    let grid = Grid::new_grid(4, vec![0, 2, 0, 0, 4, 0, 0, 0, 0, 2, 2, 0, 3, 4, 2, 2]);
    let mut game = Game::with_grid(grid);
    let update = game.play_swipe(Direction::Right, true, 0).unwrap();
    assert_eq!(update.score, 8);
    assert_eq!(update.new_value, 2);
    assert_eq!(game.score(), 8);
    // the first empty cell in row-major order received the new tile
    assert_eq!(update.new_piece, Some(GridCoord { x: 0, y: 0 }));
    assert_eq!(game.cells()[0], 2);
    assert_eq!(game.state(), GameState::Playing);
}

#[test]
fn illegal_swipe_changes_nothing() {
    let grid = Grid::new_grid(4, vec![2, 0, 0, 0, 0, 0, 0, 0, 0, 0, 0, 0, 0, 0, 0, 0]);
    let mut game = Game::with_grid(grid);
    let r = game.play_swipe(Direction::Left, true, 3);
    assert_eq!(r.err(), Some(GameError::IllegalMove));
    assert_eq!(game.score(), 0);
    assert_eq!(game.state(), GameState::Playing);
    assert_eq!(game.cells(), vec![2, 0, 0, 0, 0, 0, 0, 0, 0, 0, 0, 0, 0, 0, 0, 0]);
}

#[test]
fn same_direction_twice_reports_illegal_when_settled() {
    let grid = Grid::new_grid(4, vec![2, 2, 0, 0, 0, 0, 0, 0, 0, 0, 0, 0, 0, 0, 0, 0]);
    let mut game = Game::with_grid(grid);
    // place the spawn far from row 0 so the second swipe has nothing to do
    let first = game.play_swipe(Direction::Left, true, 11);
    assert!(first.is_ok());
    let snapshot = game.cells();
    assert_eq!(snapshot[0], 4);
    // the spawn landed on the 12th empty cell in row-major order: cell 12
    assert_eq!(snapshot[12], 2);
    let second = game.play_swipe(Direction::Left, true, 0);
    assert_eq!(second.err(), Some(GameError::IllegalMove));
    assert_eq!(game.cells(), snapshot);
}

#[test]
fn game_over_after_triggering_move() {
    // After the swipe and the spawn of a 4, the board is full with no
    // adjacent equal values in any row or column.
    let grid = Grid::new_grid(4, vec![2, 4, 2, 4, 16, 8, 16, 8, 2, 4, 2, 4, 8, 0, 16, 8]);
    let mut game = Game::with_grid(grid);
    let update = game.play_swipe(Direction::Right, false, 0).unwrap();
    assert_eq!(update.new_piece, Some(GridCoord { x: 0, y: 3 }));
    assert_eq!(update.new_value, 4);
    assert_eq!(game.cells(), vec![2, 4, 2, 4, 16, 8, 16, 8, 2, 4, 2, 4, 4, 8, 16, 8]);
    assert_eq!(game.state(), GameState::Over);
}

#[test]
fn full_board_with_pair_stays_playing() {
    // The same move, but the spawned 2 leaves an equal vertical pair.
    let grid = Grid::new_grid(4, vec![2, 4, 2, 4, 16, 8, 16, 8, 2, 4, 2, 4, 8, 0, 16, 8]);
    let mut game = Game::with_grid(grid);
    game.play_swipe(Direction::Right, true, 0).unwrap();
    assert_eq!(game.cells(), vec![2, 4, 2, 4, 16, 8, 16, 8, 2, 4, 2, 4, 2, 8, 16, 8]);
    assert_eq!(game.state(), GameState::Playing);
}

#[test]
fn swipe_rejected_after_game_over() {
    let grid = Grid::new_grid(4, vec![2, 4, 2, 4, 16, 8, 16, 8, 2, 4, 2, 4, 8, 0, 16, 8]);
    let mut game = Game::with_grid(grid);
    game.play_swipe(Direction::Right, false, 0).unwrap();
    assert_eq!(game.state(), GameState::Over);
    let snapshot = game.cells();
    let r = game.play_swipe(Direction::Up, true, 0);
    assert_eq!(r.err(), Some(GameError::GameOver));
    assert_eq!(game.cells(), snapshot);
    assert_eq!(game.state(), GameState::Over);
}

#[test]
fn failed_spawn_ends_the_game() {
    // A legal merge, but the board's mass leaves no headroom for a new
    // tile: the spawner finds no room and the game ends.
    let mut values = vec![0u32; 16];
    values[0] = 0x7FFF_FFFF;
    values[1] = 0x7FFF_FFFF;
    let grid = Grid::new_grid(4, values);
    let mut game = Game::with_grid(grid);
    let update = game.play_swipe(Direction::Left, true, 0).unwrap();
    assert_eq!(update.score, 0xFFFF_FFFE);
    assert_eq!(update.new_piece, None);
    assert_eq!(game.state(), GameState::Over);
    assert_eq!(game.cells()[0], 0xFFFF_FFFE);
}

#[test]
fn score_saturates_at_ceiling() {
    let grid = Grid::new_grid(4, vec![2, 2, 0, 0, 0, 0, 0, 0, 0, 0, 0, 0, 0, 0, 0, 0]);
    let mut game = Game { score: u32::MAX - 1, grid, state: GameState::Playing };
    game.play_swipe(Direction::Left, true, 0).unwrap();
    assert_eq!(game.score(), u32::MAX);
}

#[test]
fn score_accumulates_over_moves() {
    let grid = Grid::new_grid(4, vec![2, 2, 0, 0, 0, 0, 0, 0, 0, 0, 0, 0, 0, 0, 0, 0]);
    let mut game = Game::with_grid(grid);
    // merge the pair of 2s; the spawn (a 2, pick 0) lands on cell 1
    game.play_swipe(Direction::Left, true, 0).unwrap();
    assert_eq!(game.score(), 4);
    assert_eq!(game.cells()[0], 4);
    assert_eq!(game.cells()[1], 2);
    // swiping down moves both tiles and merges nothing
    let update = game.play_swipe(Direction::Down, true, 0).unwrap();
    assert_eq!(update.score, 0);
    assert_eq!(game.score(), 4);
}

#[test]
fn game_mass_grows_by_spawned_value_only() {
    let grid = Grid::new_grid(4, vec![0, 2, 0, 0, 4, 0, 0, 0, 0, 2, 2, 0, 3, 4, 2, 2]);
    let mut game = Game::with_grid(grid);
    let before: u32 = game.cells().iter().sum();
    let update = game.play_swipe(Direction::Up, true, 0).unwrap();
    let after: u32 = game.cells().iter().sum();
    assert_eq!(after, before + update.new_value);
}
