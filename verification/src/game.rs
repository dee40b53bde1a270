//! The game controller: score, lifecycle state, and the
//! move / spawn / game-over sequence.
//!
//! Randomness is an injected capability: every operation that needs a
//! random choice takes the draws as plain arguments (a coin for the spawned
//! tile's value, a pick for its position), so a host can pass real random
//! numbers and a test can pass a fixed sequence.

use vstd::prelude::*;

use crate::grid::coord_of;
use crate::grid::empty_idx_seq;
use crate::grid::game_over;
use crate::grid::grid_score;
use crate::grid::slid_grid;
use crate::grid::spawn_index;
use crate::grid::Direction;
use crate::grid::Grid;
use crate::grid::GridCoord;
use crate::line::seq_sum;

verus! {

/// The lifecycle of one game.  `Playing` is the initial state; the move to
/// `Over` is one-way, undone only by a full reset.
#[derive(Debug, Clone, Copy, PartialEq, Eq, Structural)]
pub enum GameState {
    Playing,
    Over,
}

/// Why a swipe was rejected: it would have changed nothing, or the game
/// had already ended.  Either way the game is left untouched.
#[derive(Debug, Clone, Copy, PartialEq, Eq, Structural)]
pub enum GameError {
    IllegalMove,
    GameOver,
}

/// What one accepted swipe did: the score it gained, and the coordinate
/// and value of the tile spawned afterwards.  `new_piece` is `None` only
/// on the rare accepted move after which no tile could be placed; the game
/// is then over.
pub struct GameUpdate {
    pub score: u32,
    pub new_piece: Option<GridCoord>,
    pub new_value: u32,
}

/// One game: a grid, the accumulated score, and the lifecycle state.
pub struct Game {
    pub score: u32,
    pub grid: Grid,
    pub state: GameState,
}

/// The value of a freshly spawned tile: 2 or 4, by a fair coin.
pub open spec fn piece_value(coin: bool) -> u32 {
    if coin {
        2
    } else {
        4
    }
}

/// The board of a fresh game: empty but for one spawned tile.
pub open spec fn fresh_board(coin: bool, pick: int) -> Seq<u32> {
    let e = Seq::new(16, |i: int| 0u32);
    e.update(spawn_index(e, pick), piece_value(coin))
}

/// Nothing about a game changed: score, state, and every cell.
pub open spec fn same_game(a: Game, b: Game) -> bool {
    a.score == b.score && a.state == b.state && a.grid.size == b.grid.size && a.grid@ == b.grid@
}

impl Game {
    /// Well-formed: the grid is.
    pub open spec fn wf(&self) -> bool {
        self.grid.wf()
    }

    /// Returns a fresh 4x4 game in `Playing` state with score 0 and exactly
    /// one spawned tile, placed by the injected random draws.
    pub fn new(coin: bool, pick: usize) -> (g: Game)
        ensures
            g.wf(),
            g.state == GameState::Playing,
            g.score == 0,
            g.grid.size == 4,
            g.grid@ == fresh_board(coin, pick as int),
    {
        Self::new_game(coin, pick)
    }

    /// Builds a game in `Playing` state with score 0 around a prepared
    /// board, so a caller can start from a chosen position.
    pub fn with_grid(grid: Grid) -> (g: Game)
        requires
            grid.wf(),
        ensures
            g.wf(),
            g.state == GameState::Playing,
            g.score == 0,
            g.grid.size == grid.size,
            g.grid@ == grid@,
    {
        Game { score: 0, grid, state: GameState::Playing }
    }

    fn new_game(coin: bool, pick: usize) -> (g: Game)
        ensures
            g.wf(),
            g.state == GameState::Playing,
            g.score == 0,
            g.grid.size == 4,
            g.grid@ == fresh_board(coin, pick as int),
    {
        let mut grid = Grid::new(4);
        let piece = Self::get_small_piece(coin);
        proof {
            assert(grid@ =~= Seq::new(16, |i: int| 0u32));
            crate::line::lemma_all_zero_sum(grid@);
            crate::grid::lemma_empty_idx_complete(grid@, 0);
        }
        let _ = grid.add_at_random_position(piece, pick);
        Game { score: 0, grid, state: GameState::Playing }
    }

    /// Discards the board and score and starts over, exactly as at
    /// construction: a fresh board with one spawned tile, score 0,
    /// `Playing`.
    pub fn reset(&mut self, coin: bool, pick: usize)
        ensures
            final(self).wf(),
            final(self).state == GameState::Playing,
            final(self).score == 0,
            final(self).grid.size == 4,
            final(self).grid@ == fresh_board(coin, pick as int),
    {
        let game = Self::new_game(coin, pick);
        self.grid = game.grid;
        self.score = game.score;
        self.state = game.state;
    }

    /// Plays one swipe.  A game already over rejects it untouched; a swipe
    /// that would change nothing is illegal and leaves score, board and
    /// state exactly as they were.  An accepted swipe compacts the board,
    /// adds the gained score (saturating at the score type's ceiling),
    /// spawns a tile of the coin-chosen value on the pick-chosen empty
    /// cell, and ends the game when no tile could be placed or no legal
    /// move remains.
    pub fn play_swipe(&mut self, direction: Direction, coin: bool, pick: usize) -> (r: Result<
        GameUpdate,
        GameError,
    >)
        requires
            old(self).wf(),
        ensures
            final(self).wf(),
            final(self).grid.size == old(self).grid.size,
            old(self).state == GameState::Over ==> r == Err::<GameUpdate, GameError>(
                GameError::GameOver,
            ) && same_game(*final(self), *old(self)),
            old(self).state == GameState::Playing && slid_grid(
                old(self).grid@,
                direction,
                old(self).grid.size as int,
            ) == old(self).grid@ ==> r == Err::<GameUpdate, GameError>(GameError::IllegalMove)
                && same_game(*final(self), *old(self)),
            old(self).state == GameState::Playing && slid_grid(
                old(self).grid@,
                direction,
                old(self).grid.size as int,
            ) != old(self).grid@ ==> ({
                let sz = old(self).grid.size as int;
                let mid = slid_grid(old(self).grid@, direction, sz);
                let delta = grid_score(old(self).grid@, direction, sz);
                let can_spawn = empty_idx_seq(mid).len() > 0 && seq_sum(mid) + piece_value(coin)
                    <= u32::MAX;
                &&& final(self).score == (if old(self).score + delta <= u32::MAX {
                    old(self).score + delta
                } else {
                    u32::MAX as int
                })
                &&& r is Ok
                &&& (r matches Ok(u) ==> u.score == delta && u.new_value == piece_value(coin))
                &&& (can_spawn ==> {
                    &&& final(self).grid@ == mid.update(
                        spawn_index(mid, pick as int),
                        piece_value(coin),
                    )
                    &&& (r matches Ok(u) ==> u.new_piece == Some(
                        coord_of(sz, spawn_index(mid, pick as int)),
                    ))
                    &&& final(self).state == (if game_over(final(self).grid@, sz) {
                        GameState::Over
                    } else {
                        GameState::Playing
                    })
                })
                &&& (!can_spawn ==> {
                    &&& final(self).grid@ == mid
                    &&& (r matches Ok(u) ==> u.new_piece is None)
                    &&& final(self).state == GameState::Over
                })
            }),
    {
        if self.state == GameState::Over {
            return Err(GameError::GameOver);
        }
        let (delta, moved) = self.grid.move_cells(direction);
        if !moved {
            return Err(GameError::IllegalMove);
        }
        if delta > u32::MAX - self.score {
            self.score = u32::MAX;
        } else {
            self.score = self.score + delta;
        }
        let piece = Self::get_small_piece(coin);
        let spawned = self.grid.add_at_random_position(piece, pick);
        match spawned {
            None => {
                self.state = GameState::Over;
                Ok(GameUpdate { score: delta, new_piece: None, new_value: piece })
            },
            Some(c) => {
                if self.grid.is_game_over() {
                    self.state = GameState::Over;
                }
                Ok(GameUpdate { score: delta, new_piece: Some(c), new_value: piece })
            },
        }
    }

    /// A copy of the flat cell array, row-major, 0 for an empty cell.
    pub fn cells(&self) -> (r: Vec<u32>)
        ensures
            r@ == self.grid@,
    {
        self.grid.get_grid()
    }

    /// The accumulated score: the sum of the merge gains of every accepted
    /// move, never decreasing.
    pub fn score(&self) -> (s: u32)
        ensures
            s == self.score,
    {
        self.score
    }

    /// The lifecycle state of the game.
    pub fn state(&self) -> (s: GameState)
        ensures
            s == self.state,
    {
        self.state
    }

    /// The spawned tile's value from the injected coin: 2 or 4.
    fn get_small_piece(coin: bool) -> (v: u32)
        ensures
            v == piece_value(coin),
    {
        if coin {
            2
        } else {
            4
        }
    }
}

} // verus!
