//! Rules engine for a sliding-tile merge puzzle on a square grid.
//!
//! A swipe compacts every row or column toward one edge, merging equal
//! adjacent tiles at most once per resulting slot, and reports the score
//! gained together with a legality verdict.  A spawner places a fresh tile
//! on an empty cell chosen by an injected random draw, and a controller
//! sequences moves, spawns and the terminal game-over check.

pub mod game;
pub mod grid;
pub mod line;
