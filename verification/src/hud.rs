//! The numbers that the game screen shows around the board.
use vstd::prelude::*;

use crate::game_core::state::{count_active, GameState};

verus! {

/// What the game screen shows besides the tiles.
#[derive(Debug, Clone, Copy, PartialEq, Eq, Structural)]
pub struct GameHud {
    /// Pairs still on the board.
    pub pairs: usize,
    pub minutes: u64,
    pub seconds: u64,
    pub score: u32,
    pub level: usize,
    /// The undo button is live when there is something to undo.
    pub can_undo: bool,
}

/// The screen's numbers for a game that has been played for `elapsed_sec`
/// seconds: the pairs left (tiles on the board, halved), the time in minutes
/// and seconds, the score, the level and whether undo is possible.
pub fn game_hud(state: &GameState, elapsed_sec: u64) -> (h: GameHud)
    ensures
        h.pairs == count_active(state.tiles@) / 2,
        h.minutes == elapsed_sec / 60,
        h.seconds == elapsed_sec % 60,
        h.score == state.score,
        h.level == state.current_level,
        h.can_undo == (state.history@.len() > 0),
{
    GameHud {
        pairs: state.active_tile_count() / 2,
        minutes: elapsed_sec / 60,
        seconds: elapsed_sec % 60,
        score: state.score,
        level: state.current_level,
        can_undo: state.history.len() > 0,
    }
}

} // verus!
