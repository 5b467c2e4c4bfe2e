use vstd::prelude::*;

verus! {

/// What the player asked for.
#[derive(Debug, Clone, Copy, PartialEq, Eq, Structural)]
pub enum Action {
    SelectTile(usize),
    RestartLevel,
    StartGame,
    NextLevel,
    ResetProgress,
    Exit,
    StartAgain,
    Undo,
}

} // verus!
