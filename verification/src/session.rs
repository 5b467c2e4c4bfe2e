use vstd::prelude::*;

use crate::game_core::rules::{buffer_click, click, do_undo, undo};
use crate::game_core::state::{fresh_game, GamePhase, GameState, GameView};
use crate::input::Action;
use crate::levels::total_levels;

verus! {

/// The screen the game shows.
#[derive(Debug, Clone, Copy, PartialEq, Eq, Structural)]
pub enum Screen {
    Start,
    Game,
    Transition { completed_level: usize },
    Completion,
    GameOver,
}

/// Work that an action leaves to the program around the game, in the order
/// in which it is to be done.
#[derive(Debug, Clone, Copy, PartialEq, Eq, Structural)]
pub enum Effect {
    /// Drop the fading tiles, read the level file of the state's current
    /// level and start it with `GameState::load_level`.
    LoadCurrentLevel,
    /// Write the given level to the save file.
    SaveProgress(usize),
    /// Delete the save file.
    ResetProgress,
    /// End the program.
    Exit,
    /// Drop the fading tiles.
    ClearFades,
    /// Let the given tile fade out where it stood.
    FadeTile(usize),
}

/// The game as a whole: the screen shown and the state of the game.
pub struct Session {
    pub screen: Screen,
    pub state: GameState,
}

/// The session as the contracts speak of it.
pub struct SessionView {
    pub screen: Screen,
    pub game: GameView,
}

impl View for Session {
    type V = SessionView;

    open spec fn view(&self) -> SessionView {
        SessionView { screen: self.screen, game: self.state@ }
    }
}

/// The game view with another current level.
pub open spec fn at_level(g: GameView, level: usize) -> GameView {
    GameView { current_level: level, ..g }
}

/// The screen after a click has left the game in state `g`.
pub open spec fn screen_after_click(screen: Screen, g: GameView) -> Screen {
    if g.phase == GamePhase::LevelCompleted {
        if g.current_level >= 10 {
            Screen::Completion
        } else {
            Screen::Transition { completed_level: g.current_level }
        }
    } else if g.phase == GamePhase::Lost {
        Screen::GameOver
    } else {
        screen
    }
}

/// The session after an action, and the work left to do, in order.
///
/// Starting or restarting loads the current level and shows the board.
/// "Next level" moves on, saves and loads the next level when there is one.
/// Resetting the progress deletes the save and goes back to level 1 on the
/// start screen. Starting again saves level 1 and plays it. Undo drops the
/// fades, undoes the last action and leaves the game-over screen for the
/// board. A click on a tile plays it, lets it fade when it left the board
/// (paired or moved into the buffer), and shows the level's end or the lost
/// game when the click ended the level.
pub open spec fn respond(s: SessionView, action: Action) -> (SessionView, Seq<Effect>) {
    match action {
        Action::StartGame | Action::RestartLevel => (
            SessionView { screen: Screen::Game, game: s.game },
            seq![Effect::LoadCurrentLevel],
        ),
        Action::NextLevel => {
            if s.game.current_level < 10 {
                let next = (s.game.current_level + 1) as usize;
                (
                    SessionView { screen: Screen::Game, game: at_level(s.game, next) },
                    seq![Effect::SaveProgress(next), Effect::LoadCurrentLevel],
                )
            } else {
                (s, Seq::empty())
            }
        },
        Action::ResetProgress => (
            SessionView { screen: Screen::Start, game: at_level(s.game, 1) },
            seq![Effect::ResetProgress],
        ),
        Action::StartAgain => (
            SessionView { screen: Screen::Game, game: at_level(s.game, 1) },
            seq![Effect::SaveProgress(1), Effect::LoadCurrentLevel],
        ),
        Action::Exit => (s, seq![Effect::Exit]),
        Action::Undo => (
            SessionView {
                screen: if s.screen == Screen::GameOver {
                    Screen::Game
                } else {
                    s.screen
                },
                game: undo(s.game).0,
            },
            seq![Effect::ClearFades],
        ),
        Action::SelectTile(tile_id) => {
            let (g, paired) = click(s.game, tile_id);
            (
                SessionView { screen: screen_after_click(s.screen, g), game: g },
                if paired || g.buffer.contains(tile_id) {
                    seq![Effect::FadeTile(tile_id)]
                } else {
                    Seq::empty()
                },
            )
        },
    }
}

fn buffer_holds(buffer: &Vec<usize>, id: usize) -> (r: bool)
    ensures
        r == buffer@.contains(id),
{
    let mut i: usize = 0;
    while i < buffer.len()
        invariant
            i <= buffer@.len(),
            forall|j: int| 0 <= j < i ==> buffer@[j] != id,
        decreases buffer@.len() - i,
    {
        if buffer[i] == id {
            assert(buffer@[i as int] == id);
            return true;
        }
        i = i + 1;
    }
    false
}

impl Session {
    /// The start screen, with a fresh game at the given level.
    pub fn new(current_level: usize) -> (s: Self)
        ensures
            s.screen == Screen::Start,
            s.state@ == at_level(fresh_game(), current_level),
    {
        let mut state = GameState::new();
        state.current_level = current_level;
        let s = Session { screen: Screen::Start, state };
        assert(s.state@ =~= at_level(fresh_game(), current_level));
        s
    }

    /// Carries out `action` (see `respond`) and returns the work left to the
    /// caller, in order.
    pub fn handle_action(&mut self, action: Action) -> (effects: Vec<Effect>)
        ensures
            final(self)@ == respond(old(self)@, action).0,
            effects@ == respond(old(self)@, action).1,
    {
        let ghost s0 = self@;
        let mut effects: Vec<Effect> = Vec::new();
        match action {
            Action::StartGame | Action::RestartLevel => {
                effects.push(Effect::LoadCurrentLevel);
                self.screen = Screen::Game;
            },
            Action::NextLevel => {
                if self.state.current_level < total_levels() {
                    self.state.current_level = self.state.current_level + 1;
                    effects.push(Effect::SaveProgress(self.state.current_level));
                    effects.push(Effect::LoadCurrentLevel);
                    self.screen = Screen::Game;
                }
            },
            Action::ResetProgress => {
                effects.push(Effect::ResetProgress);
                self.state.current_level = 1;
                self.screen = Screen::Start;
            },
            Action::StartAgain => {
                effects.push(Effect::SaveProgress(1));
                self.state.current_level = 1;
                effects.push(Effect::LoadCurrentLevel);
                self.screen = Screen::Game;
            },
            Action::Exit => {
                effects.push(Effect::Exit);
            },
            Action::Undo => {
                effects.push(Effect::ClearFades);
                do_undo(&mut self.state);
                if self.screen == Screen::GameOver {
                    self.screen = Screen::Game;
                }
            },
            Action::SelectTile(tile_id) => {
                let was_paired = buffer_click(&mut self.state, tile_id);
                if was_paired || buffer_holds(&self.state.buffer, tile_id) {
                    effects.push(Effect::FadeTile(tile_id));
                }
                if self.state.phase == GamePhase::LevelCompleted {
                    if self.state.current_level >= total_levels() {
                        self.screen = Screen::Completion;
                    } else {
                        self.screen = Screen::Transition {
                            completed_level: self.state.current_level,
                        };
                    }
                } else if self.state.phase == GamePhase::Lost {
                    self.screen = Screen::GameOver;
                }
            },
        }
        assert(self@.game =~= respond(s0, action).0.game);
        assert(effects@ =~= respond(s0, action).1);
        effects
    }
}

/// Starting and restarting both reload the current level and show the
/// board, and change nothing else.
pub proof fn law_start_and_restart_reload(s: SessionView)
    ensures
        respond(s, Action::StartGame).1 == seq![Effect::LoadCurrentLevel],
        respond(s, Action::RestartLevel).1 == seq![Effect::LoadCurrentLevel],
        respond(s, Action::StartGame).0.screen == Screen::Game,
        respond(s, Action::RestartLevel).0.screen == Screen::Game,
        respond(s, Action::StartGame).0.game == s.game,
        respond(s, Action::RestartLevel).0.game == s.game,
{
}

/// "Next level" below the last level moves one level on, saves that level
/// and then loads it, showing the board; at the last level it does nothing.
pub proof fn law_next_level_advances(s: SessionView)
    ensures
        s.game.current_level < 10 ==> {
            let (r, e) = respond(s, Action::NextLevel);
            &&& r.game.current_level == s.game.current_level + 1
            &&& r.game.tiles == s.game.tiles
            &&& r.game.buffer == s.game.buffer
            &&& r.game.history == s.game.history
            &&& r.game.score == s.game.score
            &&& r.game.phase == s.game.phase
            &&& r.screen == Screen::Game
            &&& e == seq![Effect::SaveProgress((s.game.current_level + 1) as usize), Effect::LoadCurrentLevel]
        },
        s.game.current_level >= 10 ==> respond(s, Action::NextLevel) == (s, Seq::<Effect>::empty()),
{
}

/// Resetting the progress deletes the save and goes back to level 1 on the
/// start screen; starting again saves level 1 and then loads it on the
/// board; exiting only asks to end the program.
pub proof fn law_reset_start_again_exit(s: SessionView)
    ensures
        respond(s, Action::ResetProgress).1 == seq![Effect::ResetProgress],
        respond(s, Action::ResetProgress).0.screen == Screen::Start,
        respond(s, Action::ResetProgress).0.game.current_level == 1,
        respond(s, Action::ResetProgress).0.game.tiles == s.game.tiles,
        respond(s, Action::StartAgain).1 == seq![Effect::SaveProgress(1), Effect::LoadCurrentLevel],
        respond(s, Action::StartAgain).0.screen == Screen::Game,
        respond(s, Action::StartAgain).0.game.current_level == 1,
        respond(s, Action::StartAgain).0.game.tiles == s.game.tiles,
        respond(s, Action::Exit) == (s, seq![Effect::Exit]),
{
}

/// Undo in the session undoes the last action of the game, drops the fades
/// and leaves the game-over screen for the board (any other screen stays).
pub proof fn law_session_undo(s: SessionView)
    ensures
        respond(s, Action::Undo).0.game == undo(s.game).0,
        respond(s, Action::Undo).1 == seq![Effect::ClearFades],
        s.screen == Screen::GameOver ==> respond(s, Action::Undo).0.screen == Screen::Game,
        s.screen != Screen::GameOver ==> respond(s, Action::Undo).0.screen == s.screen,
{
}

/// A click in the session plays the click in the game; the tile fades out
/// exactly when the click paired it or put it in the buffer; a completed
/// level shows the completion screen after the last level and the
/// transition screen before it; a lost game shows the game-over screen;
/// otherwise the screen stays.
pub proof fn law_session_click(s: SessionView, tile_id: usize)
    ensures
        ({
            let (r, e) = respond(s, Action::SelectTile(tile_id));
            let (g, paired) = click(s.game, tile_id);
            &&& r.game == g
            &&& (paired || g.buffer.contains(tile_id)) ==> e == seq![Effect::FadeTile(tile_id)]
            &&& !(paired || g.buffer.contains(tile_id)) ==> e.len() == 0
            &&& g.phase == GamePhase::LevelCompleted && g.current_level >= 10 ==> r.screen
                == Screen::Completion
            &&& g.phase == GamePhase::LevelCompleted && g.current_level < 10 ==> r.screen
                == Screen::Transition { completed_level: g.current_level }
            &&& g.phase == GamePhase::Lost ==> r.screen == Screen::GameOver
            &&& g.phase != GamePhase::LevelCompleted && g.phase != GamePhase::Lost ==> r.screen
                == s.screen
        }),
{
}

} // verus!
