use vstd::prelude::*;

use crate::game_core::state::{
    count_active, BufferAction, GamePhase, GameState, GameView, Tile, BUFFER_SIZE,
};

verus! {

// ---------------------------------------------------------------------------
// The rules, stated over the game's view
// ---------------------------------------------------------------------------

/// `t` is another tile than `tile` and lies on the board.
pub open spec fn other_on_board(t: Tile, tile: Tile) -> bool {
    t.active && t.id != tile.id
}

/// `t` lies on top of `tile`: same column and row, higher layer.
pub open spec fn covers(t: Tile, tile: Tile) -> bool {
    &&& other_on_board(t, tile)
    &&& t.position.x == tile.position.x
    &&& t.position.y == tile.position.y
    &&& t.position.z > tile.position.z
}

/// `t` lies in the same layer as `tile`, shifted by `(dx, dy)`.
pub open spec fn beside(t: Tile, tile: Tile, dx: int, dy: int) -> bool {
    &&& other_on_board(t, tile)
    &&& t.position.z == tile.position.z
    &&& t.position.x == tile.position.x + dx
    &&& t.position.y == tile.position.y + dy
}

/// Some tile on the board lies on top of `tile`.
pub open spec fn blocked_from_above(tiles: Seq<Tile>, tile: Tile) -> bool {
    exists|j: int| 0 <= j < tiles.len() && covers(#[trigger] tiles[j], tile)
}

/// Some tile on the board lies next to `tile` at the offset `(dx, dy)`.
pub open spec fn side_taken(tiles: Seq<Tile>, tile: Tile, dx: int, dy: int) -> bool {
    exists|j: int| 0 <= j < tiles.len() && beside(#[trigger] tiles[j], tile, dx, dy)
}

/// At least one of the four sides (left, right, top, bottom) is free.
pub open spec fn free_side(tiles: Seq<Tile>, tile: Tile) -> bool {
    ||| !side_taken(tiles, tile, -2, 0)
    ||| !side_taken(tiles, tile, 2, 0)
    ||| !side_taken(tiles, tile, 0, -2)
    ||| !side_taken(tiles, tile, 0, 2)
}

/// A tile can be taken: it is on the board, nothing lies on it, and one of
/// its sides is free.
pub open spec fn selectable(tiles: Seq<Tile>, tile: Tile) -> bool {
    &&& tile.active
    &&& !blocked_from_above(tiles, tile)
    &&& free_side(tiles, tile)
}

/// The buffered tile number `bid` names a tile of the given type.
pub open spec fn buffered_of_type(tiles: Seq<Tile>, bid: usize, type_id: u32) -> bool {
    bid < tiles.len() && tiles[bid as int].type_id == type_id
}

/// `p` is the first place in the buffer that holds a tile of the given type.
pub open spec fn first_match(tiles: Seq<Tile>, buffer: Seq<usize>, type_id: u32, p: int) -> bool {
    &&& 0 <= p < buffer.len()
    &&& buffered_of_type(tiles, buffer[p], type_id)
    &&& forall|q: int| 0 <= q < p ==> !buffered_of_type(tiles, #[trigger] buffer[q], type_id)
}

/// The first place in the buffer that holds a tile of the given type.
pub open spec fn match_index(tiles: Seq<Tile>, buffer: Seq<usize>, type_id: u32) -> Option<int> {
    if exists|p: int| first_match(tiles, buffer, type_id, p) {
        Some(choose|p: int| first_match(tiles, buffer, type_id, p))
    } else {
        None
    }
}

/// The tiles with tile `i` put on (`on == true`) or taken off the board.
pub open spec fn set_active(tiles: Seq<Tile>, i: int, on: bool) -> Seq<Tile> {
    if 0 <= i < tiles.len() {
        tiles.update(i, Tile { active: on, ..tiles[i] })
    } else {
        tiles
    }
}

/// The state after a click on tile `tile_id`, and whether a pair was removed.
///
/// A tile that cannot be taken leaves everything as it was. Otherwise, if
/// the buffer holds a tile of the same type, the first such tile leaves the
/// buffer, both tiles leave the board, the score grows by 100 (saturating)
/// and the level is completed when no tile is left on the board. If there is
/// no such tile and the buffer is full, the game is lost and nothing else
/// changes. Otherwise the tile leaves the board and joins the buffer at its
/// end.
pub open spec fn click(s: GameView, tile_id: usize) -> (GameView, bool) {
    if !(tile_id < s.tiles.len() && s.tiles[tile_id as int].active && selectable(
        s.tiles,
        s.tiles[tile_id as int],
    )) {
        (s, false)
    } else {
        let t = s.tiles[tile_id as int];
        match match_index(s.tiles, s.buffer, t.type_id) {
            Some(p) => {
                let m = s.buffer[p];
                let tiles = set_active(set_active(s.tiles, tile_id as int, false), m as int, false);
                (
                    GameView {
                        current_level: s.current_level,
                        tiles: tiles,
                        buffer: s.buffer.remove(p),
                        phase: if count_active(tiles) == 0 {
                            GamePhase::LevelCompleted
                        } else {
                            s.phase
                        },
                        score: s.score.saturating_add(100),
                        history: s.history.push(BufferAction::Paired(tile_id, m, p as usize)),
                    },
                    true,
                )
            },
            None => {
                if s.buffer.len() >= BUFFER_SIZE {
                    (
                        GameView {
                            current_level: s.current_level,
                            tiles: s.tiles,
                            buffer: s.buffer,
                            phase: GamePhase::Lost,
                            score: s.score,
                            history: s.history,
                        },
                        false,
                    )
                } else {
                    (
                        GameView {
                            current_level: s.current_level,
                            tiles: set_active(s.tiles, tile_id as int, false),
                            buffer: s.buffer.push(tile_id),
                            phase: s.phase,
                            score: s.score,
                            history: s.history.push(BufferAction::AddedToBuffer(tile_id)),
                        },
                        false,
                    )
                }
            },
        }
    }
}

/// The phase after an undo: a lost or completed level is played again.
pub open spec fn reopened(p: GamePhase) -> GamePhase {
    if p == GamePhase::Lost || p == GamePhase::LevelCompleted {
        GamePhase::Playing
    } else {
        p
    }
}

/// The buffer without any entry equal to `id`.
pub open spec fn without(buffer: Seq<usize>, id: usize) -> Seq<usize> {
    buffer.filter(|b: usize| b != id)
}

/// The state after undoing the last recorded action, and whether there was
/// one to undo.
///
/// Undoing an addition puts the tile back on the board and drops it from the
/// buffer. Undoing a pair puts both tiles back on the board, puts the
/// buffered tile back at its old place in the buffer (or at the end, if the
/// buffer is shorter now) and takes 100 from the score (saturating). Either
/// way a lost or completed level is played again.
pub open spec fn undo(s: GameView) -> (GameView, bool) {
    if s.history.len() == 0 {
        (s, false)
    } else {
        let history = s.history.drop_last();
        let phase = reopened(s.phase);
        match s.history.last() {
            BufferAction::AddedToBuffer(t) => (
                GameView {
                    current_level: s.current_level,
                    tiles: set_active(s.tiles, t as int, true),
                    buffer: without(s.buffer, t),
                    phase: phase,
                    score: s.score,
                    history: history,
                },
                true,
            ),
            BufferAction::Paired(t, m, pos) => (
                GameView {
                    current_level: s.current_level,
                    tiles: set_active(set_active(s.tiles, t as int, true), m as int, true),
                    buffer: s.buffer.insert(
                        if pos < s.buffer.len() {
                            pos as int
                        } else {
                            s.buffer.len() as int
                        },
                        m,
                    ),
                    phase: phase,
                    score: s.score.saturating_sub(100),
                    history: history,
                },
                true,
            ),
        }
    }
}

// ---------------------------------------------------------------------------
// The executable rules
// ---------------------------------------------------------------------------

/// Whether `tile` can be taken: it is on the board, no tile lies on it, and
/// its left, right, top or bottom neighbour place is empty.
pub fn is_selectable(state: &GameState, tile: &Tile) -> (r: bool)
    ensures
        r == selectable(state.tiles@, *tile),
{
    if !tile.active {
        return false;
    }
    if is_blocked_from_above(state, tile) {
        return false;
    }
    if !has_free_side(state, tile) {
        return false;
    }
    true
}

fn is_blocked_from_above(state: &GameState, tile: &Tile) -> (r: bool)
    ensures
        r == blocked_from_above(state.tiles@, *tile),
{
    let pos = tile.position;
    let mut i: usize = 0;
    while i < state.tiles.len()
        invariant
            pos == tile.position,
            i <= state.tiles@.len(),
            forall|j: int| 0 <= j < i ==> !covers(#[trigger] state.tiles@[j], *tile),
        decreases state.tiles@.len() - i,
    {
        let t = &state.tiles[i];
        if t.active && t.id != tile.id && t.position.x == pos.x && t.position.y == pos.y
            && t.position.z > pos.z {
            assert(covers(state.tiles@[i as int], *tile));
            return true;
        }
        i = i + 1;
    }
    false
}

/// Whether a tile on the board other than `tile` lies in its layer at the
/// offset `(dx, dy)`. Offsets are compared in 64 bits, so no coordinate
/// overflows.
fn side_is_taken(state: &GameState, tile: &Tile, dx: i64, dy: i64) -> (r: bool)
    requires
        -2 <= dx <= 2,
        -2 <= dy <= 2,
    ensures
        r == side_taken(state.tiles@, *tile, dx as int, dy as int),
{
    let pos = tile.position;
    let want_x: i64 = pos.x as i64 + dx;
    let want_y: i64 = pos.y as i64 + dy;
    let mut i: usize = 0;
    while i < state.tiles.len()
        invariant
            i <= state.tiles@.len(),
            pos == tile.position,
            want_x == tile.position.x + dx,
            want_y == tile.position.y + dy,
            forall|j: int|
                0 <= j < i ==> !beside(#[trigger] state.tiles@[j], *tile, dx as int, dy as int),
        decreases state.tiles@.len() - i,
    {
        let t = &state.tiles[i];
        if t.active && t.id != tile.id && t.position.z == pos.z && t.position.x as i64 == want_x
            && t.position.y as i64 == want_y {
            assert(beside(state.tiles@[i as int], *tile, dx as int, dy as int));
            return true;
        }
        i = i + 1;
    }
    false
}

fn has_free_side(state: &GameState, tile: &Tile) -> (r: bool)
    ensures
        r == free_side(state.tiles@, *tile),
{
    let left_free = !side_is_taken(state, tile, -2, 0);
    let right_free = !side_is_taken(state, tile, 2, 0);
    let top_free = !side_is_taken(state, tile, 0, -2);
    let bottom_free = !side_is_taken(state, tile, 0, 2);
    left_free || right_free || top_free || bottom_free
}

/// The first place in the buffer holding a tile of the given type.
fn find_match(state: &GameState, type_id: u32) -> (r: Option<usize>)
    ensures
        match r {
            Some(p) => match_index(state.tiles@, state.buffer@, type_id) == Some(p as int),
            None => match_index(state.tiles@, state.buffer@, type_id) is None,
        },
{
    let mut i: usize = 0;
    while i < state.buffer.len()
        invariant
            i <= state.buffer@.len(),
            forall|q: int|
                0 <= q < i ==> !buffered_of_type(state.tiles@, #[trigger] state.buffer@[q], type_id),
        decreases state.buffer@.len() - i,
    {
        let bid = state.buffer[i];
        if bid < state.tiles.len() && state.tiles[bid].type_id == type_id {
            assert(first_match(state.tiles@, state.buffer@, type_id, i as int));
            let ghost c = choose|p: int| first_match(state.tiles@, state.buffer@, type_id, p);
            assert(c == i) by {
                if c < i {
                    assert(!buffered_of_type(state.tiles@, state.buffer@[c], type_id));
                } else if c > i {
                    assert(!buffered_of_type(state.tiles@, state.buffer@[i as int], type_id));
                }
            }
            return Some(i);
        }
        i = i + 1;
    }
    assert(!exists|p: int| first_match(state.tiles@, state.buffer@, type_id, p));
    None
}

/// Plays a click on tile `tile_id` (see `click`); returns whether a pair was
/// removed.
pub fn buffer_click(state: &mut GameState, tile_id: usize) -> (paired: bool)
    ensures
        final(state)@ == click(old(state)@, tile_id).0,
        paired == click(old(state)@, tile_id).1,
{
    if tile_id >= state.tiles.len() {
        return false;
    }
    let tile = state.tiles[tile_id];
    if !tile.active {
        return false;
    }
    if !is_selectable(state, &tile) {
        return false;
    }
    let ghost s0 = state@;
    match find_match(state, tile.type_id) {
        Some(pos) => {
            let match_id = state.buffer.remove(pos);
            let mut t = state.tiles[tile_id];
            t.active = false;
            state.tiles.set(tile_id, t);
            let mut m = state.tiles[match_id];
            m.active = false;
            state.tiles.set(match_id, m);
            state.history.push(BufferAction::Paired(tile_id, match_id, pos));
            state.score = state.score.saturating_add(100);
            if state.active_tile_count() == 0 {
                state.phase = GamePhase::LevelCompleted;
            }
            assert(state@ =~= click(s0, tile_id).0);
            true
        },
        None => {
            if state.buffer.len() >= BUFFER_SIZE {
                state.phase = GamePhase::Lost;
                assert(state@ =~= click(s0, tile_id).0);
                return false;
            }
            let mut t = state.tiles[tile_id];
            t.active = false;
            state.tiles.set(tile_id, t);
            state.buffer.push(tile_id);
            state.history.push(BufferAction::AddedToBuffer(tile_id));
            assert(state@ =~= click(s0, tile_id).0);
            false
        },
    }
}

/// The buffer with every entry equal to `id` dropped, order kept.
fn buffer_without(buffer: &Vec<usize>, id: usize) -> (r: Vec<usize>)
    ensures
        r@ == without(buffer@, id),
{
    let mut out: Vec<usize> = Vec::new();
    for i in 0..buffer.len()
        invariant
            out@ == without(buffer@.take(i as int), id),
    {
        proof {
            reveal_with_fuel(Seq::filter, 1);
            assert(buffer@.take(i + 1).drop_last() =~= buffer@.take(i as int));
        }
        if buffer[i] != id {
            out.push(buffer[i]);
        }
    }
    assert(buffer@.take(buffer@.len() as int) =~= buffer@);
    out
}

/// Undoes the last recorded action (see `undo`); returns whether there was
/// one.
pub fn do_undo(state: &mut GameState) -> (done: bool)
    ensures
        final(state)@ == undo(old(state)@).0,
        done == undo(old(state)@).1,
{
    let ghost s0 = state@;
    let action = match state.history.pop() {
        Some(a) => a,
        None => {
            return false;
        },
    };
    match action {
        BufferAction::AddedToBuffer(tile_id) => {
            state.buffer = buffer_without(&state.buffer, tile_id);
            if tile_id < state.tiles.len() {
                let mut t = state.tiles[tile_id];
                t.active = true;
                state.tiles.set(tile_id, t);
            }
        },
        BufferAction::Paired(tile_id, match_id, pos) => {
            if tile_id < state.tiles.len() {
                let mut t = state.tiles[tile_id];
                t.active = true;
                state.tiles.set(tile_id, t);
            }
            if match_id < state.tiles.len() {
                let mut m = state.tiles[match_id];
                m.active = true;
                state.tiles.set(match_id, m);
            }
            let insert_at = if pos < state.buffer.len() {
                pos
            } else {
                state.buffer.len()
            };
            state.buffer.insert(insert_at, match_id);
            state.score = state.score.saturating_sub(100);
        },
    }
    if state.phase == GamePhase::Lost || state.phase == GamePhase::LevelCompleted {
        state.phase = GamePhase::Playing;
    }
    assert(state@ =~= undo(s0).0);
    true
}

} // verus!
