use vstd::prelude::*;

use crate::game_core::rules::{
    buffered_of_type, click, first_match, match_index, reopened, selectable, set_active, undo, without,
};
use crate::game_core::state::{
    count_active, tile_from_data, tiles_of_level, BufferAction, GamePhase, GameView, Tile, TileData, BUFFER_SIZE,
};

verus! {

// ---------------------------------------------------------------------------
// Facts about the views that the laws rest on
// ---------------------------------------------------------------------------

/// Every recorded action names tiles that exist.
pub open spec fn action_in_range(a: BufferAction, n: nat) -> bool {
    match a {
        BufferAction::AddedToBuffer(t) => t < n,
        BufferAction::Paired(t, m, _) => t < n && m < n,
    }
}

/// The tiles are numbered by their place, and the buffer and the history only
/// name tiles that exist.
pub open spec fn well_numbered(s: GameView) -> bool {
    &&& forall|i: int| 0 <= i < s.tiles.len() ==> (#[trigger] s.tiles[i]).id == i
    &&& forall|i: int| 0 <= i < s.buffer.len() ==> #[trigger] s.buffer[i] < s.tiles.len()
    &&& forall|i: int|
        0 <= i < s.history.len() ==> action_in_range(#[trigger] s.history[i], s.tiles.len())
}

/// How many pairs the history records.
pub open spec fn pairs_recorded(h: Seq<BufferAction>) -> nat
    decreases h.len(),
{
    if h.len() == 0 {
        0
    } else {
        pairs_recorded(h.drop_last()) + match h.last() {
            BufferAction::Paired(_, _, _) => 1nat,
            BufferAction::AddedToBuffer(_) => 0nat,
        }
    }
}

/// The score is 100 for every pair that the history records.
pub open spec fn score_matches_history(s: GameView) -> bool {
    s.score == 100 * pairs_recorded(s.history)
}

/// Two tile lists that differ at most in which tiles are on the board.
pub open spec fn same_tiles_but_activity(a: Seq<Tile>, b: Seq<Tile>) -> bool {
    &&& a.len() == b.len()
    &&& forall|i: int|
        0 <= i < a.len() ==> #[trigger] b[i] == Tile { active: b[i].active, ..a[i] }
}

proof fn lemma_pairs_recorded_push(h: Seq<BufferAction>, a: BufferAction)
    ensures
        pairs_recorded(h.push(a)) == pairs_recorded(h) + match a {
            BufferAction::Paired(_, _, _) => 1nat,
            BufferAction::AddedToBuffer(_) => 0nat,
        },
{
    assert(h.push(a).drop_last() =~= h);
}

proof fn lemma_match_index_first(s: GameView, type_id: u32)
    ensures
        match match_index(s.tiles, s.buffer, type_id) {
            Some(p) => first_match(s.tiles, s.buffer, type_id, p),
            None => true,
        },
{
}

proof fn lemma_count_active_all(tiles: Seq<Tile>)
    requires
        forall|i: int| 0 <= i < tiles.len() ==> (#[trigger] tiles[i]).active,
    ensures
        count_active(tiles) == tiles.len(),
    decreases tiles.len(),
{
    if tiles.len() > 0 {
        let d = tiles.drop_last();
        assert forall|i: int| 0 <= i < d.len() implies (#[trigger] d[i]).active by {
            assert(d[i] == tiles[i]);
        }
        lemma_count_active_all(d);
    }
}

// ---------------------------------------------------------------------------
// Laws
// ---------------------------------------------------------------------------

/// A freshly loaded level has all its tiles on the board, numbered by their
/// place in the level file, its (zero) score matches its (empty) history, and
/// its (empty) buffer is sound.
pub proof fn law_loaded_level_is_whole(data: Seq<TileData>, s: GameView)
    requires
        data.len() <= usize::MAX,
        s.tiles == tiles_of_level(data),
        s.buffer.len() == 0,
        s.history.len() == 0,
        s.score == 0,
    ensures
        count_active(s.tiles) == data.len(),
        well_numbered(s),
        score_matches_history(s),
        buffer_sound(s),
{
    lemma_count_active_all(s.tiles);
    assert forall|i: int| 0 <= i < s.tiles.len() implies (#[trigger] s.tiles[i]).id == i by {
        assert(s.tiles[i] == tile_from_data(i, data[i]));
    }
}

/// A click on a tile that cannot be taken changes nothing.
pub proof fn law_refused_click_changes_nothing(s: GameView, tile_id: usize)
    requires
        !(tile_id < s.tiles.len() && selectable(s.tiles, s.tiles[tile_id as int])),
    ensures
        click(s, tile_id) == (s, false),
{
}

/// Clicks and undos never add, remove, renumber, move or retype tiles: they
/// only put tiles on or off the board.
pub proof fn law_tiles_only_change_activity(s: GameView, tile_id: usize)
    ensures
        same_tiles_but_activity(s.tiles, click(s, tile_id).0.tiles),
        same_tiles_but_activity(s.tiles, undo(s).0.tiles),
        click(s, tile_id).0.current_level == s.current_level,
        undo(s).0.current_level == s.current_level,
{
}

/// Clicks and undos keep the tiles numbered by their place and keep the
/// buffer and the history naming only existing tiles.
pub proof fn law_numbering_is_kept(s: GameView, tile_id: usize)
    requires
        well_numbered(s),
    ensures
        well_numbered(click(s, tile_id).0),
        well_numbered(undo(s).0),
{
    let c = click(s, tile_id).0;
    let n = s.tiles.len();
    lemma_match_index_first(s, s.tiles[tile_id as int].type_id);
    assert forall|i: int| 0 <= i < c.history.len() implies action_in_range(
        #[trigger] c.history[i],
        c.tiles.len(),
    ) by {
        if i < s.history.len() {
            assert(c.history[i] == s.history[i]);
        }
    }
    assert forall|i: int| 0 <= i < c.buffer.len() implies #[trigger] c.buffer[i]
        < c.tiles.len() by {
        if c.buffer.len() < s.buffer.len() {
            let p = match_index(s.tiles, s.buffer, s.tiles[tile_id as int].type_id)->Some_0;
            if i < p {
                assert(c.buffer[i] == s.buffer[i]);
            } else {
                assert(c.buffer[i] == s.buffer[i + 1]);
            }
        } else if i < s.buffer.len() {
            assert(c.buffer[i] == s.buffer[i]);
        }
    }
    let u = undo(s).0;
    if s.history.len() > 0 {
        assert(action_in_range(s.history[s.history.len() - 1], n));
        match s.history.last() {
            BufferAction::AddedToBuffer(t) => {
                lemma_without_bounded(s.buffer, t, n);
            },
            BufferAction::Paired(t, m, pos) => {
                let at = if pos < s.buffer.len() {
                    pos as int
                } else {
                    s.buffer.len() as int
                };
                s.buffer.insert_ensures(at, m);
                assert forall|i: int| 0 <= i < u.buffer.len() implies #[trigger] u.buffer[i]
                    < u.tiles.len() by {
                    if i < at {
                        assert(u.buffer[i] == s.buffer[i]);
                    } else if i > at {
                        assert(u.buffer[i] == s.buffer[i - 1]);
                    }
                }
            },
        }
        assert forall|i: int| 0 <= i < u.history.len() implies action_in_range(
            #[trigger] u.history[i],
            u.tiles.len(),
        ) by {
            assert(u.history[i] == s.history[i]);
        }
    }
}

/// A click keeps the score at 100 times the number of recorded pairs, while
/// the score cannot reach its upper limit.
pub proof fn law_click_keeps_score_count(s: GameView, tile_id: usize)
    requires
        score_matches_history(s),
        s.score + 100 <= u32::MAX,
    ensures
        score_matches_history(click(s, tile_id).0),
{
    let c = click(s, tile_id).0;
    if c.history.len() > s.history.len() {
        match c.history.last() {
            BufferAction::Paired(t, m, p) => {
                lemma_pairs_recorded_push(s.history, BufferAction::Paired(t, m, p));
                assert(c.history == s.history.push(BufferAction::Paired(t, m, p)));
            },
            BufferAction::AddedToBuffer(t) => {
                lemma_pairs_recorded_push(s.history, BufferAction::AddedToBuffer(t));
                assert(c.history == s.history.push(BufferAction::AddedToBuffer(t)));
            },
        }
    }
}

/// An undo keeps the score at 100 times the number of recorded pairs.
pub proof fn law_undo_keeps_score_count(s: GameView)
    requires
        score_matches_history(s),
    ensures
        score_matches_history(undo(s).0),
{
    if s.history.len() > 0 {
        let h = s.history.drop_last();
        assert(h.push(s.history.last()) =~= s.history);
        lemma_pairs_recorded_push(h, s.history.last());
    }
}

/// If some place of the buffer holds a tile of the type, a first one does.
proof fn lemma_first_match_exists(tiles: Seq<Tile>, buffer: Seq<usize>, type_id: u32, p: int)
    requires
        0 <= p < buffer.len(),
        buffered_of_type(tiles, buffer[p], type_id),
    ensures
        exists|q: int| first_match(tiles, buffer, type_id, q),
    decreases p,
{
    if forall|q: int| 0 <= q < p ==> !buffered_of_type(tiles, #[trigger] buffer[q], type_id) {
        assert(first_match(tiles, buffer, type_id, p));
    } else {
        let q = choose|q: int| 0 <= q < p && buffered_of_type(tiles, #[trigger] buffer[q], type_id);
        lemma_first_match_exists(tiles, buffer, type_id, q);
    }
}

/// Without a first match, no place of the buffer holds a tile of the type.
proof fn lemma_no_match_anywhere(tiles: Seq<Tile>, buffer: Seq<usize>, type_id: u32)
    requires
        match_index(tiles, buffer, type_id) is None,
    ensures
        forall|p: int| 0 <= p < buffer.len() ==> !buffered_of_type(tiles, #[trigger] buffer[p], type_id),
{
    assert forall|p: int| 0 <= p < buffer.len() implies !buffered_of_type(
        tiles,
        #[trigger] buffer[p],
        type_id,
    ) by {
        if buffered_of_type(tiles, buffer[p], type_id) {
            lemma_first_match_exists(tiles, buffer, type_id, p);
        }
    }
}

/// The buffer holds at most four tiles, all different, all off the board,
/// and no two of the same type.
pub open spec fn buffer_sound(s: GameView) -> bool {
    &&& s.buffer.len() <= BUFFER_SIZE
    &&& forall|i: int|
        0 <= i < s.buffer.len() ==> #[trigger] s.buffer[i] < s.tiles.len()
            && !s.tiles[s.buffer[i] as int].active
    &&& forall|i: int, j: int|
        0 <= i < j < s.buffer.len() ==> #[trigger] s.buffer[i] != #[trigger] s.buffer[j]
    &&& forall|i: int, j: int|
        0 <= i < j < s.buffer.len() ==> s.tiles[#[trigger] s.buffer[i] as int].type_id
            != s.tiles[#[trigger] s.buffer[j] as int].type_id
}

/// Every click keeps the buffer sound: at most four tiles, all different,
/// all off the board, no two of the same type. (A loaded level starts with
/// an empty buffer, which is sound.)
pub proof fn law_click_keeps_buffer_sound(s: GameView, tile_id: usize)
    requires
        buffer_sound(s),
    ensures
        buffer_sound(click(s, tile_id).0),
{
    let c = click(s, tile_id).0;
    if tile_id < s.tiles.len() && s.tiles[tile_id as int].active && selectable(
        s.tiles,
        s.tiles[tile_id as int],
    ) {
        let t = s.tiles[tile_id as int];
        lemma_match_index_first(s, t.type_id);
        match match_index(s.tiles, s.buffer, t.type_id) {
            Some(p) => {
                s.buffer.remove_ensures(p);
                assert forall|i: int| 0 <= i < c.buffer.len() implies #[trigger] c.buffer[i]
                    < c.tiles.len() && !c.tiles[c.buffer[i] as int].active by {
                    if i < p {
                        assert(c.buffer[i] == s.buffer[i]);
                    } else {
                        assert(c.buffer[i] == s.buffer[i + 1]);
                    }
                }
                assert forall|i: int, j: int| 0 <= i < j < c.buffer.len() implies #[trigger] c.buffer[i]
                    != #[trigger] c.buffer[j] && c.tiles[c.buffer[i] as int].type_id
                    != c.tiles[c.buffer[j] as int].type_id by {
                    let oi = if i < p {
                        i
                    } else {
                        i + 1
                    };
                    let oj = if j < p {
                        j
                    } else {
                        j + 1
                    };
                    assert(c.buffer[i] == s.buffer[oi]);
                    assert(c.buffer[j] == s.buffer[oj]);
                    assert(s.buffer[oi] != s.buffer[oj]);
                    assert(s.tiles[s.buffer[oi] as int].type_id != s.tiles[s.buffer[oj] as int].type_id);
                }
            },
            None => {
                if s.buffer.len() < BUFFER_SIZE {
                    lemma_no_match_anywhere(s.tiles, s.buffer, t.type_id);
                    assert forall|i: int| 0 <= i < c.buffer.len() implies #[trigger] c.buffer[i]
                        < c.tiles.len() && !c.tiles[c.buffer[i] as int].active by {
                        if i < s.buffer.len() {
                            assert(c.buffer[i] == s.buffer[i]);
                        }
                    }
                    assert forall|i: int, j: int| 0 <= i < j < c.buffer.len() implies #[trigger] c.buffer[i]
                        != #[trigger] c.buffer[j] && c.tiles[c.buffer[i] as int].type_id
                        != c.tiles[c.buffer[j] as int].type_id by {
                        assert(c.buffer[i] == s.buffer[i]);
                        if j < s.buffer.len() {
                            assert(c.buffer[j] == s.buffer[j]);
                        } else {
                            assert(c.buffer[j] == tile_id);
                            assert(!buffered_of_type(s.tiles, s.buffer[i], t.type_id));
                        }
                    }
                }
            },
        }
    }
}

/// Undoing a click that put a tile into the buffer gives back the state
/// before the click, except that a lost or completed level is played again.
pub proof fn law_undo_reverts_addition(s: GameView, tile_id: usize)
    requires
        click(s, tile_id).0.history.len() == s.history.len() + 1,
        !click(s, tile_id).1,
    ensures
        undo(click(s, tile_id).0).1,
        undo(click(s, tile_id).0).0 == (GameView { phase: reopened(s.phase), ..s }),
{
    let c = click(s, tile_id).0;
    let u = undo(c).0;
    let t = s.tiles[tile_id as int];
    lemma_match_index_first(s, t.type_id);
    lemma_no_match_anywhere(s.tiles, s.buffer, t.type_id);
    assert(!s.buffer.contains(tile_id)) by {
        if s.buffer.contains(tile_id) {
            let q = choose|q: int| 0 <= q < s.buffer.len() && s.buffer[q] == tile_id;
            assert(!buffered_of_type(s.tiles, s.buffer[q], t.type_id));
        }
    }
    assert(c.history.last() == BufferAction::AddedToBuffer(tile_id));
    assert(c.history.drop_last() =~= s.history);
    assert(c.buffer.drop_last() =~= s.buffer);
    assert(without(c.buffer, tile_id) == without(s.buffer, tile_id)) by {
        reveal_with_fuel(Seq::filter, 1);
    }
    lemma_filter_keeps_all(s.buffer, tile_id);
    assert(u.buffer =~= s.buffer);
    assert(u.tiles =~= s.tiles);
}

proof fn lemma_without_bounded(b: Seq<usize>, id: usize, n: nat)
    requires
        forall|i: int| 0 <= i < b.len() ==> #[trigger] b[i] < n,
    ensures
        forall|i: int| 0 <= i < without(b, id).len() ==> #[trigger] without(b, id)[i] < n,
    decreases b.len(),
{
    reveal_with_fuel(Seq::filter, 1);
    if b.len() > 0 {
        let d = b.drop_last();
        assert forall|i: int| 0 <= i < d.len() implies #[trigger] d[i] < n by {
            assert(d[i] == b[i]);
        }
        lemma_without_bounded(d, id, n);
        assert(b[b.len() - 1] < n);
        let w = without(b, id);
        let wd = without(d, id);
        assert forall|i: int| 0 <= i < w.len() implies #[trigger] w[i] < n by {
            if i < wd.len() {
                assert(w[i] == wd[i]);
            }
        }
    }
}

proof fn lemma_filter_keeps_all(b: Seq<usize>, id: usize)
    requires
        !b.contains(id),
    ensures
        without(b, id) == b,
    decreases b.len(),
{
    reveal_with_fuel(Seq::filter, 1);
    if b.len() > 0 {
        let d = b.drop_last();
        assert(!d.contains(id)) by {
            if d.contains(id) {
                let k = choose|k: int| 0 <= k < d.len() && d[k] == id;
                assert(b[k] == id);
            }
        }
        lemma_filter_keeps_all(d, id);
        assert(b.last() != id) by {
            assert(b[b.len() - 1] == b.last());
        }
        assert(d.push(b.last()) =~= b);
    }
}

/// Undoing a click that removed a pair gives back the buffer, the history
/// and (below its upper limit) the score from before the click, and puts both
/// tiles of the pair on the board again: the clicked tile, and also the
/// buffered tile, which thereby lies on the board and in the buffer at once.
/// A lost or completed level is played again.
pub proof fn law_undo_reverts_pair(s: GameView, tile_id: usize)
    requires
        click(s, tile_id).1,
        s.score + 100 <= u32::MAX,
        s.buffer.len() <= usize::MAX,
    ensures
        ({
            let p = match_index(s.tiles, s.buffer, s.tiles[tile_id as int].type_id)->Some_0;
            let u = undo(click(s, tile_id).0);
            &&& u.1
            &&& u.0.buffer == s.buffer
            &&& u.0.history == s.history
            &&& u.0.score == s.score
            &&& u.0.current_level == s.current_level
            &&& u.0.tiles == set_active(s.tiles, s.buffer[p] as int, true)
            &&& s.phase != GamePhase::AllLevelsCompleted ==> u.0.phase == reopened(s.phase)
        }),
{
    let t = s.tiles[tile_id as int];
    lemma_match_index_first(s, t.type_id);
    let p = match_index(s.tiles, s.buffer, t.type_id)->Some_0;
    let m = s.buffer[p];
    let c = click(s, tile_id).0;
    let u = undo(c).0;
    assert(c.history.drop_last() =~= s.history);
    s.buffer.remove_ensures(p);
    let r = s.buffer.remove(p);
    r.insert_ensures(p, m);
    assert(u.buffer == r.insert(p, m));
    assert(u.buffer =~= s.buffer) by {
        assert forall|i: int| 0 <= i < s.buffer.len() implies u.buffer[i] == s.buffer[i] by {
            if i < p {
                assert(u.buffer[i] == r[i]);
            } else if i > p {
                assert(u.buffer[i] == r[i - 1]);
            }
        }
    }
    assert(u.tiles =~= set_active(s.tiles, m as int, true));
}

/// A click never lets the buffer grow beyond its size: with a full buffer and
/// no tile of the clicked type in it, the game is lost instead.
pub proof fn law_buffer_stays_bounded(s: GameView, tile_id: usize)
    requires
        s.buffer.len() <= BUFFER_SIZE,
    ensures
        click(s, tile_id).0.buffer.len() <= BUFFER_SIZE,
        click(s, tile_id).0.phase == GamePhase::Lost && s.phase != GamePhase::Lost ==> {
            &&& s.buffer.len() == BUFFER_SIZE
            &&& click(s, tile_id).0.buffer == s.buffer
            &&& click(s, tile_id).0.tiles == s.tiles
        },
{
    lemma_match_index_first(s, s.tiles[tile_id as int].type_id);
}

/// A pair is always two tiles of the same type: the clicked tile, which could
/// be taken, and the first buffered tile of its type.
pub proof fn law_pairs_share_a_type(s: GameView, tile_id: usize)
    requires
        click(s, tile_id).1,
        s.buffer.len() <= usize::MAX,
    ensures
        ({
            let c = click(s, tile_id).0;
            match c.history.last() {
                BufferAction::Paired(t, m, p) => {
                    &&& t == tile_id
                    &&& selectable(s.tiles, s.tiles[tile_id as int])
                    &&& m < s.tiles.len()
                    &&& p < s.buffer.len()
                    &&& s.buffer[p as int] == m
                    &&& s.tiles[m as int].type_id == s.tiles[tile_id as int].type_id
                    &&& c.buffer == s.buffer.remove(p as int)
                },
                BufferAction::AddedToBuffer(_) => false,
            }
        }),
{
    lemma_match_index_first(s, s.tiles[tile_id as int].type_id);
}

/// A level is completed exactly when a pair takes the last tiles off the
/// board.
pub proof fn law_completion_when_board_empties(s: GameView, tile_id: usize)
    requires
        s.phase != GamePhase::LevelCompleted,
    ensures
        click(s, tile_id).0.phase == GamePhase::LevelCompleted <==> (click(s, tile_id).1 && count_active(
            click(s, tile_id).0.tiles,
        ) == 0),
{
}

/// When a tile can be taken: it is on the board; no other tile on the board
/// has its column and row (same `x` and `y`) in a higher layer; and in its
/// own layer one of the four places beside it (two units left, right, up or
/// down) holds no other tile on the board.
pub proof fn law_selectable_means(tiles: Seq<Tile>, tile: Tile)
    ensures
        selectable(tiles, tile) <==> {
            &&& tile.active
            &&& forall|j: int|
                0 <= j < tiles.len() ==> !{
                    let t = #[trigger] tiles[j];
                    &&& t.active
                    &&& t.id != tile.id
                    &&& t.position.x == tile.position.x
                    &&& t.position.y == tile.position.y
                    &&& t.position.z > tile.position.z
                }
            &&& {
                ||| forall|j: int|
                    0 <= j < tiles.len() ==> !{
                        let t = #[trigger] tiles[j];
                        t.active && t.id != tile.id && t.position.z == tile.position.z
                            && t.position.x == tile.position.x - 2 && t.position.y == tile.position.y
                    }
                ||| forall|j: int|
                    0 <= j < tiles.len() ==> !{
                        let t = #[trigger] tiles[j];
                        t.active && t.id != tile.id && t.position.z == tile.position.z
                            && t.position.x == tile.position.x + 2 && t.position.y == tile.position.y
                    }
                ||| forall|j: int|
                    0 <= j < tiles.len() ==> !{
                        let t = #[trigger] tiles[j];
                        t.active && t.id != tile.id && t.position.z == tile.position.z
                            && t.position.x == tile.position.x && t.position.y == tile.position.y - 2
                    }
                ||| forall|j: int|
                    0 <= j < tiles.len() ==> !{
                        let t = #[trigger] tiles[j];
                        t.active && t.id != tile.id && t.position.z == tile.position.z
                            && t.position.x == tile.position.x && t.position.y == tile.position.y + 2
                    }
            }
        },
{
}

/// A tile put on a higher layer away from a tile's column and row (another
/// `x` or another `y`) changes nothing about whether that tile can be taken.
pub proof fn law_higher_tile_elsewhere_changes_nothing(tiles: Seq<Tile>, tile: Tile, t: Tile)
    requires
        t.position.z > tile.position.z,
        t.position.x != tile.position.x || t.position.y != tile.position.y,
    ensures
        selectable(tiles.push(t), tile) == selectable(tiles, tile),
{
    let more = tiles.push(t);
    law_selectable_means(tiles, tile);
    law_selectable_means(more, tile);
    assert forall|j: int| 0 <= j < tiles.len() implies more[j] == tiles[j] by {}
    assert(more[tiles.len() as int] == t);
}

/// A tile on the board with nothing on top of it can be taken as soon as one
/// of its four sides is free, whichever one: here the place below it (`y`
/// two units greater, same layer) is empty.
pub proof fn law_free_bottom_side_suffices(tiles: Seq<Tile>, tile: Tile)
    requires
        tile.active,
        forall|j: int|
            0 <= j < tiles.len() ==> !{
                let t = #[trigger] tiles[j];
                t.active && t.id != tile.id && t.position.x == tile.position.x && t.position.y
                    == tile.position.y && t.position.z > tile.position.z
            },
        forall|j: int|
            0 <= j < tiles.len() ==> !{
                let t = #[trigger] tiles[j];
                t.active && t.id != tile.id && t.position.z == tile.position.z && t.position.x
                    == tile.position.x && t.position.y == tile.position.y + 2
            },
    ensures
        selectable(tiles, tile),
{
    law_selectable_means(tiles, tile);
}

} // verus!
