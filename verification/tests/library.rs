use solong::board::{board_layout, BoardCell};
use solong::hud::game_hud;
use solong::game_core::progress::{clamp_saved_level, level_from_save};
use solong::game_core::rules::{buffer_click, do_undo, is_selectable};
use solong::game_core::state::{
    BufferAction, GamePhase, GameState, LevelData, TileData, TilePosition, BUFFER_SIZE,
};
use solong::input::Action;
use solong::layout::parse_layout;
use solong::levels::total_levels;
use solong::session::{Effect, Screen, Session};
use solong::theme::{get_theme, tile_type_name};
use solong::theme::solana::solana_theme;

fn level(tiles: &[(i32, i32, i32, u32)]) -> LevelData {
    LevelData {
        tiles: tiles
            .iter()
            .map(|&(x, y, z, type_id)| TileData { x, y, z, type_id })
            .collect(),
    }
}

fn loaded(tiles: &[(i32, i32, i32, u32)]) -> GameState {
    let mut state = GameState::new();
    state.load_level(3, &level(tiles));
    state
}

fn active_flags(state: &GameState) -> Vec<bool> {
    state.tiles.iter().map(|t| t.active).collect()
}

#[test]
fn new_state_is_empty_level_one() {
    let s = GameState::new();
    assert_eq!(s.current_level, 1);
    assert!(s.tiles.is_empty());
    assert!(s.buffer.is_empty());
    assert!(s.history.is_empty());
    assert_eq!(s.score, 0);
    assert_eq!(s.phase, GamePhase::Playing);
}

#[test]
fn load_level_numbers_tiles_and_resets() {
    let mut s = loaded(&[(3, 0, 0, 7), (5, 2, 1, 9)]);
    assert_eq!(s.current_level, 3);
    assert_eq!(s.tiles.len(), 2);
    assert_eq!(s.tiles[1].id, 1);
    assert_eq!(s.tiles[1].position, TilePosition { x: 5, y: 2, z: 1 });
    assert_eq!(s.tiles[1].type_id, 9);
    assert_eq!(s.active_tile_count(), 2);
    buffer_click(&mut s, 0);
    s.score = 500;
    s.phase = GamePhase::Lost;
    s.load_level(4, &level(&[(1, 1, 0, 0)]));
    assert_eq!(s.current_level, 4);
    assert!(s.buffer.is_empty());
    assert!(s.history.is_empty());
    assert_eq!(s.score, 0);
    assert_eq!(s.phase, GamePhase::Playing);
    assert!(s.tiles[0].active);
}

#[test]
fn getters_find_tiles() {
    let mut s = loaded(&[(3, 0, 0, 1), (3, 0, 0, 2), (7, 0, 0, 3)]);
    assert_eq!(s.get_tile(2).map(|t| t.type_id), Some(3));
    assert!(s.get_tile(3).is_none());
    let pos = TilePosition { x: 3, y: 0, z: 0 };
    assert_eq!(s.get_active_tile_at(pos).map(|t| t.id), Some(0));
    s.tiles[0].active = false;
    assert_eq!(s.get_active_tile_at(pos).map(|t| t.id), Some(1));
    assert!(s.get_active_tile_at(TilePosition { x: 5, y: 0, z: 0 }).is_none());
    assert_eq!(s.active_tile_count(), 2);
}

#[test]
fn top_and_bottom_sides_count_as_free_sides() {
    // Left and right taken, top and bottom free: the middle tile can be taken.
    let s = loaded(&[(3, 0, 0, 0), (5, 0, 0, 1), (7, 0, 0, 2)]);
    assert!(is_selectable(&s, &s.tiles[1]));
    // All four sides taken.
    let s = loaded(&[(3, 0, 0, 0), (5, 0, 0, 1), (7, 0, 0, 2), (5, 2, 0, 3), (5, -2, 0, 4)]);
    assert!(!is_selectable(&s, &s.tiles[1]));
    // A tile in another layer is no neighbour; a tile off the board is none.
    let mut s = loaded(&[(3, 0, 1, 0), (5, 0, 0, 1), (7, 0, 0, 2), (5, 2, 0, 3), (5, -2, 0, 4)]);
    assert!(is_selectable(&s, &s.tiles[1]));
    s.tiles[0].position.z = 0;
    s.tiles[0].active = false;
    assert!(is_selectable(&s, &s.tiles[1]));
}

#[test]
fn tile_off_board_or_covered_cannot_be_taken() {
    let mut s = loaded(&[(3, 0, 0, 0), (3, 0, 1, 0)]);
    assert!(!is_selectable(&s, &s.tiles[0]));
    s.tiles[1].active = false;
    assert!(is_selectable(&s, &s.tiles[0]));
    assert!(!is_selectable(&s, &s.tiles[1]));
}

#[test]
fn extreme_coordinates_do_not_overflow() {
    let s = loaded(&[(i32::MIN, 0, 0, 0), (i32::MAX, 0, 0, 1), (i32::MIN + 2, 0, 0, 2)]);
    assert!(is_selectable(&s, &s.tiles[0]));
    assert!(is_selectable(&s, &s.tiles[1]));
    assert!(is_selectable(&s, &s.tiles[2]));
}

#[test]
fn click_out_of_range_changes_nothing() {
    let mut s = loaded(&[(3, 0, 0, 0)]);
    assert!(!buffer_click(&mut s, 5));
    assert!(s.buffer.is_empty());
    assert!(s.history.is_empty());
    assert!(s.tiles[0].active);
}

#[test]
fn pair_takes_first_buffered_tile_of_the_type() {
    let mut s = loaded(&[(3, 0, 0, 1), (7, 0, 0, 2), (11, 0, 0, 1), (15, 0, 0, 1), (19, 0, 0, 9)]);
    assert!(!buffer_click(&mut s, 0));
    assert!(!buffer_click(&mut s, 1));
    assert_eq!(s.buffer, vec![0, 1]);
    assert!(buffer_click(&mut s, 2));
    assert_eq!(s.buffer, vec![1]);
    // Tile 2 paired with tile 0, the first of type 1 in the buffer.
    assert_eq!(s.history.last(), Some(&BufferAction::Paired(2, 0, 0)));
    assert_eq!(s.score, 100);
    assert!(buffer_click(&mut s, 3) == false);
    assert_eq!(s.buffer, vec![1, 3]);
}

#[test]
fn score_saturates() {
    let mut s = loaded(&[(3, 0, 0, 1), (7, 0, 0, 1), (11, 0, 0, 2)]);
    s.score = u32::MAX - 50;
    buffer_click(&mut s, 0);
    assert!(buffer_click(&mut s, 1));
    assert_eq!(s.score, u32::MAX);
    assert!(do_undo(&mut s));
    assert_eq!(s.score, u32::MAX - 100);
}

#[test]
fn undo_with_empty_history_does_nothing() {
    let mut s = loaded(&[(3, 0, 0, 1)]);
    s.phase = GamePhase::Lost;
    assert!(!do_undo(&mut s));
    assert_eq!(s.phase, GamePhase::Lost);
}

#[test]
fn undo_of_an_addition_restores_the_state() {
    let mut s = loaded(&[(3, 0, 0, 1), (7, 0, 0, 2), (11, 0, 0, 3)]);
    buffer_click(&mut s, 0);
    let before_tiles = active_flags(&s);
    let before_buffer = s.buffer.clone();
    let before_history = s.history.clone();
    assert!(!buffer_click(&mut s, 2));
    assert!(do_undo(&mut s));
    assert_eq!(active_flags(&s), before_tiles);
    assert_eq!(s.buffer, before_buffer);
    assert_eq!(s.history, before_history);
    assert_eq!(s.phase, GamePhase::Playing);
}

#[test]
fn undo_of_a_pair_puts_the_buffered_tile_on_the_board_too() {
    let mut s = loaded(&[(3, 0, 0, 1), (7, 0, 0, 1), (11, 0, 0, 3)]);
    buffer_click(&mut s, 0);
    assert!(buffer_click(&mut s, 1));
    assert!(do_undo(&mut s));
    assert_eq!(s.buffer, vec![0]);
    assert_eq!(s.score, 0);
    assert_eq!(s.history, vec![BufferAction::AddedToBuffer(0)]);
    // Tile 0 is in the buffer and back on the board.
    assert_eq!(active_flags(&s), vec![true, true, true]);
}

#[test]
fn score_is_one_hundred_per_recorded_pair() {
    let mut s = loaded(&[(3, 0, 0, 1), (7, 0, 0, 1), (11, 0, 0, 2), (15, 0, 0, 2), (19, 0, 0, 5)]);
    for tid in 0..4 {
        buffer_click(&mut s, tid);
    }
    let pairs = s.history.iter().filter(|a| matches!(a, BufferAction::Paired(..))).count();
    assert_eq!(pairs, 2);
    assert_eq!(s.score, 200);
    do_undo(&mut s);
    assert_eq!(s.score, 100);
}

#[test]
fn lost_game_keeps_buffer_and_board() {
    let mut s = loaded(&[(3, 0, 0, 0), (7, 0, 0, 1), (11, 0, 0, 2), (15, 0, 0, 3), (19, 0, 0, 4)]);
    for tid in 0..BUFFER_SIZE {
        buffer_click(&mut s, tid);
    }
    let tiles = active_flags(&s);
    assert!(!buffer_click(&mut s, 4));
    assert_eq!(s.phase, GamePhase::Lost);
    assert_eq!(s.buffer.len(), BUFFER_SIZE);
    assert_eq!(active_flags(&s), tiles);
    assert_eq!(s.history.len(), BUFFER_SIZE);
}

#[test]
fn progress_levels_are_clamped() {
    assert_eq!(clamp_saved_level(0), 1);
    assert_eq!(clamp_saved_level(7), 7);
    assert_eq!(clamp_saved_level(11), 10);
    assert_eq!(level_from_save(None), 1);
    assert_eq!(level_from_save(Some(99)), 10);
    assert_eq!(level_from_save(Some(4)), 4);
    assert_eq!(total_levels(), 10);
    for level in [0, 1, 5, 10, 11, usize::MAX] {
        let saved = clamp_saved_level(level);
        assert_eq!(level_from_save(Some(saved)), saved);
    }
}

#[test]
fn theme_has_thirty_six_types_in_order() {
    let t = get_theme();
    assert_eq!(t.name, "Solana");
    assert_eq!(t.tile_types.len(), 36);
    assert_eq!(t.tile_types[0].name, "SOL");
    assert_eq!(t.tile_types[0].category, "Token");
    assert_eq!(t.tile_types[0].color, (150, 50, 200));
    assert_eq!(t.tile_types[21].name, "Firedancer");
    assert_eq!(t.tile_types[35].name, "Helius");
    assert_eq!(t.tile_types[35].category, "Validator");
    assert_eq!(t.tile_types[35].color, (200, 100, 200));
    for (i, tt) in solana_theme().tile_types.iter().enumerate() {
        assert_eq!(tt.id as usize, i);
    }
}

#[test]
fn layout_reads_layers_rows_and_columns() {
    let text = "kmahjongg-layout-v1.1\n# comment\nw8\nh2\nd2\n\n1.1.\n..1.\n.1..\n....\n";
    let p = parse_layout(text);
    assert_eq!(p.width, 8);
    assert_eq!(p.height, 2);
    assert_eq!(p.layers, 2);
    let tiles: Vec<(i32, i32, i32, u32)> =
        p.level.tiles.iter().map(|t| (t.x, t.y, t.z, t.type_id)).collect();
    assert_eq!(tiles, vec![(0, 0, 0, 0), (2, 0, 0, 1), (2, 1, 0, 2), (1, 0, 1, 3)]);
}

#[test]
fn layout_defaults_trimming_and_open_layer() {
    // Unreadable sizes fall back to 32 and 16, lines are trimmed, and a layer
    // left open at the end still counts.
    let text = "  wide\r\nhx\n\t 11 \r\n1";
    let p = parse_layout(text);
    assert_eq!(p.width, 32);
    assert_eq!(p.height, 16);
    assert_eq!(p.layers, 1);
    let tiles: Vec<(i32, i32, i32)> = p.level.tiles.iter().map(|t| (t.x, t.y, t.z)).collect();
    assert_eq!(tiles, vec![(0, 0, 0), (1, 0, 0), (0, 1, 0)]);
}

#[test]
fn layout_numbers_and_types_wrap_after_thirty_six() {
    let row: String = std::iter::repeat('1').take(40).collect();
    let text = format!("h+1\n{}\n", row);
    let p = parse_layout(&text);
    assert_eq!(p.height, 1);
    assert_eq!(p.layers, 1);
    assert_eq!(p.level.tiles.len(), 40);
    assert_eq!(p.level.tiles[35].type_id, 35);
    assert_eq!(p.level.tiles[36].type_id, 0);
    assert_eq!(p.level.tiles[39].x, 39);
    let p = parse_layout("h99999999999999999999999\nh+\n1\n");
    assert_eq!(p.height, 16);
    let p = parse_layout("");
    assert_eq!(p.layers, 0);
    assert!(p.level.tiles.is_empty());
}

#[test]
fn session_flow() {
    let mut session = Session::new(9);
    assert_eq!(session.screen, Screen::Start);
    assert_eq!(session.state.current_level, 9);
    assert_eq!(session.handle_action(Action::StartGame), vec![Effect::LoadCurrentLevel]);
    assert_eq!(session.screen, Screen::Game);
    session.state.load_level(9, &level(&[(3, 0, 0, 4), (7, 0, 0, 4)]));
    assert_eq!(session.handle_action(Action::SelectTile(0)), vec![Effect::FadeTile(0)]);
    assert_eq!(session.handle_action(Action::SelectTile(1)), vec![Effect::FadeTile(1)]);
    assert_eq!(session.screen, Screen::Transition { completed_level: 9 });
    assert_eq!(
        session.handle_action(Action::NextLevel),
        vec![Effect::SaveProgress(10), Effect::LoadCurrentLevel]
    );
    assert_eq!(session.state.current_level, 10);
    assert_eq!(session.handle_action(Action::NextLevel), Vec::<Effect>::new());
    session.state.load_level(10, &level(&[(3, 0, 0, 4), (7, 0, 0, 4)]));
    session.handle_action(Action::SelectTile(0));
    session.handle_action(Action::SelectTile(1));
    assert_eq!(session.screen, Screen::Completion);
    assert_eq!(
        session.handle_action(Action::StartAgain),
        vec![Effect::SaveProgress(1), Effect::LoadCurrentLevel]
    );
    assert_eq!(session.state.current_level, 1);
    assert_eq!(session.screen, Screen::Game);
    assert_eq!(session.handle_action(Action::ResetProgress), vec![Effect::ResetProgress]);
    assert_eq!(session.screen, Screen::Start);
    assert_eq!(session.handle_action(Action::Exit), vec![Effect::Exit]);
}

#[test]
fn session_game_over_and_undo() {
    let mut session = Session::new(2);
    session.handle_action(Action::RestartLevel);
    session
        .state
        .load_level(2, &level(&[(3, 0, 0, 0), (7, 0, 0, 1), (11, 0, 0, 2), (15, 0, 0, 3), (19, 0, 0, 4)]));
    for tid in 0..4 {
        session.handle_action(Action::SelectTile(tid));
    }
    // With a full buffer and no tile of its type in it, the click loses.
    assert_eq!(session.handle_action(Action::SelectTile(4)), Vec::<Effect>::new());
    assert_eq!(session.screen, Screen::GameOver);
    assert_eq!(session.handle_action(Action::Undo), vec![Effect::ClearFades]);
    assert_eq!(session.screen, Screen::Game);
    assert_eq!(session.state.phase, GamePhase::Playing);
    assert_eq!(session.state.buffer, vec![0, 1, 2]);
}

#[test]
fn board_cells_back_to_front() {
    let mut s = loaded(&[(5, 0, 1, 0), (5, 0, 0, 1), (3, 2, 0, 2), (3, 0, 0, 3), (9, 9, 0, 4)]);
    s.tiles[4].active = false;
    let b = board_layout(&s).expect("tiles on the board");
    assert_eq!(b.n_cols, 2);
    assert_eq!(b.n_rows, 2);
    assert_eq!(b.max_z, 1);
    assert_eq!(
        b.cells,
        vec![
            BoardCell { tile_id: 3, z: 0, row: 0, col: 0 },
            BoardCell { tile_id: 1, z: 0, row: 0, col: 1 },
            BoardCell { tile_id: 2, z: 0, row: 1, col: 0 },
            BoardCell { tile_id: 0, z: 1, row: 0, col: 1 },
        ]
    );
    for t in s.tiles.iter_mut() {
        t.active = false;
    }
    assert!(board_layout(&s).is_none());
}

#[test]
fn board_of_negative_layers_keeps_top_layer_at_zero() {
    let s = loaded(&[(-4, -4, -2, 0), (i32::MAX, i32::MAX, -1, 1), (i32::MIN, i32::MIN, -3, 2)]);
    let b = board_layout(&s).expect("tiles on the board");
    assert_eq!(b.max_z, 0);
    assert_eq!(b.n_cols, (i32::MAX as i64 - i32::MIN as i64) / 2 + 1);
    assert_eq!(b.cells[0].z, -3);
    assert_eq!(b.cells[2].col, ((i32::MAX as i64 - i32::MIN as i64) / 2) as i32);
}

#[test]
fn hud_numbers() {
    let mut s = loaded(&[(3, 0, 0, 1), (7, 0, 0, 1), (11, 0, 0, 2), (15, 0, 0, 3), (19, 0, 0, 4)]);
    let h = game_hud(&s, 125);
    assert_eq!((h.pairs, h.minutes, h.seconds, h.score, h.level, h.can_undo), (2, 2, 5, 0, 3, false));
    buffer_click(&mut s, 0);
    buffer_click(&mut s, 1);
    let h = game_hud(&s, 59);
    assert_eq!((h.pairs, h.minutes, h.seconds, h.score, h.can_undo), (1, 0, 59, 100, true));
}

#[test]
fn tile_type_names() {
    let t = get_theme();
    assert_eq!(tile_type_name(&t, 0), "SOL");
    assert_eq!(tile_type_name(&t, 28), "Jito");
    assert_eq!(tile_type_name(&t, 36), "?");
}

fn tile_tuples(text: &str) -> Vec<(i32, i32, i32, u32)> {
    parse_layout(text).level.tiles.iter().map(|t| (t.x, t.y, t.z, t.type_id)).collect()
}

#[test]
fn layout_ignores_lines_that_shape_no_tile() {
    let plain = "h2\n1.1\n.1.\n11.\n";
    let noisy = "kmahjongg-layout-v1.0\n# a comment\nw40\n  h2  \nd7\n\n\t1.1 \n# between rows\n.1.\nw3\n   11.\r\n\n";
    assert_eq!(tile_tuples(plain), tile_tuples(noisy));
    assert_eq!(parse_layout(plain).layers, parse_layout(noisy).layers);
    assert_eq!(parse_layout(noisy).width, 3);
}

#[test]
fn grid_lines_fill_layers_in_order() {
    // Height 2, five grid lines: layers of rows (0, 1), (2, 3), (4).
    let p = parse_layout("h2\n1...\n.1..\n..1.\n...1\n1111\n");
    assert_eq!(p.layers, 3);
    let tiles: Vec<(i32, i32, i32)> = p.level.tiles.iter().map(|t| (t.x, t.y, t.z)).collect();
    assert_eq!(
        tiles,
        vec![(0, 0, 0), (1, 1, 0), (2, 0, 1), (3, 1, 1), (0, 0, 2), (1, 0, 2), (2, 0, 2), (3, 0, 2)]
    );
}
