# solong

A Mahjong-solitaire game with a four-slot buffer, themed on the Solana
ecosystem. Tiles are taken off a layered KMahjongg board when they are free
(nothing on top of them, one side free); a taken tile goes into the buffer,
and two tiles of one type pair up and leave. A full buffer without a match
loses the level; every move can be undone.

The rules, the game session, the board grid, the theme and the reader for
KMahjongg `.layout` files live in `src/` and are verified with Verus: each
public function states what it returns or changes, and
`src/game_core/laws.rs` proves the properties that span functions (what an
undo gives back, what clicks and undos keep).

- `src/game_core/` — game state, rules (`buffer_click`, `do_undo`,
  `is_selectable`), save-file levels, laws
- `src/session.rs` — screens and actions; returns the work (loading, saving,
  fades) that the program has to do
- `src/board.rs` — grid cells of the tiles, back to front
- `src/layout.rs` — `.layout` text to level data
- `src/hud.rs`, `src/theme/`, `src/levels.rs`, `src/input.rs`
- `app/` — the macroquad program: window, drawing, files, JSON
- `tests/` — tests of the library
