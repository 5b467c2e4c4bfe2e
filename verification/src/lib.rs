pub mod board;
pub mod game_core;
pub mod hud;
pub mod input;
pub mod layout;
pub mod levels;
pub mod session;
pub mod theme;
