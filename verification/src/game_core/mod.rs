pub mod laws;
pub mod progress;
pub mod rules;
pub mod state;
