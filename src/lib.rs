//! Room coordination for a two-player rock-paper-scissors game:
//! the choice rules, the room registry with matchmaking, and the
//! per-message decisions of a player's session.

pub mod game;
pub mod channel;
pub mod ids;
pub mod state;
pub mod laws;

pub use game::{calculate_rps, parse_choice, parse_match_type, Choice, Player, RoomType};
pub use state::{AppState, Notice, Room, StateError};
